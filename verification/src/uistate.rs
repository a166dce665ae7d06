//! UI interaction state: panels, the data table, and the per-column
//! statistics cache.

use vstd::prelude::*;
use crate::stats::CachedStats;

verus! {

/// Active panel in the focus-mode layout.
#[derive(Clone, Copy, Debug, PartialEq, Eq, Structural)]
pub enum ActivePanel {
    /// No side panel open.
    Hidden,
    /// Toolbar: files, SPC and view settings.
    Controls,
    /// Y axis selection.
    Series,
    /// Data table.
    Table,
    /// Statistics.
    Stats,
}

impl Default for ActivePanel {
    fn default() -> (r: Self)
        ensures
            r == ActivePanel::Series,
    {
        ActivePanel::Series
    }
}

/// Data table state: precomputed filter/sort indices, the selected rows,
/// and the cache keys the indices were computed for.
#[derive(Clone, Debug)]
pub struct TableState {
    /// Row indices after filtering.
    pub filtered_indices: Vec<usize>,
    /// Row indices after filtering and sorting.
    pub display_indices: Vec<usize>,
    /// Currently selected rows (each row at most once).
    pub selected_rows: Vec<usize>,
    /// Filter string the indices were computed for.
    pub filter_cache_key: String,
    /// Sort column the indices were computed for.
    pub sort_cache_col: Option<usize>,
    /// Sort direction the indices were computed for.
    pub sort_cache_asc: bool,
    /// Data version the indices were computed for.
    pub data_version: u64,
    /// Go-to-row input field.
    pub goto_row_input: String,
}

impl TableState {
    /// The selected rows, as a set.
    pub open spec fn selection(self) -> Seq<usize> {
        self.selected_rows@
    }

    /// No row is selected twice.
    pub open spec fn wf(self) -> bool {
        forall|a: int, b: int| 0 <= a < b < self.selected_rows@.len()
            ==> self.selected_rows@[a] != self.selected_rows@[b]
    }

    pub open spec fn keys(self) -> (Seq<char>, Option<usize>, bool, u64) {
        (self.filter_cache_key@, self.sort_cache_col, self.sort_cache_asc,
        self.data_version)
    }

    pub fn new() -> (r: Self)
        ensures
            r.wf(),
            r.selection().len() == 0,
            r.filtered_indices@.len() == 0,
            r.display_indices@.len() == 0,
            r.keys() == (""@, None::<usize>, true, 0u64),
    {
        proof {
            reveal_strlit("");
        }
        TableState {
            filtered_indices: Vec::new(),
            display_indices: Vec::new(),
            selected_rows: Vec::new(),
            filter_cache_key: String::new(),
            sort_cache_col: None,
            sort_cache_asc: true,
            data_version: 0,
            goto_row_input: String::new(),
        }
    }

    /// True when the cached indices match the current filter, sort and
    /// data version.
    pub fn is_cache_valid(&self, filter: &str, sort_col: Option<usize>, sort_asc: bool,
        data_version: u64) -> (r: bool)
        ensures
            r == (self.keys() == (filter@, sort_col, sort_asc, data_version)),
    {
        let f = filter.to_owned();
        let same_filter = self.filter_cache_key == f;
        let same_col = match (self.sort_cache_col, sort_col) {
            (Some(a), Some(b)) => a == b,
            (None, None) => true,
            _ => false,
        };
        same_filter && same_col && self.sort_cache_asc == sort_asc && self.data_version
            == data_version
    }

    /// Record the filter, sort and data version the indices now reflect.
    pub fn update_cache_keys(&mut self, filter: &str, sort_col: Option<usize>, sort_asc: bool,
        data_version: u64)
        ensures
            final(self).keys() == (filter@, sort_col, sort_asc, data_version),
            final(self).filtered_indices == old(self).filtered_indices,
            final(self).display_indices == old(self).display_indices,
            final(self).selected_rows == old(self).selected_rows,
            final(self).wf() == old(self).wf(),
    {
        self.filter_cache_key = filter.to_owned();
        self.sort_cache_col = sort_col;
        self.sort_cache_asc = sort_asc;
        self.data_version = data_version;
    }

    /// Invalidate the cached indices (forces recomputation).
    pub fn invalidate(&mut self)
        ensures
            final(self).keys().3 == 0u64,
            final(self).filtered_indices@.len() == 0,
            final(self).display_indices@.len() == 0,
            final(self).selected_rows == old(self).selected_rows,
            final(self).wf() == old(self).wf(),
    {
        self.data_version = 0;
        self.filtered_indices = Vec::new();
        self.display_indices = Vec::new();
    }

    /// Index of `row` in the selection, if selected.
    fn find_selected(&self, row: usize) -> (r: Option<usize>)
        ensures
            match r {
                Some(k) => 0 <= k < self.selected_rows@.len() && self.selected_rows@[
                k as int] == row,
                None => !self.selection().contains(row),
            },
    {
        let mut k: usize = 0;
        while k < self.selected_rows.len()
            invariant
                0 <= k <= self.selected_rows@.len(),
                forall|j: int| 0 <= j < k as int ==> self.selected_rows@[j] != row,
            decreases self.selected_rows@.len() - k,
        {
            if self.selected_rows[k] == row {
                return Some(k);
            }
            k = k + 1;
        }
        proof {
            if self.selection().contains(row) {
                let j = choose|j: int| 0 <= j < self.selected_rows@.len()
                    && self.selected_rows@[j] == row;
            }
        }
        None
    }

    /// True when `row` is selected.
    pub fn is_selected(&self, row: usize) -> (r: bool)
        ensures
            r == self.selection().contains(row),
    {
        self.find_selected(row).is_some()
    }

    /// Toggle the selection state of one row.
    pub fn toggle_selection(&mut self, row: usize)
        requires
            old(self).wf(),
        ensures
            final(self).wf(),
            final(self).selection().contains(row) == !old(self).selection().contains(row),
            forall|x: usize| x != row ==> final(self).selection().contains(x) == old(
            self).selection().contains(x),
            final(self).filtered_indices == old(self).filtered_indices,
            final(self).display_indices == old(self).display_indices,
            final(self).keys() == old(self).keys(),
    {
        let ghost pre = self.selected_rows@;
        match self.find_selected(row) {
            Some(k) => {
                self.selected_rows.remove(k);
                proof {
                    assert forall|a: int, b: int| 0 <= a < b < self.selected_rows@.len()
                        implies self.selected_rows@[a] != self.selected_rows@[b] by {
                        if b < k as int {
                            assert(pre[a] != pre[b]);
                        } else if a < k as int {
                            assert(pre[a] != pre[b + 1]);
                        } else {
                            assert(pre[a + 1] != pre[b + 1]);
                        }
                    }
                    assert forall|x: usize| final(self).selection().contains(x) implies
                        pre.contains(x) by {
                        let j = choose|j: int| 0 <= j < self.selected_rows@.len()
                            && self.selected_rows@[j] == x;
                        if j < k as int {
                            assert(pre[j] == x);
                        } else {
                            assert(pre[j + 1] == x);
                        }
                    }
                    assert(!self.selection().contains(row)) by {
                        if self.selection().contains(row) {
                            let j = choose|j: int| 0 <= j < self.selected_rows@.len()
                                && self.selected_rows@[j] == row;
                            if j < k as int {
                                assert(pre[j] == row && pre[k as int] == row);
                            } else {
                                assert(pre[j + 1] == row && pre[k as int] == row);
                            }
                        }
                    }
                    assert forall|x: usize| x != row && pre.contains(x) implies
                        final(self).selection().contains(x) by {
                        let j = choose|j: int| 0 <= j < pre.len() && pre[j] == x;
                        if j < k as int {
                            assert(self.selected_rows@[j] == x);
                        } else {
                            assert(self.selected_rows@[j - 1] == x);
                        }
                    }
                }
            },
            None => {
                self.selected_rows.push(row);
                proof {
                    assert(self.selected_rows@[pre.len() as int] == row);
                    assert forall|x: usize| pre.contains(x) implies
                        final(self).selection().contains(x) by {
                        let j = choose|j: int| 0 <= j < pre.len() && pre[j] == x;
                        assert(self.selected_rows@[j] == x);
                    }
                    assert forall|x: usize| final(self).selection().contains(x) && x != row
                        implies pre.contains(x) by {
                        let j = choose|j: int| 0 <= j < self.selected_rows@.len()
                            && self.selected_rows@[j] == x;
                        assert(pre[j] == x);
                    }
                }
            },
        }
    }

    /// Select every row in the inclusive range (for shift-click), in
    /// either order.
    pub fn select_range(&mut self, start: usize, end: usize)
        requires
            old(self).wf(),
            start < usize::MAX,
            end < usize::MAX,
        ensures
            final(self).wf(),
            forall|x: usize| final(self).selection().contains(x) == (old(
            self).selection().contains(x) || (if start <= end {
                start <= x <= end
            } else {
                end <= x <= start
            })),
            final(self).filtered_indices == old(self).filtered_indices,
            final(self).display_indices == old(self).display_indices,
            final(self).keys() == old(self).keys(),
    {
        let (lo, hi) = if start <= end {
            (start, end)
        } else {
            (end, start)
        };
        let mut i: usize = lo;
        while i <= hi
            invariant
                lo <= i <= hi + 1,
                hi < usize::MAX,
                self.wf(),
                forall|x: usize| self.selection().contains(x) == (old(
                self).selection().contains(x) || lo <= x < i),
                self.filtered_indices == old(self).filtered_indices,
                self.display_indices == old(self).display_indices,
                self.keys() == old(self).keys(),
            decreases hi + 1 - i,
        {
            let ghost pre = self.selected_rows@;
            match self.find_selected(i) {
                Some(k) => {
                    proof {
                        assert(self.selection().contains(i));
                    }
                },
                None => {
                    self.selected_rows.push(i);
                    proof {
                        assert(self.selected_rows@[pre.len() as int] == i);
                        assert forall|x: usize| pre.contains(x) implies
                            self.selection().contains(x) by {
                            let j = choose|j: int| 0 <= j < pre.len() && pre[j] == x;
                            assert(self.selected_rows@[j] == x);
                        }
                        assert forall|x: usize| self.selection().contains(x) && x != i
                            implies pre.contains(x) by {
                            let j = choose|j: int| 0 <= j < self.selected_rows@.len()
                                && self.selected_rows@[j] == x;
                            assert(pre[j] == x);
                        }
                        assert forall|a: int, b: int| 0 <= a < b < self.selected_rows@.len()
                            implies self.selected_rows@[a] != self.selected_rows@[b] by {
                            if b == self.selected_rows@.len() - 1 {
                                assert(!pre.contains(i));
                                assert(pre[a] == self.selected_rows@[a]);
                            } else {
                                assert(pre[a] != pre[b]);
                            }
                        }
                    }
                },
            }
            i = i + 1;
        }
    }

    /// Clear the selection; every other field keeps its value.
    pub fn clear_selection(&mut self)
        ensures
            final(self).wf(),
            final(self).selection().len() == 0,
            final(self).filtered_indices == old(self).filtered_indices,
            final(self).display_indices == old(self).display_indices,
            final(self).keys() == old(self).keys(),
            final(self).goto_row_input == old(self).goto_row_input,
    {
        self.selected_rows = Vec::new();
    }
}

/// ASCII-lowercase fold of one byte.
pub open spec fn lower_byte(b: u8) -> u8 {
    if 65 <= b <= 90 {
        (b + 32) as u8
    } else {
        b
    }
}

/// `needle` matches `hay` at offset `off`, ASCII-case-insensitively.
pub open spec fn match_at(hay: Seq<u8>, needle: Seq<u8>, off: int) -> bool {
    forall|k: int| 0 <= k < needle.len() ==> lower_byte(#[trigger] hay[off + k])
        == lower_byte(needle[k])
}

/// `needle` occurs in `hay`, compared ASCII-case-insensitively.
pub open spec fn contains_fold(hay: Seq<u8>, needle: Seq<u8>) -> bool {
    exists|off: int| 0 <= off && off + needle.len() <= hay.len() && #[trigger] match_at(
        hay, needle, off)
}

/// Case-insensitive substring test over bytes.
fn contains_bytes_fold(hay: &[u8], needle: &[u8]) -> (r: bool)
    ensures
        r == contains_fold(hay@, needle@),
{
    if needle.len() > hay.len() {
        proof {
            assert(!contains_fold(hay@, needle@));
        }
        return false;
    }
    let hlen: usize = hay.len();
    let nlen: usize = needle.len();
    let mut off: usize = 0;
    while off <= hlen - nlen
        invariant
            hlen == hay@.len(),
            nlen == needle@.len(),
            needle@.len() <= hay@.len(),
            0 <= off <= hay@.len() - needle@.len() + 1,
            forall|o: int| 0 <= o < off as int ==> !(#[trigger] match_at(hay@, needle@, o)),
        decreases hay@.len() - needle@.len() + 1 - off,
    {
        let mut k: usize = 0;
        let mut ok = true;
        while k < needle.len()
            invariant
                0 <= k <= needle@.len(),
                hlen == hay@.len(),
                nlen == needle@.len(),
                off + needle@.len() <= hay@.len(),
                ok ==> forall|j: int| 0 <= j < k as int ==> lower_byte(
                    #[trigger] hay@[off + j]) == lower_byte(needle@[j]),
                !ok ==> exists|j: int| 0 <= j < needle@.len() && lower_byte(
                    #[trigger] hay@[off + j]) != lower_byte(needle@[j]),
            decreases needle@.len() - k,
        {
            let hb = hay[off + k];
            let nb = needle[k];
            let hl: u8 = if 65 <= hb && hb <= 90 {
                hb + 32
            } else {
                hb
            };
            let nl: u8 = if 65 <= nb && nb <= 90 {
                nb + 32
            } else {
                nb
            };
            if hl != nl {
                ok = false;
                proof {
                    assert(lower_byte(hay@[off + k]) != lower_byte(needle@[k as int]));
                }
            }
            k = k + 1;
        }
        if ok {
            proof {
                assert(match_at(hay@, needle@, off as int));
                assert(0 <= off as int && off as int + needle@.len() <= hay@.len()
                    && match_at(hay@, needle@, off as int));
            }
            return true;
        }
        proof {
            assert(!match_at(hay@, needle@, off as int));
        }
        off = off + 1;
    }
    proof {
        assert(!contains_fold(hay@, needle@));
    }
    false
}

/// Row `r` of the table matches the filter text: some displayed column's
/// cell contains it, ASCII-case-insensitively (an empty filter matches
/// every row).
pub open spec fn row_matches(
    table: crate::table::ColumnarTable,
    cols: Seq<usize>,
    filter: Seq<u8>,
    r: int,
) -> bool {
    filter.len() == 0 || exists|ci: int| 0 <= ci < cols.len() && ((#[trigger] cols[
    ci]) as int) < table.column_count_spec() && contains_fold(
        vstd::utf8::encode_utf8(table.cell_text(cols[ci] as int, r)), filter)
}

/// Sort comparator of the data table: by the cached numeric key,
/// ascending or descending, with missing keys always at the end.
pub open spec fn key_le(a: Option<i64>, b: Option<i64>, ascending: bool) -> bool {
    match (a, b) {
        (Option::None, Option::None) => true,
        (Option::None, Option::Some(_)) => false,
        (Option::Some(_), Option::None) => true,
        (Option::Some(x), Option::Some(y)) => if ascending {
            x <= y
        } else {
            x >= y
        },
    }
}

/// Recompute the data table's filtered and sorted row indices.
///
/// The filter pass keeps, in ascending order, exactly the rows one of the
/// displayed columns matches (see [`row_matches`]). The sort pass orders
/// them by the supplied numeric key column — ascending or descending,
/// rows without a key at the end — and the cache keys are updated so
/// [`TableState::is_cache_valid`] accepts this configuration.
pub fn recompute_indices(
    table: &crate::table::ColumnarTable,
    row_filter: &str,
    sort_key: Option<(usize, &Vec<Option<i64>>)>,
    sort_ascending: bool,
    data_version: u64,
    ts: &mut TableState,
    display_cols: &Vec<usize>,
)
    requires
        table.wf(),
        match sort_key {
            Some((_, keys)) => keys@.len() == table.row_count_spec(),
            None => true,
        },
    ensures
        final(ts).keys() == (row_filter@, (match sort_key {
            Some((col, _)) => Some(col),
            None => None::<usize>,
        }), sort_ascending, data_version),
        forall|k1: int, k2: int| 0 <= k1 < k2 < final(ts).filtered_indices@.len()
            ==> final(ts).filtered_indices@[k1] < final(ts).filtered_indices@[k2],
        forall|k: int| 0 <= k < final(ts).filtered_indices@.len()
            ==> (#[trigger] final(ts).filtered_indices@[k]) < table.row_count_spec()
                && row_matches(*table, display_cols@, vstd::utf8::encode_utf8(
                row_filter@), final(ts).filtered_indices@[k] as int),
        forall|r: int| 0 <= r < table.row_count_spec() && row_matches(*table,
            display_cols@, vstd::utf8::encode_utf8(row_filter@), r)
            ==> final(ts).filtered_indices@.contains(r as usize),
        final(ts).display_indices@.to_multiset()
            == final(ts).filtered_indices@.to_multiset(),
        match sort_key {
            Some((_, keys)) => forall|k1: int, k2: int| 0 <= k1 < k2
                < final(ts).display_indices@.len() && final(ts).display_indices@[k1]
                < keys@.len() && final(ts).display_indices@[k2] < keys@.len()
                ==> key_le(keys@[(#[trigger] final(ts).display_indices@[k1]) as int],
                keys@[(#[trigger] final(ts).display_indices@[k2]) as int], sort_ascending),
            None => final(ts).display_indices@ == final(ts).filtered_indices@,
        },
        final(ts).selected_rows == old(ts).selected_rows,
        final(ts).wf() == old(ts).wf(),
{
    let total_rows = table.row_count();
    let filter_bytes = row_filter.as_bytes();
    let filter_active = filter_bytes.len() > 0;
    let ghost gfilter = vstd::utf8::encode_utf8(row_filter@);

    let mut filtered: Vec<usize> = Vec::new();
    let mut r: usize = 0;
    while r < total_rows
        invariant
            0 <= r <= total_rows,
            total_rows as int == table.row_count_spec(),
            table.wf(),
            gfilter == vstd::utf8::encode_utf8(row_filter@),
            filter_bytes@ == gfilter,
            filter_active == (gfilter.len() > 0),
            forall|k1: int, k2: int| 0 <= k1 < k2 < filtered@.len()
                ==> filtered@[k1] < filtered@[k2],
            forall|k: int| 0 <= k < filtered@.len() ==> (#[trigger] filtered@[k])
                < r && row_matches(*table, display_cols@, gfilter,
                filtered@[k] as int),
            forall|rr: int| 0 <= rr < r as int && row_matches(*table, display_cols@,
                gfilter, rr) ==> filtered@.contains(rr as usize),
        decreases total_rows - r,
    {
        let ghost pre = filtered@;
        let mut matched = !filter_active;
        proof {
            if matched {
                assert(row_matches(*table, display_cols@, gfilter, r as int));
            }
        }
        if filter_active {
            let mut ci: usize = 0;
            while ci < display_cols.len()
                invariant
                    0 <= ci <= display_cols@.len(),
                    0 <= r as int,
                    (r as int) < table.row_count_spec(),
                    table.wf(),
                    gfilter == vstd::utf8::encode_utf8(row_filter@),
                    filter_bytes@ == gfilter,
                    gfilter.len() > 0,
                    matched ==> row_matches(*table, display_cols@, gfilter, r as int),
                    !matched ==> forall|j: int| 0 <= j < ci as int
                        ==> !(((#[trigger] display_cols@[j]) as int)
                            < table.column_count_spec() && contains_fold(
                            vstd::utf8::encode_utf8(table.cell_text(
                            display_cols@[j] as int, r as int)), gfilter)),
                decreases display_cols@.len() - ci,
            {
                if !matched {
                    let col = display_cols[ci];
                    match table.get_string(r, col) {
                        Some(cell) => {
                            if contains_bytes_fold(cell.as_str().as_bytes(), filter_bytes) {
                                matched = true;
                                proof {
                                    assert(((display_cols@[ci as int]) as int)
                                        < table.column_count_spec() && contains_fold(
                                        vstd::utf8::encode_utf8(table.cell_text(
                                        display_cols@[ci as int] as int, r as int)),
                                        gfilter));
                                }
                            }
                        },
                        None => {
                        },
                    }
                }
                ci = ci + 1;
            }
        }
        if matched {
            filtered.push(r);
            proof {
                assert(filtered@[pre.len() as int] == r);
                assert forall|rr: int| 0 <= rr < r as int + 1 && row_matches(*table,
                    display_cols@, gfilter, rr) implies filtered@.contains(rr as usize) by {
                    if rr < r as int {
                        let k = choose|k: int| 0 <= k < pre.len() && pre[k] == rr as usize;
                        assert(filtered@[k] == rr as usize);
                    }
                }
            }
        } else {
            proof {
                if row_matches(*table, display_cols@, gfilter, r as int) {
                    if gfilter.len() > 0 {
                        let ci = choose|ci: int| 0 <= ci < display_cols@.len()
                            && ((#[trigger] display_cols@[ci]) as int)
                            < table.column_count_spec() && contains_fold(
                            vstd::utf8::encode_utf8(table.cell_text(
                            display_cols@[ci] as int, r as int)), gfilter);
                        assert(false);
                    }
                }
            }
        }
        r = r + 1;
    }

    // Sort pass: order the filtered rows by the key column.
    let display: Vec<usize> = match sort_key {
        Some((_, keys)) => sort_rows_by_key(&filtered, keys, sort_ascending),
        None => {
            let mut copy: Vec<usize> = Vec::new();
            let mut k: usize = 0;
            while k < filtered.len()
                invariant
                    0 <= k <= filtered@.len(),
                    copy@ =~= filtered@.subrange(0, k as int),
                decreases filtered@.len() - k,
            {
                copy.push(filtered[k]);
                k = k + 1;
                proof {
                    assert(copy@ =~= filtered@.subrange(0, k as int));
                }
            }
            proof {
                assert(copy@ =~= filtered@);
                assert(copy@.to_multiset() == filtered@.to_multiset());
            }
            copy
        },
    };
    ts.filtered_indices = filtered;
    ts.display_indices = display;
    match sort_key {
        Some((col, _)) => ts.update_cache_keys(row_filter, Some(col), sort_ascending,
            data_version),
        None => ts.update_cache_keys(row_filter, None, sort_ascending, data_version),
    }
}

/// Insertion sort of row indices by their key-column values; missing keys
/// go to the end.
fn sort_rows_by_key(rows: &Vec<usize>, keys: &Vec<Option<i64>>, ascending: bool)
    -> (r: Vec<usize>)
    requires
        forall|k: int| 0 <= k < rows@.len() ==> (#[trigger] rows@[k]) < keys@.len(),
    ensures
        r@.to_multiset() == rows@.to_multiset(),
        forall|k1: int, k2: int| 0 <= k1 < k2 < r@.len() && r@[k1] < keys@.len()
            && r@[k2] < keys@.len() ==> key_le(keys@[(#[trigger] r@[k1]) as int],
            keys@[(#[trigger] r@[k2]) as int], ascending),
{
    let mut out: Vec<usize> = Vec::new();
    let mut i: usize = 0;
    proof {
        broadcast use vstd::seq_lib::group_to_multiset_ensures;

        assert(rows@.subrange(0, 0) =~= Seq::<usize>::empty());
        assert(out@.to_multiset() =~= rows@.subrange(0, 0).to_multiset());
    }
    while i < rows.len()
        invariant
            0 <= i <= rows@.len(),
            forall|k: int| 0 <= k < rows@.len() ==> (#[trigger] rows@[k]) < keys@.len(),
            forall|k: int| 0 <= k < out@.len() ==> (#[trigger] out@[k]) < keys@.len(),
            out@.to_multiset() == rows@.subrange(0, i as int).to_multiset(),
            forall|k1: int, k2: int| 0 <= k1 < k2 < out@.len() && out@[k1] < keys@.len()
                && out@[k2] < keys@.len() ==> key_le(keys@[(#[trigger] out@[k1]) as int],
                keys@[(#[trigger] out@[k2]) as int], ascending),
        decreases rows@.len() - i,
    {
        let x = rows[i];
        let mut idx: usize = 0;
        while idx < out.len() && le_rows(keys, out[idx], x, ascending)
            invariant
                0 <= idx <= out@.len(),
                x < keys@.len(),
                forall|k: int| 0 <= k < out@.len() ==> (#[trigger] out@[k]) < keys@.len(),
                forall|k: int| 0 <= k < idx as int ==> key_le(key_of(keys@,
                    (#[trigger] out@[k]) as int), key_of(keys@, x as int), ascending),
            decreases out@.len() - idx,
        {
            idx = idx + 1;
        }
        let ghost pre = out@;
        out.insert(idx, x);
        i = i + 1;
        proof {
            broadcast use vstd::seq_lib::group_to_multiset_ensures;

            crate::stats::lemma_multiset_insert_at(pre, idx as int, x);
            assert(rows@.subrange(0, i as int) =~= rows@.subrange(0, i - 1).push(x));
            assert forall|k: int| 0 <= k < out@.len() implies (#[trigger] out@[k])
                < keys@.len() by {
                assert(out@ == pre.insert(idx as int, x));
                if k < idx as int {
                    assert(out@[k] == pre[k]);
                } else if k > idx as int {
                    assert(out@[k] == pre[k - 1]);
                }
            }
            if idx < pre.len() {
                assert(!key_le(key_of(keys@, pre[idx as int] as int), key_of(keys@,
                    x as int), ascending));
                assert(key_le(key_of(keys@, x as int), key_of(keys@, pre[idx as int] as int),
                    ascending));
            }
            assert forall|k1: int, k2: int| 0 <= k1 < k2 < out@.len() && out@[k1]
                < keys@.len() && out@[k2] < keys@.len() implies key_le(
                keys@[(#[trigger] out@[k1]) as int], keys@[(#[trigger] out@[k2]) as int],
                ascending) by {
                assert(out@ == pre.insert(idx as int, x));
                if k1 < idx as int && k2 > idx as int {
                    assert(out@[k1] == pre[k1] && out@[k2] == pre[k2 - 1]);
                } else if k2 == idx as int {
                    assert(out@[k2] == x && out@[k1] == pre[k1]);
                } else if k1 == idx as int {
                    assert(out@[k1] == x && out@[k2] == pre[k2 - 1]);
                    assert(key_le(key_of(keys@, x as int), key_of(keys@,
                        pre[idx as int] as int), ascending));
                    assert(key_le(key_of(keys@, pre[idx as int] as int), key_of(keys@,
                        pre[k2 - 1] as int), ascending));
                } else if k2 < idx as int {
                    assert(out@[k1] == pre[k1] && out@[k2] == pre[k2]);
                } else {
                    assert(out@[k1] == pre[k1 - 1] && out@[k2] == pre[k2 - 1]);
                }
            }
        }
    }
    proof {
        assert(rows@.subrange(0, rows@.len() as int) =~= rows@);
    }
    out
}

/// The sort key of a row: its key-column value, or `None` out of range.
pub open spec fn key_of(keys: Seq<Option<i64>>, row: int) -> Option<i64> {
    if 0 <= row < keys.len() {
        keys[row]
    } else {
        None
    }
}

/// Whether the row `a` may stay before the row `b` under the table's sort
/// order.
fn le_rows(keys: &Vec<Option<i64>>, a: usize, b: usize, ascending: bool) -> (r: bool)
    ensures
        r == key_le(key_of(keys@, a as int), key_of(keys@, b as int), ascending),
{
    let ka: Option<i64> = if a < keys.len() {
        keys[a]
    } else {
        None
    };
    let kb: Option<i64> = if b < keys.len() {
        keys[b]
    } else {
        None
    };
    match (ka, kb) {
        (Option::None, Option::None) => true,
        (Option::None, Option::Some(_)) => false,
        (Option::Some(_), Option::None) => true,
        (Option::Some(x), Option::Some(y)) => if ascending {
            x <= y
        } else {
            x >= y
        },
    }
}

/// UI state: table interaction, sorting, layout and the statistics cache.
#[derive(Clone, Debug)]
pub struct UiState {
    /// Currently active side panel.
    pub active_panel: ActivePanel,
    /// Search/filter string for data table rows.
    pub row_filter: String,
    /// Scroll target in the data table.
    pub scroll_to_row: Option<usize>,
    /// Column to sort the data table by.
    pub sort_column: Option<usize>,
    /// Sort direction (true for ascending).
    pub sort_ascending: bool,
    /// Error message for the toast/status bar.
    pub error_message: Option<String>,
    /// Table state with precomputed indices.
    pub table: TableState,
    /// Cached statistics per column index.
    pub stats_cache: Vec<(usize, CachedStats)>,
    /// Version the statistics cache was computed for.
    pub stats_cache_version: u64,
    /// Data version counter (increments on load).
    pub data_version: u64,
}

impl UiState {
    pub fn new() -> (r: Self)
        ensures
            r.active_panel == ActivePanel::Series,
            r.row_filter@ == ""@,
            r.scroll_to_row is None,
            r.sort_column is None,
            r.sort_ascending,
            r.error_message is None,
            r.table.wf(),
            r.table.selection().len() == 0,
            r.stats_cache@.len() == 0,
            r.stats_cache_version == 0,
            r.data_version == 0,
    {
        proof {
            reveal_strlit("");
        }
        UiState {
            active_panel: ActivePanel::Series,
            row_filter: String::new(),
            scroll_to_row: None,
            sort_column: None,
            sort_ascending: true,
            error_message: None,
            table: TableState::new(),
            stats_cache: Vec::new(),
            stats_cache_version: 0,
            data_version: 0,
        }
    }

    /// Record a fresh data load: bump the data version, drop the cached
    /// statistics, and invalidate the table indices.
    pub fn on_data_loaded(&mut self)
        requires
            old(self).data_version < u64::MAX,
        ensures
            final(self).data_version == old(self).data_version + 1,
            final(self).stats_cache@.len() == 0,
            final(self).stats_cache_version == 0,
            final(self).table.keys().3 == 0u64,
            final(self).active_panel == old(self).active_panel,
            final(self).sort_column == old(self).sort_column,
    {
        self.data_version = self.data_version + 1;
        self.stats_cache = Vec::new();
        self.stats_cache_version = 0;
        self.table.invalidate();
    }

    /// Toggle a panel: activating it, or closing it if already active.
    pub fn toggle_panel(&mut self, panel: ActivePanel)
        ensures
            old(self).active_panel == panel ==> final(self).active_panel == ActivePanel::Hidden,
            old(self).active_panel != panel ==> final(self).active_panel == panel,
            final(self).data_version == old(self).data_version,
    {
        if self.active_panel == panel {
            self.active_panel = ActivePanel::Hidden;
        } else {
            self.active_panel = panel;
        }
    }

    /// Clear the row filter.
    pub fn clear_filter(&mut self)
        ensures
            final(self).row_filter@ == ""@,
    {
        proof {
            reveal_strlit("");
        }
        self.row_filter = String::new();
    }

    /// Set the row filter string.
    pub fn set_filter(&mut self, filter: String)
        ensures
            final(self).row_filter@ == filter@,
    {
        self.row_filter = filter;
    }

    /// True when a row filter is active.
    pub fn has_filter(&self) -> (r: bool)
        ensures
            r == (self.row_filter@.len() > 0),
    {
        !self.row_filter.as_str().is_empty()
    }

    /// Clear the sort configuration.
    pub fn clear_sort(&mut self)
        ensures
            final(self).sort_column is None,
            final(self).sort_ascending,
    {
        self.sort_column = None;
        self.sort_ascending = true;
    }

    /// Set the sort column and direction.
    pub fn set_sort(&mut self, column: usize, ascending: bool)
        ensures
            final(self).sort_column == Some(column),
            final(self).sort_ascending == ascending,
    {
        self.sort_column = Some(column);
        self.sort_ascending = ascending;
    }

    /// Toggle sorting on a column: flip the direction when the column is
    /// already sorted, else sort it ascending.
    pub fn toggle_sort(&mut self, column: usize)
        ensures
            final(self).sort_column == Some(column),
            old(self).sort_column == Some(column) ==> final(self).sort_ascending == !old(
            self).sort_ascending,
            old(self).sort_column != Some(column) ==> final(self).sort_ascending,
    {
        let same = match self.sort_column {
            Some(c) => c == column,
            None => false,
        };
        if same {
            self.sort_ascending = !self.sort_ascending;
        } else {
            self.sort_column = Some(column);
            self.sort_ascending = true;
        }
    }

    /// True when a sort column is set.
    pub fn is_sorting(&self) -> (r: bool)
        ensures
            r == (self.sort_column is Some),
    {
        self.sort_column.is_some()
    }

    /// Scroll the data table to one row.
    pub fn scroll_to(&mut self, row: usize)
        ensures
            final(self).scroll_to_row == Some(row),
    {
        self.scroll_to_row = Some(row);
    }

    /// Clear the scroll target.
    pub fn clear_scroll_target(&mut self)
        ensures
            final(self).scroll_to_row is None,
    {
        self.scroll_to_row = None;
    }

    /// Set an error message; everything else keeps its value.
    pub fn set_error(&mut self, message: String)
        ensures
            final(self).error_message == Some(message),
            final(self).active_panel == old(self).active_panel,
            final(self).row_filter == old(self).row_filter,
            final(self).scroll_to_row == old(self).scroll_to_row,
            final(self).sort_column == old(self).sort_column,
            final(self).sort_ascending == old(self).sort_ascending,
            final(self).table == old(self).table,
            final(self).stats_cache == old(self).stats_cache,
            final(self).stats_cache_version == old(self).stats_cache_version,
            final(self).data_version == old(self).data_version,
    {
        self.error_message = Some(message);
    }

    /// Clear the current error message.
    pub fn clear_error(&mut self)
        ensures
            final(self).error_message is None,
    {
        self.error_message = None;
    }

    /// True when an error message is pending.
    pub fn has_error(&self) -> (r: bool)
        ensures
            r == (self.error_message is Some),
    {
        self.error_message.is_some()
    }

    /// The cached statistics for a column: the first cached pair carrying
    /// the index, and only when the cache matches the current data
    /// version. A stale or missing entry is `None`.
    pub fn get_cached_stats(&self, col_idx: usize) -> (r: Option<&CachedStats>)
        ensures
            match r {
                Some(c) => self.stats_cache_version == self.data_version
                    && exists|k: int| 0 <= k < self.stats_cache@.len()
                    && (#[trigger] self.stats_cache@[k]).0 == col_idx
                    && self.stats_cache@[k].1 == *c && (forall|j: int| 0 <= j < k
                    ==> (#[trigger] self.stats_cache@[j]).0 != col_idx),
                None => self.stats_cache_version != self.data_version || forall|k: int| 0
                    <= k < self.stats_cache@.len()
                    ==> (#[trigger] self.stats_cache@[k]).0 != col_idx,
            },
    {
        if self.stats_cache_version != self.data_version {
            return None;
        }
        let mut k: usize = 0;
        while k < self.stats_cache.len()
            invariant
                0 <= k <= self.stats_cache@.len(),
                self.stats_cache_version == self.data_version,
                forall|j: int| 0 <= j < k as int ==> (#[trigger] self.stats_cache@[j]).0
                    != col_idx,
            decreases self.stats_cache@.len() - k,
        {
            if self.stats_cache[k].0 == col_idx {
                proof {
                    assert((self.stats_cache@[k as int]).0 == col_idx);
                }
                return Some(&self.stats_cache[k].1);
            }
            k = k + 1;
        }
        None
    }

    /// Cache the statistics of one column at the current data version. A
    /// cache computed for another version is dropped wholesale first; in a
    /// current cache the first pair carrying the column is replaced, or
    /// the new pair is appended when the column was absent. Afterwards
    /// [`UiState::get_cached_stats`] serves exactly these statistics for
    /// the column.
    pub fn cache_stats(&mut self, col_idx: usize, stats: CachedStats)
        ensures
            final(self).stats_cache_version == final(self).data_version,
            final(self).data_version == old(self).data_version,
            old(self).stats_cache_version != old(self).data_version ==> final(
            self).stats_cache@ == seq![(col_idx, stats)],
            old(self).stats_cache_version == old(self).data_version ==> {
                let c0 = old(self).stats_cache@;
                ||| ((forall|k: int| 0 <= k < c0.len() ==> (#[trigger] c0[k]).0 != col_idx)
                    && final(self).stats_cache@ == c0.push((col_idx, stats)))
                ||| (exists|k: int| 0 <= k < c0.len() && (#[trigger] c0[k]).0 == col_idx
                    && (forall|j: int| 0 <= j < k ==> (#[trigger] c0[j]).0 != col_idx)
                    && final(self).stats_cache@ == c0.update(k, (col_idx, stats)))
            },
            final(self).active_panel == old(self).active_panel,
            final(self).row_filter == old(self).row_filter,
            final(self).scroll_to_row == old(self).scroll_to_row,
            final(self).sort_column == old(self).sort_column,
            final(self).sort_ascending == old(self).sort_ascending,
            final(self).error_message == old(self).error_message,
            final(self).table == old(self).table,
    {
        if self.stats_cache_version != self.data_version {
            self.stats_cache = Vec::new();
            self.stats_cache_version = self.data_version;
            self.stats_cache.push((col_idx, stats));
            proof {
                assert(self.stats_cache@ =~= seq![(col_idx, stats)]);
            }
            return ;
        }
        let mut k: usize = 0;
        while k < self.stats_cache.len()
            invariant
                0 <= k <= self.stats_cache@.len(),
                self == old(self),
                self.stats_cache_version == self.data_version,
                forall|j: int| 0 <= j < k as int ==> (#[trigger] self.stats_cache@[j]).0
                    != col_idx,
            decreases self.stats_cache@.len() - k,
        {
            if self.stats_cache[k].0 == col_idx {
                proof {
                    assert((old(self).stats_cache@[k as int]).0 == col_idx);
                }
                self.stats_cache.set(k, (col_idx, stats));
                return ;
            }
            k = k + 1;
        }
        self.stats_cache.push((col_idx, stats));
    }
}

} // verus!
