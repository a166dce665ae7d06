//! Application state and the session facade.
//!
//! [`PlotOxide`] owns the loaded table and every cache and configuration
//! block, and exposes the operations the render loop calls each frame.
//! File reading stays with the caller: a decoded [`ColumnarTable`] is
//! handed in, and everything after that point — validation, column
//! selection defaults, the recent-file list, cache invalidation — is
//! verified here.

use vstd::prelude::*;
use crate::cache::LttbCache;
use crate::downsample::AdaptiveDownsampler;
use crate::filters::FilterConfig;
use crate::spc::SpcConfig;
use crate::table::ColumnarTable;
use crate::uistate::UiState;
use crate::view::ViewState;
use crate::error::PlotError;

verus! {

/// The recent-file paths, as character sequences.
pub open spec fn path_views(v: Seq<String>) -> Seq<Seq<char>> {
    v.map_values(|s: String| s@)
}

/// Predicate for the recent-file dedup: keeps the other paths.
pub open spec fn other_path(p: Seq<char>) -> spec_fn(Seq<char>) -> bool {
    |q: Seq<char>| q != p
}

/// Column `c` of `t` fails the parse-quality check: more than five percent
/// of its cells have no numeric reading.
pub open spec fn column_poorly_parsed(t: ColumnarTable, c: int) -> bool {
    100 * t.unparsed_count(c, t.row_count_spec()) > 5 * t.row_count_spec()
}

/// Comma-join of the first `k` cells of one row.
pub open spec fn join_cells(cells: Seq<Seq<char>>, k: int) -> Seq<char>
    decreases k,
{
    if k <= 0 {
        Seq::empty()
    } else if k == 1 {
        cells[0]
    } else {
        join_cells(cells, k - 1) + seq![','] + cells[k - 1]
    }
}

/// The cell texts of one table row, in column order.
pub open spec fn row_cells(t: ColumnarTable, r: int) -> Seq<Seq<char>> {
    Seq::new(t.column_count_spec() as nat, |c: int| t.cell_text(c, r))
}

/// The newline-terminated data lines of the first `r` rows.
pub open spec fn csv_body(t: ColumnarTable, r: int) -> Seq<char>
    decreases r,
{
    if r <= 0 {
        Seq::empty()
    } else {
        csv_body(t, r - 1) + join_cells(row_cells(t, r - 1), t.column_count_spec())
            + seq!['\n']
    }
}

/// The full export text: the header line, then one line per row.
pub open spec fn csv_text(t: ColumnarTable) -> Seq<char> {
    join_cells(t.names_view(), t.column_count_spec()) + seq!['\n'] + csv_body(t,
        t.row_count_spec())
}

/// Main application state container.
pub struct AppState {
    /// Current data source.
    pub data: Option<ColumnarTable>,
    /// View and visualization state.
    pub view: ViewState,
    /// Statistical process control configuration.
    pub spc: SpcConfig,
    /// Data filtering configuration.
    pub filters: FilterConfig,
    /// UI interaction state.
    pub ui: UiState,
    /// Currently loaded file path.
    pub current_file: Option<String>,
    /// Recently opened files, most recent first.
    pub recent_files: Vec<String>,
    /// Cached `(mean, stddev)` per Y column, for the outlier filter.
    pub outlier_stats_cache: Vec<(usize, (i64, i64))>,
    /// Reduction cache with zoom-level quantization.
    pub lttb_cache: LttbCache,
    /// Adaptive reduction state machine.
    pub downsampler: AdaptiveDownsampler,
}

impl AppState {
    pub fn new() -> (r: Self)
        ensures
            r.data is None,
            r.current_file is None,
            r.recent_files@.len() == 0,
            r.outlier_stats_cache@.len() == 0,
            r.lttb_cache.wf(),
            r.lttb_cache.contents().len() == 0,
            !r.downsampler.fast_mode(),
            r.ui.data_version == 0,
    {
        AppState {
            data: None,
            view: ViewState::new(),
            spc: SpcConfig::new(),
            filters: FilterConfig::new(),
            ui: UiState::new(),
            current_file: None,
            recent_files: Vec::new(),
            outlier_stats_cache: Vec::new(),
            lttb_cache: LttbCache::new(crate::constants::DOWNSAMPLE_THRESHOLD),
            downsampler: AdaptiveDownsampler::new(),
        }
    }

    /// True when a dataset is loaded.
    pub fn has_data(&self) -> (r: bool)
        ensures
            r == (self.data is Some),
    {
        self.data.is_some()
    }

    /// The loaded table's column names (empty without data).
    pub fn column_names(&self) -> (r: Vec<String>)
        ensures
            match self.data {
                Some(t) => r@.map_values(|s: String| s@) == t.names_view(),
                None => r@.len() == 0,
            },
    {
        match &self.data {
            Some(t) => t.column_names(),
            None => {
                let r: Vec<String> = Vec::new();
                proof {
                    assert(r@.map_values(|s: String| s@) =~= Seq::<Seq<char>>::empty());
                }
                r
            },
        }
    }

    /// Number of columns in the loaded table (zero without data).
    pub fn column_count(&self) -> (r: usize)
        ensures
            match self.data {
                Some(t) => r as int == t.column_count_spec(),
                None => r == 0,
            },
    {
        match &self.data {
            Some(t) => t.column_count(),
            None => 0,
        }
    }
}

/// The session facade the render loop works against.
pub struct PlotOxide {
    pub state: AppState,
}

impl PlotOxide {
    pub fn new() -> (r: Self)
        ensures
            r.state.data is None,
            r.state.recent_files@.len() == 0,
    {
        PlotOxide { state: AppState::new() }
    }

    /// The loaded table's column names (empty without data).
    pub fn headers(&self) -> (r: Vec<String>)
        ensures
            match self.state.data {
                Some(t) => r@.map_values(|s: String| s@) == t.names_view(),
                None => r@.len() == 0,
            },
    {
        self.state.column_names()
    }

    /// The loaded data in row-major display form: one vector of cell
    /// texts per row (empty without data).
    pub fn raw_data(&self) -> (r: Vec<Vec<String>>)
        requires
            match self.state.data {
                Some(t) => t.wf(),
                None => true,
            },
        ensures
            match self.state.data {
                Some(t) => r@.len() == t.row_count_spec() && (forall|i: int| 0 <= i
                    < t.row_count_spec() ==> (#[trigger] r@[i])@.len()
                        == t.column_count_spec()) && (forall|i: int, j: int| 0 <= i
                    < t.row_count_spec() && 0 <= j < t.column_count_spec()
                    ==> (#[trigger] r@[i]@[j])@ == t.cell_text(j, i)),
                None => r@.len() == 0,
            },
    {
        match &self.state.data {
            Some(t) => {
                let rows = t.row_count();
                let cols = t.column_count();
                let mut out: Vec<Vec<String>> = Vec::new();
                let mut i: usize = 0;
                while i < rows
                    invariant
                        0 <= i <= rows,
                        self.state.data == Some(*t),
                        t.wf(),
                        rows as int == t.row_count_spec(),
                        cols as int == t.column_count_spec(),
                        out@.len() == i,
                        forall|a: int| 0 <= a < i as int ==> (#[trigger] out@[a])@.len()
                            == cols as int,
                        forall|a: int, b: int| 0 <= a < i as int && 0 <= b < cols as int
                            ==> (#[trigger] out@[a]@[b])@ == t.cell_text(b, a),
                    decreases rows - i,
                {
                    let mut row: Vec<String> = Vec::new();
                    let mut j: usize = 0;
                    while j < cols
                        invariant
                            0 <= j <= cols,
                            0 <= i < rows,
                            self.state.data == Some(*t),
                            t.wf(),
                            rows as int == t.row_count_spec(),
                            cols as int == t.column_count_spec(),
                            row@.len() == j,
                            forall|b: int| 0 <= b < j as int ==> (#[trigger] row@[b])@
                                == t.cell_text(b, i as int),
                        decreases cols - j,
                    {
                        match t.get_string(i, j) {
                            Some(cell) => {
                                row.push(cell);
                            },
                            None => {
                                row.push(String::new());
                            },
                        }
                        j = j + 1;
                    }
                    out.push(row);
                    i = i + 1;
                }
                out
            },
            None => Vec::new(),
        }
    }

    /// True when the column's decoded type is a date or datetime type.
    pub fn is_column_timestamp(&self, col_index: usize) -> (r: bool)
        requires
            match self.state.data {
                Some(t) => t.wf(),
                None => true,
            },
        ensures
            match self.state.data {
                Some(t) => r == (col_index < t.column_count_spec() && t.datetime_flag(
                    col_index as int)),
                None => r == false,
            },
    {
        match &self.state.data {
            Some(t) => t.is_datetime_column(col_index),
            None => false,
        }
    }

    /// Count each column's unparseable cells and render a warning when any
    /// column crosses the five-percent threshold.
    #[verifier::rlimit(100)]
    fn scan_parse_quality(table: &mut ColumnarTable, names: &Vec<String>) -> (r: Option<
        String>)
        requires
            old(table).wf(),
            names@.len() as int == old(table).column_count_spec(),
        ensures
            final(table).wf(),
            final(table).column_count_spec() == old(table).column_count_spec(),
            final(table).row_count_spec() == old(table).row_count_spec(),
            final(table).names_view() == old(table).names_view(),
            forall|cc: int, rr: int| 0 <= cc < final(table).column_count_spec() && 0 <= rr
                < final(table).row_count_spec() ==> #[trigger] final(table).cell_text(cc,
                rr) == old(table).cell_text(cc, rr),
            forall|cc: int| 0 <= cc < final(table).column_count_spec()
                ==> #[trigger] final(table).datetime_flag(cc) == old(table).datetime_flag(
                cc),
            r is Some <==> exists|c: int| 0 <= c < old(table).column_count_spec()
                && #[trigger] column_poorly_parsed(*old(table), c),
    {
        let ghost t0 = *table;
        let num_cols = table.column_count();
        let rows = table.row_count();
        let mut has_warn = false;
        let mut msg = "Data parsing warnings:".to_owned();
        let mut c: usize = 0;
        while c < num_cols
            invariant
                0 <= c <= num_cols,
                table.wf(),
                num_cols as int == table.column_count_spec(),
                rows as int == table.row_count_spec(),
                names@.len() == num_cols,
                table.column_count_spec() == t0.column_count_spec(),
                table.row_count_spec() == t0.row_count_spec(),
                table.names_view() == t0.names_view(),
                forall|cc: int, rr: int| 0 <= cc < table.column_count_spec() && 0 <= rr
                    < table.row_count_spec() ==> #[trigger] table.cell_text(cc, rr)
                    == t0.cell_text(cc, rr),
                forall|cc: int| 0 <= cc < table.column_count_spec()
                    ==> #[trigger] table.datetime_flag(cc) == t0.datetime_flag(cc),
                has_warn == exists|cc: int| 0 <= cc < c as int
                    && #[trigger] column_poorly_parsed(t0, cc),
            decreases num_cols - c,
        {
            match table.ensure_numeric(c) {
                Ok(()) => {
                },
                Err(_) => {
                    proof {
                        assert(false);
                    }
                },
            }
            let vals = match table.column_as_numeric(c) {
                Ok(v) => v,
                Err(_) => {
                    proof {
                        assert(false);
                    }
                    Vec::new()
                },
            };
            let mut cnt: usize = 0;
            let mut j: usize = 0;
            while j < vals.len()
                invariant
                    0 <= j <= vals@.len(),
                    vals@.len() == table.row_count_spec(),
                    (c as int) < table.column_count_spec(),
                    cnt <= j,
                    forall|x: int| 0 <= x < vals@.len() ==> #[trigger] vals@[x]
                        == table.cell_numeric(c as int, x),
                    cnt as int == table.unparsed_count(c as int, j as int),
                decreases vals@.len() - j,
            {
                if vals[j].is_none() {
                    cnt = cnt + 1;
                }
                j = j + 1;
            }
            proof {
                crate::table::ColumnarTable::lemma_unparsed_count_by_text(*table, t0,
                    c as int, rows as int);
            }
            if (cnt as u128) * 100 > (rows as u128) * 5 {
                has_warn = true;
                msg.append("\nColumn '");
                if c < names.len() {
                    msg.append(names[c].as_str());
                }
                msg.append("': ");
                let cs = crate::error::u64_to_string(cnt as u64);
                msg.append(cs.as_str());
                msg.append("/");
                let rs = crate::error::u64_to_string(rows as u64);
                msg.append(rs.as_str());
                msg.append(" values failed to parse");
                proof {
                    assert(column_poorly_parsed(t0, c as int));
                }
            }
            c = c + 1;
            proof {
                if !has_warn {
                    assert(!column_poorly_parsed(t0, c - 1));
                }
            }
        }
        if has_warn {
            Some(msg)
        } else {
            None
        }
    }

    /// Move `path` to the front of the recent-file list: duplicates of it
    /// are removed; a newly seen path caps the list at five entries.
    #[verifier::rlimit(100)]
    fn update_recent_files(recent: &mut Vec<String>, path: &String)
        ensures
            ({
                let oldv = path_views(old(recent)@);
                let newv = path_views(final(recent)@);
                &&& (oldv.contains(path@) ==> newv == seq![path@] + oldv.filter(
                    other_path(path@)))
                &&& (!oldv.contains(path@) ==> newv == (seq![path@] + oldv).take(
                    if oldv.len() + 1 <= 5 {
                        oldv.len() as int + 1
                    } else {
                        5int
                    }))
            }),
    {
        let ghost oldv = path_views(recent@);
        let mut present = false;
        let mut k: usize = 0;
        while k < recent.len()
            invariant
                0 <= k <= recent@.len(),
                recent == old(recent),
                oldv == path_views(recent@),
                present == exists|j: int| 0 <= j < k as int && #[trigger] oldv[j] == path@,
            decreases recent@.len() - k,
        {
            let same = {
                let a = recent[k].clone();
                let b = path.clone();
                a == b
            };
            if same {
                present = true;
                proof {
                    assert(oldv[k as int] == path@);
                }
            }
            k = k + 1;
        }
        proof {
            if present {
                let j = choose|j: int| 0 <= j < oldv.len() && #[trigger] oldv[j] == path@;
                assert(oldv.contains(oldv[j]));
            } else {
                if oldv.contains(path@) {
                    let j = choose|j: int| 0 <= j < oldv.len() && oldv[j] == path@;
                }
            }
        }
        let mut kept: Vec<String> = Vec::new();
        kept.push(path.clone());
        if present {
            let ghost pred = other_path(path@);
            proof {
                reveal(Seq::filter);
                assert(oldv.take(0) =~= Seq::<Seq<char>>::empty());
                assert(path_views(kept@) =~= seq![path@]);
            }
            let mut g: usize = 0;
            while g < recent.len()
                invariant
                    0 <= g <= recent@.len(),
                    recent == old(recent),
                    oldv == path_views(recent@),
                    pred == other_path(path@),
                    path_views(kept@) == seq![path@] + oldv.take(g as int).filter(pred),
                decreases recent@.len() - g,
            {
                let ghost pre = oldv.take(g as int);
                let ghost cur = oldv[g as int];
                let same = {
                    let a = recent[g].clone();
                    let b = path.clone();
                    a == b
                };
                if !same {
                    kept.push(recent[g].clone());
                }
                g = g + 1;
                proof {
                    reveal(Seq::filter);
                    assert(oldv.take(g as int) =~= pre.push(cur));
                    assert(pre.push(cur).drop_last() =~= pre);
                    assert(pre.push(cur).last() == cur);
                    if pred(cur) {
                        assert(path_views(kept@) =~= (seq![path@] + pre.filter(pred)).push(
                            cur));
                        assert((seq![path@] + pre.filter(pred)).push(cur)
                            =~= seq![path@] + pre.filter(pred).push(cur));
                    } else {
                        assert(path_views(kept@) =~= seq![path@] + pre.filter(pred));
                    }
                }
            }
            proof {
                assert(oldv.take(oldv.len() as int) =~= oldv);
            }
        } else {
            proof {
                assert(path_views(kept@) =~= (seq![path@] + oldv).take(1));
            }
            let mut g: usize = 0;
            while g < recent.len() && kept.len() < 5
                invariant
                    0 <= g <= recent@.len(),
                    recent == old(recent),
                    oldv == path_views(recent@),
                    kept@.len() == g + 1,
                    kept@.len() <= 5,
                    path_views(kept@) == (seq![path@] + oldv).take(g as int + 1),
                decreases recent@.len() - g,
            {
                kept.push(recent[g].clone());
                g = g + 1;
                proof {
                    assert(path_views(kept@) =~= (seq![path@] + oldv).take(g as int + 1));
                }
            }
            proof {
                if g as int == oldv.len() {
                    assert((seq![path@] + oldv).take(g as int + 1) =~= (seq![path@]
                        + oldv).take(if oldv.len() + 1 <= 5 {
                        oldv.len() as int + 1
                    } else {
                        5int
                    }));
                } else {
                    assert(kept@.len() == 5);
                }
            }
        }
        *recent = kept;
    }

    /// Install a freshly decoded table as the loaded dataset: select the
    /// default columns (the first as X; the second as the single Y series
    /// when there is one), move the path to the front of the recent-file
    /// list (removing duplicates; a newly seen path caps the list at five
    /// entries), mark the plot bounds for reset, carry the X column's
    /// datetime flag over, drop the outlier statistics cache, and raise a
    /// warning message when any column has more than five percent of its
    /// cells failing to parse.
    #[verifier::rlimit(100)]
    pub fn load_csv(&mut self, table: ColumnarTable, path: String) -> (r: Result<(),
        PlotError>)
        requires
            table.wf(),
        ensures
            r is Ok,
            match final(self).state.data {
                Some(t) => {
                    &&& t.wf()
                    &&& t.row_count_spec() == table.row_count_spec()
                    &&& t.column_count_spec() == table.column_count_spec()
                    &&& t.names_view() == table.names_view()
                    &&& (forall|c: int, rr: int| 0 <= c < t.column_count_spec() && 0 <= rr
                        < t.row_count_spec() ==> #[trigger] t.cell_text(c, rr)
                        == table.cell_text(c, rr))
                    &&& (forall|c: int| 0 <= c < t.column_count_spec()
                        ==> #[trigger] t.datetime_flag(c) == table.datetime_flag(c))
                },
                None => false,
            },
            final(self).state.view.x_index == 0,
            table.column_count_spec() > 1 ==> final(self).state.view.y_indices@
                == seq![1usize],
            table.column_count_spec() <= 1 ==> final(self).state.view.y_indices@.len()
                == 0,
            final(self).state.current_file matches Some(p) && p@ == path@,
            final(self).state.view.reset_bounds,
            final(self).state.view.x_is_timestamp == (table.column_count_spec() > 0
                && table.datetime_flag(0)),
            final(self).state.outlier_stats_cache@.len() == 0,
            ({
                let oldv = path_views(old(self).state.recent_files@);
                let newv = path_views(final(self).state.recent_files@);
                &&& (oldv.contains(path@) ==> newv == seq![path@] + oldv.filter(
                    other_path(path@)))
                &&& (!oldv.contains(path@) ==> newv == (seq![path@] + oldv).take(
                    if oldv.len() + 1 <= 5 {
                        oldv.len() as int + 1
                    } else {
                        5int
                    }))
            }),
            (exists|c: int| 0 <= c < table.column_count_spec()
                && #[trigger] column_poorly_parsed(table, c))
                ==> final(self).state.ui.error_message is Some,
            !(exists|c: int| 0 <= c < table.column_count_spec()
                && #[trigger] column_poorly_parsed(table, c))
                ==> final(self).state.ui.error_message == old(
            self).state.ui.error_message,
            final(self).state.ui.data_version == old(self).state.ui.data_version,
            final(self).state.ui.table == old(self).state.ui.table,
    {
        let mut table = table;
        let num_cols = table.column_count();
        let names = table.column_names();

        match Self::scan_parse_quality(&mut table, &names) {
            Some(msg) => {
                self.state.ui.set_error(msg);
            },
            None => {
            },
        }

        self.state.data = Some(table);
        self.state.view.x_index = 0;
        let mut ys: Vec<usize> = Vec::new();
        if num_cols > 1 {
            ys.push(1);
        }
        proof {
            if num_cols > 1 {
                assert(ys@ =~= seq![1usize]);
            }
        }
        self.state.view.y_indices = ys;

        Self::update_recent_files(&mut self.state.recent_files, &path);
        self.state.current_file = Some(path);
        self.state.view.reset_bounds = true;
        let is_ts = self.is_column_timestamp(0);
        self.state.view.x_is_timestamp = is_ts;
        self.state.outlier_stats_cache = Vec::new();
        Ok(())
    }

    /// The loaded table rendered as comma-separated text: the header line
    /// and one newline-terminated line per row; `None` without data. The
    /// caller writes the text to its destination.
    #[verifier::rlimit(100)]
    pub fn export_csv_text(&self) -> (r: Option<String>)
        requires
            match self.state.data {
                Some(t) => t.wf(),
                None => true,
            },
        ensures
            match self.state.data {
                Some(t) => r matches Some(text) && text@ == csv_text(t),
                None => r is None,
            },
    {
        let t = match &self.state.data {
            Some(t) => t,
            None => {
                return None;
            },
        };
        proof {
            reveal_strlit(",");
            reveal_strlit("\n");
        }
        let names = t.column_names();
        let cols = t.column_count();
        let rows = t.row_count();
        let mut out = String::new();
        let mut c: usize = 0;
        while c < cols
            invariant
                0 <= c <= cols,
                cols as int == t.column_count_spec(),
                self.state.data == Some(*t),
                t.wf(),
                names@.len() == cols,
                names@.map_values(|s2: String| s2@) == t.names_view(),
                out@ == join_cells(t.names_view(), c as int),
                ","@ == seq![','],
            decreases cols - c,
        {
            if c > 0 {
                out.append(",");
            }
            out.append(names[c].as_str());
            proof {
                assert(out@ =~= join_cells(t.names_view(), c as int + 1));
            }
            c = c + 1;
        }
        out.append("\n");
        let ghost header = out@;
        proof {
            assert(header =~= join_cells(t.names_view(), t.column_count_spec())
                + seq!['\n']);
            assert(out@ =~= header + csv_body(*t, 0));
        }
        let mut rr: usize = 0;
        while rr < rows
            invariant
                0 <= rr <= rows,
                rows as int == t.row_count_spec(),
                cols as int == t.column_count_spec(),
                self.state.data == Some(*t),
                t.wf(),
                header == join_cells(t.names_view(), t.column_count_spec()) + seq!['\n'],
                out@ == header + csv_body(*t, rr as int),
                ","@ == seq![','],
                "\n"@ == seq!['\n'],
            decreases rows - rr,
        {
            let ghost pre = out@;
            let mut c2: usize = 0;
            while c2 < cols
                invariant
                    0 <= c2 <= cols,
                    0 <= rr < rows,
                    rows as int == t.row_count_spec(),
                    cols as int == t.column_count_spec(),
                    self.state.data == Some(*t),
                    t.wf(),
                    out@ == pre + join_cells(row_cells(*t, rr as int), c2 as int),
                    ","@ == seq![','],
                decreases cols - c2,
            {
                if c2 > 0 {
                    out.append(",");
                }
                match t.get_string(rr, c2) {
                    Some(cell) => {
                        out.append(cell.as_str());
                    },
                    None => {
                        proof {
                            assert(false);
                        }
                    },
                }
                proof {
                    assert(row_cells(*t, rr as int)[c2 as int] == t.cell_text(c2 as int,
                        rr as int));
                    assert(out@ =~= pre + join_cells(row_cells(*t, rr as int),
                        c2 as int + 1));
                }
                c2 = c2 + 1;
            }
            out.append("\n");
            rr = rr + 1;
            proof {
                assert(out@ =~= header + csv_body(*t, rr as int));
            }
        }
        proof {
            assert(out@ =~= csv_text(*t));
        }
        Some(out)
    }

    /// Ask for the plot bounds to be reset on the next frame.
    pub fn reset_view(&mut self)
        ensures
            final(self).state.view.reset_bounds,
    {
        self.state.view.reset_bounds = true;
    }

    /// Population mean and standard deviation of a series; see
    /// [`crate::stats::calculate_statistics`].
    pub fn calculate_statistics(values: &Vec<i64>) -> (r: (i64, i64))
        requires
            values@.len() <= crate::stats::MAX_LEN,
            crate::stats::values_bounded(values@),
        ensures
            r.0 as int == crate::stats::mean_spec(values@),
            r.1 as int == crate::stats::stddev_spec(values@),
    {
        crate::stats::calculate_statistics(values)
    }

    /// Median of a series; see [`crate::stats::calculate_median`].
    pub fn calculate_median(values: &Vec<i64>) -> (r: i64)
        requires
            values@.len() <= crate::stats::MAX_LEN,
            crate::stats::values_bounded(values@),
        ensures
            r as int == crate::stats::median_spec(values@),
    {
        crate::stats::calculate_median(values)
    }

    /// Z-score outliers of a series; see
    /// [`crate::stats::detect_outliers`].
    pub fn detect_outliers(values: &Vec<i64>, threshold: i64) -> (r: Vec<usize>)
        requires
            values@.len() <= crate::stats::MAX_LEN,
            crate::stats::values_bounded(values@),
        ensures
            crate::stats::stddev_spec(values@) == 0 ==> r@.len() == 0,
            crate::stats::stddev_spec(values@) != 0 ==> {
                &&& forall|k: int| 0 <= k < r@.len() ==> r@[k] < values@.len()
                    && crate::stats::is_outlier_at(values@, threshold as int,
                    #[trigger] r@[k] as int)
                &&& forall|k1: int, k2: int| 0 <= k1 < k2 < r@.len() ==> r@[k1] < r@[k2]
                &&& forall|i: int| 0 <= i < values@.len() && crate::stats::is_outlier_at(
                    values@, threshold as int, i) ==> r@.contains(i as usize)
            },
    {
        crate::stats::detect_outliers(values, threshold)
    }

    /// The largest-triangle-three-buckets reduction; see
    /// [`crate::downsample::lttb_downsample`].
    pub fn downsample_lttb(data: &Vec<crate::downsample::Point>, threshold: usize)
        -> (r: Vec<crate::downsample::Point>)
        requires
            data@.len() <= crate::downsample::MAX_POINTS,
            crate::downsample::coords_bounded(data@),
        ensures
            r@ == crate::downsample::lttb_spec(data@, threshold as int),
    {
        crate::downsample::lttb_downsample(data, threshold)
    }

    /// One cell's `(value, is_timestamp)` parse; see
    /// [`crate::parse::parse_value`].
    pub fn parse_value(s: &str) -> (r: (Option<i64>, bool))
        ensures
            r == crate::parse::parsed_cell(
                vstd::utf8::encode_utf8(s@), s@),
    {
        crate::parse::parse_value(s)
    }

    /// The per-point filter verdict; see
    /// [`crate::filters::passes_filters`].
    pub fn passes_filters(
        cfg: &FilterConfig,
        x_val: Option<i64>,
        y_val: Option<i64>,
        raw_is_empty: bool,
        y_is_selected: bool,
        outlier_stats: Option<(i64, i64)>,
    ) -> (r: bool)
        ensures
            r == crate::filters::passes_filters_spec(*cfg, x_val, y_val, raw_is_empty,
                y_is_selected, outlier_stats),
    {
        crate::filters::passes_filters(cfg, x_val, y_val, raw_is_empty, y_is_selected,
            outlier_stats)
    }
}

} // verus!
