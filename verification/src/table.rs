//! The columnar table: one loaded dataset as named text columns with a
//! lazily computed, cached numeric projection.
//!
//! Reading a file and decoding its format belong to the caller (they are
//! I/O); the table holds the decoded cells and owns the caching and
//! conversion rules. A cell's numeric value is fixed point (see
//! [`crate::SCALE`]); unparseable cells project to `None` — never an
//! error — so downstream consumers treat missing data uniformly.

use vstd::prelude::*;
use vstd::string::StringSliceAdditionalSpecFns;
use crate::error::PlotError;
use crate::parse::parsed_cell;

verus! {

/// One loaded dataset: columns of display text, a datetime flag per
/// column, and a per-column numeric cache.
pub struct ColumnarTable {
    names: Vec<String>,
    columns: Vec<Vec<String>>,
    datetime_cols: Vec<bool>,
    numeric_cache: Vec<Option<Vec<Option<i64>>>>,
    rows: usize,
}

impl ColumnarTable {
    /// Number of rows.
    pub closed spec fn row_count_spec(self) -> int {
        self.rows as int
    }

    /// Number of columns.
    pub closed spec fn column_count_spec(self) -> int {
        self.columns@.len() as int
    }

    /// The column names, as character sequences.
    pub closed spec fn names_view(self) -> Seq<Seq<char>> {
        self.names@.map_values(|s: String| s@)
    }

    /// The raw text of cell `(row, col)`.
    pub closed spec fn cell_text(self, col: int, row: int) -> Seq<char> {
        self.columns@[col]@[row]@
    }

    /// The numeric projection of cell `(row, col)`: what
    /// [`crate::parse::parse_value`] makes of its text.
    pub closed spec fn cell_numeric(self, col: int, row: int) -> Option<i64> {
        parsed_cell(vstd::utf8::encode_utf8(self.columns@[col]@[row]@),
            self.columns@[col]@[row]@).0
    }

    /// The column's datetime flag.
    pub closed spec fn datetime_flag(self, col: int) -> bool {
        self.datetime_cols@[col]
    }

    /// The numeric projection of a cell is exactly the cell parser's
    /// reading of its displayed text (the public bridge between
    /// [`ColumnarTable::cell_numeric`] and [`crate::parse::parsed_cell`]).
    pub proof fn lemma_cell_numeric_is_parse(self, col: int, row: int)
        ensures
            self.cell_numeric(col, row) == parsed_cell(vstd::utf8::encode_utf8(
                self.cell_text(col, row)), self.cell_text(col, row)).0,
    {
    }

    /// How many of the first `k` cells of a column parse to no number.
    pub open spec fn unparsed_count(self, col: int, k: int) -> int
        decreases k,
    {
        if k <= 0 {
            0
        } else {
            self.unparsed_count(col, k - 1) + (if self.cell_numeric(col, k - 1) is None {
                1int
            } else {
                0int
            })
        }
    }

    /// Tables with identical cell text agree on every numeric projection.
    pub proof fn lemma_unparsed_count_by_text(a: ColumnarTable, b: ColumnarTable, col: int,
        k: int)
        requires
            forall|r: int| 0 <= r < k ==> #[trigger] a.cell_text(col, r) == b.cell_text(
                col, r),
        ensures
            a.unparsed_count(col, k) == b.unparsed_count(col, k),
        decreases k,
    {
        if k > 0 {
            Self::lemma_unparsed_count_by_text(a, b, col, k - 1);
            a.lemma_cell_numeric_is_parse(col, k - 1);
            b.lemma_cell_numeric_is_parse(col, k - 1);
        }
    }

    /// Shape and cache consistency: every column and every computed cache
    /// has exactly `row_count` entries, and cached values agree with the
    /// cell parse.
    pub closed spec fn wf(self) -> bool {
        &&& self.names@.len() == self.columns@.len()
        &&& self.datetime_cols@.len() == self.columns@.len()
        &&& self.numeric_cache@.len() == self.columns@.len()
        &&& forall|c: int| 0 <= c < self.columns@.len()
            ==> (#[trigger] self.columns@[c])@.len() == self.rows as int
        &&& forall|c: int| 0 <= c < self.columns@.len()
            ==> ((#[trigger] self.numeric_cache@[c]) matches Some(v) ==> v@.len()
                == self.rows as int && (forall|r: int| 0 <= r < self.rows as int
                ==> #[trigger] v@[r] == self.cell_numeric(c, r)))
    }

    /// Build a table from decoded columns. Fails when the shape is
    /// inconsistent: differing column/name/flag counts, or columns of
    /// differing lengths.
    pub fn new(names: Vec<String>, columns: Vec<Vec<String>>, datetime_cols: Vec<bool>)
        -> (r: Result<Self, PlotError>)
        ensures
            match r {
                Ok(t) => {
                    &&& t.wf()
                    &&& t.column_count_spec() == columns@.len()
                    &&& t.names_view() == names@.map_values(|s: String| s@)
                    &&& (forall|c: int| 0 <= c < columns@.len()
                        ==> #[trigger] t.datetime_flag(c) == datetime_cols@[c])
                    &&& (forall|c: int, rr: int| 0 <= c < columns@.len() && 0 <= rr
                        < t.row_count_spec() ==> #[trigger] t.cell_text(c, rr)
                        == columns@[c]@[rr]@)
                    &&& (columns@.len() > 0 ==> t.row_count_spec() == columns@[0]@.len())
                    &&& (columns@.len() == 0 ==> t.row_count_spec() == 0)
                },
                Err(e) => names@.len() != columns@.len() || datetime_cols@.len()
                    != columns@.len() || exists|c: int| 0 <= c < columns@.len()
                    && (#[trigger] columns@[c])@.len() != columns@[0]@.len(),
            },
    {
        if names.len() != columns.len() || datetime_cols.len() != columns.len() {
            return Err(PlotError::Validation("column metadata lengths differ".to_owned()));
        }
        let rows: usize = if columns.len() > 0 {
            columns[0].len()
        } else {
            0
        };
        let mut c: usize = 0;
        while c < columns.len()
            invariant
                0 <= c <= columns@.len(),
                columns@.len() > 0 ==> rows as int == columns@[0]@.len(),
                columns@.len() == 0 ==> rows == 0,
                forall|j: int| 0 <= j < c as int ==> (#[trigger] columns@[j])@.len()
                    == rows as int,
            decreases columns@.len() - c,
        {
            if columns[c].len() != rows {
                return Err(PlotError::Validation("columns differ in length".to_owned()));
            }
            c = c + 1;
        }
        let mut cache: Vec<Option<Vec<Option<i64>>>> = Vec::new();
        let mut k: usize = 0;
        while k < columns.len()
            invariant
                0 <= k <= columns@.len(),
                cache@.len() == k,
                forall|j: int| 0 <= j < k as int ==> (#[trigger] cache@[j]) is None,
            decreases columns@.len() - k,
        {
            cache.push(None);
            k = k + 1;
        }
        Ok(ColumnarTable { names, columns, datetime_cols, numeric_cache: cache, rows })
    }

    /// Number of rows.
    pub fn row_count(&self) -> (r: usize)
        ensures
            r as int == self.row_count_spec(),
    {
        self.rows
    }

    /// Number of columns.
    pub fn column_count(&self) -> (r: usize)
        ensures
            r as int == self.column_count_spec(),
    {
        self.columns.len()
    }

    /// The column names.
    pub fn column_names(&self) -> (r: Vec<String>)
        ensures
            r@.map_values(|s: String| s@) == self.names_view(),
            self.wf() ==> r@.len() as int == self.column_count_spec(),
    {
        let mut out: Vec<String> = Vec::new();
        let mut k: usize = 0;
        while k < self.names.len()
            invariant
                0 <= k <= self.names@.len(),
                out@.len() == k,
                forall|j: int| 0 <= j < k as int ==> (#[trigger] out@[j])@
                    == self.names@[j]@,
            decreases self.names@.len() - k,
        {
            out.push(self.names[k].clone());
            k = k + 1;
        }
        proof {
            assert(out@.map_values(|s: String| s@) =~= self.names_view());
        }
        out
    }

    /// True when the column holds date or datetime data (by its decoded
    /// type, not value heuristics); false for an out-of-range index.
    pub fn is_datetime_column(&self, col_idx: usize) -> (r: bool)
        requires
            self.wf(),
        ensures
            r == (col_idx < self.column_count_spec() && self.datetime_flag(col_idx as int)),
    {
        if col_idx < self.datetime_cols.len() {
            self.datetime_cols[col_idx]
        } else {
            false
        }
    }

    /// Whether the numeric projection of a column is already cached.
    pub closed spec fn numeric_cached(self, col: int) -> bool {
        self.numeric_cache@[col] is Some
    }

    /// Compute and cache the numeric projection of one column (a
    /// read-through step made explicit). Everything else is unchanged.
    pub fn ensure_numeric(&mut self, col_idx: usize) -> (r: Result<(), PlotError>)
        requires
            old(self).wf(),
        ensures
            final(self).wf(),
            final(self).row_count_spec() == old(self).row_count_spec(),
            final(self).column_count_spec() == old(self).column_count_spec(),
            final(self).names_view() == old(self).names_view(),
            forall|c: int, rr: int| 0 <= c < final(self).column_count_spec() && 0 <= rr
                < final(self).row_count_spec() ==> #[trigger] final(self).cell_text(c, rr)
                == old(self).cell_text(c, rr),
            forall|c: int| 0 <= c < final(self).column_count_spec()
                ==> #[trigger] final(self).datetime_flag(c) == old(self).datetime_flag(c),
            r is Ok <==> col_idx < old(self).column_count_spec(),
            r is Ok ==> final(self).numeric_cached(col_idx as int),
            forall|c: int| 0 <= c < final(self).column_count_spec() && c != col_idx as int
                ==> #[trigger] final(self).numeric_cached(c) == old(self).numeric_cached(c),
    {
        if col_idx >= self.columns.len() {
            let idx_str = crate::error::u64_to_string(col_idx as u64);
            let mut msg = "Index ".to_owned();
            msg.append(idx_str.as_str());
            return Err(PlotError::ColumnNotFound { column: msg });
        }
        if self.numeric_cache[col_idx].is_some() {
            return Ok(());
        }
        let column = &self.columns[col_idx];
        let mut vals: Vec<Option<i64>> = Vec::new();
        let mut rr: usize = 0;
        while rr < column.len()
            invariant
                0 <= rr <= column@.len(),
                column == &old(self).columns@[col_idx as int],
                col_idx < old(self).columns@.len(),
                self == old(self),
                vals@.len() == rr,
                forall|j: int| 0 <= j < rr as int ==> #[trigger] vals@[j] == parsed_cell(
                    vstd::utf8::encode_utf8(column@[j]@), column@[j]@).0,
            decreases column@.len() - rr,
        {
            let v = crate::parse::parse_value(column[rr].as_str());
            vals.push(v.0);
            rr = rr + 1;
        }
        self.numeric_cache.set(col_idx, Some(vals));
        proof {
            assert forall|c: int| 0 <= c < self.columns@.len() implies
                ((#[trigger] self.numeric_cache@[c]) matches Some(v) ==> v@.len()
                    == self.rows as int && forall|r2: int| 0 <= r2 < self.rows as int
                    ==> #[trigger] v@[r2] == self.cell_numeric(c, r2)) by {
                if c != col_idx as int {
                    assert(self.numeric_cache@[c] == old(self).numeric_cache@[c]);
                }
            }
        }
        Ok(())
    }

    /// The cached numeric projection of one column: one optional value per
    /// row, `None` for unparseable cells. Datetime text projects to Unix
    /// seconds through the cell parser. The caller runs
    /// [`ColumnarTable::ensure_numeric`] first; an uncached or
    /// out-of-range column is an error.
    pub fn column_as_numeric(&self, col_idx: usize) -> (r: Result<Vec<Option<i64>>,
        PlotError>)
        requires
            self.wf(),
        ensures
            r is Ok <==> col_idx < self.column_count_spec() && self.numeric_cached(
                col_idx as int),
            r matches Ok(v) ==> v@.len() == self.row_count_spec() && forall|j: int| 0 <= j
                < self.row_count_spec() ==> #[trigger] v@[j] == self.cell_numeric(
                col_idx as int, j),
    {
        if col_idx >= self.columns.len() {
            let idx_str = crate::error::u64_to_string(col_idx as u64);
            let mut msg = "Index ".to_owned();
            msg.append(idx_str.as_str());
            return Err(PlotError::ColumnNotFound { column: msg });
        }
        match &self.numeric_cache[col_idx] {
            Some(vals) => {
                let mut out: Vec<Option<i64>> = Vec::new();
                let mut k: usize = 0;
                while k < vals.len()
                    invariant
                        0 <= k <= vals@.len(),
                        out@.len() == k,
                        vals == &self.numeric_cache@[col_idx as int].unwrap(),
                        col_idx < self.columns@.len(),
                        self.wf(),
                        forall|j: int| 0 <= j < k as int ==> #[trigger] out@[j] == vals@[j],
                    decreases vals@.len() - k,
                {
                    out.push(vals[k]);
                    k = k + 1;
                }
                Ok(out)
            },
            None => Err(PlotError::Custom("column not yet computed".to_owned())),
        }
    }

    /// The display text of one column.
    pub fn column_as_string(&self, col_idx: usize) -> (r: Result<Vec<String>, PlotError>)
        requires
            self.wf(),
        ensures
            r is Ok <==> col_idx < self.column_count_spec(),
            r matches Ok(v) ==> v@.len() == self.row_count_spec() && forall|j: int| 0 <= j
                < self.row_count_spec() ==> (#[trigger] v@[j])@ == self.cell_text(
                col_idx as int, j),
    {
        if col_idx >= self.columns.len() {
            let idx_str = crate::error::u64_to_string(col_idx as u64);
            let mut msg = "Index ".to_owned();
            msg.append(idx_str.as_str());
            return Err(PlotError::ColumnNotFound { column: msg });
        }
        let column = &self.columns[col_idx];
        let mut out: Vec<String> = Vec::new();
        let mut k: usize = 0;
        while k < column.len()
            invariant
                0 <= k <= column@.len(),
                out@.len() == k,
                column == &self.columns@[col_idx as int],
                col_idx < self.columns@.len(),
                forall|j: int| 0 <= j < k as int ==> (#[trigger] out@[j])@ == column@[j]@,
            decreases column@.len() - k,
        {
            out.push(column[k].clone());
            k = k + 1;
        }
        Ok(out)
    }

    /// The display text of one cell, `None` out of range.
    pub fn get_string(&self, row: usize, col: usize) -> (r: Option<String>)
        requires
            self.wf(),
        ensures
            r is Some <==> col < self.column_count_spec() && row < self.row_count_spec(),
            r matches Some(s) ==> s@ == self.cell_text(col as int, row as int),
    {
        if col < self.columns.len() && row < self.columns[col].len() {
            Some(self.columns[col][row].clone())
        } else {
            None
        }
    }
}

} // verus!
