use vstd::prelude::*;
use crate::fixed::{fixed_of, parse_score, score_of};

verus! {

/// Type tag of a column of names.
pub const NAME_COLUMN: u32 = 1;

/// Type tag of a column of numeric scores.
pub const SCORE_COLUMN: u32 = 2;

/// One typed cell of a row.
#[derive(Debug, Clone)]
pub enum ColumnVal {
    Country(String),
    Score(i64),
}

/// What a cell holds, as plain values.
pub enum CellView {
    Country(Seq<char>),
    Score(i64),
}

impl View for ColumnVal {
    type V = CellView;

    open spec fn view(&self) -> CellView {
        match self {
            ColumnVal::Country(s) => CellView::Country(s@),
            ColumnVal::Score(v) => CellView::Score(*v),
        }
    }
}

/// Why a table could not be loaded.
#[derive(Debug, Clone, Copy, PartialEq, Eq, Structural)]
pub enum LoadError {
    /// The text is not well-formed CSV (for instance, not UTF-8).
    Malformed,
    /// Data row `row` (counted from 0, after the header) has `found` fields
    /// where the types declare `expected`.
    ColumnCountMismatch { row: usize, expected: usize, found: usize },
    /// The type tag of column `column` is neither `NAME_COLUMN` nor `SCORE_COLUMN`.
    UnknownColumnType { column: usize, tag: u32 },
}

/// The records of a CSV text as the csv crate reads them (comma-delimited,
/// quotes taken off quoted fields, records of any length) up to the first
/// error it reports, and whether it reported none.
pub uninterp spec fn csv_records(b: Seq<u8>) -> (Seq<Seq<Seq<char>>>, bool);

pub open spec fn strings_view(v: Seq<String>) -> Seq<Seq<char>> {
    v.map_values(|s: String| s@)
}

pub open spec fn table_view(v: Seq<Vec<String>>) -> Seq<Seq<Seq<char>>> {
    v.map_values(|r: Vec<String>| strings_view(r@))
}

pub open spec fn cells_view(v: Seq<ColumnVal>) -> Seq<CellView> {
    v.map_values(|c: ColumnVal| c@)
}

pub open spec fn rows_view(v: Seq<Vec<ColumnVal>>) -> Seq<Seq<CellView>> {
    v.map_values(|r: Vec<ColumnVal>| cells_view(r@))
}

/// Relies on csv::ReaderBuilder (comma delimiter, no header row, flexible
/// record lengths) reading from a byte slice: its records up to the first
/// error, each field as a String, and whether no error came.
#[verifier::external_body]
fn read_records(data: &[u8]) -> (r: (Vec<Vec<String>>, bool))
    ensures
        csv_records(data@) == (table_view(r.0@), r.1),
{
    let mut reader = csv::ReaderBuilder::new().delimiter(b',').has_headers(false).flexible(
        true,
    ).from_reader(data);
    let mut rows = Vec::new();
    for record in reader.records() {
        match record {
            Ok(record) => rows.push(record.iter().map(|f| f.to_string()).collect()),
            Err(_) => return (rows, false),
        }
    }
    (rows, true)
}

pub open spec fn known_tag(tag: u32) -> bool {
    tag == NAME_COLUMN || tag == SCORE_COLUMN
}

pub open spec fn all_known(types: Seq<u32>) -> bool {
    forall|k: int| 0 <= k < types.len() ==> known_tag(#[trigger] types[k])
}

/// Column `k` holds the first tag that is not known.
pub open spec fn is_first_unknown(types: Seq<u32>, k: int) -> bool {
    &&& 0 <= k < types.len()
    &&& !known_tag(types[k])
    &&& forall|q: int| 0 <= q < k ==> known_tag(#[trigger] types[q])
}

/// The records after the header.
pub open spec fn data_rows(recs: Seq<Seq<Seq<char>>>) -> Seq<Seq<Seq<char>>> {
    if recs.len() == 0 {
        recs
    } else {
        recs.drop_first()
    }
}

/// A data row that cannot be typed: wrong field count, or unknown tags.
pub open spec fn row_fails(row: Seq<Seq<char>>, types: Seq<u32>) -> bool {
    row.len() != types.len() || !all_known(types)
}

/// Data row `r` is the first that cannot be typed.
pub open spec fn is_first_failing(rows: Seq<Seq<Seq<char>>>, types: Seq<u32>, r: int) -> bool {
    &&& 0 <= r < rows.len()
    &&& row_fails(rows[r], types)
    &&& forall|q: int| 0 <= q < r ==> !row_fails(#[trigger] rows[q], types)
}

/// Some data row cannot be typed.
pub open spec fn some_row_fails(rows: Seq<Seq<Seq<char>>>, types: Seq<u32>) -> bool {
    exists|q: int| is_first_failing(rows, types, q)
}

/// `e` is the error of the first data row that cannot be typed.
pub open spec fn fails_with(rows: Seq<Seq<Seq<char>>>, types: Seq<u32>, e: LoadError) -> bool {
    forall|q: int| is_first_failing(rows, types, q) ==> row_error(rows[q], types, q, e)
}

/// How many data rows are typed before the first that cannot be: all of
/// them where none fails.
pub open spec fn accepted_count(rows: Seq<Seq<Seq<char>>>, types: Seq<u32>) -> int {
    if some_row_fails(rows, types) {
        choose|q: int| is_first_failing(rows, types, q)
    } else {
        rows.len() as int
    }
}

/// The typed data rows before the first that cannot be typed.
pub open spec fn accepted_rows(rows: Seq<Seq<Seq<char>>>, types: Seq<u32>) -> Seq<Seq<CellView>> {
    Seq::new(accepted_count(rows, types) as nat, |q: int| typed_row(rows[q], types))
}

proof fn lemma_fails_with(rows: Seq<Seq<Seq<char>>>, types: Seq<u32>, q: int, e: LoadError)
    requires
        is_first_failing(rows, types, q),
        row_error(rows[q], types, q, e),
    ensures
        some_row_fails(rows, types),
        fails_with(rows, types, e),
        accepted_count(rows, types) == q,
{
    let c = choose|p: int| is_first_failing(rows, types, p);
    lemma_first_failing_unique(rows, types, c, q);
    assert forall|p: int| is_first_failing(rows, types, p) implies row_error(rows[p], types, p, e) by {
        lemma_first_failing_unique(rows, types, p, q);
    }
}

proof fn lemma_first_failing_unique(rows: Seq<Seq<Seq<char>>>, types: Seq<u32>, a: int, b: int)
    requires
        is_first_failing(rows, types, a),
        is_first_failing(rows, types, b),
    ensures
        a == b,
{
    if a < b {
        assert(!row_fails(rows[a], types));
    } else if b < a {
        assert(!row_fails(rows[b], types));
    }
}

/// The error reported for failing data row `r`.
pub open spec fn row_error(row: Seq<Seq<char>>, types: Seq<u32>, r: int, e: LoadError) -> bool {
    if row.len() != types.len() {
        e == (LoadError::ColumnCountMismatch {
            row: r as usize,
            expected: types.len() as usize,
            found: row.len() as usize,
        })
    } else {
        exists|k: int|
            is_first_unknown(types, k) && e == (LoadError::UnknownColumnType {
                column: k as usize,
                tag: types[k],
            })
    }
}

/// A field typed by its column's tag.
pub open spec fn typed_cell(field: Seq<char>, tag: u32) -> CellView {
    if tag == NAME_COLUMN {
        CellView::Country(field)
    } else {
        CellView::Score(score_of(field))
    }
}

/// A field of a score column that is no decimal is typed as the score 0,
/// not refused.
pub proof fn lemma_non_decimal_score_is_zero(field: Seq<char>)
    requires
        fixed_of(field) is None,
    ensures
        typed_cell(field, SCORE_COLUMN) == CellView::Score(0),
{
}

/// A data row typed cell by cell.
pub open spec fn typed_row(row: Seq<Seq<char>>, types: Seq<u32>) -> Seq<CellView> {
    Seq::new(row.len(), |k: int| typed_cell(row[k], types[k]))
}

/// The scores of a row, in column order; names are skipped.
pub open spec fn row_scores(cells: Seq<CellView>) -> Seq<i64>
    decreases cells.len(),
{
    if cells.len() == 0 {
        Seq::empty()
    } else {
        let p = row_scores(cells.drop_last());
        match cells.last() {
            CellView::Score(v) => p.push(v),
            CellView::Country(_) => p,
        }
    }
}

/// Column labels, column type tags and typed rows of a loaded table.
#[derive(Debug)]
pub struct DataFrame {
    pub labels: Vec<String>,
    pub types: Vec<u32>,
    pub rows: Vec<Vec<ColumnVal>>,
}

/// Copies a record's fields.
fn copy_strings(v: &Vec<String>) -> (r: Vec<String>)
    ensures
        strings_view(r@) == strings_view(v@),
{
    let mut r: Vec<String> = Vec::new();
    let mut i: usize = 0;
    while i < v.len()
        invariant
            i <= v@.len(),
            r@.len() == i,
            forall|k: int| 0 <= k < i ==> #[trigger] r@[k]@ == v@[k]@,
        decreases v@.len() - i,
    {
        r.push(v[i].clone());
        i = i + 1;
    }
    assert(strings_view(r@) =~= strings_view(v@));
    r
}

/// Index of the first tag that is not known, if any.
fn find_unknown(types: &Vec<u32>) -> (r: Option<usize>)
    ensures
        r is None <==> all_known(types@),
        r is Some ==> is_first_unknown(types@, r->0 as int),
{
    let mut k: usize = 0;
    while k < types.len()
        invariant
            k <= types@.len(),
            forall|q: int| 0 <= q < k ==> known_tag(#[trigger] types@[q]),
        decreases types@.len() - k,
    {
        if types[k] != NAME_COLUMN && types[k] != SCORE_COLUMN {
            return Some(k);
        }
        k = k + 1;
    }
    None
}

impl DataFrame {
    /// An empty table.
    pub fn new() -> (r: DataFrame)
        ensures
            r.labels@.len() == 0,
            r.types@.len() == 0,
            r.rows@.len() == 0,
    {
        DataFrame { labels: Vec::new(), types: Vec::new(), rows: Vec::new() }
    }

    /// Loads a CSV text whose first record holds the column labels and whose
    /// other records are data rows, typed by `types` (one tag per column).
    /// A field of a score column that is not a decimal reads as 0.
    ///
    /// The labels are replaced by the first record, where there is one. The
    /// data rows are typed and appended one by one until one cannot be typed
    /// (wrong field count, or an unknown tag), which ends the load with its
    /// error; the rows appended before it stay. Where the csv reader reports
    /// an error, the records before it are loaded so, and the result is
    /// `Malformed`. `types` is stored only when the load succeeds.
    pub fn read_csv(&mut self, data: &[u8], types: &Vec<u32>) -> (r: Result<(), LoadError>)
        ensures
            ({
                let recs = csv_records(data@).0;
                let rows = data_rows(recs);
                &&& recs.len() == 0 ==> final(self).labels@ == old(self).labels@
                &&& recs.len() > 0 ==> strings_view(final(self).labels@) == recs[0]
                &&& rows_view(final(self).rows@) == rows_view(old(self).rows@) + accepted_rows(
                    rows,
                    types@,
                )
                &&& some_row_fails(rows, types@) ==> r is Err && fails_with(rows, types@, r->Err_0)
                &&& !some_row_fails(rows, types@) && !csv_records(data@).1 ==> r == Err::<
                    (),
                    LoadError,
                >(LoadError::Malformed)
                &&& !some_row_fails(rows, types@) && csv_records(data@).1 ==> r is Ok
                &&& r is Ok ==> final(self).types@ == types@
                &&& r is Err ==> final(self).types@ == old(self).types@
            }),
    {
        let (records, complete) = read_records(data);
        let ghost recs = table_view(records@);
        let ghost rows = data_rows(recs);
        let ghost old_rows = self.rows@;
        if records.len() > 0 {
            self.labels = copy_strings(&records[0]);
        }
        let unknown = find_unknown(types);
        let mut i: usize = 1;
        while i < records.len()
            invariant
                recs == table_view(records@),
                csv_records(data@) == (recs, complete),
                recs.len() == records@.len(),
                rows == data_rows(recs),
                records@.len() > 0 ==> rows == recs.drop_first(),
                1 <= i,
                records@.len() > 0 ==> i <= records@.len(),
                records@.len() == 0 ==> i == 1,
                recs.len() == 0 ==> self.labels@ == old(self).labels@,
                recs.len() > 0 ==> strings_view(self.labels@) == recs[0],
                self.types@ == old(self).types@,
                old_rows == old(self).rows@,
                unknown is None <==> all_known(types@),
                unknown is Some ==> is_first_unknown(types@, unknown->0 as int),
                forall|q: int| 0 <= q < i - 1 ==> !row_fails(#[trigger] rows[q], types@),
                rows_view(self.rows@) == rows_view(old_rows) + Seq::new(
                    (i - 1) as nat,
                    |q: int| typed_row(rows[q], types@),
                ),
            decreases records@.len() - i,
        {
            let record = &records[i];
            let ghost row = rows[i - 1];
            assert(row == strings_view(record@));
            if record.len() != types.len() {
                assert(is_first_failing(rows, types@, i - 1));
                let e = LoadError::ColumnCountMismatch {
                    row: i - 1,
                    expected: types.len(),
                    found: record.len(),
                };
                assert(row_error(rows[i - 1], types@, i - 1, e));
                proof {
                    lemma_fails_with(rows, types@, i - 1, e);
                }
                return Err(e);
            }
            match unknown {
                Some(k) => {
                    assert(is_first_failing(rows, types@, i - 1));
                    let e = LoadError::UnknownColumnType { column: k, tag: types[k] };
                    assert(row_error(rows[i - 1], types@, i - 1, e));
                    proof {
                        lemma_fails_with(rows, types@, i - 1, e);
                    }
                    return Err(e);
                },
                None => {},
            }
            let mut cells: Vec<ColumnVal> = Vec::new();
            let mut j: usize = 0;
            while j < record.len()
                invariant
                    row == strings_view(record@),
                    record@.len() == types@.len(),
                    all_known(types@),
                    j <= record@.len(),
                    cells@.len() == j,
                    forall|k: int|
                        0 <= k < j ==> #[trigger] cells@[k]@ == typed_cell(row[k], types@[k]),
                decreases record@.len() - j,
            {
                if types[j] == NAME_COLUMN {
                    cells.push(ColumnVal::Country(record[j].clone()));
                } else {
                    cells.push(ColumnVal::Score(parse_score(record[j].as_str())));
                }
                j = j + 1;
            }
            assert(cells_view(cells@) =~= typed_row(row, types@));
            let ghost before = self.rows@;
            self.rows.push(cells);
            proof {
                assert(self.rows@ == before.push(cells));
                let lhs = rows_view(self.rows@);
                let rhs = rows_view(old_rows) + Seq::new(
                    i as nat,
                    |q: int| typed_row(rows[q], types@),
                );
                let mid = rows_view(before);
                assert(mid == rows_view(old_rows) + Seq::new(
                    (i - 1) as nat,
                    |q: int| typed_row(rows[q], types@),
                ));
                assert(mid.len() == before.len());
                assert(lhs.len() == self.rows@.len());
                assert(lhs.len() == rhs.len());
                assert forall|q: int| 0 <= q < lhs.len() implies lhs[q] == rhs[q] by {
                    if q < before.len() {
                        assert(lhs[q] == mid[q]);
                    } else {
                        assert(lhs[q] == cells_view(cells@));
                    }
                }
                assert(rows_view(self.rows@) =~= rows_view(old_rows) + Seq::new(
                    i as nat,
                    |q: int| typed_row(rows[q], types@),
                ));
            }
            i = i + 1;
        }
        proof {
            assert forall|q: int| is_first_failing(rows, types@, q) implies false by {
                assert(!row_fails(rows[q], types@));
            }
            assert(!some_row_fails(rows, types@));
            assert(accepted_rows(rows, types@) =~= Seq::new(
                (i - 1) as nat,
                |q: int| typed_row(rows[q], types@),
            ));
        }
        if !complete {
            return Err(LoadError::Malformed);
        }
        self.types = types.clone();
        proof {
            assert(self.types@ =~= types@);
        }
        Ok(())
    }

    /// The scores of each row, in row order and column order; name cells
    /// are skipped.
    pub fn get_scores(&self) -> (r: Vec<Vec<i64>>)
        ensures
            r@.len() == self.rows@.len(),
            forall|i: int|
                0 <= i < r@.len() ==> #[trigger] r@[i]@ == row_scores(cells_view(self.rows@[i]@)),
    {
        let mut out: Vec<Vec<i64>> = Vec::new();
        let mut i: usize = 0;
        while i < self.rows.len()
            invariant
                i <= self.rows@.len(),
                out@.len() == i,
                forall|p: int|
                    0 <= p < i ==> #[trigger] out@[p]@ == row_scores(cells_view(self.rows@[p]@)),
            decreases self.rows@.len() - i,
        {
            let row = &self.rows[i];
            let mut scores: Vec<i64> = Vec::new();
            let mut j: usize = 0;
            while j < row.len()
                invariant
                    j <= row@.len(),
                    scores@ == row_scores(cells_view(row@).take(j as int)),
                decreases row@.len() - j,
            {
                assert(cells_view(row@).take(j + 1).drop_last() =~= cells_view(row@).take(
                    j as int,
                ));
                match &row[j] {
                    ColumnVal::Score(v) => scores.push(*v),
                    ColumnVal::Country(_) => {},
                }
                j = j + 1;
            }
            assert(cells_view(row@).take(row@.len() as int) =~= cells_view(row@));
            out.push(scores);
            i = i + 1;
        }
        out
    }

    /// The score in column `column` of each row, or 0 where that cell is
    /// missing or holds a name.
    pub fn column_scores(&self, column: usize) -> (r: Vec<i64>)
        ensures
            r@.len() == self.rows@.len(),
            forall|i: int|
                0 <= i < r@.len() ==> #[trigger] r@[i] == (if column < self.rows@[i]@.len() {
                    match self.rows@[i]@[column as int] {
                        ColumnVal::Score(v) => v,
                        ColumnVal::Country(_) => 0,
                    }
                } else {
                    0
                }),
    {
        let mut out: Vec<i64> = Vec::new();
        let mut i: usize = 0;
        while i < self.rows.len()
            invariant
                i <= self.rows@.len(),
                out@.len() == i,
                forall|p: int|
                    0 <= p < i ==> #[trigger] out@[p] == (if column < self.rows@[p]@.len() {
                        match self.rows@[p]@[column as int] {
                            ColumnVal::Score(v) => v,
                            ColumnVal::Country(_) => 0,
                        }
                    } else {
                        0
                    }),
            decreases self.rows@.len() - i,
        {
            let v: i64 = if column < self.rows[i].len() {
                match &self.rows[i][column] {
                    ColumnVal::Score(v) => *v,
                    ColumnVal::Country(_) => 0,
                }
            } else {
                0
            };
            out.push(v);
            i = i + 1;
        }
        out
    }
}

} // verus!
