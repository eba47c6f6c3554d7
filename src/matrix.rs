use vstd::prelude::*;
use crate::distance::{DistanceError, dist, sq_dist, distance_same_len, lemma_dist_symmetric_and_zero};

verus! {

/// A two-dimensional ndarray of unsigned integers, seen through `grid_cells`.
/// ndarray's `ArrayBase` is bounded by its `RawData` trait, which Verus cannot
/// be told of, so the array is held here out of Verus's sight.
#[verifier::external_body]
pub struct Grid {
    data: ndarray::Array2<u64>,
}

/// The cells of a grid, row by row.
pub uninterp spec fn grid_cells(g: Grid) -> Seq<Seq<u64>>;

/// Relies on ndarray's Array2::zeros: an n-by-n array of zeros.
#[verifier::external_body]
fn grid_zeros(n: usize) -> (g: Grid)
    requires
        n * n <= isize::MAX / 8,
    ensures
        grid_cells(g) == Seq::new(n as nat, |i: int| Seq::new(n as nat, |j: int| 0u64)),
{
    Grid { data: ndarray::Array2::<u64>::zeros((n, n)) }
}

/// Relies on ndarray's Array2::nrows: the number of rows.
#[verifier::external_body]
fn grid_rows(g: &Grid) -> (r: usize)
    ensures
        r == grid_cells(*g).len(),
{
    g.data.nrows()
}

/// Relies on ndarray's indexing by `[i, j]`: reads one cell.
#[verifier::external_body]
fn grid_get(g: &Grid, i: usize, j: usize) -> (r: u64)
    requires
        i < grid_cells(*g).len(),
        j < grid_cells(*g)[i as int].len(),
    ensures
        r == grid_cells(*g)[i as int][j as int],
{
    g.data[[i, j]]
}

/// Relies on ndarray's mutable indexing by `[i, j]`: writes one cell.
#[verifier::external_body]
fn grid_set(g: &mut Grid, i: usize, j: usize, v: u64)
    requires
        i < grid_cells(*old(g)).len(),
        j < grid_cells(*old(g))[i as int].len(),
    ensures
        grid_cells(*final(g)) == grid_cells(*old(g)).update(
            i as int,
            grid_cells(*old(g))[i as int].update(j as int, v),
        ),
{
    g.data[[i, j]] = v;
}

/// Sum of a row of cells.
pub open spec fn row_sum(s: Seq<u64>) -> int
    decreases s.len(),
{
    if s.len() == 0 {
        0
    } else {
        row_sum(s.drop_last()) + s.last()
    }
}

pub proof fn lemma_row_sum_nonneg(s: Seq<u64>)
    ensures
        row_sum(s) >= 0,
    decreases s.len(),
{
    if s.len() > 0 {
        lemma_row_sum_nonneg(s.drop_last());
    }
}

/// Relies on ndarray's `row(i).mean()`: the sum of the row divided by its
/// length (integer division), or None for an empty row.
#[verifier::external_body]
fn grid_row_mean(g: &Grid, i: usize) -> (r: Option<u64>)
    requires
        i < grid_cells(*g).len(),
        row_sum(grid_cells(*g)[i as int]) <= u64::MAX,
    ensures
        grid_cells(*g)[i as int].len() == 0 ==> r is None,
        grid_cells(*g)[i as int].len() > 0 ==> r == Some(
            (row_sum(grid_cells(*g)[i as int]) / (grid_cells(*g)[i as int].len() as int)) as u64,
        ),
{
    g.data.row(i).mean()
}

/// A square matrix of pairwise distances.
pub struct DistanceMatrix {
    grid: Grid,
}

impl View for DistanceMatrix {
    type V = Seq<Seq<u64>>;

    closed spec fn view(&self) -> Seq<Seq<u64>> {
        grid_cells(self.grid)
    }
}

/// Every row has as many cells as there are rows.
pub open spec fn is_square(m: Seq<Seq<u64>>) -> bool {
    forall|i: int| 0 <= i < m.len() ==> #[trigger] m[i].len() == m.len()
}

/// The mean of row `i` of a matrix, rounded down.
pub open spec fn row_mean(m: Seq<Seq<u64>>, i: int) -> int {
    row_sum(m[i]) / (m[i].len() as int)
}

impl DistanceMatrix {
    #[verifier::type_invariant]
    spec fn square(&self) -> bool {
        is_square(grid_cells(self.grid))
    }

    /// The number of rows, which is also the number of columns.
    pub fn size(&self) -> (r: usize)
        ensures
            r == self@.len(),
            is_square(self@),
    {
        proof {
            use_type_invariant(self);
        }
        grid_rows(&self.grid)
    }

    /// The cell in row `i`, column `j`.
    pub fn get(&self, i: usize, j: usize) -> (r: u64)
        requires
            i < self@.len(),
            j < self@.len(),
        ensures
            r == self@[i as int][j as int],
    {
        proof {
            use_type_invariant(self);
        }
        grid_get(&self.grid, i, j)
    }

    /// The mean of row `i` (over all its cells, the diagonal included),
    /// rounded down.
    pub fn row_mean(&self, i: usize) -> (r: u64)
        requires
            i < self@.len(),
            row_sum(self@[i as int]) <= u64::MAX,
        ensures
            r == row_mean(self@, i as int),
    {
        proof {
            use_type_invariant(self);
            assert(self@[i as int].len() == self@.len());
            lemma_row_sum_nonneg(self@[i as int]);
        }
        match grid_row_mean(&self.grid, i) {
            Some(v) => v,
            None => 0,
        }
    }

    /// The cells, row by row.
    pub fn to_rows(&self) -> (r: Vec<Vec<u64>>)
        ensures
            r@.len() == self@.len(),
            forall|i: int| 0 <= i < r@.len() ==> #[trigger] r@[i]@ == self@[i],
    {
        proof {
            use_type_invariant(self);
        }
        let n = grid_rows(&self.grid);
        let mut rows: Vec<Vec<u64>> = Vec::new();
        let mut i: usize = 0;
        while i < n
            invariant
                n == self@.len(),
                is_square(self@),
                i <= n,
                rows@.len() == i,
                forall|p: int| 0 <= p < i ==> #[trigger] rows@[p]@ == self@[p],
            decreases n - i,
        {
            let mut row: Vec<u64> = Vec::new();
            let mut j: usize = 0;
            while j < n
                invariant
                    n == self@.len(),
                    is_square(self@),
                    i < n,
                    j <= n,
                    row@ == self@[i as int].take(j as int),
                decreases n - j,
            {
                row.push(grid_get(&self.grid, i, j));
                assert(row@ =~= self@[i as int].take(j + 1));
                j = j + 1;
            }
            assert(row@ =~= self@[i as int]);
            rows.push(row);
            i = i + 1;
        }
        rows
    }
}

/// Every entity has the dimension of entity 0.
pub open spec fn same_dimension(data: Seq<Vec<i64>>) -> bool {
    forall|i: int| 0 <= i < data.len() ==> #[trigger] data[i]@.len() == data[0]@.len()
}

/// Index of the first entity whose dimension differs from entity 0's.
pub open spec fn is_first_odd_dimension(data: Seq<Vec<i64>>, k: int) -> bool {
    &&& 0 < k < data.len()
    &&& data[k]@.len() != data[0]@.len()
    &&& forall|i: int| 0 <= i < k ==> #[trigger] data[i]@.len() == data[0]@.len()
}

/// The distance-matrix cell owed at (p, q): the distance of the two vectors,
/// and exactly zero on the diagonal.
pub open spec fn expected_cell(data: Seq<Vec<i64>>, p: int, q: int) -> int {
    if p == q {
        0
    } else {
        dist(data[p]@, data[q]@)
    }
}

/// Squared distances of all pairs fit in 128 bits.
pub open spec fn distances_fit(data: Seq<Vec<i64>>) -> bool {
    forall|i: int, j: int|
        0 <= i < data.len() && 0 <= j < data.len() ==> #[trigger] sq_dist(data[i]@, data[j]@)
            <= u128::MAX
}

/// Builds the symmetric matrix of pairwise Euclidean distances between the
/// entities' score vectors, with zeros on the diagonal. Each pair with
/// `i < j` is computed once and written to both `[i][j]` and `[j][i]`.
pub fn create_similarity_matrix(data: &Vec<Vec<i64>>) -> (r: Result<DistanceMatrix, DistanceError>)
    requires
        data@.len() * data@.len() <= isize::MAX / 8,
        same_dimension(data@) ==> distances_fit(data@),
    ensures
        same_dimension(data@) <==> r is Ok,
        match r {
            Ok(m) => {
                &&& m@.len() == data@.len()
                &&& is_square(m@)
                &&& forall|i: int, j: int|
                    0 <= i < m@.len() && 0 <= j < m@.len() ==> {
                        &&& #[trigger] m@[i][j] == expected_cell(data@, i, j)
                        &&& m@[i][j] == dist(data@[i]@, data@[j]@)
                        &&& m@[i][j] == m@[j][i]
                    }
                &&& forall|i: int| 0 <= i < m@.len() ==> #[trigger] m@[i][i] == 0
            },
            Err(e) => exists|k: int|
                is_first_odd_dimension(data@, k) && e == (DistanceError::InconsistentDimension {
                    index: k as usize,
                }),
        },
{
    let n = data.len();
    let mut k: usize = 1;
    while k < n
        invariant
            n == data@.len(),
            1 <= k,
            forall|i: int| 0 <= i < k && i < n ==> #[trigger] data@[i]@.len() == data@[0]@.len(),
        decreases n - k,
    {
        if data[k].len() != data[0].len() {
            assert(is_first_odd_dimension(data@, k as int));
            return Err(DistanceError::InconsistentDimension { index: k });
        }
        k = k + 1;
    }
    assert(same_dimension(data@));
    let mut grid = grid_zeros(n);
    let mut i: usize = 0;
    while i < n
        invariant
            n == data@.len(),
            same_dimension(data@),
            distances_fit(data@),
            i <= n,
            grid_cells(grid).len() == n,
            is_square(grid_cells(grid)),
            forall|p: int, q: int|
                0 <= p < n && 0 <= q < n ==> #[trigger] grid_cells(grid)[p][q] == (if p < i
                    || q < i {
                    expected_cell(data@, p, q)
                } else {
                    0
                }),
        decreases n - i,
    {
        let mut j: usize = i + 1;
        while j < n
            invariant
                n == data@.len(),
                same_dimension(data@),
                distances_fit(data@),
                i < n,
                i + 1 <= j <= n,
                grid_cells(grid).len() == n,
                is_square(grid_cells(grid)),
                forall|p: int, q: int|
                    0 <= p < n && 0 <= q < n ==> #[trigger] grid_cells(grid)[p][q] == (if p < i
                        || q < i || (p == i && q < j) || (q == i && p < j) {
                        expected_cell(data@, p, q)
                    } else {
                        0
                    }),
            decreases n - j,
        {
            assert(data@[i as int]@.len() == data@[j as int]@.len());
            assert(sq_dist(data@[i as int]@, data@[j as int]@) <= u128::MAX);
            let d = distance_same_len(&data[i], &data[j]);
            proof {
                lemma_dist_symmetric_and_zero(data@[i as int]@, data@[j as int]@);
            }
            grid_set(&mut grid, i, j, d);
            grid_set(&mut grid, j, i, d);
            j = j + 1;
        }
        i = i + 1;
    }
    let m = DistanceMatrix { grid };
    proof {
        assert forall|p: int, q: int| 0 <= p < n && 0 <= q < n implies #[trigger] m@[p][q]
            == dist(data@[p]@, data@[q]@) && m@[p][q] == m@[q][p] by {
            lemma_dist_symmetric_and_zero(data@[p]@, data@[q]@);
            lemma_dist_symmetric_and_zero(data@[q]@, data@[p]@);
        }
    }
    Ok(m)
}

} // verus!
