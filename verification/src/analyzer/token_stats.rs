//! The statistics of a token, or of many: per logged pair of actor and
//! product, the time spent there, and per pair and time bin, the entries
//! and the presence.  The numbers are kept in `ndarray` arrays.

use vstd::prelude::*;

verus! {

/// A row of counters, kept in a one-dimensional `ndarray` array.
#[verifier::external_body]
pub struct Tally {
    cells: ndarray::Array1<u128>,
}

/// A table of counters, kept in a two-dimensional `ndarray` array.
#[verifier::external_body]
pub struct Grid {
    cells: ndarray::Array2<u128>,
}

/// The counters of a tally, in order.
pub uninterp spec fn tally_cells(tally: Tally) -> Seq<u128>;

/// The counters of a grid, row by row.
pub uninterp spec fn grid_cells(grid: Grid) -> Seq<Seq<u128>>;

/// The length of the rows that a grid was made with.
pub uninterp spec fn grid_width(grid: Grid) -> nat;

/// Arrays of `rows` counters and of `rows` by `cols` counters can be made:
/// no length and no size in bytes is beyond `isize::MAX`.
pub open spec fn can_hold(rows: usize, cols: usize) -> bool {
    &&& rows * 16 <= isize::MAX
    &&& cols <= isize::MAX
    &&& rows * cols * 16 <= isize::MAX
}

/// The grid has `rows` rows of `cols` counters.
pub open spec fn grid_shaped(grid: Grid, rows: nat, cols: nat) -> bool {
    &&& grid_cells(grid).len() == rows
    &&& grid_width(grid) == cols
    &&& forall|r: int| 0 <= r < rows ==> (#[trigger] grid_cells(grid)[r]).len() == cols
}

impl Tally {
    /// Calls `ndarray::Array1::zeros`: the result has `len` counters, all 0.
    #[verifier::external_body]
    pub(crate) fn zeros(len: usize) -> (tally: Tally)
        requires
            len * 16 <= isize::MAX,
        ensures
            tally_cells(tally) == Seq::new(len as nat, |i: int| 0u128),
    {
        Tally { cells: ndarray::Array1::zeros(len) }
    }

    /// Calls `len`: the number of counters.
    #[verifier::external_body]
    pub(crate) fn len(&self) -> (len: usize)
        ensures
            len == tally_cells(*self).len(),
    {
        self.cells.len()
    }

    /// Reads counter `i` through the array's `Index` impl.
    #[verifier::external_body]
    pub(crate) fn get(&self, i: usize) -> (value: u128)
        requires
            i < tally_cells(*self).len(),
        ensures
            value == tally_cells(*self)[i as int],
    {
        self.cells[i]
    }

    /// Writes counter `i` through the array's `IndexMut` impl: that counter
    /// is `value` afterwards, the others are as they were.
    #[verifier::external_body]
    pub(crate) fn set(&mut self, i: usize, value: u128)
        requires
            i < tally_cells(*old(self)).len(),
        ensures
            tally_cells(*final(self)) == tally_cells(*old(self)).update(i as int, value),
    {
        self.cells[i] = value;
    }

    /// Calls the `Add` impl of two arrays: each counter of the result is
    /// the sum of the two counters at its place.
    #[verifier::external_body]
    pub(crate) fn plus(self, other: Tally) -> (sum: Tally)
        requires
            tally_cells(self).len() == tally_cells(other).len(),
            forall|i: int|
                0 <= i < tally_cells(self).len() ==> tally_cells(self)[i] + tally_cells(other)[i]
                    <= u128::MAX,
        ensures
            tally_cells(sum).len() == tally_cells(self).len(),
            forall|i: int|
                0 <= i < tally_cells(self).len() ==> (#[trigger] tally_cells(sum)[i])
                    == tally_cells(self)[i] + tally_cells(other)[i],
    {
        Tally { cells: self.cells + other.cells }
    }
}

impl Grid {
    /// Calls `ndarray::Array2::zeros`: the result has `rows` rows of `cols`
    /// counters, all 0.
    #[verifier::external_body]
    pub(crate) fn zeros(rows: usize, cols: usize) -> (grid: Grid)
        requires
            can_hold(rows, cols),
        ensures
            grid_shaped(grid, rows as nat, cols as nat),
            forall|r: int, c: int|
                0 <= r < rows && 0 <= c < cols ==> (#[trigger] grid_cells(grid)[r][c]) == 0,
    {
        Grid { cells: ndarray::Array2::zeros((rows, cols)) }
    }

    /// Calls `dim`: the number of rows and the length of the rows.
    #[verifier::external_body]
    pub(crate) fn dim(&self) -> (dim: (usize, usize))
        ensures
            grid_shaped(*self, dim.0 as nat, dim.1 as nat),
    {
        self.cells.dim()
    }

    /// Reads the counter at row `r`, column `c` through the array's `Index` impl.
    #[verifier::external_body]
    pub(crate) fn get(&self, r: usize, c: usize) -> (value: u128)
        requires
            r < grid_cells(*self).len(),
            c < grid_cells(*self)[r as int].len(),
        ensures
            value == grid_cells(*self)[r as int][c as int],
    {
        self.cells[[r, c]]
    }

    /// Writes the counter at row `r`, column `c` through the array's
    /// `IndexMut` impl: that counter is `value` afterwards, the others and
    /// the shape are as they were.
    #[verifier::external_body]
    pub(crate) fn set(&mut self, r: usize, c: usize, value: u128)
        requires
            r < grid_cells(*old(self)).len(),
            c < grid_cells(*old(self))[r as int].len(),
        ensures
            grid_width(*final(self)) == grid_width(*old(self)),
            grid_cells(*final(self)) == grid_cells(*old(self)).update(
                r as int,
                grid_cells(*old(self))[r as int].update(c as int, value),
            ),
    {
        self.cells[[r, c]] = value;
    }

    /// Calls `row_mut` and `slice_axis_mut`, and the `AddAssign` impl of
    /// the slice with a scalar: `amount` is added to the counters of row
    /// `r` from column `from` up to, not including, column `to`; the others
    /// and the shape are as they were.
    #[verifier::external_body]
    pub(crate) fn add_to_range(&mut self, r: usize, from: usize, to: usize, amount: u128)
        requires
            r < grid_cells(*old(self)).len(),
            from <= to <= grid_cells(*old(self))[r as int].len(),
            to <= isize::MAX,
            forall|c: int| from <= c < to ==> grid_cells(*old(self))[r as int][c] + amount <= u128::MAX,
        ensures
            grid_width(*final(self)) == grid_width(*old(self)),
            grid_cells(*final(self)).len() == grid_cells(*old(self)).len(),
            forall|x: int|
                0 <= x < grid_cells(*old(self)).len() && x != r ==> (#[trigger] grid_cells(
                    *final(self),
                )[x]) == grid_cells(*old(self))[x],
            grid_cells(*final(self))[r as int].len() == grid_cells(*old(self))[r as int].len(),
            forall|c: int|
                0 <= c < grid_cells(*old(self))[r as int].len() ==> (#[trigger] grid_cells(
                    *final(self),
                )[r as int][c]) == grid_cells(*old(self))[r as int][c] + (if from <= c < to {
                    amount as int
                } else {
                    0
                }),
    {
        let mut row = self.cells.row_mut(r);
        let mut span = row.slice_axis_mut(ndarray::Axis(0), ndarray::Slice::from(from..to));
        span += amount;
    }

    /// Calls the `Add` impl of two arrays: each counter of the result is
    /// the sum of the two counters at its place.
    #[verifier::external_body]
    pub(crate) fn plus(self, other: Grid) -> (sum: Grid)
        requires
            grid_cells(self).len() == grid_cells(other).len(),
            grid_width(self) == grid_width(other),
            forall|r: int|
                0 <= r < grid_cells(self).len() ==> (#[trigger] grid_cells(self)[r]).len()
                    == grid_width(self) && (#[trigger] grid_cells(other)[r]).len() == grid_width(
                    self,
                ),
            forall|r: int, c: int|
                0 <= r < grid_cells(self).len() && 0 <= c < grid_width(self) ==> grid_cells(
                    self,
                )[r][c] + grid_cells(other)[r][c] <= u128::MAX,
        ensures
            grid_shaped(sum, grid_cells(self).len(), grid_width(self)),
            forall|r: int, c: int|
                0 <= r < grid_cells(self).len() && 0 <= c < grid_width(self) ==> (
                #[trigger] grid_cells(sum)[r][c]) == grid_cells(self)[r][c] + grid_cells(
                    other,
                )[r][c],
    {
        Grid { cells: self.cells + other.cells }
    }
}

/// The statistics of tokens.  With a row per logged pair of actor and
/// product and a column per time bin: the time spent at each pair, its
/// square, the entries at each pair in each bin, and the presence at each
/// pair in each bin.  The counters have 128 bits, so that the sums over
/// any number of tokens that a vector can hold stay within them.
pub struct TokenStats {
    pub lifetimes: Tally,
    pub lifetimes_sq: Tally,
    pub reentrances: Grid,
    pub occupancies: Grid,
}

/// The mathematical value of a [`TokenStats`].
pub struct StatsView {
    pub lifetimes: Seq<nat>,
    pub lifetimes_sq: Seq<nat>,
    pub reentrances: Seq<Seq<nat>>,
    pub occupancies: Seq<Seq<nat>>,
}

/// A row of counters as numbers.
pub open spec fn row_numbers(cells: Seq<u128>) -> Seq<nat> {
    Seq::new(cells.len(), |i: int| cells[i] as nat)
}

/// A table of counters as numbers.
pub open spec fn table_numbers(cells: Seq<Seq<u128>>) -> Seq<Seq<nat>> {
    Seq::new(cells.len(), |r: int| row_numbers(cells[r]))
}

/// The sum of two rows of numbers, place by place.
pub open spec fn row_sum(a: Seq<nat>, b: Seq<nat>) -> Seq<nat> {
    Seq::new(a.len(), |i: int| a[i] + b[i])
}

/// The sum of two tables of numbers, place by place.
pub open spec fn table_sum(a: Seq<Seq<nat>>, b: Seq<Seq<nat>>) -> Seq<Seq<nat>> {
    Seq::new(a.len(), |r: int| row_sum(a[r], b[r]))
}

impl StatsView {
    /// The statistics have `rows` rows and `cols` time bins.
    pub open spec fn shaped(self, rows: nat, cols: nat) -> bool {
        &&& self.lifetimes.len() == rows
        &&& self.lifetimes_sq.len() == rows
        &&& self.reentrances.len() == rows
        &&& self.occupancies.len() == rows
        &&& forall|r: int| 0 <= r < rows ==> (#[trigger] self.reentrances[r]).len() == cols
        &&& forall|r: int| 0 <= r < rows ==> (#[trigger] self.occupancies[r]).len() == cols
    }

    /// The statistics of no token.
    pub open spec fn zeros(rows: nat, cols: nat) -> StatsView {
        StatsView {
            lifetimes: Seq::new(rows, |r: int| 0nat),
            lifetimes_sq: Seq::new(rows, |r: int| 0nat),
            reentrances: Seq::new(rows, |r: int| Seq::new(cols, |c: int| 0nat)),
            occupancies: Seq::new(rows, |r: int| Seq::new(cols, |c: int| 0nat)),
        }
    }

    /// The sum of two statistics, number by number.
    pub open spec fn plus(self, other: StatsView) -> StatsView {
        StatsView {
            lifetimes: row_sum(self.lifetimes, other.lifetimes),
            lifetimes_sq: row_sum(self.lifetimes_sq, other.lifetimes_sq),
            reentrances: table_sum(self.reentrances, other.reentrances),
            occupancies: table_sum(self.occupancies, other.occupancies),
        }
    }

    /// Every number of the sum with `other` fits a counter.
    pub open spec fn can_add(self, other: StatsView) -> bool {
        &&& forall|r: int|
            0 <= r < self.lifetimes.len() ==> self.lifetimes[r] + other.lifetimes[r] <= u128::MAX
        &&& forall|r: int|
            0 <= r < self.lifetimes_sq.len() ==> self.lifetimes_sq[r] + other.lifetimes_sq[r]
                <= u128::MAX
        &&& forall|r: int, c: int|
            0 <= r < self.reentrances.len() && 0 <= c < self.reentrances[r].len()
                ==> self.reentrances[r][c] + other.reentrances[r][c] <= u128::MAX
        &&& forall|r: int, c: int|
            0 <= r < self.occupancies.len() && 0 <= c < self.occupancies[r].len()
                ==> self.occupancies[r][c] + other.occupancies[r][c] <= u128::MAX
    }
}

/// Adding the statistics of no token changes nothing.
pub proof fn lemma_plus_zeros(a: StatsView, rows: nat, cols: nat)
    requires
        a.shaped(rows, cols),
    ensures
        a.plus(StatsView::zeros(rows, cols)) == a,
        StatsView::zeros(rows, cols).plus(a) == a,
        StatsView::zeros(rows, cols).shaped(rows, cols),
{
    let zeros = StatsView::zeros(rows, cols);
    let left = a.plus(zeros);
    let right = zeros.plus(a);
    assert(left.lifetimes =~= a.lifetimes);
    assert(left.lifetimes_sq =~= a.lifetimes_sq);
    assert(right.lifetimes =~= a.lifetimes);
    assert(right.lifetimes_sq =~= a.lifetimes_sq);
    assert forall|r: int| 0 <= r < rows implies left.reentrances[r] == a.reentrances[r]
        && right.reentrances[r] == a.reentrances[r] && left.occupancies[r] == a.occupancies[r]
        && right.occupancies[r] == a.occupancies[r] by {
        assert(left.reentrances[r] =~= a.reentrances[r]);
        assert(right.reentrances[r] =~= a.reentrances[r]);
        assert(left.occupancies[r] =~= a.occupancies[r]);
        assert(right.occupancies[r] =~= a.occupancies[r]);
    }
    assert(left.reentrances =~= a.reentrances);
    assert(right.reentrances =~= a.reentrances);
    assert(left.occupancies =~= a.occupancies);
    assert(right.occupancies =~= a.occupancies);
}

/// Adding statistics of one shape is associative: it does not matter
/// which two of three are added first.
pub proof fn lemma_plus_associative(
    a: StatsView,
    b: StatsView,
    c: StatsView,
    rows: nat,
    cols: nat,
)
    requires
        a.shaped(rows, cols),
        b.shaped(rows, cols),
        c.shaped(rows, cols),
    ensures
        a.plus(b).plus(c) == a.plus(b.plus(c)),
{
    let left = a.plus(b).plus(c);
    let right = a.plus(b.plus(c));
    assert(left.lifetimes =~= right.lifetimes);
    assert(left.lifetimes_sq =~= right.lifetimes_sq);
    assert forall|r: int| 0 <= r < rows implies left.reentrances[r] == right.reentrances[r]
        && left.occupancies[r] == right.occupancies[r] by {
        assert(left.reentrances[r] =~= right.reentrances[r]);
        assert(left.occupancies[r] =~= right.occupancies[r]);
    }
    assert(left.reentrances =~= right.reentrances);
    assert(left.occupancies =~= right.occupancies);
}

/// Adding statistics of one shape is commutative.
pub proof fn lemma_plus_commutative(a: StatsView, b: StatsView, rows: nat, cols: nat)
    requires
        a.shaped(rows, cols),
        b.shaped(rows, cols),
    ensures
        a.plus(b) == b.plus(a),
{
    let left = a.plus(b);
    let right = b.plus(a);
    assert(left.lifetimes =~= right.lifetimes);
    assert(left.lifetimes_sq =~= right.lifetimes_sq);
    assert forall|r: int| 0 <= r < rows implies left.reentrances[r] == right.reentrances[r]
        && left.occupancies[r] == right.occupancies[r] by {
        assert(left.reentrances[r] =~= right.reentrances[r]);
        assert(left.occupancies[r] =~= right.occupancies[r]);
    }
    assert(left.reentrances =~= right.reentrances);
    assert(left.occupancies =~= right.occupancies);
}

impl View for TokenStats {
    type V = StatsView;

    open spec fn view(&self) -> StatsView {
        StatsView {
            lifetimes: row_numbers(tally_cells(self.lifetimes)),
            lifetimes_sq: row_numbers(tally_cells(self.lifetimes_sq)),
            reentrances: table_numbers(grid_cells(self.reentrances)),
            occupancies: table_numbers(grid_cells(self.occupancies)),
        }
    }
}

impl TokenStats {
    /// The statistics have `rows` rows and `cols` time bins, in every part.
    pub open spec fn shaped(&self, rows: nat, cols: nat) -> bool {
        &&& tally_cells(self.lifetimes).len() == rows
        &&& tally_cells(self.lifetimes_sq).len() == rows
        &&& grid_shaped(self.reentrances, rows, cols)
        &&& grid_shaped(self.occupancies, rows, cols)
    }

    /// The number of rows.
    pub open spec fn rows(&self) -> nat {
        tally_cells(self.lifetimes).len()
    }

    /// The number of time bins.
    pub open spec fn cols(&self) -> nat {
        grid_width(self.reentrances)
    }

    /// All parts have the same rows and time bins.
    pub open spec fn wf(&self) -> bool {
        self.shaped(self.rows(), self.cols())
    }

    /// The sum of two statistics of one shape, number by number.
    pub fn accumulate(self, other: Self) -> (sum: Self)
        requires
            self.wf(),
            other.shaped(self.rows(), self.cols()),
            self@.can_add(other@),
        ensures
            sum.shaped(self.rows(), self.cols()),
            sum@ == self@.plus(other@),
    {
        let ghost rows = self.rows();
        let ghost cols = self.cols();
        let ghost a = self@;
        let ghost b = other@;
        proof {
            assert forall|r: int| 0 <= r < rows implies tally_cells(self.lifetimes)[r]
                + tally_cells(other.lifetimes)[r] <= u128::MAX by {
                assert(a.lifetimes[r] + b.lifetimes[r] <= u128::MAX);
            }
            assert forall|r: int| 0 <= r < rows implies tally_cells(self.lifetimes_sq)[r]
                + tally_cells(other.lifetimes_sq)[r] <= u128::MAX by {
                assert(a.lifetimes_sq[r] + b.lifetimes_sq[r] <= u128::MAX);
            }
            assert forall|r: int, c: int| 0 <= r < rows && 0 <= c < cols implies grid_cells(
                self.reentrances,
            )[r][c] + grid_cells(other.reentrances)[r][c] <= u128::MAX by {
                assert(a.reentrances[r][c] + b.reentrances[r][c] <= u128::MAX);
            }
            assert forall|r: int, c: int| 0 <= r < rows && 0 <= c < cols implies grid_cells(
                self.occupancies,
            )[r][c] + grid_cells(other.occupancies)[r][c] <= u128::MAX by {
                assert(a.occupancies[r][c] + b.occupancies[r][c] <= u128::MAX);
            }
        }
        let sum = TokenStats {
            lifetimes: self.lifetimes.plus(other.lifetimes),
            lifetimes_sq: self.lifetimes_sq.plus(other.lifetimes_sq),
            reentrances: self.reentrances.plus(other.reentrances),
            occupancies: self.occupancies.plus(other.occupancies),
        };
        proof {
            let want = a.plus(b);
            assert(sum@.lifetimes =~= want.lifetimes);
            assert(sum@.lifetimes_sq =~= want.lifetimes_sq);
            assert forall|r: int| 0 <= r < rows implies sum@.reentrances[r]
                == want.reentrances[r] by {
                assert(sum@.reentrances[r] =~= want.reentrances[r]);
            }
            assert(sum@.reentrances =~= want.reentrances);
            assert forall|r: int| 0 <= r < rows implies sum@.occupancies[r]
                == want.occupancies[r] by {
                assert(sum@.occupancies[r] =~= want.occupancies[r]);
            }
            assert(sum@.occupancies =~= want.occupancies);
        }
        sum
    }

    /// Whether the statistics are well-formed and `other` has their shape.
    pub fn same_shape(&self, other: &Self) -> (yes: bool)
        ensures
            yes == (self.wf() && other.shaped(self.rows(), self.cols())),
    {
        let rows = self.lifetimes.len();
        let (entry_rows, cols) = self.reentrances.dim();
        let (presence_rows, presence_cols) = self.occupancies.dim();
        let (other_entry_rows, other_entry_cols) = other.reentrances.dim();
        let (other_presence_rows, other_presence_cols) = other.occupancies.dim();
        self.lifetimes_sq.len() == rows && entry_rows == rows && presence_rows == rows
            && presence_cols == cols && other.lifetimes.len() == rows && other.lifetimes_sq.len()
            == rows && other_entry_rows == rows && other_entry_cols == cols && other_presence_rows
            == rows && other_presence_cols == cols
    }

    /// Whether every number of the sum with `other` fits a counter.
    pub fn fits_with(&self, other: &Self) -> (yes: bool)
        requires
            self.wf(),
            other.shaped(self.rows(), self.cols()),
        ensures
            yes == self@.can_add(other@),
    {
        let rows = self.lifetimes.len();
        let (_, cols) = self.reentrances.dim();
        let ghost a = self@;
        let ghost b = other@;
        let mut r: usize = 0;
        while r < rows
            invariant
                r <= rows,
                rows == self.rows(),
                cols == self.cols(),
                self.wf(),
                other.shaped(self.rows(), self.cols()),
                a == self@,
                b == other@,
                forall|x: int| 0 <= x < r ==> a.lifetimes[x] + b.lifetimes[x] <= u128::MAX,
                forall|x: int| 0 <= x < r ==> a.lifetimes_sq[x] + b.lifetimes_sq[x] <= u128::MAX,
                forall|x: int, c: int|
                    0 <= x < r && 0 <= c < cols ==> a.reentrances[x][c] + b.reentrances[x][c]
                        <= u128::MAX,
                forall|x: int, c: int|
                    0 <= x < r && 0 <= c < cols ==> a.occupancies[x][c] + b.occupancies[x][c]
                        <= u128::MAX,
            decreases rows - r,
        {
            if self.lifetimes.get(r) > u128::MAX - other.lifetimes.get(r) {
                assert(a.lifetimes[r as int] + b.lifetimes[r as int] > u128::MAX);
                return false;
            }
            if self.lifetimes_sq.get(r) > u128::MAX - other.lifetimes_sq.get(r) {
                assert(a.lifetimes_sq[r as int] + b.lifetimes_sq[r as int] > u128::MAX);
                return false;
            }
            let mut c: usize = 0;
            while c < cols
                invariant
                    r < rows,
                    c <= cols,
                    rows == self.rows(),
                    cols == self.cols(),
                    self.wf(),
                    other.shaped(self.rows(), self.cols()),
                    a == self@,
                    b == other@,
                    forall|k: int|
                        0 <= k < c ==> a.reentrances[r as int][k] + b.reentrances[r as int][k]
                            <= u128::MAX,
                    forall|k: int|
                        0 <= k < c ==> a.occupancies[r as int][k] + b.occupancies[r as int][k]
                            <= u128::MAX,
                decreases cols - c,
            {
                if self.reentrances.get(r, c) > u128::MAX - other.reentrances.get(r, c) {
                    assert(a.reentrances[r as int][c as int] + b.reentrances[r as int][c as int]
                        > u128::MAX);
                    return false;
                }
                if self.occupancies.get(r, c) > u128::MAX - other.occupancies.get(r, c) {
                    assert(a.occupancies[r as int][c as int] + b.occupancies[r as int][c as int]
                        > u128::MAX);
                    return false;
                }
                c += 1;
            }
            r += 1;
        }
        true
    }

    /// The sum of two statistics, number by number, where there is one:
    /// where the two are well-formed and of one shape, and every number
    /// of the sum fits a counter.
    pub fn checked_accumulate(self, other: Self) -> (sum: Option<Self>)
        ensures
            sum is Some <==> self.wf() && other.shaped(self.rows(), self.cols())
                && self@.can_add(other@),
            sum matches Some(stats) ==> stats.shaped(self.rows(), self.cols()) && stats@
                == self@.plus(other@),
    {
        if !self.same_shape(&other) {
            return None;
        }
        if !self.fits_with(&other) {
            return None;
        }
        Some(self.accumulate(other))
    }

    /// The time that the tokens spent at the pair of row `row`, if there is such a row.
    pub fn lifetime(&self, row: usize) -> (value: Option<u128>)
        ensures
            value == (if row < self@.lifetimes.len() {
                Some(self@.lifetimes[row as int] as u128)
            } else {
                None
            }),
    {
        if row < self.lifetimes.len() {
            Some(self.lifetimes.get(row))
        } else {
            None
        }
    }

    /// The sum, over the tokens, of the square of the time that each spent
    /// at the pair of row `row`, if there is such a row.
    pub fn lifetime_sq(&self, row: usize) -> (value: Option<u128>)
        ensures
            value == (if row < self@.lifetimes_sq.len() {
                Some(self@.lifetimes_sq[row as int] as u128)
            } else {
                None
            }),
    {
        if row < self.lifetimes_sq.len() {
            Some(self.lifetimes_sq.get(row))
        } else {
            None
        }
    }

    /// The number of entries at the pair of row `row` in time bin `bin`,
    /// if there are such a row and such a bin.
    pub fn reentrance(&self, row: usize, bin: usize) -> (value: Option<u128>)
        ensures
            value == (if row < self@.reentrances.len() && bin < self@.reentrances[row as int].len() {
                Some(self@.reentrances[row as int][bin as int] as u128)
            } else {
                None
            }),
    {
        let (rows, cols) = self.reentrances.dim();
        if row < rows && bin < cols {
            Some(self.reentrances.get(row, bin))
        } else {
            None
        }
    }

    /// The number of tokens present at the pair of row `row` in time bin
    /// `bin`, if there are such a row and such a bin.
    pub fn occupancy(&self, row: usize, bin: usize) -> (value: Option<u128>)
        ensures
            value == (if row < self@.occupancies.len() && bin < self@.occupancies[row as int].len() {
                Some(self@.occupancies[row as int][bin as int] as u128)
            } else {
                None
            }),
    {
        let (rows, cols) = self.occupancies.dim();
        if row < rows && bin < cols {
            Some(self.occupancies.get(row, bin))
        } else {
            None
        }
    }

    /// The statistics of no token, for `process_count` pairs and `max_time` bins.
    pub fn zeros(process_count: usize, max_time: usize) -> (stats: Self)
        requires
            can_hold(process_count, max_time),
        ensures
            stats.shaped(process_count as nat, max_time as nat),
            stats@ == StatsView::zeros(process_count as nat, max_time as nat),
    {
        let stats = TokenStats {
            lifetimes: Tally::zeros(process_count),
            lifetimes_sq: Tally::zeros(process_count),
            reentrances: Grid::zeros(process_count, max_time),
            occupancies: Grid::zeros(process_count, max_time),
        };
        proof {
            let want = StatsView::zeros(process_count as nat, max_time as nat);
            assert(stats@.lifetimes =~= want.lifetimes);
            assert(stats@.lifetimes_sq =~= want.lifetimes_sq);
            assert forall|r: int| 0 <= r < process_count implies stats@.reentrances[r]
                == want.reentrances[r] by {
                assert(stats@.reentrances[r] =~= want.reentrances[r]);
            }
            assert(stats@.reentrances =~= want.reentrances);
            assert forall|r: int| 0 <= r < process_count implies stats@.occupancies[r]
                == want.occupancies[r] by {
                assert(stats@.occupancies[r] =~= want.occupancies[r]);
            }
            assert(stats@.occupancies =~= want.occupancies);
        }
        stats
    }
}

} // verus!
