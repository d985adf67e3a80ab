use std::marker::PhantomData;
use vstd::arithmetic::div_mod::{lemma_fundamental_div_mod, lemma_mod_bound};
use vstd::prelude::*;

verus! {

/// The side lengths a board may have.
pub open spec fn is_board_size(n: nat) -> bool {
    n == 3 || n == 5 || n == 7 || n == 9 || n == 13 || n == 19
}

/// A board size known at compile time.
pub trait BoardSize {
    /// The side length `N` of the board.
    spec fn spec_size() -> nat;

    proof fn lemma_size_valid()
        ensures
            is_board_size(Self::spec_size()),
    ;

    fn size() -> (r: usize)
        ensures
            r as nat == Self::spec_size(),
            is_board_size(r as nat),
    ;
}

/// A board of 3×3 cells.
#[derive(Clone, Copy, Debug, PartialEq, Eq, PartialOrd, Ord, Hash)]
pub struct BoardSize3x3;

impl BoardSize for BoardSize3x3 {
    open spec fn spec_size() -> nat {
        3
    }

    proof fn lemma_size_valid() {
    }

    fn size() -> (r: usize) {
        3
    }
}

/// A board of 5×5 cells.
#[derive(Clone, Copy, Debug, PartialEq, Eq, PartialOrd, Ord, Hash)]
pub struct BoardSize5x5;

impl BoardSize for BoardSize5x5 {
    open spec fn spec_size() -> nat {
        5
    }

    proof fn lemma_size_valid() {
    }

    fn size() -> (r: usize) {
        5
    }
}

/// A board of 7×7 cells.
#[derive(Clone, Copy, Debug, PartialEq, Eq, PartialOrd, Ord, Hash)]
pub struct BoardSize7x7;

impl BoardSize for BoardSize7x7 {
    open spec fn spec_size() -> nat {
        7
    }

    proof fn lemma_size_valid() {
    }

    fn size() -> (r: usize) {
        7
    }
}

/// A board of 9×9 cells.
#[derive(Clone, Copy, Debug, PartialEq, Eq, PartialOrd, Ord, Hash)]
pub struct BoardSize9x9;

impl BoardSize for BoardSize9x9 {
    open spec fn spec_size() -> nat {
        9
    }

    proof fn lemma_size_valid() {
    }

    fn size() -> (r: usize) {
        9
    }
}

/// A board of 13×13 cells.
#[derive(Clone, Copy, Debug, PartialEq, Eq, PartialOrd, Ord, Hash)]
pub struct BoardSize13x13;

impl BoardSize for BoardSize13x13 {
    open spec fn spec_size() -> nat {
        13
    }

    proof fn lemma_size_valid() {
    }

    fn size() -> (r: usize) {
        13
    }
}

/// A board of 19×19 cells.
#[derive(Clone, Copy, Debug, PartialEq, Eq, PartialOrd, Ord, Hash)]
pub struct BoardSize19x19;

impl BoardSize for BoardSize19x19 {
    open spec fn spec_size() -> nat {
        19
    }

    proof fn lemma_size_valid() {
    }

    fn size() -> (r: usize) {
        19
    }
}

/// Number of cells `N·N` of a board of size `BS`.
pub open spec fn num_cells<BS: BoardSize>() -> nat {
    BS::spec_size() * BS::spec_size()
}

/// Bounds on the number of cells of any board.
pub proof fn lemma_num_cells_bound<BS: BoardSize>()
    ensures
        3 <= BS::spec_size() <= 19,
        9 <= num_cells::<BS>() <= 361,
{
    BS::lemma_size_valid();
}

/// The number of cells `N·N` of a board of size `BS`.
pub fn cell_count<BS: BoardSize>() -> (r: usize)
    ensures
        r == num_cells::<BS>(),
        9 <= r <= 361,
{
    proof {
        lemma_num_cells_bound::<BS>();
    }
    let n = BS::size();
    n * n
}

/// Column of the cell with index `i`.
pub open spec fn col<BS: BoardSize>(i: nat) -> nat {
    i % BS::spec_size()
}

/// Row of the cell with index `i`.
pub open spec fn row<BS: BoardSize>(i: nat) -> nat {
    i / BS::spec_size()
}

/// Index of the left neighbour of cell `i`, if it has one.
pub open spec fn left_of<BS: BoardSize>(i: nat) -> Option<nat> {
    if col::<BS>(i) > 0 { Some((i - 1) as nat) } else { None }
}

/// Index of the right neighbour of cell `i`, if it has one.
pub open spec fn right_of<BS: BoardSize>(i: nat) -> Option<nat> {
    if col::<BS>(i) + 1 < BS::spec_size() { Some(i + 1) } else { None }
}

/// Index of the upper neighbour of cell `i`, if it has one.
pub open spec fn up_of<BS: BoardSize>(i: nat) -> Option<nat> {
    if i >= BS::spec_size() { Some((i - BS::spec_size()) as nat) } else { None }
}

/// Index of the lower neighbour of cell `i`, if it has one.
pub open spec fn down_of<BS: BoardSize>(i: nat) -> Option<nat> {
    if i + BS::spec_size() < num_cells::<BS>() { Some(i + BS::spec_size()) } else { None }
}

/// Cells `i` and `j` share an edge.
pub open spec fn adjacent<BS: BoardSize>(i: nat, j: nat) -> bool {
    ||| left_of::<BS>(i) == Some(j)
    ||| right_of::<BS>(i) == Some(j)
    ||| up_of::<BS>(i) == Some(j)
    ||| down_of::<BS>(i) == Some(j)
}

/// Adjacency is symmetric.
pub proof fn lemma_adjacent_symmetric<BS: BoardSize>(i: nat, j: nat)
    requires
        i < num_cells::<BS>(),
        adjacent::<BS>(i, j),
    ensures
        adjacent::<BS>(j, i),
{
    let n = BS::spec_size();
    BS::lemma_size_valid();
    lemma_fundamental_div_mod(i as int, n as int);
    lemma_fundamental_div_mod(j as int, n as int);
    lemma_mod_bound(i as int, n as int);
    lemma_mod_bound(j as int, n as int);
    if left_of::<BS>(i) == Some(j) {
        assert(i == j + 1);
        lemma_col_step::<BS>(j);
    } else if right_of::<BS>(i) == Some(j) {
        lemma_col_step::<BS>(i);
    } else if up_of::<BS>(i) == Some(j) {
        lemma_below_bound::<BS>(i);
    }
}

/// The neighbours of a cell of the board lie on the board.
pub proof fn lemma_neighbours_on_board<BS: BoardSize>(i: nat)
    requires
        i < num_cells::<BS>(),
    ensures
        left_of::<BS>(i) matches Some(j) ==> j < num_cells::<BS>() && adjacent::<BS>(i, j),
        right_of::<BS>(i) matches Some(j) ==> j < num_cells::<BS>() && adjacent::<BS>(i, j),
        up_of::<BS>(i) matches Some(j) ==> j < num_cells::<BS>() && adjacent::<BS>(i, j),
        down_of::<BS>(i) matches Some(j) ==> j < num_cells::<BS>() && adjacent::<BS>(i, j),
{
    let n = BS::spec_size();
    BS::lemma_size_valid();
    lemma_fundamental_div_mod(i as int, n as int);
    lemma_mod_bound(i as int, n as int);
    if col::<BS>(i) + 1 < n {
        assert(i + 1 < n * n) by (nonlinear_arith)
            requires
                i < n * n,
                i == n * (i / n) + i % n,
                i % n + 1 < n,
                n > 0,
        ;
    }
}

/// Stepping right inside a row moves the column by one and keeps the row.
pub proof fn lemma_col_step<BS: BoardSize>(i: nat)
    requires
        col::<BS>(i) + 1 < BS::spec_size(),
    ensures
        col::<BS>(i + 1) == col::<BS>(i) + 1,
        row::<BS>(i + 1) == row::<BS>(i),
{
    let n = BS::spec_size() as int;
    BS::lemma_size_valid();
    lemma_fundamental_div_mod(i as int, n);
    let q = i as int / n;
    let r = i as int % n;
    assert(i + 1 == q * n + (r + 1));
    vstd::arithmetic::div_mod::lemma_fundamental_div_mod_converse(
        (i + 1) as int,
        n,
        q,
        r + 1,
    );
}

/// A cell of the board with an upper neighbour `i - N` lies inside the board below it.
pub proof fn lemma_below_bound<BS: BoardSize>(i: nat)
    requires
        i >= BS::spec_size(),
        i < num_cells::<BS>(),
    ensures
        (i - BS::spec_size()) + BS::spec_size() < num_cells::<BS>(),
{
}

/// A count of stones, or of groups, on a board of size `BS`.
#[derive(Debug, PartialEq, Eq, PartialOrd, Ord, Hash)]
pub struct NumStones<BS: BoardSize> {
    num: u16,
    size: PhantomData<BS>,
}

impl<BS: BoardSize> Clone for NumStones<BS> {
    fn clone(&self) -> Self {
        *self
    }
}

impl<BS: BoardSize> Copy for NumStones<BS> {

}

impl<BS: BoardSize> View for NumStones<BS> {
    type V = nat;

    closed spec fn view(&self) -> nat {
        self.num as nat
    }
}

impl<BS: BoardSize> NumStones<BS> {
    /// The largest count that can be held.
    pub open spec fn max_count() -> nat {
        u16::MAX as nat
    }

    /// No stones.
    pub fn zero() -> (r: Self)
        ensures
            r@ == 0,
    {
        NumStones { num: 0, size: PhantomData }
    }

    /// One stone.
    pub fn one() -> (r: Self)
        ensures
            r@ == 1,
    {
        NumStones { num: 1, size: PhantomData }
    }

    /// The count `num`.
    pub fn from_usize(num: usize) -> (r: Self)
        requires
            num <= Self::max_count(),
        ensures
            r@ == num,
    {
        NumStones { num: num as u16, size: PhantomData }
    }

    /// The count as a `usize`.
    pub fn into_usize(&self) -> (r: usize)
        ensures
            r == self@,
            r <= Self::max_count(),
    {
        self.num as usize
    }

    /// The sum of two counts.
    pub fn add(self, other: Self) -> (r: Self)
        requires
            self@ + other@ <= Self::max_count(),
        ensures
            r@ == self@ + other@,
    {
        NumStones { num: self.num + other.num, size: PhantomData }
    }

    /// The difference of two counts.
    pub fn sub(self, other: Self) -> (r: Self)
        requires
            other@ <= self@,
        ensures
            r@ == self@ - other@,
    {
        NumStones { num: self.num - other.num, size: PhantomData }
    }
}

/// A cell of a board of size `BS`, identified by its row-major index `y·N + x`.
#[derive(Debug, PartialEq, Eq, PartialOrd, Ord, Hash)]
pub struct Pos<BS: BoardSize> {
    index: NumStones<BS>,
}

impl<BS: BoardSize> Clone for Pos<BS> {
    fn clone(&self) -> Self {
        *self
    }
}

impl<BS: BoardSize> Copy for Pos<BS> {

}

impl<BS: BoardSize> View for Pos<BS> {
    type V = nat;

    closed spec fn view(&self) -> nat {
        self.index@
    }
}

impl<BS: BoardSize> Pos<BS> {
    #[verifier::type_invariant]
    closed spec fn inside(self) -> bool {
        self.index@ < num_cells::<BS>()
    }

    /// The cell in column `x` and row `y`.
    pub fn from_xy(x: usize, y: usize) -> (r: Self)
        requires
            x < BS::spec_size(),
            y < BS::spec_size(),
        ensures
            r@ == y * BS::spec_size() + x,
            col::<BS>(r@) == x,
            row::<BS>(r@) == y,
    {
        let n = BS::size();
        proof {
            lemma_num_cells_bound::<BS>();
            assert(y * n <= n * n) by (nonlinear_arith)
                requires
                    y < n,
            ;
            assert(y * n + x < n * n) by (nonlinear_arith)
                requires
                    x < n,
                    y < n,
            ;
            vstd::arithmetic::div_mod::lemma_fundamental_div_mod_converse(
                (y * n + x) as int,
                n as int,
                y as int,
                x as int,
            );
        }
        Self::from_index(y * n + x)
    }

    /// The cell with row-major index `index`.
    pub fn from_index(index: usize) -> (r: Self)
        requires
            index < num_cells::<BS>(),
        ensures
            r@ == index,
    {
        proof {
            BS::lemma_size_valid();
        }
        Pos { index: NumStones::from_usize(index) }
    }

    /// The row-major index `y·N + x`.
    pub fn index(&self) -> (r: usize)
        ensures
            r == self@,
            r < num_cells::<BS>(),
    {
        proof {
            use_type_invariant(self);
        }
        self.index.into_usize()
    }

    /// The column.
    pub fn x(&self) -> (r: usize)
        ensures
            r == col::<BS>(self@),
            r < BS::spec_size(),
    {
        let n = BS::size();
        let i = self.index();
        proof {
            lemma_mod_bound(i as int, n as int);
        }
        i % n
    }

    /// The row.
    pub fn y(&self) -> (r: usize)
        ensures
            r == row::<BS>(self@),
            r < BS::spec_size(),
    {
        let n = BS::size();
        let i = self.index();
        proof {
            lemma_fundamental_div_mod(i as int, n as int);
            lemma_mod_bound(i as int, n as int);
            assert(i / n < n) by (nonlinear_arith)
                requires
                    i < n * n,
                    i == n * (i / n) + i % n,
                    0 <= i % n,
                    n > 0,
            ;
        }
        i / n
    }

    /// The neighbour to the left, if any.
    pub fn left(&self) -> (r: Option<Self>)
        ensures
            r matches Some(p) ==> left_of::<BS>(self@) == Some(p@) && p@ + 1 == self@,
            r is None ==> left_of::<BS>(self@) is None,
    {
        let i = self.index();
        proof {
            if i == 0 {
                vstd::arithmetic::div_mod::lemma_small_mod(0, BS::spec_size());
            }
        }
        if self.x() > 0 {
            Some(Self::from_index(i - 1))
        } else {
            None
        }
    }

    /// The neighbour to the right, if any.
    pub fn right(&self) -> (r: Option<Self>)
        ensures
            r matches Some(p) ==> right_of::<BS>(self@) == Some(p@),
            r is None ==> right_of::<BS>(self@) is None,
    {
        let n = BS::size();
        let i = self.index();
        if self.x() + 1 < n {
            proof {
                lemma_fundamental_div_mod(i as int, n as int);
                lemma_mod_bound(i as int, n as int);
                assert(i + 1 < n * n) by (nonlinear_arith)
                    requires
                        i < n * n,
                        i == n * (i / n) + i % n,
                        i % n + 1 < n,
                        n > 0,
                ;
            }
            Some(Self::from_index(i + 1))
        } else {
            None
        }
    }

    /// The neighbour above, if any.
    pub fn up(&self) -> (r: Option<Self>)
        ensures
            r matches Some(p) ==> up_of::<BS>(self@) == Some(p@) && p@ + BS::spec_size() == self@,
            r is None ==> up_of::<BS>(self@) is None,
    {
        let n = BS::size();
        let i = self.index();
        if i >= n {
            Some(Self::from_index(i - n))
        } else {
            None
        }
    }

    /// The neighbour below, if any.
    pub fn down(&self) -> (r: Option<Self>)
        ensures
            r matches Some(p) ==> down_of::<BS>(self@) == Some(p@),
            r is None ==> down_of::<BS>(self@) is None,
    {
        let n = BS::size();
        let i = self.index();
        if i + n < cell_count::<BS>() {
            Some(Self::from_index(i + n))
        } else {
            None
        }
    }

    /// Every position of the board, in row-major order.
    pub fn all_positions() -> (r: Vec<Self>)
        ensures
            r@.len() == num_cells::<BS>(),
            forall|i: int| 0 <= i < r@.len() ==> (#[trigger] r@[i])@ == i,
    {
        let total = cell_count::<BS>();
        let mut r: Vec<Self> = Vec::new();
        let mut i: usize = 0;
        while i < total
            invariant
                total == num_cells::<BS>(),
                i <= total,
                r@.len() == i,
                forall|k: int| 0 <= k < r@.len() ==> (#[trigger] r@[k])@ == k,
            decreases total - i,
        {
            r.push(Self::from_index(i));
            i = i + 1;
        }
        r
    }
}

} // verus!
