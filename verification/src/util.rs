//! Grids shared by several solvers.

use vstd::prelude::*;
use crate::text::views;

verus! {

/// The length of the first row of `grid`, or zero if it has no row.
pub open spec fn width_of<T>(grid: Seq<Vec<T>>) -> nat {
    if grid.len() == 0 {
        0
    } else {
        grid[0]@.len()
    }
}

/// Every row of `grid` is as long as the first.
pub open spec fn rectangular<T>(grid: Seq<Vec<T>>) -> bool {
    forall|i: int| 0 <= i < grid.len() ==> (#[trigger] grid[i])@.len() == width_of(grid)
}

/// `turned` is `grid` turned by a quarter clockwise: its rows are the
/// columns of `grid`, each read from the bottom up.
pub open spec fn quarter_turn<T>(grid: Seq<Vec<T>>, turned: Seq<Vec<T>>) -> bool {
    &&& turned.len() == width_of(grid)
    &&& forall|c: int| 0 <= c < turned.len() ==> (#[trigger] turned[c])@.len() == grid.len()
    &&& forall|c: int, r: int|
        0 <= c < turned.len() && 0 <= r < grid.len() ==> (#[trigger] turned[c]@[r])
            == grid[grid.len() - 1 - r]@[c]
}

/// The rows of `cells` turned by a quarter clockwise: row `c` of the
/// result is column `c` of `cells`, read from the bottom up.
pub open spec fn turn<T>(cells: Seq<Seq<T>>) -> Seq<Seq<T>> {
    let width = if cells.len() == 0 {
        0
    } else {
        cells[0].len()
    };
    Seq::new(width, |c: int| Seq::new(cells.len(), |r: int| cells[cells.len() - 1 - r][c]))
}

/// A quarter turn of a grid is the turn of its rows.
pub proof fn lemma_quarter_turn<T>(grid: Seq<Vec<T>>, turned: Seq<Vec<T>>)
    requires
        quarter_turn(grid, turned),
    ensures
        views(turned) == turn(views(grid)),
{
    let a = views(turned);
    let b = turn(views(grid));
    assert(a.len() == b.len());
    assert forall|c: int| 0 <= c < a.len() implies a[c] == b[c] by {
        assert(turned[c]@.len() == grid.len());
        assert forall|r: int| 0 <= r < a[c].len() implies a[c][r] == b[c][r] by {
            assert(turned[c]@[r] == grid[grid.len() - 1 - r]@[c]);
        }
        assert(a[c] =~= b[c]);
    }
    assert(a =~= b);
}

/// Rotates 90 degrees clockwise; the grid must be a rectangle.
pub trait Rotate: Sized {
    /// Every row is as long as the first.
    spec fn is_rectangle(&self) -> bool;

    /// `self` is `before` turned by a quarter clockwise.
    spec fn is_turn_of(&self, before: &Self) -> bool;

    fn rotate(&self) -> (turned: Self)
        requires
            self.is_rectangle(),
        ensures
            turned.is_turn_of(self),
            turned.is_rectangle(),
    ;
}

impl<T: Copy> Rotate for Vec<Vec<T>> {
    open spec fn is_rectangle(&self) -> bool {
        rectangular(self@)
    }

    open spec fn is_turn_of(&self, before: &Self) -> bool {
        quarter_turn(before@, self@)
    }

    fn rotate(&self) -> (turned: Self) {
        let height = self.len();
        let width = if height == 0 {
            0
        } else {
            self[0].len()
        };
        let mut rotated: Vec<Vec<T>> = Vec::new();
        let mut col: usize = 0;
        while col < width
            invariant
                rectangular(self@),
                height == self@.len(),
                width == width_of(self@),
                col <= width,
                rotated@.len() == col,
                forall|c: int| 0 <= c < col ==> (#[trigger] rotated@[c])@.len() == height,
                forall|c: int, r: int|
                    0 <= c < col && 0 <= r < height ==> (#[trigger] rotated@[c]@[r]) == self@[height
                        - 1 - r]@[c],
            decreases width - col,
        {
            let mut new_row: Vec<T> = Vec::new();
            let mut taken: usize = 0;
            while taken < height
                invariant
                    rectangular(self@),
                    height == self@.len(),
                    width == width_of(self@),
                    col < width,
                    taken <= height,
                    new_row@.len() == taken,
                    forall|r: int| 0 <= r < taken ==> (#[trigger] new_row@[r]) == self@[height - 1 - r]@[col as int],
                decreases height - taken,
            {
                let row = height - 1 - taken;
                assert(self@[row as int]@.len() == width);
                new_row.push(self[row][col]);
                taken += 1;
            }
            rotated.push(new_row);
            col += 1;
        }
        rotated
    }
}

/// Whether every row of `grid` is as long as the first.
pub fn is_rectangular<T>(grid: &Vec<Vec<T>>) -> (r: bool)
    ensures
        r == rectangular(grid@),
{
    if grid.len() == 0 {
        return true;
    }
    let width = grid[0].len();
    let mut i: usize = 0;
    while i < grid.len()
        invariant
            grid@.len() > 0,
            width == width_of(grid@),
            i <= grid@.len(),
            forall|k: int| 0 <= k < i ==> (#[trigger] grid@[k])@.len() == width,
        decreases grid@.len() - i,
    {
        if grid[i].len() != width {
            return false;
        }
        i += 1;
    }
    true
}

} // verus!
