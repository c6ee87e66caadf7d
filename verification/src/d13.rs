//! Patterns of ash and rock: each has a line of reflection between two
//! rows or two columns; part two looks for the line that one smudge fixes.

use vstd::prelude::*;
use crate::util::Rotate;
use vstd::string::StringSliceAdditionalSpecFns;
use crate::text::{views, lines, split_lines, copy_range};
use crate::util::{rectangular, is_rectangular, turn, lemma_quarter_turn, width_of};

verus! {

#[derive(Debug, PartialEq, Eq, Clone, Copy)]
pub enum Reflection {
    Row(usize),
    Col(usize),
}

/// In how many of the first `k` places, counted within both rows, the two
/// rows differ.
pub open spec fn row_diff(left: Seq<u8>, right: Seq<u8>, k: nat) -> nat
    decreases k,
{
    if k == 0 {
        0
    } else {
        row_diff(left, right, (k - 1) as nat) + if k <= left.len() && k <= right.len() && left[k
            - 1] != right[k - 1] {
            1nat
        } else {
            0nat
        }
    }
}

/// The smaller of two lengths.
pub open spec fn shorter(a: nat, b: nat) -> nat {
    if a <= b {
        a
    } else {
        b
    }
}

/// How many cells differ from their mirror image when the pattern is
/// folded between row `i - 1` and row `i`, counting the first `k` pairs of
/// rows outward from the fold.
pub open spec fn fold_diff(cells: Seq<Seq<u8>>, i: int, k: nat) -> nat
    decreases k,
{
    if k == 0 {
        0
    } else {
        fold_diff(cells, i, (k - 1) as nat) + row_diff(
            cells[i - k],
            cells[i + k - 1],
            shorter(cells[i - k].len(), cells[i + k - 1].len()),
        )
    }
}

/// How many cells differ from their mirror image when the pattern is
/// folded between row `i - 1` and row `i`.
pub open spec fn mismatches(cells: Seq<Seq<u8>>, i: int) -> nat {
    fold_diff(cells, i, shorter(i as nat, (cells.len() - i) as nat))
}

/// The first fold between rows, from `from` on, with exactly `diff`
/// mismatches.
pub open spec fn first_fold(cells: Seq<Seq<u8>>, diff: nat, from: int) -> Option<int>
    decreases cells.len() - from,
{
    if from < 1 || from >= cells.len() {
        None
    } else if mismatches(cells, from) == diff {
        Some(from)
    } else {
        first_fold(cells, diff, from + 1)
    }
}

/// The line of reflection with exactly `diff` mismatches: the first such
/// fold between rows, or else the first between columns.
pub open spec fn reflection_spec(cells: Seq<Seq<u8>>, diff: nat) -> Option<Reflection> {
    match first_fold(cells, diff, 1) {
        Some(i) => Some(Reflection::Row(i as usize)),
        None => match first_fold(turn(cells), diff, 1) {
            Some(i) => Some(Reflection::Col(i as usize)),
            None => None,
        },
    }
}

/// Every row is as long as the first.
pub open spec fn even_rows(cells: Seq<Seq<u8>>) -> bool {
    forall|i: int| 0 <= i < cells.len() ==> (#[trigger] cells[i]).len() == cells[0].len()
}

/// The rows of each pattern.
pub open spec fn pattern_rows(patterns: Seq<Vec<Vec<u8>>>) -> Seq<Seq<Seq<u8>>> {
    Seq::new(patterns.len(), |i: int| views(patterns[i]@))
}

/// What the first `k` patterns add up to: a hundred for each row above a
/// fold between rows, one for each column left of a fold between columns.
pub open spec fn summary(patterns: Seq<Seq<Seq<u8>>>, diff: nat, k: nat) -> Option<nat>
    decreases k,
{
    if k == 0 {
        Some(0)
    } else {
        match summary(patterns, diff, (k - 1) as nat) {
            None => None,
            Some(sum) => if !even_rows(patterns[k - 1]) {
                None
            } else {
                match reflection_spec(patterns[k - 1], diff) {
                    Some(Reflection::Row(i)) => Some((sum + i * 100) as nat),
                    Some(Reflection::Col(i)) => Some((sum + i) as nat),
                    None => None,
                }
            },
        }
    }
}

/// The patterns read up to line `k`, and the rows of the pattern in
/// progress: an empty line closes a pattern.
pub open spec fn open_blocks(rows: Seq<Seq<u8>>, k: nat) -> (Seq<Seq<Seq<u8>>>, Seq<Seq<u8>>)
    decreases k,
{
    if k == 0 {
        (Seq::empty(), Seq::empty())
    } else {
        let (done, pattern) = open_blocks(rows, (k - 1) as nat);
        if rows[k - 1].len() == 0 {
            (done.push(pattern), Seq::empty())
        } else {
            (done, pattern.push(rows[k - 1]))
        }
    }
}

/// The patterns that the lines hold, with empty lines between them.
pub open spec fn blocks(rows: Seq<Seq<u8>>) -> Seq<Seq<Seq<u8>>> {
    open_blocks(rows, rows.len()).0.push(open_blocks(rows, rows.len()).1)
}

/// A grid is a rectangle exactly if its rows are even.
pub proof fn lemma_even_rows(grid: Seq<Vec<u8>>)
    ensures
        rectangular(grid) == even_rows(views(grid)),
{
    if rectangular(grid) {
        assert forall|i: int| 0 <= i < views(grid).len() implies (#[trigger] views(grid)[i]).len()
            == views(grid)[0].len() by {
            assert(grid[i]@.len() == width_of(grid));
            assert(grid[0]@.len() == width_of(grid));
        }
    }
    if even_rows(views(grid)) {
        assert forall|i: int| 0 <= i < grid.len() implies (#[trigger] grid[i])@.len() == width_of(
            grid,
        ) by {
            assert(views(grid)[i].len() == views(grid)[0].len());
        }
    }
}

/// The patterns of `input`, which empty lines keep apart.
pub fn parse_input(input: &str) -> (patterns: Vec<Vec<Vec<u8>>>)
    ensures
        patterns@.len() >= 1,
        pattern_rows(patterns@) == blocks(lines(input.spec_bytes())),
{
    let all = split_lines(input.as_bytes());
    let ghost rows = views(all@);
    let mut patterns: Vec<Vec<Vec<u8>>> = Vec::new();
    let mut pattern: Vec<Vec<u8>> = Vec::new();
    let mut i: usize = 0;
    assert(pattern_rows(patterns@) =~= Seq::<Seq<Seq<u8>>>::empty());
    assert(views(pattern@) =~= Seq::<Seq<u8>>::empty());
    while i < all.len()
        invariant
            i <= all@.len(),
            rows == views(all@),
            rows == lines(input.spec_bytes()),
            open_blocks(rows, i as nat) == (pattern_rows(patterns@), views(pattern@)),
        decreases all@.len() - i,
    {
        assert(rows[i as int] == all@[i as int]@);
        let ghost done = pattern_rows(patterns@);
        let ghost current = views(pattern@);
        if all[i].len() == 0 {
            patterns.push(pattern);
            pattern = Vec::new();
            assert(pattern_rows(patterns@) =~= done.push(current));
            assert(views(pattern@) =~= Seq::<Seq<u8>>::empty());
        } else {
            let row = copy_range(all[i].as_slice(), 0, all[i].len());
            assert(row@ =~= all@[i as int]@);
            pattern.push(row);
            assert(views(pattern@) =~= current.push(rows[i as int]));
        }
        i += 1;
    }
    let ghost done = pattern_rows(patterns@);
    let ghost current = views(pattern@);
    patterns.push(pattern);
    assert(pattern_rows(patterns@) =~= done.push(current));
    patterns
}

/// In how many places the two rows differ.
fn differing_cells(left: &Vec<u8>, right: &Vec<u8>) -> (n: usize)
    ensures
        n == row_diff(left@, right@, shorter(left@.len(), right@.len())),
        n <= left@.len(),
{
    let len = if left.len() <= right.len() {
        left.len()
    } else {
        right.len()
    };
    let mut n: usize = 0;
    let mut k: usize = 0;
    while k < len
        invariant
            len == shorter(left@.len(), right@.len()),
            k <= len,
            n == row_diff(left@, right@, k as nat),
            n <= k,
        decreases len - k,
    {
        if left[k] != right[k] {
            n += 1;
        }
        k += 1;
    }
    n
}

/// Counts the cells that differ from their mirror image when the pattern
/// is folded above row `i`. `None` if the count does not fit the machine
/// word.
pub fn does_reflect_horizontally(pattern: &Vec<Vec<u8>>, i: usize) -> (r: Option<usize>)
    requires
        i <= pattern@.len(),
    ensures
        match r {
            Some(n) => n == mismatches(views(pattern@), i as int),
            None => mismatches(views(pattern@), i as int) > usize::MAX,
        },
{
    let height = pattern.len();
    let pairs = if i <= height - i {
        i
    } else {
        height - i
    };
    let mut total: usize = 0;
    let mut k: usize = 0;
    while k < pairs
        invariant
            i <= pattern@.len(),
            pairs == shorter(i as nat, (pattern@.len() - i) as nat),
            height == pattern@.len(),
            pairs <= i,
            pairs <= height - i,
            k <= pairs,
            total == fold_diff(views(pattern@), i as int, k as nat),
        decreases pairs - k,
    {
        let n = differing_cells(&pattern[i - k - 1], &pattern[i + k]);
        proof {
            lemma_fold_diff_grows(views(pattern@), i as int, (k + 1) as nat, pairs as nat);
        }
        total = match total.checked_add(n) {
            Some(total) => total,
            None => {
                return None;
            },
        };
        k += 1;
    }
    Some(total)
}

/// Folding over more pairs of rows never counts fewer mismatches.
pub proof fn lemma_fold_diff_grows(cells: Seq<Seq<u8>>, i: int, j: nat, k: nat)
    requires
        j <= k,
    ensures
        fold_diff(cells, i, j) <= fold_diff(cells, i, k),
    decreases k,
{
    if j < k {
        lemma_fold_diff_grows(cells, i, j, (k - 1) as nat);
    }
}

/// Counts the cells that differ from their mirror image when the pattern
/// is folded left of column `i`.
pub fn does_reflect_vertically(pattern: &Vec<Vec<u8>>, i: usize) -> (r: Option<usize>)
    requires
        rectangular(pattern@),
        i <= width_of(pattern@),
    ensures
        match r {
            Some(n) => n == mismatches(turn(views(pattern@)), i as int),
            None => mismatches(turn(views(pattern@)), i as int) > usize::MAX,
        },
{
    let turned = pattern.rotate();
    proof {
        lemma_quarter_turn(pattern@, turned@);
    }
    does_reflect_horizontally(&turned, i)
}

/// Finds the line of reflection that leaves exactly `diff` cells
/// unmatched.
pub fn find_reflection(pattern: &Vec<Vec<u8>>, diff: usize) -> (r: Option<Reflection>)
    requires
        rectangular(pattern@),
    ensures
        r == reflection_spec(views(pattern@), diff as nat),
{
    let height = pattern.len();
    let width = if height == 0 {
        0
    } else {
        pattern[0].len()
    };
    let mut i: usize = 1;
    while i < height
        invariant
            height == pattern@.len(),
            1 <= i,
            first_fold(views(pattern@), diff as nat, 1) == first_fold(
                views(pattern@),
                diff as nat,
                i as int,
            ),
        decreases height - i,
    {
        match does_reflect_horizontally(pattern, i) {
            Some(n) => {
                if n == diff {
                    return Some(Reflection::Row(i));
                }
            },
            None => {},
        }
        i += 1;
    }
    let ghost turned = turn(views(pattern@));
    assert(turned.len() == width);
    let mut i: usize = 1;
    while i < width
        invariant
            rectangular(pattern@),
            width == width_of(pattern@),
            turned == turn(views(pattern@)),
            turned.len() == width,
            1 <= i,
            first_fold(views(pattern@), diff as nat, 1) is None,
            first_fold(turned, diff as nat, 1) == first_fold(turned, diff as nat, i as int),
        decreases width - i,
    {
        match does_reflect_vertically(pattern, i) {
            Some(n) => {
                if n == diff {
                    return Some(Reflection::Col(i));
                }
            },
            None => {},
        }
        i += 1;
    }
    None
}

/// Adds up the lines of reflection of all patterns. `None` if a pattern is
/// no rectangle or has no such line, or the sum does not fit the machine
/// word.
pub fn summarize(patterns: Vec<Vec<Vec<u8>>>, diff: usize) -> (r: Option<usize>)
    ensures
        match r {
            Some(sum) => summary(pattern_rows(patterns@), diff as nat, patterns@.len()) == Some(
                sum as nat,
            ),
            None => match summary(pattern_rows(patterns@), diff as nat, patterns@.len()) {
                Some(sum) => sum > usize::MAX,
                None => true,
            },
        },
{
    let ghost cells = pattern_rows(patterns@);
    let mut sum: usize = 0;
    let mut k: usize = 0;
    while k < patterns.len()
        invariant
            k <= patterns@.len(),
            cells == pattern_rows(patterns@),
            summary(cells, diff as nat, k as nat) == Some(sum as nat),
        decreases patterns@.len() - k,
    {
        proof {
            lemma_summary_grows(cells, diff as nat, (k + 1) as nat, patterns@.len());
            lemma_even_rows(patterns@[k as int]@);
            assert(cells[k as int] == views(patterns@[k as int]@));
        }
        if !is_rectangular(&patterns[k]) {
            return None;
        }
        let part = match find_reflection(&patterns[k], diff) {
            Some(Reflection::Row(i)) => match i.checked_mul(100) {
                Some(part) => part,
                None => {
                    return None;
                },
            },
            Some(Reflection::Col(i)) => i,
            None => {
                return None;
            },
        };
        sum = match sum.checked_add(part) {
            Some(sum) => sum,
            None => {
                return None;
            },
        };
        k += 1;
    }
    Some(sum)
}

/// A sum that failed or grew too large stays so when more patterns follow.
pub proof fn lemma_summary_grows(patterns: Seq<Seq<Seq<u8>>>, diff: nat, j: nat, k: nat)
    requires
        j <= k,
    ensures
        summary(patterns, diff, j) is None ==> summary(patterns, diff, k) is None,
        summary(patterns, diff, k) is Some ==> summary(patterns, diff, j) is Some && summary(
            patterns,
            diff,
            j,
        )->0 <= summary(patterns, diff, k)->0,
    decreases k,
{
    if j < k {
        lemma_summary_grows(patterns, diff, j, (k - 1) as nat);
    }
}

/// The sum over the patterns of `input` of their lines of reflection.
pub fn get_solution_1(input: &str) -> (r: Option<usize>)
    ensures
        match r {
            Some(sum) => summary(
                blocks(lines(input.spec_bytes())),
                0,
                blocks(lines(input.spec_bytes())).len(),
            ) == Some(sum as nat),
            None => match summary(
                blocks(lines(input.spec_bytes())),
                0,
                blocks(lines(input.spec_bytes())).len(),
            ) {
                Some(sum) => sum > usize::MAX,
                None => true,
            },
        },
{
    summarize(parse_input(input), 0)
}

/// The sum over the patterns of `input` of the lines of reflection that
/// appear when exactly one cell is changed.
pub fn get_solution_2(input: &str) -> (r: Option<usize>)
    ensures
        match r {
            Some(sum) => summary(
                blocks(lines(input.spec_bytes())),
                1,
                blocks(lines(input.spec_bytes())).len(),
            ) == Some(sum as nat),
            None => match summary(
                blocks(lines(input.spec_bytes())),
                1,
                blocks(lines(input.spec_bytes())).len(),
            ) {
                Some(sum) => sum > usize::MAX,
                None => true,
            },
        },
{
    summarize(parse_input(input), 1)
}

} // verus!
