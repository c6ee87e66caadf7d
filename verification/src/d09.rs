//! Each history of values is continued by one value: the differences of
//! neighbours are continued first, down to a row of zeros.

use vstd::prelude::*;
use vstd::string::StringSliceAdditionalSpecFns;
use crate::text::{views, lines, words, integers_among, split_lines, split_words, parse_isizes};

verus! {

/// Every number of the row is zero.
pub open spec fn all_zero(nums: Seq<int>) -> bool {
    forall|i: int| 0 <= i < nums.len() ==> nums[i] == 0
}

/// The differences between each number and the one before it.
pub open spec fn deltas(nums: Seq<int>) -> Seq<int> {
    Seq::new((nums.len() - 1) as nat, |i: int| nums[i + 1] - nums[i])
}

/// The value that continues the row: zero for an empty row or a row of
/// zeros, else the last value plus what continues the differences.
pub open spec fn next_value(nums: Seq<int>) -> int
    decreases nums.len(),
{
    if nums.len() == 0 || all_zero(nums) {
        0
    } else {
        next_value(deltas(nums)) + nums.last()
    }
}

/// Every number of the row is within the signed machine word.
pub open spec fn in_word(nums: Seq<int>) -> bool {
    forall|i: int| 0 <= i < nums.len() ==> isize::MIN <= #[trigger] nums[i] <= isize::MAX
}

/// The row can be continued within the signed machine word: all rows of
/// differences and all values that continue them fit.
pub open spec fn derivable(nums: Seq<int>) -> bool
    decreases nums.len(),
{
    if nums.len() == 0 || all_zero(nums) {
        true
    } else {
        &&& in_word(deltas(nums))
        &&& derivable(deltas(nums))
        &&& isize::MIN <= next_value(nums) <= isize::MAX
    }
}

/// The numbers of a row as integers.
pub open spec fn ints(nums: Seq<isize>) -> Seq<int> {
    Seq::new(nums.len(), |i: int| nums[i] as int)
}

/// The row in reverse.
pub open spec fn backwards(nums: Seq<int>) -> Seq<int> {
    Seq::new(nums.len(), |i: int| nums[nums.len() - 1 - i])
}

/// Whether every number of the row is zero.
fn is_all_zero(nums: &Vec<isize>) -> (r: bool)
    ensures
        r == all_zero(ints(nums@)),
{
    let mut i: usize = 0;
    while i < nums.len()
        invariant
            i <= nums@.len(),
            forall|k: int| 0 <= k < i ==> ints(nums@)[k] == 0,
        decreases nums@.len() - i,
    {
        if nums[i] != 0 {
            assert(ints(nums@)[i as int] != 0);
            return false;
        }
        i += 1;
    }
    true
}

/// The value that continues the row. `None` if a difference or a
/// continuing value does not fit the signed machine word.
pub fn derive(nums: &Vec<isize>) -> (r: Option<isize>)
    ensures
        match r {
            Some(next) => derivable(ints(nums@)) && next == next_value(ints(nums@)),
            None => !derivable(ints(nums@)),
        },
    decreases nums@.len(),
{
    if nums.len() == 0 || is_all_zero(nums) {
        return Some(0);
    }
    let len = nums.len();
    let mut diffs: Vec<isize> = Vec::new();
    let mut i: usize = 0;
    while i + 1 < len
        invariant
            len == nums@.len(),
            i + 1 <= len,
            diffs@.len() == i,
            forall|k: int| 0 <= k < i ==> (#[trigger] diffs@[k]) == nums@[k + 1] - nums@[k],
        decreases len - i,
    {
        match nums[i + 1].checked_sub(nums[i]) {
            Some(d) => {
                diffs.push(d);
            },
            None => {
                assert(!(isize::MIN <= deltas(ints(nums@))[i as int] <= isize::MAX));
                return None;
            },
        }
        i += 1;
    }
    assert(ints(diffs@) =~= deltas(ints(nums@)));
    assert(in_word(deltas(ints(nums@)))) by {
        assert forall|k: int| 0 <= k < deltas(ints(nums@)).len() implies isize::MIN
            <= #[trigger] deltas(ints(nums@))[k] <= isize::MAX by {
            assert(deltas(ints(nums@))[k] == diffs@[k]);
        }
    }
    match derive(&diffs) {
        Some(below) => {
            assert(ints(nums@).last() == nums@[len - 1]);
            below.checked_add(nums[len - 1])
        },
        None => None,
    }
}

/// The rows of numbers, one from each line; words that are no numbers are
/// passed over.
pub fn parse_input(input: &str) -> (rows: Vec<Vec<isize>>)
    ensures
        rows@.len() == lines(input.spec_bytes()).len(),
        forall|i: int|
            0 <= i < rows@.len() ==> (#[trigger] rows@[i])@ == integers_among(
                words(lines(input.spec_bytes())[i]),
            ),
{
    let all = split_lines(input.as_bytes());
    let mut rows: Vec<Vec<isize>> = Vec::new();
    let mut i: usize = 0;
    while i < all.len()
        invariant
            i <= all@.len(),
            views(all@) == lines(input.spec_bytes()),
            rows@.len() == i,
            forall|k: int|
                0 <= k < i ==> (#[trigger] rows@[k])@ == integers_among(
                    words(lines(input.spec_bytes())[k]),
                ),
        decreases all@.len() - i,
    {
        assert(views(all@)[i as int] == all@[i as int]@);
        let row = parse_isizes(&split_words(all[i].as_slice()));
        rows.push(row);
        i += 1;
    }
    rows
}

/// The rows of numbers that the text writes, one for each line.
pub open spec fn histories(input: Seq<u8>) -> Seq<Seq<int>> {
    Seq::new(lines(input).len(), |i: int| ints(integers_among(words(lines(input)[i]))))
}

/// The sum of what continues the first `k` rows.
pub open spec fn sum_next(rows: Seq<Seq<int>>, k: nat) -> int
    decreases k,
{
    if k == 0 {
        0
    } else {
        sum_next(rows, (k - 1) as nat) + next_value(rows[k - 1])
    }
}

/// Every row can be continued within the signed machine word, and so can
/// the sum after each row.
pub open spec fn sums_fit(rows: Seq<Seq<int>>) -> bool {
    &&& forall|k: int| 0 <= k < rows.len() ==> derivable(#[trigger] rows[k])
    &&& forall|k: nat|
        k <= rows.len() ==> isize::MIN <= #[trigger] sum_next(rows, k) <= isize::MAX
}

/// A copy of the row in reverse.
pub fn reversed(nums: &Vec<isize>) -> (r: Vec<isize>)
    ensures
        ints(r@) == backwards(ints(nums@)),
{
    let len = nums.len();
    let mut out: Vec<isize> = Vec::new();
    let mut i: usize = 0;
    while i < len
        invariant
            len == nums@.len(),
            i <= len,
            out@.len() == i,
            forall|k: int| 0 <= k < i ==> (#[trigger] out@[k]) == nums@[len - 1 - k],
        decreases len - i,
    {
        out.push(nums[len - 1 - i]);
        i += 1;
    }
    assert(ints(out@) =~= backwards(ints(nums@)));
    out
}

/// The sum over all rows of the value that continues the row. `None` if
/// a value does not fit the signed machine word.
pub fn get_solution_1(input: &str) -> (r: Option<isize>)
    ensures
        r matches Some(sum) ==> sum == sum_next(
            histories(input.spec_bytes()),
            histories(input.spec_bytes()).len(),
        ),
        r is Some <==> sums_fit(histories(input.spec_bytes())),
{
    let rows = parse_input(input);
    let ghost all = histories(input.spec_bytes());
    let mut sum: isize = 0;
    let mut i: usize = 0;
    while i < rows.len()
        invariant
            i <= rows@.len(),
            all == histories(input.spec_bytes()),
            rows@.len() == all.len(),
            forall|k: int| 0 <= k < rows@.len() ==> ints((#[trigger] rows@[k])@) == all[k],
            sum == sum_next(all, i as nat),
            forall|k: int| 0 <= k < i ==> derivable(#[trigger] all[k]),
            forall|k: nat| k <= i ==> isize::MIN <= #[trigger] sum_next(all, k) <= isize::MAX,
        decreases rows@.len() - i,
    {
        let next = match derive(&rows[i]) {
            Some(next) => next,
            None => {
                assert(!derivable(all[i as int]));
                return None;
            },
        };
        assert(derivable(all[i as int]));
        sum = match sum.checked_add(next) {
            Some(sum) => sum,
            None => {
                assert(!(isize::MIN <= sum_next(all, (i + 1) as nat) <= isize::MAX));
                return None;
            },
        };
        i += 1;
    }
    Some(sum)
}

/// The rows in reverse.
pub open spec fn all_backwards(rows: Seq<Seq<int>>) -> Seq<Seq<int>> {
    Seq::new(rows.len(), |i: int| backwards(rows[i]))
}

/// The sum over all rows of the value that stands before the row: what
/// continues the row in reverse.
pub fn get_solution_2(input: &str) -> (r: Option<isize>)
    ensures
        r matches Some(sum) ==> sum == sum_next(
            all_backwards(histories(input.spec_bytes())),
            histories(input.spec_bytes()).len(),
        ),
        r is Some <==> sums_fit(all_backwards(histories(input.spec_bytes()))),
{
    let rows = parse_input(input);
    let ghost all = all_backwards(histories(input.spec_bytes()));
    let mut sum: isize = 0;
    let mut i: usize = 0;
    while i < rows.len()
        invariant
            i <= rows@.len(),
            all == all_backwards(histories(input.spec_bytes())),
            rows@.len() == all.len(),
            forall|k: int|
                0 <= k < rows@.len() ==> backwards(ints((#[trigger] rows@[k])@)) == all[k],
            sum == sum_next(all, i as nat),
            forall|k: int| 0 <= k < i ==> derivable(#[trigger] all[k]),
            forall|k: nat| k <= i ==> isize::MIN <= #[trigger] sum_next(all, k) <= isize::MAX,
        decreases rows@.len() - i,
    {
        let next = match derive(&reversed(&rows[i])) {
            Some(next) => next,
            None => {
                assert(!derivable(all[i as int]));
                return None;
            },
        };
        assert(derivable(all[i as int]));
        sum = match sum.checked_add(next) {
            Some(sum) => sum,
            None => {
                assert(!(isize::MIN <= sum_next(all, (i + 1) as nat) <= isize::MAX));
                return None;
            },
        };
        i += 1;
    }
    Some(sum)
}

} // verus!
