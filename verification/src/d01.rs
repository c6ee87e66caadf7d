//! Calibration values: the first and the last digit of each line, where
//! in part two a digit may be spelled out.

use vstd::prelude::*;
use vstd::string::StringSliceAdditionalSpecFns;
use vstd::slice::slice_subrange;
use crate::text::{views, lines, split_lines};

verus! {

/// The lines of the text.
pub fn parse_input(inp: &str) -> (r: Vec<Vec<u8>>)
    ensures
        views(r@) == lines(inp.spec_bytes()),
{
    split_lines(inp.as_bytes())
}

/// The bytes `s` begin with the bytes `word`.
pub open spec fn begins_with(s: Seq<u8>, word: Seq<u8>) -> bool {
    s.len() >= word.len() && s.take(word.len() as int) == word
}

/// The name of the digit `d` in letters.
pub open spec fn name_of(d: int) -> Seq<u8> {
    if d == 1 {
        seq![111u8, 110u8, 101u8]
    } else if d == 2 {
        seq![116u8, 119u8, 111u8]
    } else if d == 3 {
        seq![116u8, 104u8, 114u8, 101u8, 101u8]
    } else if d == 4 {
        seq![102u8, 111u8, 117u8, 114u8]
    } else if d == 5 {
        seq![102u8, 105u8, 118u8, 101u8]
    } else if d == 6 {
        seq![115u8, 105u8, 120u8]
    } else if d == 7 {
        seq![115u8, 101u8, 118u8, 101u8, 110u8]
    } else if d == 8 {
        seq![101u8, 105u8, 103u8, 104u8, 116u8]
    } else if d == 9 {
        seq![110u8, 105u8, 110u8, 101u8]
    } else {
        seq![122u8, 101u8, 114u8, 111u8]
    }
}

/// The digit that the bytes begin with: a digit itself, or the name of a
/// digit.
pub open spec fn number_at(chars: Seq<u8>) -> Option<u32> {
    if chars.len() > 0 && 48 <= chars[0] <= 57 {
        Some((chars[0] - 48) as u32)
    } else if begins_with(chars, name_of(1)) {
        Some(1)
    } else if begins_with(chars, name_of(2)) {
        Some(2)
    } else if begins_with(chars, name_of(3)) {
        Some(3)
    } else if begins_with(chars, name_of(4)) {
        Some(4)
    } else if begins_with(chars, name_of(5)) {
        Some(5)
    } else if begins_with(chars, name_of(6)) {
        Some(6)
    } else if begins_with(chars, name_of(7)) {
        Some(7)
    } else if begins_with(chars, name_of(8)) {
        Some(8)
    } else if begins_with(chars, name_of(9)) {
        Some(9)
    } else if begins_with(chars, name_of(0)) {
        Some(0)
    } else {
        None
    }
}

/// Whether the bytes begin with the name of the digit `d`.
fn has_name(chars: &[u8], d: u32) -> (r: bool)
    requires
        d <= 9,
    ensures
        r == begins_with(chars@, name_of(d as int)),
{
    let word: [u8; 5] = if d == 1 {
        [111, 110, 101, 0, 0]
    } else if d == 2 {
        [116, 119, 111, 0, 0]
    } else if d == 3 {
        [116, 104, 114, 101, 101]
    } else if d == 4 {
        [102, 111, 117, 114, 0]
    } else if d == 5 {
        [102, 105, 118, 101, 0]
    } else if d == 6 {
        [115, 105, 120, 0, 0]
    } else if d == 7 {
        [115, 101, 118, 101, 110]
    } else if d == 8 {
        [101, 105, 103, 104, 116]
    } else if d == 9 {
        [110, 105, 110, 101, 0]
    } else {
        [122, 101, 114, 111, 0]
    };
    let len: usize = if d == 1 || d == 2 || d == 6 {
        3
    } else if d == 3 || d == 7 || d == 8 {
        5
    } else {
        4
    };
    let ghost name = name_of(d as int);
    assert(name.len() == len);
    assert forall|k: int| 0 <= k < len implies word@[k] == name[k] by {}
    if chars.len() < len {
        return false;
    }
    let mut k: usize = 0;
    while k < len
        invariant
            len <= 5,
            len <= chars@.len(),
            k <= len,
            name == name_of(d as int),
            name.len() == len,
            forall|j: int| 0 <= j < len ==> word@[j] == name[j],
            forall|j: int| 0 <= j < k ==> chars@[j] == name[j],
        decreases len - k,
    {
        if chars[k] != word[k] {
            assert(word@[k as int] == name[k as int]);
            assert(chars@.take(len as int)[k as int] == chars@[k as int]);
            return false;
        }
        k += 1;
    }
    assert(chars@.take(len as int) =~= name);
    true
}

/// The digit that the bytes begin with, be it written as a digit or
/// spelled out.
pub fn parse_number(chars: &[u8]) -> (r: Option<u32>)
    requires
        chars@.len() > 0,
    ensures
        r == number_at(chars@),
{
    if 48 <= chars[0] && chars[0] <= 57 {
        return Some((chars[0] - 48) as u32);
    }
    let mut d: u32 = 1;
    while d <= 9
        invariant
            1 <= d <= 10,
            chars@.len() > 0,
            !(48 <= chars@[0] <= 57),
            forall|k: int| 1 <= k < d ==> !begins_with(chars@, name_of(k)),
        decreases 10 - d,
    {
        if has_name(chars, d) {
            return Some(d);
        }
        d += 1;
    }
    if has_name(chars, 0) {
        Some(0)
    } else {
        None
    }
}

/// The last digit among the first `k` bytes of the line.
pub open spec fn last_digit(line: Seq<u8>, k: nat) -> Option<u32>
    decreases k,
{
    if k == 0 {
        None
    } else if 48 <= line[k - 1] <= 57 {
        Some((line[k - 1] - 48) as u32)
    } else {
        last_digit(line, (k - 1) as nat)
    }
}

/// The first digit among the first `k` bytes of the line.
pub open spec fn first_digit(line: Seq<u8>, k: nat) -> Option<u32>
    decreases k,
{
    if k == 0 {
        None
    } else {
        match first_digit(line, (k - 1) as nat) {
            Some(d) => Some(d),
            None => if 48 <= line[k - 1] <= 57 {
                Some((line[k - 1] - 48) as u32)
            } else {
                None
            },
        }
    }
}

/// The first digit of the line, or the last if `last` is set.
fn digit_of(line: &Vec<u8>, last: bool) -> (r: Option<u32>)
    ensures
        r == if last {
            last_digit(line@, line@.len())
        } else {
            first_digit(line@, line@.len())
        },
        r matches Some(d) ==> d <= 9,
{
    let len = line.len();
    let mut found: Option<u32> = None;
    let mut i: usize = 0;
    while i < len
        invariant
            len == line@.len(),
            i <= len,
            found matches Some(d) ==> d <= 9,
            found == if last {
                last_digit(line@, i as nat)
            } else {
                first_digit(line@, i as nat)
            },
        decreases len - i,
    {
        let c = line[i];
        if 48 <= c && c <= 57 {
            if last || found.is_none() {
                found = Some((c - 48) as u32);
            }
        }
        i += 1;
    }
    found
}

/// The sum over the first `k` lines of the number that the first and the
/// last digit of the line write, if every line has a digit.
pub open spec fn digits_sum(rows: Seq<Seq<u8>>, k: nat) -> Option<nat>
    decreases k,
{
    if k == 0 {
        Some(0)
    } else {
        match (
            digits_sum(rows, (k - 1) as nat),
            first_digit(rows[k - 1], rows[k - 1].len()),
            last_digit(rows[k - 1], rows[k - 1].len()),
        ) {
            (Some(sum), Some(first), Some(last)) => Some((sum + first * 10 + last) as nat),
            _ => None,
        }
    }
}

/// A sum that failed stays failed, and a sum only grows.
pub proof fn lemma_digits_sum_grows(rows: Seq<Seq<u8>>, j: nat, k: nat)
    requires
        j <= k,
    ensures
        digits_sum(rows, j) is None ==> digits_sum(rows, k) is None,
        digits_sum(rows, k) matches Some(all) ==> digits_sum(rows, j) matches Some(part) && part
            <= all,
    decreases k,
{
    if j < k {
        lemma_digits_sum_grows(rows, j, (k - 1) as nat);
    }
}

/// The sum over all lines of the number that the first and the last digit
/// of the line write. `None` if a line has no digit or the sum does not
/// fit.
pub fn get_solution_1(input: &str) -> (r: Option<u32>)
    ensures
        match r {
            Some(sum) => digits_sum(lines(input.spec_bytes()), lines(input.spec_bytes()).len())
                == Some(sum as nat),
            None => match digits_sum(lines(input.spec_bytes()), lines(input.spec_bytes()).len()) {
                Some(sum) => sum > u32::MAX,
                None => true,
            },
        },
{
    let all = parse_input(input);
    let ghost rows = lines(input.spec_bytes());
    let mut sum: u32 = 0;
    let mut i: usize = 0;
    while i < all.len()
        invariant
            i <= all@.len(),
            rows == lines(input.spec_bytes()),
            views(all@) == rows,
            digits_sum(rows, i as nat) == Some(sum as nat),
        decreases all@.len() - i,
    {
        assert(rows[i as int] == all@[i as int]@);
        proof {
            lemma_digits_sum_grows(rows, (i + 1) as nat, rows.len());
        }
        let first = match digit_of(&all[i], false) {
            Some(d) => d,
            None => {
                return None;
            },
        };
        let second = match digit_of(&all[i], true) {
            Some(d) => d,
            None => {
                return None;
            },
        };
        sum = match sum.checked_add(first * 10 + second) {
            Some(sum) => sum,
            None => {
                return None;
            },
        };
        i += 1;
    }
    Some(sum)
}

/// The digit at the first place, among the first `k`, from which the line
/// writes a digit in digits or in letters.
pub open spec fn first_number(line: Seq<u8>, k: nat) -> Option<u32>
    decreases k,
{
    if k == 0 {
        None
    } else {
        match first_number(line, (k - 1) as nat) {
            Some(d) => Some(d),
            None => number_at(line.skip(k - 1)),
        }
    }
}

/// The digit at the last place, from `k` on, from which the line writes a
/// digit in digits or in letters.
pub open spec fn last_number(line: Seq<u8>, k: int) -> Option<u32>
    decreases line.len() - k,
{
    if k < 0 || k >= line.len() {
        None
    } else {
        match last_number(line, k + 1) {
            Some(d) => Some(d),
            None => number_at(line.skip(k)),
        }
    }
}

/// The first place from which the line writes a digit, in digits or in
/// letters, and that digit; searched from the end if `from_end` is set.
pub fn find_number(line: &Vec<u8>, from_end: bool) -> (r: Option<(usize, u32)>)
    ensures
        match r {
            Some((at, d)) => at < line@.len() && number_at(line@.skip(at as int)) == Some(d)
                && forall|k: int|
                (if from_end {
                    at < k < line@.len()
                } else {
                    0 <= k < at
                }) ==> number_at(#[trigger] line@.skip(k)) is None,
            None => forall|k: int| 0 <= k < line@.len() ==> number_at(#[trigger] line@.skip(k)) is None,
        },
        (match r {
            Some((_, d)) => Some(d),
            None => None,
        }) == if from_end {
            last_number(line@, 0)
        } else {
            first_number(line@, line@.len())
        },
{
    let len = line.len();
    let mut tried: usize = 0;
    while tried < len
        invariant
            len == line@.len(),
            tried <= len,
            forall|k: int|
                (if from_end {
                    len - tried <= k < len
                } else {
                    0 <= k < tried
                }) ==> number_at(#[trigger] line@.skip(k)) is None,
        decreases len - tried,
    {
        let at = if from_end {
            len - 1 - tried
        } else {
            tried
        };
        let rest = slice_subrange(line.as_slice(), at, len);
        assert(rest@ =~= line@.skip(at as int));
        match parse_number(rest) {
            Some(d) => {
                proof {
                    if from_end {
                        lemma_last_number(line@, at as int, 0);
                    } else {
                        lemma_first_number(line@, at as int, len as nat);
                    }
                }
                return Some((at, d));
            },
            None => {},
        }
        tried += 1;
    }
    proof {
        if from_end {
            lemma_no_last_number(line@, 0);
        } else {
            lemma_no_first_number(line@, len as nat);
        }
    }
    None
}

/// Where no place before `k` writes a digit, there is no first number.
pub proof fn lemma_no_first_number(line: Seq<u8>, k: nat)
    requires
        k <= line.len(),
        forall|j: int| 0 <= j < k ==> number_at(#[trigger] line.skip(j)) is None,
    ensures
        first_number(line, k) is None,
    decreases k,
{
    if k > 0 {
        lemma_no_first_number(line, (k - 1) as nat);
    }
}

/// The first place that writes a digit gives the first number.
pub proof fn lemma_first_number(line: Seq<u8>, at: int, k: nat)
    requires
        0 <= at < k <= line.len(),
        number_at(line.skip(at)) is Some,
        forall|j: int| 0 <= j < at ==> number_at(#[trigger] line.skip(j)) is None,
    ensures
        first_number(line, k) == number_at(line.skip(at)),
    decreases k,
{
    if k == at + 1 {
        lemma_no_first_number(line, at as nat);
    } else {
        lemma_first_number(line, at, (k - 1) as nat);
    }
}

/// Where no place from `k` on writes a digit, there is no last number.
pub proof fn lemma_no_last_number(line: Seq<u8>, k: int)
    requires
        0 <= k,
        forall|j: int| k <= j < line.len() ==> number_at(#[trigger] line.skip(j)) is None,
    ensures
        last_number(line, k) is None,
    decreases line.len() - k,
{
    if k < line.len() {
        lemma_no_last_number(line, k + 1);
    }
}

/// The last place that writes a digit gives the last number.
pub proof fn lemma_last_number(line: Seq<u8>, at: int, k: int)
    requires
        0 <= k <= at < line.len(),
        number_at(line.skip(at)) is Some,
        forall|j: int| at < j < line.len() ==> number_at(#[trigger] line.skip(j)) is None,
    ensures
        last_number(line, k) == number_at(line.skip(at)),
    decreases at - k,
{
    if k == at {
        lemma_no_last_number(line, at + 1);
    } else {
        lemma_last_number(line, at, k + 1);
    }
}

/// The sum over the first `k` lines of ten times the first digit plus the
/// last digit, digits in letters counted; a line without a digit adds
/// nothing.
pub open spec fn numbers_sum(rows: Seq<Seq<u8>>, k: nat) -> nat
    decreases k,
{
    if k == 0 {
        0
    } else {
        numbers_sum(rows, (k - 1) as nat) + (match first_number(rows[k - 1], rows[k - 1].len()) {
            Some(d) => d * 10,
            None => 0,
        }) as nat + (match last_number(rows[k - 1], 0) {
            Some(d) => d as nat,
            None => 0,
        })
    }
}

/// The sum over more lines is not less.
pub proof fn lemma_numbers_sum_grows(rows: Seq<Seq<u8>>, j: nat, k: nat)
    requires
        j <= k,
    ensures
        numbers_sum(rows, j) <= numbers_sum(rows, k),
    decreases k,
{
    if j < k {
        lemma_numbers_sum_grows(rows, j, (k - 1) as nat);
    }
}

/// The sum over all lines of ten times the first digit plus the last
/// digit, where digits may be spelled out; a line without a digit adds
/// nothing. `None` if the sum does not fit.
pub fn get_solution_2(input: &str) -> (r: Option<u32>)
    ensures
        match r {
            Some(sum) => sum == numbers_sum(
                lines(input.spec_bytes()),
                lines(input.spec_bytes()).len(),
            ),
            None => numbers_sum(lines(input.spec_bytes()), lines(input.spec_bytes()).len())
                > u32::MAX,
        },
{
    let all = parse_input(input);
    let ghost rows = lines(input.spec_bytes());
    let mut sum: u32 = 0;
    let mut i: usize = 0;
    while i < all.len()
        invariant
            i <= all@.len(),
            rows == lines(input.spec_bytes()),
            views(all@) == rows,
            sum == numbers_sum(rows, i as nat),
        decreases all@.len() - i,
    {
        assert(rows[i as int] == all@[i as int]@);
        proof {
            lemma_numbers_sum_grows(rows, (i + 1) as nat, rows.len());
        }
        match find_number(&all[i], false) {
            Some((_, n)) => {
                let tens = match n.checked_mul(10) {
                    Some(tens) => tens,
                    None => {
                        return None;
                    },
                };
                sum = match sum.checked_add(tens) {
                    Some(sum) => sum,
                    None => {
                        return None;
                    },
                };
            },
            None => {},
        }
        match find_number(&all[i], true) {
            Some((_, n)) => {
                sum = match sum.checked_add(n) {
                    Some(sum) => sum,
                    None => {
                        return None;
                    },
                };
            },
            None => {},
        }
        i += 1;
    }
    Some(sum)
}

} // verus!
