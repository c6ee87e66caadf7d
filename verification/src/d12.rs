//! Rows of springs, some of unknown condition, are matched against the
//! lengths of their groups of damaged springs; the arrangements that fit
//! are counted.

use vstd::prelude::*;
use vstd::string::StringSliceAdditionalSpecFns;
use crate::text::{
    views, lines, words, split, numbers_among, split_lines, split_words, split_bytes, parse_usizes,
};

verus! {

/// A spring: operational, damaged or unknown.
#[derive(Debug, PartialEq, Eq, Clone, Copy, Structural)]
pub enum Spring {
    O,
    D,
    U,
}

/// The spring that a byte writes: `.` operational, `#` damaged, anything
/// else unknown.
pub open spec fn spring_of(input: u8) -> Spring {
    if input == 46 {
        Spring::O
    } else if input == 35 {
        Spring::D
    } else {
        Spring::U
    }
}

impl Spring {
    pub fn from(input: u8) -> (s: Spring)
        ensures
            s == spring_of(input),
    {
        if input == 46 {
            Spring::O
        } else if input == 35 {
            Spring::D
        } else {
            Spring::U
        }
    }
}

/// The springs that the bytes write.
pub open spec fn springs_in(word: Seq<u8>) -> Seq<Spring> {
    Seq::new(word.len(), |i: int| spring_of(word[i]))
}

/// The number of arrangements of the row that a line writes.
pub open spec fn line_count(line: Seq<u8>) -> nat {
    arrangements(
        springs_in(words(line)[0]),
        numbers_among(split(words(line)[1], 44u8)),
        0,
        0,
    )
}

/// The sum of the numbers of arrangements of the first `k` lines.
pub open spec fn lines_sum(rows: Seq<Seq<u8>>, k: nat) -> nat
    decreases k,
{
    if k == 0 {
        0
    } else {
        lines_sum(rows, (k - 1) as nat) + line_count(rows[k - 1])
    }
}

/// Every line has a row of springs and a list of groups.
pub open spec fn all_entries(rows: Seq<Seq<u8>>) -> bool {
    forall|i: int| 0 <= i < rows.len() ==> words(#[trigger] rows[i]).len() >= 2
}

#[derive(Debug, Clone)]
pub struct Entry {
    pub springs: Vec<Spring>,
    pub damaged: Vec<usize>,
}

/// The sum of the group lengths from index `j` on.
pub open spec fn groups_sum(damaged: Seq<usize>, j: int) -> nat
    decreases damaged.len() - j,
{
    if j < 0 || j >= damaged.len() {
        0
    } else {
        damaged[j] as nat + groups_sum(damaged, j + 1)
    }
}

/// The least number of springs that the groups from index `j` on take up:
/// their lengths and one spring between neighbours.
pub open spec fn remaining(damaged: Seq<usize>, j: int) -> int {
    groups_sum(damaged, j) + (damaged.len() - j) - 1
}

/// No spring from index `i` on is damaged.
pub open spec fn none_damaged(springs: Seq<Spring>, i: int) -> bool {
    forall|m: int| i <= m < springs.len() ==> springs[m] != Spring::D
}

/// A group of `n` damaged springs can begin at index `i`: none of the `n`
/// springs is operational, and the spring behind them is not damaged.
pub open spec fn fits_at(springs: Seq<Spring>, i: int, n: int) -> bool {
    &&& !(i + n < springs.len() && springs[i + n] == Spring::D)
    &&& forall|m: int| i <= m < i + n ==> springs[m] != Spring::O
}

/// The number of ways in which the springs from index `i` on can hold
/// exactly the groups from index `j` on.
pub open spec fn arrangements(springs: Seq<Spring>, damaged: Seq<usize>, i: int, j: int) -> nat
    decreases springs.len() + 2 - i,
{
    if i < 0 || j < 0 || i > springs.len() + 1 {
        0
    } else if i < springs.len() && springs[i] == Spring::O {
        arrangements(springs, damaged, i + 1, j)
    } else if j == damaged.len() && (i >= springs.len() || none_damaged(springs, i)) {
        1
    } else if j >= damaged.len() {
        0
    } else if i + remaining(damaged, j) > springs.len() {
        0
    } else {
        let with_group = if fits_at(springs, i, damaged[j] as int) {
            arrangements(springs, damaged, i + damaged[j] + 1, j + 1)
        } else {
            0
        };
        let without = if i < springs.len() && springs[i] != Spring::D {
            arrangements(springs, damaged, i + 1, j)
        } else {
            0
        };
        with_group + without
    }
}

/// Every count that the table holds is the number of arrangements for its
/// place.
pub open spec fn memo_ok(seen: Seq<Vec<Option<usize>>>, springs: Seq<Spring>, damaged: Seq<usize>) -> bool {
    forall|i: int, j: int|
        0 <= i < seen.len() && 0 <= j < seen[i]@.len() ==> match #[trigger] seen[i]@[j] {
            Some(count) => count == arrangements(springs, damaged, i, j),
            None => true,
        }
}

impl Entry {
    /// The group lengths and the springs between the groups fit the
    /// machine word.
    pub open spec fn wf(&self) -> bool {
        groups_sum(self.damaged@, 0) + self.damaged@.len() + self.springs@.len() + 2 <= usize::MAX
    }

    /// The row five times over with an unknown spring between the copies,
    /// and the groups five times over.
    pub fn unfold(self) -> (r: Self)
        ensures
            r.springs@ == self.springs@ + seq![Spring::U] + self.springs@ + seq![Spring::U]
                + self.springs@ + seq![Spring::U] + self.springs@ + seq![Spring::U] + self.springs@,
            r.damaged@ == self.damaged@ + self.damaged@ + self.damaged@ + self.damaged@
                + self.damaged@,
    {
        let mut springs: Vec<Spring> = Vec::new();
        let mut damaged: Vec<usize> = Vec::new();
        let mut copy: usize = 0;
        let ghost unknown = seq![Spring::U];
        while copy < 5
            invariant
                copy <= 5,
                unknown == seq![Spring::U],
                copy == 0 ==> springs@ == Seq::<Spring>::empty() && damaged@ == Seq::<usize>::empty(),
                copy == 1 ==> springs@ == self.springs@ && damaged@ == self.damaged@,
                copy == 2 ==> springs@ == self.springs@ + unknown + self.springs@ && damaged@
                    == self.damaged@ + self.damaged@,
                copy == 3 ==> springs@ == self.springs@ + unknown + self.springs@ + unknown
                    + self.springs@ && damaged@ == self.damaged@ + self.damaged@ + self.damaged@,
                copy == 4 ==> springs@ == self.springs@ + unknown + self.springs@ + unknown
                    + self.springs@ + unknown + self.springs@ && damaged@ == self.damaged@
                    + self.damaged@ + self.damaged@ + self.damaged@,
                copy == 5 ==> springs@ == self.springs@ + unknown + self.springs@ + unknown
                    + self.springs@ + unknown + self.springs@ + unknown + self.springs@ && damaged@
                    == self.damaged@ + self.damaged@ + self.damaged@ + self.damaged@ + self.damaged@,
            decreases 5 - copy,
        {
            let ghost before_springs = springs@;
            let ghost before_damaged = damaged@;
            if copy > 0 {
                springs.push(Spring::U);
            }
            let ghost joined = springs@;
            assert(copy > 0 ==> joined =~= before_springs + unknown);
            let mut k: usize = 0;
            while k < self.springs.len()
                invariant
                    k <= self.springs@.len(),
                    springs@ == joined + self.springs@.take(k as int),
                decreases self.springs@.len() - k,
            {
                springs.push(self.springs[k]);
                k += 1;
                assert(springs@ =~= joined + self.springs@.take(k as int));
            }
            assert(self.springs@.take(k as int) =~= self.springs@);
            let mut k: usize = 0;
            while k < self.damaged.len()
                invariant
                    k <= self.damaged@.len(),
                    damaged@ == before_damaged + self.damaged@.take(k as int),
                decreases self.damaged@.len() - k,
            {
                damaged.push(self.damaged[k]);
                k += 1;
                assert(damaged@ =~= before_damaged + self.damaged@.take(k as int));
            }
            assert(self.damaged@.take(k as int) =~= self.damaged@);
            assert(copy == 0 ==> springs@ =~= self.springs@ && damaged@ =~= self.damaged@);
            copy += 1;
        }
        Entry { springs, damaged }
    }

    /// Whether the group lengths fit the machine word.
    pub fn is_wf(&self) -> (r: bool)
        ensures
            r == self.wf(),
    {
        let m = self.damaged.len();
        let n = self.springs.len();
        let mut total: usize = 0;
        let mut j: usize = m;
        let mut fits = true;
        while j > 0
            invariant
                m == self.damaged@.len(),
                j <= m,
                fits ==> total == groups_sum(self.damaged@, j as int),
                !fits ==> groups_sum(self.damaged@, j as int) > usize::MAX,
            decreases j,
        {
            j -= 1;
            if fits {
                match total.checked_add(self.damaged[j]) {
                    Some(t) => {
                        total = t;
                    },
                    None => {
                        fits = false;
                    },
                }
            }
        }
        if !fits {
            return false;
        }
        match total.checked_add(m) {
            Some(a) => match a.checked_add(n) {
                Some(b) => b <= usize::MAX - 2,
                None => false,
            },
            None => false,
        }
    }

    /// The least number of springs that the groups from index `j` on take
    /// up.
    fn needed(&self, j: usize) -> (r: usize)
        requires
            self.wf(),
            j < self.damaged@.len(),
        ensures
            r == remaining(self.damaged@, j as int),
    {
        proof {
            lemma_groups_sum_bounded(self.damaged@, j as int);
        }
        let m = self.damaged.len();
        let mut total: usize = 0;
        let mut k: usize = m;
        while k > j
            invariant
                m == self.damaged@.len(),
                j <= k <= m,
                total == groups_sum(self.damaged@, k as int),
                groups_sum(self.damaged@, j as int) <= groups_sum(self.damaged@, 0),
                self.wf(),
            decreases k,
        {
            proof {
                lemma_groups_sum_grows(self.damaged@, j as int, k - 1);
            }
            k -= 1;
            total = total + self.damaged[k];
        }
        total + (m - j) - 1
    }

    /// The number of ways, from spring `i` and group `j` on, in which the
    /// unknown springs can be damaged or operational so that the damaged
    /// springs form exactly the groups. Counts that were found are kept
    /// in `seen` and taken from there; an empty `seen` is laid out for the
    /// entry first. `None` if a count does not fit the machine word.
    pub fn count_arrangements(&self, i: usize, j: usize, seen: &mut Vec<Vec<Option<usize>>>) -> (r:
        Option<usize>)
        requires
            self.wf(),
            i <= self.springs@.len() + 1,
            memo_ok(old(seen)@, self.springs@, self.damaged@),
        ensures
            memo_ok(final(seen)@, self.springs@, self.damaged@),
            match r {
                Some(count) => count == arrangements(
                    self.springs@,
                    self.damaged@,
                    i as int,
                    j as int,
                ),
                None => arrangements(self.springs@, self.damaged@, i as int, j as int)
                    > usize::MAX,
            },
        decreases self.springs@.len() + 2 - i,
    {
        let n = self.springs.len();
        let m = self.damaged.len();
        if seen.len() == 0 {
            *seen = self.blank_memo();
        }
        if i < seen.len() && j < seen[i].len() {
            match seen[i][j] {
                Some(matched) => {
                    return Some(matched);
                },
                None => {},
            }
        }
        if i < n && self.springs[i] == Spring::O {
            return self.count_arrangements(i + 1, j, seen);
        }
        if j == m && (i >= n || self.no_damaged_from(i)) {
            return Some(1);
        }
        if j >= m {
            return Some(0);
        }
        let group = self.damaged[j];
        let rest = self.needed(j);
        proof {
            lemma_remaining_covers(self.damaged@, j as int);
        }
        if rest > n || i > n - rest {
            return Some(0);
        }
        let mut matched: usize = 0;
        if self.is_valid_arrangement(i, group) {
            matched = match self.count_arrangements(i + group + 1, j + 1, seen) {
                Some(count) => count,
                None => {
                    return None;
                },
            };
        }
        if i < n && self.springs[i] != Spring::D {
            let more = match self.count_arrangements(i + 1, j, seen) {
                Some(count) => count,
                None => {
                    return None;
                },
            };
            matched = match matched.checked_add(more) {
                Some(sum) => sum,
                None => {
                    return None;
                },
            };
        }
        if i < seen.len() && j < seen[i].len() {
            let ghost before = seen@;
            seen[i][j] = Some(matched);
            assert forall|a: int, b: int|
                0 <= a < seen@.len() && 0 <= b < seen@[a]@.len() implies match #[trigger] seen@[a]@[b] {
                Some(count) => count == arrangements(self.springs@, self.damaged@, a, b),
                None => true,
            } by {
                if a == i && b == j {
                } else {
                    assert(seen@[a]@[b] == before[a]@[b]);
                }
            }
        }
        Some(matched)
    }

    /// Whether no spring from index `i` on is damaged.
    fn no_damaged_from(&self, i: usize) -> (r: bool)
        requires
            i <= self.springs@.len(),
        ensures
            r == none_damaged(self.springs@, i as int),
    {
        let n = self.springs.len();
        let mut m: usize = i;
        while m < n
            invariant
                n == self.springs@.len(),
                i <= m <= n,
                forall|k: int| i <= k < m ==> self.springs@[k] != Spring::D,
            decreases n - m,
        {
            if self.springs[m] == Spring::D {
                return false;
            }
            m += 1;
        }
        true
    }

    /// Whether a group of `n` damaged springs can begin at spring `i`.
    pub fn is_valid_arrangement(&self, i: usize, n: usize) -> (r: bool)
        requires
            i + n <= self.springs@.len(),
        ensures
            r == fits_at(self.springs@, i as int, n as int),
    {
        let len = self.springs.len();
        if i + n < len && self.springs[i + n] == Spring::D {
            return false;
        }
        let mut m: usize = i;
        while m < i + n
            invariant
                len == self.springs@.len(),
                i + n <= len,
                i <= m <= i + n,
                forall|k: int| i <= k < m ==> self.springs@[k] != Spring::O,
            decreases i + n - m,
        {
            if self.springs[m] == Spring::O {
                return false;
            }
            m += 1;
        }
        true
    }

    /// A table for the counts of this entry, with nothing in it.
    pub fn blank_memo(&self) -> (seen: Vec<Vec<Option<usize>>>)
        requires
            self.wf(),
        ensures
            memo_ok(seen@, self.springs@, self.damaged@),
            seen@.len() == self.springs@.len() + 2,
    {
        let rows = self.springs.len() + 2;
        let cols = self.damaged.len() + 1;
        let mut seen: Vec<Vec<Option<usize>>> = Vec::new();
        let mut i: usize = 0;
        while i < rows
            invariant
                i <= rows,
                seen@.len() == i,
                forall|a: int, b: int|
                    0 <= a < seen@.len() && 0 <= b < seen@[a]@.len() ==> (#[trigger] seen@[a]@[b])
                        is None,
            decreases rows - i,
        {
            let mut row: Vec<Option<usize>> = Vec::new();
            let mut j: usize = 0;
            while j < cols
                invariant
                    j <= cols,
                    row@.len() == j,
                    forall|b: int| 0 <= b < j ==> (#[trigger] row@[b]) is None,
                decreases cols - j,
            {
                row.push(None);
                j += 1;
            }
            seen.push(row);
            i += 1;
        }
        seen
    }

    /// Reads the springs and, behind white space, the group lengths with
    /// commas between them. `None` if the line has fewer than two words.
    pub fn parse(input: &[u8]) -> (r: Option<Entry>)
        ensures
            match r {
                Some(entry) => words(input@).len() >= 2 && entry.springs@ == springs_in(
                    words(input@)[0],
                ) && entry.damaged@ == numbers_among(split(words(input@)[1], 44u8)),
                None => words(input@).len() < 2,
            },
    {
        let parts = split_words(input);
        if parts.len() < 2 {
            return None;
        }
        assert(views(parts@)[0] == parts@[0]@);
        assert(views(parts@)[1] == parts@[1]@);
        let mut springs: Vec<Spring> = Vec::new();
        let mut k: usize = 0;
        while k < parts[0].len()
            invariant
                parts@.len() >= 2,
                k <= parts@[0]@.len(),
                springs@.len() == k,
                forall|a: int| 0 <= a < k ==> springs@[a] == spring_of(parts@[0]@[a]),
            decreases parts@[0]@.len() - k,
        {
            springs.push(Spring::from(parts[0][k]));
            k += 1;
        }
        assert(springs@ =~= springs_in(parts@[0]@));
        let damaged = parse_usizes(&split_bytes(parts[1].as_slice(), 44u8));
        Some(Entry { springs, damaged })
    }

    /// The entry that `input` writes. The line must have two words.
    pub fn from(input: &str) -> (r: Entry)
        requires
            words(input.spec_bytes()).len() >= 2,
        ensures
            r.springs@ == springs_in(words(input.spec_bytes())[0]),
            r.damaged@ == numbers_among(split(words(input.spec_bytes())[1], 44u8)),
    {
        match Entry::parse(input.as_bytes()) {
            Some(entry) => entry,
            None => Entry { springs: Vec::new(), damaged: Vec::new() },
        }
    }
}

/// The groups from a later index on sum up to no more.
pub proof fn lemma_groups_sum_grows(damaged: Seq<usize>, j: int, k: int)
    requires
        0 <= j <= k,
    ensures
        groups_sum(damaged, k) <= groups_sum(damaged, j),
    decreases k - j,
{
    if j < k && j < damaged.len() {
        lemma_groups_sum_grows(damaged, j + 1, k);
    } else if j < k {
        lemma_groups_sum_grows(damaged, j + 1, k);
    }
}

/// The groups from any index on sum up to no more than all groups.
pub proof fn lemma_groups_sum_bounded(damaged: Seq<usize>, j: int)
    requires
        0 <= j,
    ensures
        groups_sum(damaged, j) <= groups_sum(damaged, 0),
{
    lemma_groups_sum_grows(damaged, 0, j);
}

/// The groups from index `j` on take up at least the first of them.
pub proof fn lemma_remaining_covers(damaged: Seq<usize>, j: int)
    requires
        0 <= j < damaged.len(),
    ensures
        remaining(damaged, j) >= damaged[j],
{
    assert(groups_sum(damaged, j) == damaged[j] + groups_sum(damaged, j + 1));
}

/// One entry from each line. `None` if a line has fewer than two words.
pub fn parse_input(input: &str) -> (r: Option<Vec<Entry>>)
    ensures
        match r {
            Some(entries) => all_entries(lines(input.spec_bytes())) && entries@.len() == lines(
                input.spec_bytes(),
            ).len() && forall|i: int|
                0 <= i < entries@.len() ==> (#[trigger] entries@[i]).springs@ == springs_in(
                    words(lines(input.spec_bytes())[i])[0],
                ) && entries@[i].damaged@ == numbers_among(
                    split(words(lines(input.spec_bytes())[i])[1], 44u8),
                ),
            None => !all_entries(lines(input.spec_bytes())),
        },
{
    let all = split_lines(input.as_bytes());
    let ghost rows = lines(input.spec_bytes());
    let mut entries: Vec<Entry> = Vec::new();
    let mut i: usize = 0;
    while i < all.len()
        invariant
            i <= all@.len(),
            rows == lines(input.spec_bytes()),
            views(all@) == rows,
            entries@.len() == i,
            forall|k: int| 0 <= k < i ==> words(#[trigger] rows[k]).len() >= 2,
            forall|k: int|
                0 <= k < i ==> (#[trigger] entries@[k]).springs@ == springs_in(words(rows[k])[0])
                    && entries@[k].damaged@ == numbers_among(split(words(rows[k])[1], 44u8)),
        decreases all@.len() - i,
    {
        assert(rows[i as int] == all@[i as int]@);
        match Entry::parse(all[i].as_slice()) {
            Some(entry) => {
                entries.push(entry);
            },
            None => {
                return None;
            },
        }
        i += 1;
    }
    Some(entries)
}

/// The springs and the groups of the line, with the springs between the
/// groups, fit the machine word.
pub open spec fn line_fits(line: Seq<u8>) -> bool {
    let damaged = numbers_among(split(words(line)[1], 44u8));
    groups_sum(damaged, 0) + damaged.len() + springs_in(words(line)[0]).len() + 2 <= usize::MAX
}

/// The springs and the groups of the line, unfolded, with the springs
/// between the groups, fit the machine word.
pub open spec fn unfolded_fits(line: Seq<u8>) -> bool {
    let part = numbers_among(split(words(line)[1], 44u8));
    let damaged = part + part + part + part + part;
    groups_sum(damaged, 0) + damaged.len() + five_with_unknown(springs_in(words(line)[0])).len()
        + 2 <= usize::MAX
}

/// The sums of the numbers of arrangements grow with the number of
/// lines.
pub proof fn lemma_sums_grow(rows: Seq<Seq<u8>>, a: nat, b: nat)
    requires
        a <= b,
    ensures
        lines_sum(rows, a) <= lines_sum(rows, b),
        unfolded_sum(rows, a) <= unfolded_sum(rows, b),
    decreases b,
{
    if a < b {
        lemma_sums_grow(rows, a, (b - 1) as nat);
    }
}

/// The sum over all rows of the number of arrangements. `None` if the
/// text cannot be read or a number does not fit the machine word.
pub fn get_solution_1(input: &str) -> (r: Option<usize>)
    ensures
        r matches Some(sum) ==> all_entries(lines(input.spec_bytes())) && sum == lines_sum(
            lines(input.spec_bytes()),
            lines(input.spec_bytes()).len(),
        ),
        r is Some <==> all_entries(lines(input.spec_bytes())) && (forall|i: int|
            0 <= i < lines(input.spec_bytes()).len() ==> line_fits(
                #[trigger] lines(input.spec_bytes())[i],
            )) && lines_sum(lines(input.spec_bytes()), lines(input.spec_bytes()).len())
            <= usize::MAX,
{
    let entries = match parse_input(input) {
        Some(entries) => entries,
        None => {
            return None;
        },
    };
    let ghost rows = lines(input.spec_bytes());
    let mut sum: usize = 0;
    let mut i: usize = 0;
    while i < entries.len()
        invariant
            i <= entries@.len(),
            rows == lines(input.spec_bytes()),
            entries@.len() == rows.len(),
            forall|k: int|
                0 <= k < entries@.len() ==> (#[trigger] entries@[k]).springs@ == springs_in(
                    words(rows[k])[0],
                ) && entries@[k].damaged@ == numbers_among(split(words(rows[k])[1], 44u8)),
            sum == lines_sum(rows, i as nat),
            forall|k: int| 0 <= k < i ==> line_fits(#[trigger] rows[k]),
        decreases entries@.len() - i,
    {
        if !entries[i].is_wf() {
            assert(!line_fits(rows[i as int]));
            return None;
        }
        assert(line_fits(rows[i as int]));
        let mut seen = entries[i].blank_memo();
        let count = match entries[i].count_arrangements(0, 0, &mut seen) {
            Some(count) => count,
            None => {
                proof {
                    lemma_sums_grow(rows, (i + 1) as nat, rows.len());
                }
                return None;
            },
        };
        sum = match sum.checked_add(count) {
            Some(sum) => sum,
            None => {
                proof {
                    lemma_sums_grow(rows, (i + 1) as nat, rows.len());
                }
                return None;
            },
        };
        i += 1;
    }
    Some(sum)
}

/// The springs five times over, with an unknown spring between the
/// copies.
pub open spec fn five_with_unknown(springs: Seq<Spring>) -> Seq<Spring> {
    springs + seq![Spring::U] + springs + seq![Spring::U] + springs + seq![Spring::U] + springs
        + seq![Spring::U] + springs
}

/// The number of arrangements of the row that a line writes, unfolded.
pub open spec fn unfolded_count(line: Seq<u8>) -> nat {
    let springs = springs_in(words(line)[0]);
    let damaged = numbers_among(split(words(line)[1], 44u8));
    arrangements(
        five_with_unknown(springs),
        damaged + damaged + damaged + damaged + damaged,
        0,
        0,
    )
}

/// The sum of the numbers of arrangements of the first `k` lines,
/// unfolded.
pub open spec fn unfolded_sum(rows: Seq<Seq<u8>>, k: nat) -> nat
    decreases k,
{
    if k == 0 {
        0
    } else {
        unfolded_sum(rows, (k - 1) as nat) + unfolded_count(rows[k - 1])
    }
}

/// The sum over all rows, each unfolded, of the number of arrangements.
pub fn get_solution_2(input: &str) -> (r: Option<usize>)
    ensures
        r matches Some(sum) ==> all_entries(lines(input.spec_bytes())) && sum == unfolded_sum(
            lines(input.spec_bytes()),
            lines(input.spec_bytes()).len(),
        ),
        r is Some <==> all_entries(lines(input.spec_bytes())) && (forall|i: int|
            0 <= i < lines(input.spec_bytes()).len() ==> unfolded_fits(
                #[trigger] lines(input.spec_bytes())[i],
            )) && unfolded_sum(lines(input.spec_bytes()), lines(input.spec_bytes()).len())
            <= usize::MAX,
{
    let entries = match parse_input(input) {
        Some(entries) => entries,
        None => {
            return None;
        },
    };
    let ghost rows = lines(input.spec_bytes());
    let mut sum: usize = 0;
    let mut i: usize = 0;
    while i < entries.len()
        invariant
            i <= entries@.len(),
            rows == lines(input.spec_bytes()),
            entries@.len() == rows.len(),
            forall|k: int|
                0 <= k < entries@.len() ==> (#[trigger] entries@[k]).springs@ == springs_in(
                    words(rows[k])[0],
                ) && entries@[k].damaged@ == numbers_among(split(words(rows[k])[1], 44u8)),
            sum == unfolded_sum(rows, i as nat),
            forall|k: int| 0 <= k < i ==> unfolded_fits(#[trigger] rows[k]),
        decreases entries@.len() - i,
    {
        let entry = Entry { springs: copy_springs(&entries[i].springs), damaged: copy_groups(&entries[i].damaged) };
        let unfolded = entry.unfold();
        if !unfolded.is_wf() {
            assert(!unfolded_fits(rows[i as int]));
            return None;
        }
        assert(unfolded_fits(rows[i as int]));
        let mut seen = unfolded.blank_memo();
        let count = match unfolded.count_arrangements(0, 0, &mut seen) {
            Some(count) => count,
            None => {
                proof {
                    lemma_sums_grow(rows, (i + 1) as nat, rows.len());
                }
                return None;
            },
        };
        sum = match sum.checked_add(count) {
            Some(sum) => sum,
            None => {
                proof {
                    lemma_sums_grow(rows, (i + 1) as nat, rows.len());
                }
                return None;
            },
        };
        i += 1;
    }
    Some(sum)
}

/// A copy of the springs.
fn copy_springs(springs: &Vec<Spring>) -> (r: Vec<Spring>)
    ensures
        r@ == springs@,
{
    let mut out: Vec<Spring> = Vec::new();
    let mut k: usize = 0;
    while k < springs.len()
        invariant
            k <= springs@.len(),
            out@ == springs@.take(k as int),
        decreases springs@.len() - k,
    {
        out.push(springs[k]);
        k += 1;
        assert(out@ =~= springs@.take(k as int));
    }
    assert(springs@.take(k as int) =~= springs@);
    out
}

/// A copy of the group lengths.
fn copy_groups(groups: &Vec<usize>) -> (r: Vec<usize>)
    ensures
        r@ == groups@,
{
    let mut out: Vec<usize> = Vec::new();
    let mut k: usize = 0;
    while k < groups.len()
        invariant
            k <= groups@.len(),
            out@ == groups@.take(k as int),
        decreases groups@.len() - k,
    {
        out.push(groups[k]);
        k += 1;
        assert(out@ =~= groups@.take(k as int));
    }
    assert(groups@.take(k as int) =~= groups@);
    out
}

} // verus!
