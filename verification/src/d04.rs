//! Scratch cards: each has winning numbers and numbers of its own; the
//! matches give points, or copies of the cards that follow.

use vstd::prelude::*;
use vstd::string::StringSliceAdditionalSpecFns;
use crate::text::{
    views, lines, words, split, numbers_among, first_index, split_lines, split_bytes, split_words,
    parse_usizes, find_byte, copy_range,
};

verus! {

/// No number stands twice.
pub open spec fn distinct(numbers: Seq<u32>) -> bool {
    forall|i: int, j: int| 0 <= i < j < numbers.len() ==> numbers[i] != numbers[j]
}

/// Whether `n` is among the numbers.
pub fn contains(numbers: &Vec<u32>, n: u32) -> (r: bool)
    ensures
        r == numbers@.contains(n),
{
    let mut i: usize = 0;
    while i < numbers.len()
        invariant
            i <= numbers@.len(),
            forall|k: int| 0 <= k < i ==> numbers@[k] != n,
        decreases numbers@.len() - i,
    {
        if numbers[i] == n {
            return true;
        }
        i += 1;
    }
    false
}

/// The first `k` numbers of a part of a card, each once, in the order in
/// which they first stand; numbers of more than 32 bits are passed over.
pub open spec fn card_numbers(all: Seq<usize>, k: nat) -> Seq<u32>
    decreases k,
{
    if k == 0 {
        Seq::empty()
    } else {
        let before = card_numbers(all, (k - 1) as nat);
        if all[k - 1] <= u32::MAX && !before.contains(all[k - 1] as u32) {
            before.push(all[k - 1] as u32)
        } else {
            before
        }
    }
}

/// The numbers that a part of a card writes.
pub open spec fn part_numbers(part: Seq<u8>) -> Seq<u32> {
    card_numbers(numbers_among(words(part)), numbers_among(words(part)).len())
}

/// The numbers of a part of a card, each once, in the order in which they
/// first stand; words that write no number of 32 bits are passed over.
fn read_numbers(part: &[u8]) -> (r: Vec<u32>)
    ensures
        distinct(r@),
        r@ == part_numbers(part@),
{
    let all = parse_usizes(&split_words(part));
    let mut out: Vec<u32> = Vec::new();
    let mut i: usize = 0;
    while i < all.len()
        invariant
            i <= all@.len(),
            distinct(out@),
            out@ == card_numbers(all@, i as nat),
        decreases all@.len() - i,
    {
        if all[i] <= u32::MAX as usize {
            let n = all[i] as u32;
            if !contains(&out, n) {
                let ghost before = out@;
                out.push(n);
                assert forall|a: int, b: int| 0 <= a < b < out@.len() implies out@[a] != out@[b] by {
                    if b < before.len() {
                        assert(before[a] != before[b]);
                    } else {
                        assert(before[a] == out@[a]);
                        if out@[a] == n {
                            assert(before.contains(n));
                        }
                    }
                }
            }
        }
        i += 1;
    }
    out
}

/// The two parts of a card: what stands behind the colon, cut at the
/// bars.
pub open spec fn card_parts(line: Seq<u8>) -> Seq<Seq<u8>> {
    split(line.skip(first_index(line, 58u8) + 1), 124u8)
}

/// The line writes a card: it has a colon, and behind it a bar.
pub open spec fn card_line(line: Seq<u8>) -> bool {
    first_index(line, 58u8) < line.len() && card_parts(line).len() >= 2
}

/// `card` holds the numbers before and behind the bar of the line.
pub open spec fn reads_card(line: Seq<u8>, card: (Vec<u32>, Vec<u32>)) -> bool {
    card_line(line) && card.0@ == part_numbers(card_parts(line)[0]) && card.1@ == part_numbers(
        card_parts(line)[1],
    )
}

/// `cards` holds the card of each line.
pub open spec fn reads_cards(rows: Seq<Seq<u8>>, cards: Seq<(Vec<u32>, Vec<u32>)>) -> bool {
    cards.len() == rows.len() && forall|i: int|
        0 <= i < rows.len() ==> #[trigger] reads_card(rows[i], cards[i])
}

/// The cards, one from each line: behind the colon the numbers before the
/// bar and the numbers behind it. `None` if a line has no colon or no
/// bar.
pub fn parse_input(input: &str) -> (r: Option<Vec<(Vec<u32>, Vec<u32>)>>)
    ensures
        match r {
            Some(cards) => reads_cards(lines(input.spec_bytes()), cards@),
            None => exists|i: int|
                0 <= i < lines(input.spec_bytes()).len() && !card_line(
                    #[trigger] lines(input.spec_bytes())[i],
                ),
        },
{
    let all = split_lines(input.as_bytes());
    let ghost rows = lines(input.spec_bytes());
    let mut cards: Vec<(Vec<u32>, Vec<u32>)> = Vec::new();
    let mut l: usize = 0;
    while l < all.len()
        invariant
            l <= all@.len(),
            rows == views(all@),
            rows == lines(input.spec_bytes()),
            cards@.len() == l,
            forall|i: int| 0 <= i < l ==> #[trigger] reads_card(rows[i], cards@[i]),
        decreases all@.len() - l,
    {
        let line = &all[l];
        let len = line.len();
        assert(rows[l as int] == line@);
        let colon = match find_byte(line.as_slice(), 58u8) {
            Some(colon) => colon,
            None => {
                assert(!card_line(rows[l as int]));
                return None;
            },
        };
        let body = copy_range(line.as_slice(), colon + 1, len);
        assert(body@ =~= line@.skip(colon + 1));
        let parts = split_bytes(body.as_slice(), 124u8);
        if parts.len() < 2 {
            assert(!card_line(rows[l as int]));
            return None;
        }
        assert(views(parts@)[0] == parts@[0]@);
        assert(views(parts@)[1] == parts@[1]@);
        let first = read_numbers(parts[0].as_slice());
        let second = read_numbers(parts[1].as_slice());
        let ghost before = cards@;
        cards.push((first, second));
        assert forall|i: int| 0 <= i < l + 1 implies #[trigger] reads_card(rows[i], cards@[i]) by {
            if i < l {
                assert(cards@[i] == before[i]);
                assert(reads_card(rows[i], before[i]));
            }
        }
        l += 1;
    }
    Some(cards)
}

/// How many of the first `k` numbers of `actual` are among `win`.
pub open spec fn matches(actual: Seq<u32>, win: Seq<u32>, k: nat) -> nat
    decreases k,
{
    if k == 0 {
        0
    } else {
        matches(actual, win, (k - 1) as nat) + if win.contains(actual[k - 1]) {
            1nat
        } else {
            0nat
        }
    }
}

/// The number of numbers that the two parts of a card share.
pub fn count_matches(actual: &Vec<u32>, win: &Vec<u32>) -> (n: usize)
    ensures
        n == matches(actual@, win@, actual@.len()),
        n <= actual@.len(),
{
    let len = actual.len();
    let mut n: usize = 0;
    let mut k: usize = 0;
    while k < len
        invariant
            len == actual@.len(),
            k <= len,
            n == matches(actual@, win@, k as nat),
            n <= k,
        decreases len - k,
    {
        if contains(win, actual[k]) {
            n += 1;
        }
        k += 1;
    }
    n
}

/// Two to the power of `e`.
pub open spec fn pow2(e: nat) -> nat
    decreases e,
{
    if e == 0 {
        1
    } else {
        2 * pow2((e - 1) as nat)
    }
}

/// Powers of two grow with the exponent.
pub proof fn lemma_pow2_grows(a: nat, b: nat)
    requires
        a <= b,
    ensures
        pow2(a) <= pow2(b),
    decreases b,
{
    if a < b {
        lemma_pow2_grows(a, (b - 1) as nat);
    }
}

/// The points of the cards grow with their number.
pub proof fn lemma_points_grow(cards: Seq<(Vec<u32>, Vec<u32>)>, a: nat, b: nat)
    requires
        a <= b,
    ensures
        points(cards, a) <= points(cards, b),
    decreases b,
{
    if a < b {
        lemma_points_grow(cards, a, (b - 1) as nat);
    }
}

/// Two to the power of `e`, if it fits the machine word.
pub fn power_of_two(e: usize) -> (r: Option<usize>)
    ensures
        r matches Some(p) ==> p == pow2(e as nat),
        r is Some <==> pow2(e as nat) <= usize::MAX,
{
    let mut p: usize = 1;
    let mut k: usize = 0;
    while k < e
        invariant
            k <= e,
            p == pow2(k as nat),
        decreases e - k,
    {
        p = match p.checked_mul(2) {
            Some(p) => p,
            None => {
                proof {
                    lemma_pow2_grows((k + 1) as nat, e as nat);
                }
                return None;
            },
        };
        k += 1;
    }
    Some(p)
}

/// The points of the first `k` cards: a card with `n > 0` matches is
/// worth two to the power of `n - 1`.
pub open spec fn points(cards: Seq<(Vec<u32>, Vec<u32>)>, k: nat) -> nat
    decreases k,
{
    if k == 0 {
        0
    } else {
        let n = matches(cards[k - 1].0@, cards[k - 1].1@, cards[k - 1].0@.len());
        points(cards, (k - 1) as nat) + if n > 0 {
            pow2((n - 1) as nat)
        } else {
            0
        }
    }
}

/// Two readings of the same lines have the same matches, card by card,
/// and so the same points, copies and number of cards.
pub proof fn lemma_same_cards(
    rows: Seq<Seq<u8>>,
    a: Seq<(Vec<u32>, Vec<u32>)>,
    b: Seq<(Vec<u32>, Vec<u32>)>,
    k: nat,
)
    requires
        reads_cards(rows, a),
        reads_cards(rows, b),
        k <= rows.len(),
    ensures
        points(a, k) == points(b, k),
        copies_after(a, k) =~= copies_after(b, k),
        held(a, k) == held(b, k),
        forall|i: int| 0 <= i < rows.len() ==> wins(a, i) == wins(b, i),
    decreases k,
{
    assert forall|i: int| 0 <= i < rows.len() implies wins(a, i) == wins(b, i) by {
        assert(reads_card(rows[i], a[i]));
        assert(reads_card(rows[i], b[i]));
    }
    if k > 0 {
        lemma_same_cards(rows, a, b, (k - 1) as nat);
        assert(wins(a, k - 1) == wins(b, k - 1));
    }
}

/// The points of all cards: a card with `n > 0` matches is worth two to
/// the power of `n - 1`. `None` if the text cannot be read or a number
/// does not fit the machine word.
pub fn get_solution_1(input: &str) -> (r: Option<usize>)
    ensures
        r matches Some(sum) ==> exists|cards: Seq<(Vec<u32>, Vec<u32>)>| #[trigger]
            reads_cards(lines(input.spec_bytes()), cards) && sum == points(cards, cards.len()),
        r is Some <==> exists|cards: Seq<(Vec<u32>, Vec<u32>)>| #[trigger]
            reads_cards(lines(input.spec_bytes()), cards) && points(cards, cards.len())
                <= usize::MAX,
{
    let ghost rows = lines(input.spec_bytes());
    let cards = match parse_input(input) {
        Some(cards) => cards,
        None => {
            assert forall|other: Seq<(Vec<u32>, Vec<u32>)>| !#[trigger] reads_cards(
                rows,
                other,
            ) by {
                let i = choose|i: int| 0 <= i < rows.len() && !card_line(#[trigger] rows[i]);
                if reads_cards(rows, other) {
                    assert(reads_card(rows[i], other[i]));
                }
            }
            return None;
        },
    };
    let r = points_of(&cards);
    proof {
        assert(reads_cards(rows, cards@));
        assert forall|other: Seq<(Vec<u32>, Vec<u32>)>| #[trigger]
            reads_cards(rows, other) implies points(other, other.len()) == points(
            cards@,
            cards@.len(),
        ) by {
            lemma_same_cards(rows, cards@, other, rows.len());
        }
    }
    r
}

/// The points of the cards.
pub fn points_of(cards: &Vec<(Vec<u32>, Vec<u32>)>) -> (r: Option<usize>)
    ensures
        r matches Some(sum) ==> sum == points(cards@, cards@.len()),
        r is Some <==> points(cards@, cards@.len()) <= usize::MAX,
{
    let mut sum: usize = 0;
    let mut i: usize = 0;
    while i < cards.len()
        invariant
            i <= cards@.len(),
            sum == points(cards@, i as nat),
        decreases cards@.len() - i,
    {
        let n = count_matches(&cards[i].0, &cards[i].1);
        if n > 0 {
            let worth = match power_of_two(n - 1) {
                Some(worth) => worth,
                None => {
                    proof {
                        lemma_points_grow(cards@, (i + 1) as nat, cards@.len());
                    }
                    return None;
                },
            };
            sum = match sum.checked_add(worth) {
                Some(sum) => sum,
                None => {
                    proof {
                        lemma_points_grow(cards@, (i + 1) as nat, cards@.len());
                    }
                    return None;
                },
            };
        }
        i += 1;
    }
    Some(sum)
}

/// The number of matches of the card with index `i`.
pub open spec fn wins(cards: Seq<(Vec<u32>, Vec<u32>)>, i: int) -> nat {
    matches(cards[i].0@, cards[i].1@, cards[i].0@.len())
}

/// How many of each card there are after the first `k` cards gave out
/// their copies: one of each at first, and then each card in turn gives
/// as many copies as there are of it to each of the cards behind it that
/// it wins.
pub open spec fn copies_after(cards: Seq<(Vec<u32>, Vec<u32>)>, k: nat) -> Seq<nat>
    decreases k,
{
    if k == 0 {
        Seq::new(cards.len(), |j: int| 1nat)
    } else {
        let before = copies_after(cards, (k - 1) as nat);
        Seq::new(
            cards.len(),
            |j: int|
                if k - 1 < j <= k - 1 + wins(cards, k - 1) {
                    before[j] + before[k - 1]
                } else {
                    before[j]
                },
        )
    }
}

/// The number of cards among the first `k` kinds, each counted when its
/// turn to give out copies has come.
pub open spec fn held(cards: Seq<(Vec<u32>, Vec<u32>)>, k: nat) -> nat
    decreases k,
{
    if k == 0 {
        0
    } else {
        held(cards, (k - 1) as nat) + copies_after(cards, (k - 1) as nat)[k - 1]
    }
}

/// Two readings of the same lines can be dealt out alike.
pub proof fn lemma_deal_same(
    rows: Seq<Seq<u8>>,
    a: Seq<(Vec<u32>, Vec<u32>)>,
    b: Seq<(Vec<u32>, Vec<u32>)>,
)
    requires
        reads_cards(rows, a),
        reads_cards(rows, b),
        deal_fits(b),
    ensures
        deal_fits(a),
{
    lemma_same_cards(rows, a, b, rows.len());
    assert forall|i: int| 0 <= i < a.len() implies i + #[trigger] wins(a, i) < a.len() by {
        assert(i + wins(b, i) < b.len());
    }
    assert forall|k: nat, j: int| k <= a.len() && 0 <= j < a.len() implies #[trigger] copies_after(
        a,
        k,
    )[j] <= usize::MAX by {
        lemma_same_cards(rows, a, b, k);
        assert(copies_after(b, k)[j] <= usize::MAX);
    }
    assert forall|k: nat| k <= a.len() implies #[trigger] held(a, k) <= usize::MAX by {
        lemma_same_cards(rows, a, b, k);
        assert(held(b, k) <= usize::MAX);
    }
}

/// The cards can be dealt out: no card wins copies of cards that are not
/// there, and every number of copies and every running total fits the
/// machine word.
pub open spec fn deal_fits(cards: Seq<(Vec<u32>, Vec<u32>)>) -> bool {
    &&& forall|i: int| 0 <= i < cards.len() ==> i + #[trigger] wins(cards, i) < cards.len()
    &&& forall|k: nat, j: int|
        k <= cards.len() && 0 <= j < cards.len() ==> #[trigger] copies_after(cards, k)[j]
            <= usize::MAX
    &&& forall|k: nat| k <= cards.len() ==> #[trigger] held(cards, k) <= usize::MAX
}

/// The number of cards in the end, when each card with `n` matches wins a
/// copy of each of the `n` cards that follow it.
pub fn count_cards(cards: &Vec<(Vec<u32>, Vec<u32>)>) -> (r: Option<usize>)
    ensures
        r matches Some(total) ==> total == held(cards@, cards@.len()),
        r is Some <==> deal_fits(cards@),
{
    let count = cards.len();
    let mut copies: Vec<usize> = Vec::new();
    let mut i: usize = 0;
    while i < count
        invariant
            i <= count,
            copies@.len() == i,
            forall|j: int| 0 <= j < i ==> copies@[j] == 1,
        decreases count - i,
    {
        copies.push(1);
        i += 1;
    }
    let mut sum: usize = 0;
    let mut i: usize = 0;
    while i < count
        invariant
            count == cards@.len(),
            copies@.len() == count,
            i <= count,
            sum == held(cards@, i as nat),
            copies_after(cards@, i as nat).len() == count,
            forall|j: int| 0 <= j < count ==> copies@[j] == copies_after(cards@, i as nat)[j],
            forall|t: int| 0 <= t < i ==> t + #[trigger] wins(cards@, t) < count,
            forall|k: nat, j: int|
                k <= i && 0 <= j < count ==> #[trigger] copies_after(cards@, k)[j] <= usize::MAX,
            forall|k: nat| k <= i ==> #[trigger] held(cards@, k) <= usize::MAX,
        decreases count - i,
    {
        let n = count_matches(&cards[i].0, &cards[i].1);
        assert(n == wins(cards@, i as int));
        if n > count - i - 1 {
            return None;
        }
        let mine = copies[i];
        let ghost before = copies_after(cards@, i as nat);
        let mut j: usize = i + 1;
        while j < i + n + 1
            invariant
                copies@.len() == count,
                before.len() == count,
                i + n + 1 <= count,
                i + 1 <= j <= i + n + 1,
                mine == before[i as int],
                count == cards@.len(),
                n == wins(cards@, i as int),
                before == copies_after(cards@, i as nat),
                forall|t: int|
                    0 <= t < count ==> copies@[t] == if i < t < j {
                        before[t] + before[i as int]
                    } else {
                        before[t]
                    },
            decreases i + n + 1 - j,
        {
            let more = match copies[j].checked_add(mine) {
                Some(more) => more,
                None => {
                    assert(copies_after(cards@, (i + 1) as nat)[j as int] == before[j as int]
                        + before[i as int]);
                    return None;
                },
            };
            copies.set(j, more);
            j += 1;
        }
        assert forall|t: int| 0 <= t < count implies copies@[t] == copies_after(
            cards@,
            (i + 1) as nat,
        )[t] by {}
        assert forall|k: nat, t: int| k <= i + 1 && 0 <= t < count implies #[trigger] copies_after(
            cards@,
            k,
        )[t] <= usize::MAX by {
            if k == i + 1 {
                assert(copies@[t] == copies_after(cards@, (i + 1) as nat)[t]);
            }
        }
        sum = match sum.checked_add(mine) {
            Some(sum) => sum,
            None => {
                assert(held(cards@, (i + 1) as nat) > usize::MAX);
                return None;
            },
        };
        i += 1;
    }
    Some(sum)
}

/// The number of cards in the end, when each card with `n` matches wins a
/// copy of each of the `n` cards that follow it. `None` if a card wins
/// copies of cards that are not there, or a number does not fit.
pub fn get_solution_2(input: &str) -> (r: Option<usize>)
    ensures
        r matches Some(total) ==> exists|cards: Seq<(Vec<u32>, Vec<u32>)>| #[trigger]
            reads_cards(lines(input.spec_bytes()), cards) && total == held(cards, cards.len()),
        r is None ==> forall|cards: Seq<(Vec<u32>, Vec<u32>)>| #[trigger]
            reads_cards(lines(input.spec_bytes()), cards) ==> !deal_fits(cards),
{
    let ghost rows = lines(input.spec_bytes());
    let cards = match parse_input(input) {
        Some(cards) => cards,
        None => {
            assert forall|other: Seq<(Vec<u32>, Vec<u32>)>| !#[trigger] reads_cards(
                rows,
                other,
            ) by {
                let i = choose|i: int| 0 <= i < rows.len() && !card_line(#[trigger] rows[i]);
                if reads_cards(rows, other) {
                    assert(reads_card(rows[i], other[i]));
                }
            }
            return None;
        },
    };
    let r = count_cards(&cards);
    proof {
        assert(reads_cards(rows, cards@));
        if r is None {
            assert forall|other: Seq<(Vec<u32>, Vec<u32>)>| #[trigger]
                reads_cards(rows, other) implies !deal_fits(other) by {
                if deal_fits(other) {
                    lemma_deal_same(rows, cards@, other);
                }
            }
        }
    }
    r
}

} // verus!
