//! Hands of five cards are ranked by their kind and then card by card, and
//! the bids are paid out by rank; in part two the jack is a joker.

use vstd::prelude::*;
use vstd::string::StringSliceAdditionalSpecFns;
use std::cmp::Ordering;
use crate::text::{
    views, lines, words, parse_nat, split_lines, split_words, parse_usize, push_char,
};

verus! {

#[derive(Debug, PartialEq, Eq, Clone, Copy, Structural)]
pub enum Card {
    Two,
    Three,
    Four,
    Five,
    Six,
    Seven,
    Eight,
    Nine,
    T,
    J,
    Q,
    K,
    A,
}

/// The strength of a card; a jack counts 11, or 1 where it is the joker.
pub open spec fn value_of(card: Card, is_joker: bool) -> usize {
    match card {
        Card::Two => 2,
        Card::Three => 3,
        Card::Four => 4,
        Card::Five => 5,
        Card::Six => 6,
        Card::Seven => 7,
        Card::Eight => 8,
        Card::Nine => 9,
        Card::T => 10,
        Card::J => if is_joker {
            1
        } else {
            11
        },
        Card::Q => 12,
        Card::K => 13,
        Card::A => 14,
    }
}

/// The card that a character writes.
pub open spec fn card_of(input: char) -> Option<Card> {
    if input == '2' {
        Some(Card::Two)
    } else if input == '3' {
        Some(Card::Three)
    } else if input == '4' {
        Some(Card::Four)
    } else if input == '5' {
        Some(Card::Five)
    } else if input == '6' {
        Some(Card::Six)
    } else if input == '7' {
        Some(Card::Seven)
    } else if input == '8' {
        Some(Card::Eight)
    } else if input == '9' {
        Some(Card::Nine)
    } else if input == 'T' {
        Some(Card::T)
    } else if input == 'J' {
        Some(Card::J)
    } else if input == 'Q' {
        Some(Card::Q)
    } else if input == 'K' {
        Some(Card::K)
    } else if input == 'A' {
        Some(Card::A)
    } else {
        None
    }
}

/// The character that writes a card.
pub open spec fn char_of(card: Card) -> char {
    match card {
        Card::Two => '2',
        Card::Three => '3',
        Card::Four => '4',
        Card::Five => '5',
        Card::Six => '6',
        Card::Seven => '7',
        Card::Eight => '8',
        Card::Nine => '9',
        Card::T => 'T',
        Card::J => 'J',
        Card::Q => 'Q',
        Card::K => 'K',
        Card::A => 'A',
    }
}

impl Card {
    pub fn value(&self, is_joker: bool) -> (v: usize)
        ensures
            v == value_of(*self, is_joker),
    {
        match self {
            Card::Two => 2,
            Card::Three => 3,
            Card::Four => 4,
            Card::Five => 5,
            Card::Six => 6,
            Card::Seven => 7,
            Card::Eight => 8,
            Card::Nine => 9,
            Card::T => 10,
            Card::J => if is_joker {
                1
            } else {
                11
            },
            Card::Q => 12,
            Card::K => 13,
            Card::A => 14,
        }
    }

    /// The card that `input` writes, if it writes one.
    pub fn from_char(input: char) -> (r: Option<Card>)
        ensures
            r == card_of(input),
    {
        if input == '2' {
            Some(Card::Two)
        } else if input == '3' {
            Some(Card::Three)
        } else if input == '4' {
            Some(Card::Four)
        } else if input == '5' {
            Some(Card::Five)
        } else if input == '6' {
            Some(Card::Six)
        } else if input == '7' {
            Some(Card::Seven)
        } else if input == '8' {
            Some(Card::Eight)
        } else if input == '9' {
            Some(Card::Nine)
        } else if input == 'T' {
            Some(Card::T)
        } else if input == 'J' {
            Some(Card::J)
        } else if input == 'Q' {
            Some(Card::Q)
        } else if input == 'K' {
            Some(Card::K)
        } else if input == 'A' {
            Some(Card::A)
        } else {
            None
        }
    }

    /// The character that writes the card.
    pub fn to_char(self) -> (c: char)
        ensures
            c == char_of(self),
            card_of(c) == Some(self),
    {
        match self {
            Card::Two => '2',
            Card::Three => '3',
            Card::Four => '4',
            Card::Five => '5',
            Card::Six => '6',
            Card::Seven => '7',
            Card::Eight => '8',
            Card::Nine => '9',
            Card::T => 'T',
            Card::J => 'J',
            Card::Q => 'Q',
            Card::K => 'K',
            Card::A => 'A',
        }
    }
}

impl Default for Card {
    fn default() -> (c: Card)
        ensures
            c == Card::Two,
    {
        Card::Two
    }
}

#[derive(Debug, PartialEq, Eq, Clone, Copy)]
pub struct Hand {
    pub cards: [Card; 5],
    pub p2: bool,
}

/// How many of the cards with an index from `from` up to `to` are `card`.
pub open spec fn count_between(cards: Seq<Card>, card: Card, from: int, to: int) -> int
    decreases to - from,
{
    if to <= from {
        0
    } else {
        count_between(cards, card, from, to - 1) + if cards[to - 1] == card {
            1int
        } else {
            0int
        }
    }
}

/// The first card at an index from `start` up to `6 - n` that occurs
/// `n - 1` times later in the hand; jokers are passed over.
pub open spec fn is_n_spec(hand: Hand, n: int, start: int) -> Option<Card>
    decreases 6 - n - start,
{
    if start < 0 || start >= 6 - n {
        None
    } else if !(hand.cards@[start] == Card::J && hand.p2) && count_between(
        hand.cards@,
        hand.cards@[start],
        start + 1,
        5,
    ) == n - 1 {
        Some(hand.cards@[start])
    } else {
        is_n_spec(hand, n, start + 1)
    }
}

/// Some search for a pair from an index in `from..to` finds a card other
/// than `first`.
pub open spec fn other_pair(hand: Hand, first: Card, from: int, to: int) -> bool
    decreases to - from,
{
    if to <= from {
        false
    } else {
        other_pair(hand, first, from, to - 1) || match is_n_spec(hand, 2, to - 1) {
            Some(second) => second != first,
            None => false,
        }
    }
}

/// Three of one card and a pair of another.
pub open spec fn full_house_spec(hand: Hand) -> bool {
    match is_n_spec(hand, 3, 0) {
        Some(three) => other_pair(hand, three, 0, 5),
        None => false,
    }
}

/// Two pairs of different cards.
pub open spec fn double_pair_spec(hand: Hand) -> bool {
    match is_n_spec(hand, 2, 0) {
        Some(first) => other_pair(hand, first, 1, 5),
        None => false,
    }
}

/// The kind of a hand, from 6 for five of a kind down to 0 for a high
/// card.
pub open spec fn score_spec(hand: Hand) -> usize {
    if is_n_spec(hand, 5, 0) is Some {
        6
    } else if is_n_spec(hand, 4, 0) is Some {
        5
    } else if full_house_spec(hand) {
        4
    } else if is_n_spec(hand, 3, 0) is Some {
        3
    } else if double_pair_spec(hand) {
        2
    } else if is_n_spec(hand, 2, 0) is Some {
        1
    } else {
        0
    }
}

/// The kind that one joker turns a kind into; five of a kind and a full
/// house stay as they are.
pub open spec fn upgrade_spec(score: usize) -> usize {
    if score == 5 {
        6
    } else if score == 3 {
        5
    } else if score == 2 {
        4
    } else if score == 1 {
        3
    } else if score == 0 {
        1
    } else {
        score
    }
}

/// The kind after `jokers` jokers have each raised it.
pub open spec fn upgraded(score: usize, jokers: int) -> usize
    decreases jokers,
{
    if jokers <= 0 {
        score
    } else {
        upgrade_spec(upgraded(score, jokers - 1))
    }
}

/// The kind of a hand with jokers: five of a kind if it holds nothing
/// else, else its kind raised once for every joker.
pub open spec fn score_joker_spec(hand: Hand) -> usize {
    if count_between(hand.cards@, Card::J, 0, 5) == 5 {
        6
    } else {
        upgraded(score_spec(hand), count_between(hand.cards@, Card::J, 0, 5))
    }
}

/// The order of two hands by their cards from index `k` on, the first
/// difference deciding; the jack counts as `p2` says.
pub open spec fn cards_order(a: Hand, b: Hand, p2: bool, k: int) -> Ordering
    decreases 5 - k,
{
    if k < 0 || k >= 5 {
        Ordering::Equal
    } else if value_of(a.cards@[k], p2) < value_of(b.cards@[k], p2) {
        Ordering::Less
    } else if value_of(a.cards@[k], p2) > value_of(b.cards@[k], p2) {
        Ordering::Greater
    } else {
        cards_order(a, b, p2, k + 1)
    }
}

/// The kind by which a hand is ranked.
pub open spec fn rank_of(hand: Hand) -> usize {
    if hand.p2 {
        score_joker_spec(hand)
    } else {
        score_spec(hand)
    }
}

/// The order of two hands: by kind, then card by card as the first hand
/// counts the jack.
pub open spec fn hand_order(a: Hand, b: Hand) -> Ordering {
    if rank_of(a) < rank_of(b) {
        Ordering::Less
    } else if rank_of(a) > rank_of(b) {
        Ordering::Greater
    } else {
        cards_order(a, b, a.p2, 0)
    }
}

/// The bytes `word` write a hand: at most five, each of them a card.
pub open spec fn readable(word: Seq<u8>) -> bool {
    word.len() <= 5 && forall|k: int| 0 <= k < word.len() ==> card_of_byte(#[trigger] word[k]) is Some
}

/// `hand` is the hand that the bytes `word` write: card by card, with twos
/// in the places that `word` does not reach, and no jokers.
pub open spec fn reads_as(word: Seq<u8>, hand: Hand) -> bool {
    &&& !hand.p2
    &&& forall|k: int|
        0 <= k < 5 ==> hand.cards@[k] == if k < word.len() {
            card_of_byte(word[k]).unwrap()
        } else {
            Card::Two
        }
}

impl Hand {
    /// Reads a hand of up to five cards.
    pub fn parse(input: &str) -> (r: Option<Hand>)
        ensures
            match r {
                Some(hand) => readable(input.spec_bytes()) && reads_as(input.spec_bytes(), hand),
                None => !readable(input.spec_bytes()),
            },
    {
        hand_from_bytes(input.as_bytes())
    }

    /// The hand that `input` writes.
    pub fn from(input: &str) -> (hand: Hand)
        requires
            readable(input.spec_bytes()),
        ensures
            reads_as(input.spec_bytes(), hand),
    {
        match Hand::parse(input) {
            Some(hand) => hand,
            None => Hand { cards: [Card::Two, Card::Two, Card::Two, Card::Two, Card::Two], p2: false },
        }
    }

    /// The five characters that write the hand.
    pub fn to_string(&self) -> (s: String)
        ensures
            s@.len() == 5,
            forall|i: int| 0 <= i < 5 ==> s@[i] == char_of(self.cards@[i]),
    {
        let mut s = String::new();
        let mut i: usize = 0;
        while i < 5
            invariant
                i <= 5,
                s@.len() == i,
                forall|k: int| 0 <= k < i ==> s@[k] == char_of(self.cards@[k]),
            decreases 5 - i,
        {
            push_char(&mut s, self.cards[i].to_char());
            i += 1;
        }
        s
    }

    pub fn compare(&self, other: &Self) -> (r: Ordering)
        ensures
            r == hand_order(*self, *other),
    {
        let lhs = if self.p2 {
            self.score_joker()
        } else {
            self.score()
        };
        let rhs = if other.p2 {
            other.score_joker()
        } else {
            other.score()
        };
        if lhs < rhs {
            Ordering::Less
        } else if lhs > rhs {
            Ordering::Greater
        } else {
            self.compare_strongest_card(other)
        }
    }

    /// Whether the hand is ranked above `other`.
    pub fn exceeds(&self, other: &Self) -> (r: bool)
        ensures
            r == hand_above(*self, *other),
    {
        match self.compare(other) {
            Ordering::Greater => true,
            Ordering::Less => false,
            Ordering::Equal => false,
        }
    }

    pub fn compare_strongest_card(&self, other: &Self) -> (r: Ordering)
        ensures
            r == cards_order(*self, *other, self.p2, 0),
    {
        let p2 = self.p2;
        let mut k: usize = 0;
        let ghost mut at: int = 0;
        while k < 5
            invariant
                k <= 5,
                at == k,
                p2 == self.p2,
                cards_order(*self, *other, p2, 0) == cards_order(*self, *other, p2, at),
            decreases 5 - k,
        {
            let lhs = self.cards[k].value(p2);
            let rhs = other.cards[k].value(p2);
            if lhs < rhs {
                return Ordering::Less;
            } else if lhs > rhs {
                return Ordering::Greater;
            }
            k += 1;
            proof {
                at = at + 1;
            }
        }
        Ordering::Equal
    }

    pub fn is_five(&self) -> (r: bool)
        ensures
            r == is_n_spec(*self, 5, 0) is Some,
    {
        self.is_n(5, 0).is_some()
    }

    pub fn is_four(&self) -> (r: bool)
        ensures
            r == is_n_spec(*self, 4, 0) is Some,
    {
        self.is_n(4, 0).is_some()
    }

    pub fn is_three(&self) -> (r: bool)
        ensures
            r == is_n_spec(*self, 3, 0) is Some,
    {
        self.is_n(3, 0).is_some()
    }

    pub fn is_pair(&self) -> (r: bool)
        ensures
            r == is_n_spec(*self, 2, 0) is Some,
    {
        self.is_n(2, 0).is_some()
    }

    /// Whether some search for a pair from an index in `from..5` finds a
    /// card other than `first`.
    fn has_other_pair(&self, first: Card, from: usize) -> (r: bool)
        requires
            from <= 5,
        ensures
            r == other_pair(*self, first, from as int, 5),
    {
        let mut found = false;
        let mut i: usize = from;
        while i < 5
            invariant
                from <= i <= 5,
                found == other_pair(*self, first, from as int, i as int),
            decreases 5 - i,
        {
            match self.is_n(2, i) {
                Some(second) => {
                    if second != first {
                        found = true;
                    }
                },
                None => {},
            }
            i += 1;
        }
        found
    }

    pub fn is_full_house(&self) -> (r: bool)
        ensures
            r == full_house_spec(*self),
    {
        match self.is_n(3, 0) {
            Some(three) => self.has_other_pair(three, 0),
            None => false,
        }
    }

    pub fn is_double_pair(&self) -> (r: bool)
        ensures
            r == double_pair_spec(*self),
    {
        match self.is_n(2, 0) {
            Some(first) => self.has_other_pair(first, 1),
            None => false,
        }
    }

    /// The first card from `start` on that the hand holds exactly `n`
    /// times from there on, if there is one among the places where `n`
    /// cards still fit; jokers are ignored.
    pub fn is_n(&self, n: usize, start: usize) -> (r: Option<Card>)
        requires
            1 <= n <= 6,
        ensures
            r == is_n_spec(*self, n as int, start as int),
    {
        let mut i: usize = start;
        while i < 6 - n
            invariant
                1 <= n <= 6,
                start <= i,
                is_n_spec(*self, n as int, start as int) == is_n_spec(*self, n as int, i as int),
            decreases 6 - n - i,
        {
            if !(self.cards[i] == Card::J && self.p2) {
                let mut count: usize = 0;
                let mut j: usize = i + 1;
                while j < 5
                    invariant
                        i < 5,
                        i + 1 <= j <= 5,
                        count == count_between(self.cards@, self.cards@[i as int], i + 1, j as int),
                        count <= j,
                    decreases 5 - j,
                {
                    if self.cards[j] == self.cards[i] {
                        count += 1;
                    }
                    j += 1;
                }
                if count == n - 1 {
                    return Some(self.cards[i]);
                }
            }
            i += 1;
        }
        None
    }

    pub fn score(&self) -> (s: usize)
        ensures
            s == score_spec(*self),
            s <= 6,
    {
        if self.is_five() {
            6
        } else if self.is_four() {
            5
        } else if self.is_full_house() {
            4
        } else if self.is_three() {
            3
        } else if self.is_double_pair() {
            2
        } else if self.is_pair() {
            1
        } else {
            0
        }
    }

    /// The kind that one joker turns `score` into. Five of a kind and a
    /// full house cannot be raised.
    pub fn upgrade(&self, score: usize) -> (s: usize)
        requires
            score == 0 || score == 1 || score == 2 || score == 3 || score == 5,
        ensures
            s == upgrade_spec(score),
    {
        if score == 5 {
            6
        } else if score == 3 {
            5
        } else if score == 2 {
            4
        } else if score == 1 {
            3
        } else {
            1
        }
    }

    /// The kind of the hand when each jack raises it to the next best
    /// kind: four to five, three to four, two pair to full house, pair to
    /// three, high card to pair.
    pub fn score_joker(&self) -> (s: usize)
        ensures
            s == score_joker_spec(*self),
    {
        let mut jokers: usize = 0;
        let mut i: usize = 0;
        while i < 5
            invariant
                i <= 5,
                jokers == count_between(self.cards@, Card::J, 0, i as int),
                jokers <= i,
            decreases 5 - i,
        {
            if self.cards[i] == Card::J {
                jokers += 1;
            }
            i += 1;
        }
        if jokers == 5 {
            return 6;
        }
        let mut score = self.score();
        let ghost base = score;
        let mut k: usize = 0;
        while k < jokers
            invariant
                k <= jokers,
                score <= 6,
                score == upgraded(base, k as int),
            decreases jokers - k,
        {
            if score != 4 && score != 6 {
                score = self.upgrade(score);
            }
            k += 1;
        }
        score
    }
}

/// The first hand is ranked above the second.
pub open spec fn hand_above(a: Hand, b: Hand) -> bool {
    hand_order(a, b) == Ordering::Greater
}

/// Where `hand` goes into the sorted bids `sorted`: behind the last bid
/// whose hand is not above it.
pub open spec fn place(sorted: Seq<(Hand, usize)>, hand: Hand) -> int
    decreases sorted.len(),
{
    if sorted.len() == 0 {
        0
    } else if hand_above(sorted.last().0, hand) {
        place(sorted.drop_last(), hand)
    } else {
        sorted.len() as int
    }
}

/// The bids ordered by hand, weakest first; bids with equal hands keep
/// their order.
pub open spec fn sorted_bids(bids: Seq<(Hand, usize)>) -> Seq<(Hand, usize)>
    decreases bids.len(),
{
    if bids.len() == 0 {
        bids
    } else {
        let before = sorted_bids(bids.drop_last());
        before.insert(place(before, bids.last().0), bids.last())
    }
}

/// The sum over the first `k` bids of the amount times the rank, the
/// ranks counted from one.
pub open spec fn winnings(sorted: Seq<(Hand, usize)>, k: int) -> int
    decreases k,
{
    if k <= 0 {
        0
    } else {
        winnings(sorted, k - 1) + sorted[k - 1].1 * k
    }
}

/// The winnings of more bids are not less.
pub proof fn lemma_winnings_grow(sorted: Seq<(Hand, usize)>, j: int, k: int)
    requires
        0 <= j <= k,
    ensures
        0 <= winnings(sorted, j) <= winnings(sorted, k),
    decreases k,
{
    if j < k {
        lemma_winnings_grow(sorted, j, k - 1);
        assert(sorted[k - 1].1 * k >= 0) by (nonlinear_arith)
            requires
                sorted[k - 1].1 >= 0,
                k >= 0,
        ;
    } else if k > 0 {
        lemma_winnings_grow(sorted, j - 1, k - 1);
        assert(sorted[k - 1].1 * k >= 0) by (nonlinear_arith)
            requires
                sorted[k - 1].1 >= 0,
                k >= 0,
        ;
    }
}

/// Orders the bids by hand, weakest first.
pub fn sort_bids(bids: &Vec<(Hand, usize)>) -> (sorted: Vec<(Hand, usize)>)
    ensures
        sorted@ == sorted_bids(bids@),
        sorted@.len() == bids@.len(),
{
    let mut out: Vec<(Hand, usize)> = Vec::new();
    let mut i: usize = 0;
    assert(bids@.take(0) =~= Seq::<(Hand, usize)>::empty());
    while i < bids.len()
        invariant
            i <= bids@.len(),
            out@ == sorted_bids(bids@.take(i as int)),
            out@.len() == i,
        decreases bids@.len() - i,
    {
        let bid = bids[i];
        assert(bids@.take(i + 1).drop_last() =~= bids@.take(i as int));
        assert(bids@.take(i + 1).last() == bid);
        let mut p: usize = out.len();
        assert(out@.take(p as int) =~= out@);
        while p > 0 && out[p - 1].0.exceeds(&bid.0)
            invariant
                p <= out@.len(),
                place(out@, bid.0) == place(out@.take(p as int), bid.0),
            decreases p,
        {
            assert(out@.take(p as int).drop_last() =~= out@.take(p - 1));
            p -= 1;
        }
        out.insert(p, bid);
        i += 1;
    }
    assert(bids@.take(i as int) =~= bids@);
    out
}


/// The line begins with a hand, followed by an amount that fits the
/// machine word.
pub open spec fn bid_line(line: Seq<u8>) -> bool {
    &&& words(line).len() >= 2
    &&& readable(words(line)[0])
    &&& match parse_nat(words(line)[1]) {
        Some(v) => v <= usize::MAX,
        None => false,
    }
}

/// `bid` holds the hand and the amount that the line writes.
pub open spec fn reads_bid(line: Seq<u8>, bid: (Hand, usize)) -> bool {
    bid_line(line) && reads_as(words(line)[0], bid.0) && parse_nat(words(line)[1]) == Some(
        bid.1 as nat,
    )
}

/// `bets` holds the hand and the amount of each line.
pub open spec fn reads_bids(rows: Seq<Seq<u8>>, bets: Seq<(Hand, usize)>) -> bool {
    &&& bets.len() == rows.len()
    &&& forall|i: int| 0 <= i < rows.len() ==> #[trigger] reads_bid(rows[i], bets[i])
}

/// The bids with every jack a joker.
pub open spec fn with_jokers(bets: Seq<(Hand, usize)>) -> Seq<(Hand, usize)> {
    Seq::new(bets.len(), |i: int| (Hand { cards: bets[i].0.cards, p2: true }, bets[i].1))
}

/// The hands with their bids, one from each line. `None` if a line does
/// not begin with a hand followed by an amount.
pub fn parse_input(input: &str) -> (r: Option<Vec<(Hand, usize)>>)
    ensures
        match r {
            Some(bets) => reads_bids(lines(input.spec_bytes()), bets@),
            None => exists|i: int|
                0 <= i < lines(input.spec_bytes()).len() && !bid_line(
                    #[trigger] lines(input.spec_bytes())[i],
                ),
        },
{
    let all = split_lines(input.as_bytes());
    let ghost rows = lines(input.spec_bytes());
    let mut bets: Vec<(Hand, usize)> = Vec::new();
    let mut i: usize = 0;
    while i < all.len()
        invariant
            i <= all@.len(),
            rows == lines(input.spec_bytes()),
            views(all@) == rows,
            bets@.len() == i,
            forall|k: int| 0 <= k < i ==> #[trigger] reads_bid(rows[k], bets@[k]),
        decreases all@.len() - i,
    {
        assert(rows[i as int] == all@[i as int]@);
        let parts = split_words(all[i].as_slice());
        if parts.len() < 2 {
            assert(!bid_line(rows[i as int]));
            return None;
        }
        assert(views(parts@)[0] == parts@[0]@);
        assert(views(parts@)[1] == parts@[1]@);
        let hand = match hand_from_bytes(parts[0].as_slice()) {
            Some(hand) => hand,
            None => {
                assert(!bid_line(rows[i as int]));
                return None;
            },
        };
        let amount = match parse_usize(parts[1].as_slice()) {
            Some(amount) => amount,
            None => {
                assert(!bid_line(rows[i as int]));
                return None;
            },
        };
        let ghost before = bets@;
        bets.push((hand, amount));
        assert forall|k: int| 0 <= k < i + 1 implies #[trigger] reads_bid(rows[k], bets@[k]) by {
            if k < i {
                assert(bets@[k] == before[k]);
                assert(reads_bid(rows[k], before[k]));
            } else {
                assert(words(rows[k]) == views(parts@));
            }
        }
        i += 1;
    }
    Some(bets)
}

/// The card that the byte `b` writes.
pub open spec fn card_of_byte(b: u8) -> Option<Card> {
    if b == 50 {
        Some(Card::Two)
    } else if b == 51 {
        Some(Card::Three)
    } else if b == 52 {
        Some(Card::Four)
    } else if b == 53 {
        Some(Card::Five)
    } else if b == 54 {
        Some(Card::Six)
    } else if b == 55 {
        Some(Card::Seven)
    } else if b == 56 {
        Some(Card::Eight)
    } else if b == 57 {
        Some(Card::Nine)
    } else if b == 84 {
        Some(Card::T)
    } else if b == 74 {
        Some(Card::J)
    } else if b == 81 {
        Some(Card::Q)
    } else if b == 75 {
        Some(Card::K)
    } else if b == 65 {
        Some(Card::A)
    } else {
        None
    }
}

/// Reads a hand of up to five cards from bytes; places that the bytes do
/// not reach hold twos.
pub fn hand_from_bytes(word: &[u8]) -> (r: Option<Hand>)
    ensures
        match r {
            Some(hand) => readable(word@) && reads_as(word@, hand),
            None => !readable(word@),
        },
{
    if word.len() > 5 {
        return None;
    }
    let mut cards = [Card::Two, Card::Two, Card::Two, Card::Two, Card::Two];
    let mut i: usize = 0;
    while i < word.len()
        invariant
            word@.len() <= 5,
            i <= word@.len(),
            forall|k: int| 0 <= k < i ==> card_of_byte(#[trigger] word@[k]) is Some,
            forall|k: int|
                0 <= k < 5 ==> cards@[k] == if k < i {
                    card_of_byte(word@[k]).unwrap()
                } else {
                    Card::Two
                },
        decreases word@.len() - i,
    {
        let b = word[i];
        let card = if b == 50 {
            Card::Two
        } else if b == 51 {
            Card::Three
        } else if b == 52 {
            Card::Four
        } else if b == 53 {
            Card::Five
        } else if b == 54 {
            Card::Six
        } else if b == 55 {
            Card::Seven
        } else if b == 56 {
            Card::Eight
        } else if b == 57 {
            Card::Nine
        } else if b == 84 {
            Card::T
        } else if b == 74 {
            Card::J
        } else if b == 81 {
            Card::Q
        } else if b == 75 {
            Card::K
        } else if b == 65 {
            Card::A
        } else {
            return None;
        };
        cards[i] = card;
        i += 1;
    }
    Some(Hand { cards, p2: false })
}

/// Orders the bids by hand and adds up each amount times its rank. `None`
/// if the sum does not fit the machine word.
pub fn determine_total_winnings(bids: Vec<(Hand, usize)>) -> (r: Option<usize>)
    ensures
        match r {
            Some(total) => total == winnings(sorted_bids(bids@), bids@.len() as int),
            None => winnings(sorted_bids(bids@), bids@.len() as int) > usize::MAX,
        },
{
    let sorted = sort_bids(&bids);
    let mut total: usize = 0;
    let mut i: usize = 0;
    while i < sorted.len()
        invariant
            i <= sorted@.len(),
            sorted@.len() == bids@.len(),
            sorted@ == sorted_bids(bids@),
            total == winnings(sorted@, i as int),
        decreases sorted@.len() - i,
    {
        proof {
            lemma_winnings_grow(sorted@, i + 1, sorted@.len() as int);
        }
        let amount = sorted[i].1;
        let share = match amount.checked_mul(i + 1) {
            Some(share) => share,
            None => {
                return None;
            },
        };
        total = match total.checked_add(share) {
            Some(total) => total,
            None => {
                return None;
            },
        };
        i += 1;
    }
    Some(total)
}

/// Some line does not begin with a hand followed by an amount.
pub open spec fn unread(rows: Seq<Seq<u8>>) -> bool {
    exists|i: int| 0 <= i < rows.len() && !bid_line(#[trigger] rows[i])
}

/// What the bids in `input` win in total.
pub fn get_solution_1(input: &str) -> (r: Option<usize>)
    ensures
        r matches Some(total) ==> exists|bets: Seq<(Hand, usize)>| #[trigger]
            reads_bids(lines(input.spec_bytes()), bets) && total == winnings(
                sorted_bids(bets),
                bets.len() as int,
            ),
        r is None ==> unread(lines(input.spec_bytes())) || exists|bets: Seq<(Hand, usize)>| #[trigger]
            reads_bids(lines(input.spec_bytes()), bets) && winnings(
                sorted_bids(bets),
                bets.len() as int,
            ) > usize::MAX,
{
    match parse_input(input) {
        Some(bids) => {
            let ghost bets = bids@;
            let r = determine_total_winnings(bids);
            proof {
                assert(reads_bids(lines(input.spec_bytes()), bets));
            }
            r
        },
        None => None,
    }
}

/// What the bids in `input` win in total when jacks are jokers.
pub fn get_solution_2(input: &str) -> (r: Option<usize>)
    ensures
        r matches Some(total) ==> exists|bets: Seq<(Hand, usize)>| #[trigger]
            reads_bids(lines(input.spec_bytes()), bets) && total == winnings(
                sorted_bids(with_jokers(bets)),
                bets.len() as int,
            ),
        r is None ==> unread(lines(input.spec_bytes())) || exists|bets: Seq<(Hand, usize)>| #[trigger]
            reads_bids(lines(input.spec_bytes()), bets) && winnings(
                sorted_bids(with_jokers(bets)),
                bets.len() as int,
            ) > usize::MAX,
{
    let bids = match parse_input(input) {
        Some(bids) => bids,
        None => {
            return None;
        },
    };
    let mut jokers: Vec<(Hand, usize)> = Vec::new();
    let mut i: usize = 0;
    while i < bids.len()
        invariant
            i <= bids@.len(),
            jokers@.len() == i,
            forall|k: int|
                0 <= k < i ==> (#[trigger] jokers@[k]) == (
                    Hand { cards: bids@[k].0.cards, p2: true },
                    bids@[k].1,
                ),
        decreases bids@.len() - i,
    {
        jokers.push((Hand { cards: bids[i].0.cards, p2: true }, bids[i].1));
        i += 1;
    }
    assert(jokers@ =~= with_jokers(bids@));
    let r = determine_total_winnings(jokers);
    proof {
        assert(reads_bids(lines(input.spec_bytes()), bids@));
        assert(with_jokers(bids@).len() == bids@.len());
    }
    r
}

} // verus!
