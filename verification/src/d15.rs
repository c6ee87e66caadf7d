//! Steps of an initialization sequence are hashed, and lenses are put into
//! and taken out of 256 boxes by the hash of their label.

use vstd::prelude::*;
use vstd::string::StringSliceAdditionalSpecFns;
use crate::text::{
    views, split, trim_end, parse_nat, split_bytes, trim_end_bytes, parse_usize, copy_range,
    same_bytes,
};

verus! {

/// The number of boxes.
pub const CAP: usize = 256;

/// The hash of the first `k` bytes: for each byte its code is added, the
/// sum is multiplied by 17, and the remainder by 256 is kept.
pub open spec fn hash_of(text: Seq<u8>, k: nat) -> nat
    decreases k,
{
    if k == 0 {
        0
    } else {
        ((hash_of(text, (k - 1) as nat) + text[k - 1]) * 17 % 256) as nat
    }
}

/// `b` is one of the two operations, a dash or an equals sign.
pub open spec fn is_op(b: u8) -> bool {
    b == 45 || b == 61
}

/// The index of the first operation in `text`, or its length.
pub open spec fn op_index(text: Seq<u8>) -> int
    decreases text.len(),
{
    if text.len() == 0 {
        0
    } else if is_op(text.first()) {
        0
    } else {
        1 + op_index(text.skip(1))
    }
}

/// The step names an operation.
pub open spec fn has_op(text: Seq<u8>) -> bool {
    op_index(text) < text.len()
}

/// What stands before the operation.
pub open spec fn label_of(text: Seq<u8>) -> Seq<u8> {
    text.take(op_index(text))
}

/// What stands behind the operation.
pub open spec fn power_of(text: Seq<u8>) -> Seq<u8> {
    text.skip(op_index(text) + 1)
}

/// The first operation is found within the text, or not at all.
pub proof fn lemma_op_index(text: Seq<u8>)
    ensures
        0 <= op_index(text) <= text.len(),
        has_op(text) ==> is_op(text[op_index(text)]),
    decreases text.len(),
{
    if text.len() > 0 && !is_op(text.first()) {
        lemma_op_index(text.skip(1));
    }
}

/// A step of the sequence: a label, an operation, and for `=` a focal
/// length.
pub trait Lens: Sized {
    /// The bytes of the step.
    spec fn text(&self) -> Seq<u8>;

    /// The label, which stands before the operation.
    fn label(&self) -> (r: Vec<u8>)
        requires
            has_op(self.text()),
        ensures
            r@ == label_of(self.text()),
    ;

    /// The operation, a dash or an equals sign.
    fn op(&self) -> (r: u8)
        requires
            has_op(self.text()),
        ensures
            r == self.text()[op_index(self.text())],
            is_op(r),
    ;

    /// Whether the two steps have the same label.
    fn comp(&self, other: &Self) -> (r: bool)
        requires
            has_op(self.text()),
            has_op(other.text()),
        ensures
            r == (label_of(self.text()) == label_of(other.text())),
    ;

    /// The box of the step: the hash of its label.
    fn hash(&self) -> (r: usize)
        requires
            has_op(self.text()),
        ensures
            r == hash_of(label_of(self.text()), label_of(self.text()).len()),
            r < CAP,
    ;

    /// The hash of the whole step.
    fn hash_p1(&self) -> (r: usize)
        ensures
            r == hash_of(self.text(), self.text().len()),
            r < CAP,
    ;

    /// The focal length, which stands behind the operation, if it is a
    /// number within the machine word.
    fn focusing_power(&self) -> (r: Option<usize>)
        requires
            has_op(self.text()),
        ensures
            match r {
                Some(v) => parse_nat(power_of(self.text())) == Some(v as nat),
                None => match parse_nat(power_of(self.text())) {
                    Some(v) => v > usize::MAX,
                    None => true,
                },
            },
    ;
}

/// The position of the first operation in `text`.
pub fn find_op(text: &Vec<u8>) -> (r: usize)
    ensures
        r == op_index(text@),
        r <= text@.len(),
{
    let len = text.len();
    let mut i: usize = 0;
    assert(text@.skip(0) =~= text@);
    while i < len && !(text[i] == 45u8 || text[i] == 61u8)
        invariant
            len == text@.len(),
            i <= len,
            op_index(text@) == i + op_index(text@.skip(i as int)),
        decreases len - i,
    {
        assert(text@.skip(i as int).skip(1) =~= text@.skip(i + 1));
        i += 1;
    }
    proof {
        if i < len {
            assert(text@.skip(i as int).first() == text@[i as int]);
        }
    }
    i
}

/// The hash of `text`.
pub fn hash_bytes(text: &Vec<u8>) -> (r: usize)
    ensures
        r == hash_of(text@, text@.len()),
        r < CAP,
{
    let len = text.len();
    let mut acc: usize = 0;
    let mut i: usize = 0;
    while i < len
        invariant
            len == text@.len(),
            i <= len,
            acc == hash_of(text@, i as nat),
            acc < 256,
        decreases len - i,
    {
        acc = ((acc + text[i] as usize) * 17) % 256;
        i += 1;
    }
    acc
}

impl Lens for Vec<u8> {
    open spec fn text(&self) -> Seq<u8> {
        self@
    }

    fn label(&self) -> (r: Vec<u8>) {
        let at = find_op(self);
        let r = copy_range(self.as_slice(), 0, at);
        assert(r@ =~= self@.take(at as int));
        r
    }

    fn op(&self) -> (r: u8) {
        proof {
            lemma_op_index(self@);
        }
        let at = find_op(self);
        self[at]
    }

    fn comp(&self, other: &Self) -> (r: bool) {
        let mine = self.label();
        let theirs = other.label();
        same_bytes(mine.as_slice(), theirs.as_slice())
    }

    fn hash(&self) -> (r: usize) {
        let label = self.label();
        hash_bytes(&label)
    }

    fn hash_p1(&self) -> (r: usize) {
        hash_bytes(self)
    }

    fn focusing_power(&self) -> (r: Option<usize>) {
        let at = find_op(self);
        let len = self.len();
        let tail = copy_range(self.as_slice(), at + 1, len);
        assert(tail@ =~= self@.skip(at + 1));
        parse_usize(tail.as_slice())
    }
}

/// The boxes, each a row of lenses in the order in which they were put
/// in.
pub struct AocHashMap<T: Lens> {
    pub buckets: Vec<Vec<T>>,
}

/// The position of the first lens in the box with the label `label`, or
/// the number of lenses in the box.
pub open spec fn position<T: Lens>(bucket: Seq<T>, label: Seq<u8>, k: int) -> int
    decreases bucket.len() - k,
{
    if k < 0 || k >= bucket.len() {
        bucket.len() as int
    } else if label_of(bucket[k].text()) == label {
        k
    } else {
        position(bucket, label, k + 1)
    }
}

/// Every lens in the boxes names an operation.
pub open spec fn lenses_ok<T: Lens>(buckets: Seq<Vec<T>>) -> bool {
    forall|b: int, j: int|
        0 <= b < buckets.len() && 0 <= j < buckets[b]@.len() ==> has_op(
            (#[trigger] buckets[b]@[j]).text(),
        )
}

/// The sum over the first `k` lenses of the box of focal length times
/// place in the box, the places counted from one; lenses without a focal
/// length count nothing.
pub open spec fn box_power<T: Lens>(bucket: Seq<T>, k: nat) -> nat
    decreases k,
{
    if k == 0 {
        0
    } else {
        box_power(bucket, (k - 1) as nat) + match parse_nat(power_of(bucket[k - 1].text())) {
            Some(v) => if v <= usize::MAX {
                v * k
            } else {
                0
            },
            None => 0,
        }
    }
}

/// The sum over the first `k` boxes of box power times box number, the
/// boxes counted from one.
pub open spec fn total_power<T: Lens>(buckets: Seq<Vec<T>>, k: nat) -> nat
    decreases k,
{
    if k == 0 {
        0
    } else {
        total_power(buckets, (k - 1) as nat) + box_power(buckets[k - 1]@, buckets[k - 1]@.len()) * k
    }
}

impl<T: Lens> AocHashMap<T> {
    /// There are 256 boxes, and every lens in them names an operation.
    pub open spec fn wf(&self) -> bool {
        self.buckets@.len() == CAP && lenses_ok(self.buckets@)
    }

    /// 256 empty boxes.
    pub fn new() -> (map: Self)
        ensures
            map.wf(),
            forall|b: int| 0 <= b < CAP ==> (#[trigger] map.buckets@[b])@.len() == 0,
    {
        let mut buckets: Vec<Vec<T>> = Vec::new();
        let mut b: usize = 0;
        while b < CAP
            invariant
                b <= CAP,
                buckets@.len() == b,
                forall|k: int| 0 <= k < b ==> (#[trigger] buckets@[k])@.len() == 0,
            decreases CAP - b,
        {
            buckets.push(Vec::new());
            b += 1;
        }
        AocHashMap { buckets }
    }

    /// The position in its box of the lens with the label of `lens`.
    fn find(&self, lens: &T) -> (r: (usize, Option<usize>))
        requires
            self.wf(),
            has_op(lens.text()),
        ensures
            r.0 == hash_of(label_of(lens.text()), label_of(lens.text()).len()),
            r.0 < CAP,
            match r.1 {
                Some(pos) => pos < self.buckets@[r.0 as int]@.len() && pos == position(
                    self.buckets@[r.0 as int]@,
                    label_of(lens.text()),
                    0,
                ),
                None => position(self.buckets@[r.0 as int]@, label_of(lens.text()), 0)
                    == self.buckets@[r.0 as int]@.len(),
            },
    {
        let bucket_index = lens.hash();
        let bucket = &self.buckets[bucket_index];
        let len = bucket.len();
        let mut pos: usize = 0;
        while pos < len
            invariant
                self.wf(),
                has_op(lens.text()),
                bucket_index < CAP,
                bucket_index == hash_of(label_of(lens.text()), label_of(lens.text()).len()),
                *bucket == self.buckets@[bucket_index as int],
                len == bucket@.len(),
                pos <= len,
                position(bucket@, label_of(lens.text()), 0) == position(
                    bucket@,
                    label_of(lens.text()),
                    pos as int,
                ),
            decreases len - pos,
        {
            assert(has_op(self.buckets@[bucket_index as int]@[pos as int].text()));
            if bucket[pos].comp(lens) {
                return (bucket_index, Some(pos));
            }
            pos += 1;
        }
        (bucket_index, None)
    }

    /// Takes the lens with the label of `lens` out of its box, if it is
    /// there; the lenses behind it move up.
    pub fn remove(&mut self, lens: T) -> (r: Option<T>)
        requires
            old(self).wf(),
            has_op(lens.text()),
        ensures
            final(self).wf(),
            forall|b: int|
                0 <= b < CAP && b != hash_of(label_of(lens.text()), label_of(lens.text()).len())
                    ==> final(self).buckets@[b] == old(self).buckets@[b],
            ({
                let b = hash_of(label_of(lens.text()), label_of(lens.text()).len()) as int;
                let before = old(self).buckets@[b]@;
                let pos = position(before, label_of(lens.text()), 0);
                if pos < before.len() {
                    r == Some(before[pos]) && final(self).buckets@[b]@ == before.remove(pos)
                } else {
                    r is None && final(self).buckets@[b]@ == before
                }
            }),
    {
        let (bucket_index, found) = self.find(&lens);
        match found {
            Some(pos) => {
                let ghost before = self.buckets@;
                let mut bucket = self.buckets.remove(bucket_index);
                let taken = bucket.remove(pos);
                let ghost after = bucket@;
                self.buckets.insert(bucket_index, bucket);
                assert forall|b: int|
                    0 <= b < CAP && b != bucket_index implies self.buckets@[b] == before[b] by {}
                assert(lenses_ok(self.buckets@)) by {
                    assert forall|b: int, j: int|
                        0 <= b < self.buckets@.len() && 0 <= j < self.buckets@[b]@.len() implies has_op(
                        (#[trigger] self.buckets@[b]@[j]).text(),
                    ) by {
                        if b == bucket_index {
                            if j < pos {
                                assert(self.buckets@[b]@[j] == before[b]@[j]);
                            } else {
                                assert(self.buckets@[b]@[j] == before[b]@[j + 1]);
                            }
                        } else {
                            assert(self.buckets@[b] == before[b]);
                        }
                    }
                }
                Some(taken)
            },
            None => None,
        }
    }

    /// Puts `lens` in the place of the lens in its box that has the same
    /// label, which is returned, or at the end of the box if there is
    /// none.
    pub fn insert(&mut self, lens: T) -> (r: Option<T>)
        requires
            old(self).wf(),
            has_op(lens.text()),
        ensures
            final(self).wf(),
            forall|b: int|
                0 <= b < CAP && b != hash_of(label_of(lens.text()), label_of(lens.text()).len())
                    ==> final(self).buckets@[b] == old(self).buckets@[b],
            ({
                let b = hash_of(label_of(lens.text()), label_of(lens.text()).len()) as int;
                let before = old(self).buckets@[b]@;
                let pos = position(before, label_of(lens.text()), 0);
                if pos < before.len() {
                    r == Some(before[pos]) && final(self).buckets@[b]@ == before.update(pos, lens)
                } else {
                    r is None && final(self).buckets@[b]@ == before.push(lens)
                }
            }),
    {
        let (bucket_index, found) = self.find(&lens);
        let ghost before = self.buckets@;
        let mut bucket = self.buckets.remove(bucket_index);
        let r = match found {
            Some(pos) => {
                let taken = bucket.remove(pos);
                bucket.insert(pos, lens);
                assert(bucket@ =~= before[bucket_index as int]@.update(pos as int, lens));
                Some(taken)
            },
            None => {
                bucket.push(lens);
                None
            },
        };
        self.buckets.insert(bucket_index, bucket);
        assert forall|b: int| 0 <= b < CAP && b != bucket_index implies self.buckets@[b]
            == before[b] by {}
        assert(lenses_ok(self.buckets@)) by {
            assert forall|b: int, j: int|
                0 <= b < self.buckets@.len() && 0 <= j < self.buckets@[b]@.len() implies has_op(
                (#[trigger] self.buckets@[b]@[j]).text(),
            ) by {
                if b == bucket_index {
                    if j < before[b]@.len() && self.buckets@[b]@[j] != lens {
                        assert(self.buckets@[b]@[j] == before[b]@[j]);
                    }
                } else {
                    assert(self.buckets@[b] == before[b]);
                }
            }
        }
        r
    }

    /// The sum over all lenses of focal length times place in the box
    /// times box number, places and numbers counted from one. `None` if
    /// the sum does not fit the machine word.
    pub fn focusing_power(&self) -> (r: Option<usize>)
        requires
            self.wf(),
        ensures
            match r {
                Some(total) => total == total_power(self.buckets@, self.buckets@.len()),
                None => total_power(self.buckets@, self.buckets@.len()) > usize::MAX,
            },
    {
        let mut total: usize = 0;
        let mut i: usize = 0;
        while i < CAP
            invariant
                self.wf(),
                i <= CAP,
                total == total_power(self.buckets@, i as nat),
            decreases CAP - i,
        {
            let bucket = &self.buckets[i];
            let len = bucket.len();
            let mut power: usize = 0;
            let mut j: usize = 0;
            proof {
                lemma_total_power_grows(self.buckets@, (i + 1) as nat, CAP as nat);
            }
            while j < len
                invariant
                    self.wf(),
                    i < CAP,
                    *bucket == self.buckets@[i as int],
                    len == bucket@.len(),
                    j <= len,
                    power == box_power(bucket@, j as nat),
                    total_power(self.buckets@, (i + 1) as nat) <= total_power(
                        self.buckets@,
                        CAP as nat,
                    ),
                    total == total_power(self.buckets@, i as nat),
                decreases len - j,
            {
                assert(has_op(self.buckets@[i as int]@[j as int].text()));
                proof {
                    lemma_box_power_grows(bucket@, (j + 1) as nat, len as nat);
                    assert(box_power(bucket@, len as nat) * (i + 1) >= box_power(
                        bucket@,
                        (j + 1) as nat,
                    )) by (nonlinear_arith)
                        requires
                            box_power(bucket@, len as nat) >= box_power(bucket@, (j + 1) as nat),
                            i >= 0,
                    ;
                }
                match bucket[j].focusing_power() {
                    Some(fp) => {
                        let part = match fp.checked_mul(j + 1) {
                            Some(part) => part,
                            None => {
                                return None;
                            },
                        };
                        power = match power.checked_add(part) {
                            Some(power) => power,
                            None => {
                                return None;
                            },
                        };
                    },
                    None => {},
                }
                j += 1;
            }
            let part = match power.checked_mul(i + 1) {
                Some(part) => part,
                None => {
                    return None;
                },
            };
            total = match total.checked_add(part) {
                Some(total) => total,
                None => {
                    return None;
                },
            };
            i += 1;
        }
        Some(total)
    }
}

/// The power of more lenses of a box is not less.
pub proof fn lemma_box_power_grows<T: Lens>(bucket: Seq<T>, j: nat, k: nat)
    requires
        j <= k,
    ensures
        box_power(bucket, j) <= box_power(bucket, k),
    decreases k,
{
    if j < k {
        lemma_box_power_grows(bucket, j, (k - 1) as nat);
    }
}

/// The power of more boxes is not less.
pub proof fn lemma_total_power_grows<T: Lens>(buckets: Seq<Vec<T>>, j: nat, k: nat)
    requires
        j <= k,
    ensures
        total_power(buckets, j) <= total_power(buckets, k),
    decreases k,
{
    if j < k {
        lemma_total_power_grows(buckets, j, (k - 1) as nat);
    }
}

/// The steps of the sequence: what stands between the commas, after the
/// white space at the end of the text was taken off.
pub fn parse_input(input: &str) -> (steps: Vec<Vec<u8>>)
    ensures
        views(steps@) == split(trim_end(input.spec_bytes()), 44u8),
{
    let trimmed = trim_end_bytes(input.as_bytes());
    split_bytes(trimmed.as_slice(), 44u8)
}

/// The sum of the boxes of the first `k` steps, if each of them names an
/// operation.
pub open spec fn boxes_sum(steps: Seq<Seq<u8>>, k: nat) -> Option<nat>
    decreases k,
{
    if k == 0 {
        Some(0)
    } else {
        match boxes_sum(steps, (k - 1) as nat) {
            Some(sum) => if has_op(steps[k - 1]) {
                Some(sum + hash_of(label_of(steps[k - 1]), label_of(steps[k - 1]).len()))
            } else {
                None
            },
            None => None,
        }
    }
}

/// A sum that failed stays failed, and a sum only grows.
pub proof fn lemma_boxes_sum_grows(steps: Seq<Seq<u8>>, j: nat, k: nat)
    requires
        j <= k,
    ensures
        boxes_sum(steps, j) is None ==> boxes_sum(steps, k) is None,
        boxes_sum(steps, k) matches Some(all) ==> boxes_sum(steps, j) matches Some(part) && part
            <= all,
    decreases k,
{
    if j < k {
        lemma_boxes_sum_grows(steps, j, (k - 1) as nat);
    }
}

/// The sum of the boxes of all steps. `None` if a step names no
/// operation or the sum does not fit the machine word.
pub fn get_solution_1(input: &str) -> (r: Option<usize>)
    ensures
        match r {
            Some(sum) => boxes_sum(
                split(trim_end(input.spec_bytes()), 44u8),
                split(trim_end(input.spec_bytes()), 44u8).len(),
            ) == Some(sum as nat),
            None => match boxes_sum(
                split(trim_end(input.spec_bytes()), 44u8),
                split(trim_end(input.spec_bytes()), 44u8).len(),
            ) {
                Some(sum) => sum > usize::MAX,
                None => true,
            },
        },
{
    let steps = parse_input(input);
    let ghost texts = split(trim_end(input.spec_bytes()), 44u8);
    let mut sum: usize = 0;
    let mut i: usize = 0;
    while i < steps.len()
        invariant
            i <= steps@.len(),
            texts == views(steps@),
            texts == split(trim_end(input.spec_bytes()), 44u8),
            boxes_sum(texts, i as nat) == Some(sum as nat),
        decreases steps@.len() - i,
    {
        assert(texts[i as int] == steps@[i as int]@);
        proof {
            lemma_boxes_sum_grows(texts, (i + 1) as nat, texts.len());
        }
        if find_op(&steps[i]) >= steps[i].len() {
            return None;
        }
        sum = match sum.checked_add(steps[i].hash()) {
            Some(sum) => sum,
            None => {
                return None;
            },
        };
        i += 1;
    }
    Some(sum)
}

/// The position of the first lens, from index `k` on, with the label
/// `label` in a box of texts, or the number of lenses in the box.
pub open spec fn place(texts: Seq<Seq<u8>>, label: Seq<u8>, k: int) -> int
    decreases texts.len() - k,
{
    if k < 0 || k >= texts.len() {
        texts.len() as int
    } else if label_of(texts[k]) == label {
        k
    } else {
        place(texts, label, k + 1)
    }
}

/// The boxes after a step: `=` puts the lens in the place of the one with
/// its label, or at the end of its box; every other operation takes the
/// lens with the label out.
pub open spec fn after_step(boxes: Seq<Seq<Seq<u8>>>, step: Seq<u8>) -> Seq<Seq<Seq<u8>>> {
    let b = hash_of(label_of(step), label_of(step).len()) as int;
    let at = place(boxes[b], label_of(step), 0);
    if step[op_index(step)] == 61u8 {
        if at < boxes[b].len() {
            boxes.update(b, boxes[b].update(at, step))
        } else {
            boxes.update(b, boxes[b].push(step))
        }
    } else if at < boxes[b].len() {
        boxes.update(b, boxes[b].remove(at))
    } else {
        boxes
    }
}

/// The boxes after the first `k` steps, beginning with 256 empty boxes.
pub open spec fn after_steps(steps: Seq<Seq<u8>>, k: nat) -> Seq<Seq<Seq<u8>>>
    decreases k,
{
    if k == 0 {
        Seq::new(256, |b: int| Seq::<Seq<u8>>::empty())
    } else {
        after_step(after_steps(steps, (k - 1) as nat), steps[k - 1])
    }
}

/// The texts of the lenses in each box.
pub open spec fn texts_of(buckets: Seq<Vec<Vec<u8>>>) -> Seq<Seq<Seq<u8>>> {
    Seq::new(buckets.len(), |b: int| views(buckets[b]@))
}

/// The power of the first `k` lenses of a box of texts.
pub open spec fn box_power_of(texts: Seq<Seq<u8>>, k: nat) -> nat
    decreases k,
{
    if k == 0 {
        0
    } else {
        box_power_of(texts, (k - 1) as nat) + match parse_nat(power_of(texts[k - 1])) {
            Some(v) => if v <= usize::MAX {
                v * k
            } else {
                0
            },
            None => 0,
        }
    }
}

/// The power of the first `k` boxes of texts.
pub open spec fn total_power_of(boxes: Seq<Seq<Seq<u8>>>, k: nat) -> nat
    decreases k,
{
    if k == 0 {
        0
    } else {
        total_power_of(boxes, (k - 1) as nat) + box_power_of(boxes[k - 1], boxes[k - 1].len()) * k
    }
}

/// A lens is found in a box where its text is found among the texts,
/// at a place of the box or behind.
pub proof fn lemma_place(bucket: Seq<Vec<u8>>, label: Seq<u8>, k: int)
    ensures
        position(bucket, label, k) == place(views(bucket), label, k),
        0 <= k <= bucket.len() ==> k <= position(bucket, label, k) <= bucket.len(),
    decreases bucket.len() - k,
{
    if 0 <= k < bucket.len() {
        assert(views(bucket)[k] == bucket[k]@);
        lemma_place(bucket, label, k + 1);
    }
}

/// The power of a box is the power of its texts.
pub proof fn lemma_box_power(bucket: Seq<Vec<u8>>, k: nat)
    requires
        k <= bucket.len(),
    ensures
        box_power(bucket, k) == box_power_of(views(bucket), k),
    decreases k,
{
    if k > 0 {
        lemma_box_power(bucket, (k - 1) as nat);
        assert(views(bucket)[k - 1] == bucket[k - 1]@);
    }
}

/// The power of the boxes is the power of their texts.
pub proof fn lemma_total_power(buckets: Seq<Vec<Vec<u8>>>, k: nat)
    requires
        k <= buckets.len(),
    ensures
        total_power(buckets, k) == total_power_of(texts_of(buckets), k),
    decreases k,
{
    if k > 0 {
        lemma_total_power(buckets, (k - 1) as nat);
        lemma_box_power(buckets[k - 1]@, buckets[k - 1]@.len());
    }
}

/// Every one of the first `k` steps names an operation.
pub open spec fn all_ops(steps: Seq<Seq<u8>>, k: int) -> bool {
    forall|i: int| 0 <= i < k ==> has_op(#[trigger] steps[i])
}

/// The focusing power of the boxes after all steps were carried out.
/// `None` if a step names no operation or the power does not fit the
/// machine word.
pub fn get_solution_2(input: &str) -> (r: Option<usize>)
    ensures
        match r {
            Some(power) => all_ops(
                split(trim_end(input.spec_bytes()), 44u8),
                split(trim_end(input.spec_bytes()), 44u8).len() as int,
            ) && power == total_power_of(
                after_steps(
                    split(trim_end(input.spec_bytes()), 44u8),
                    split(trim_end(input.spec_bytes()), 44u8).len(),
                ),
                256,
            ),
            None => !all_ops(
                split(trim_end(input.spec_bytes()), 44u8),
                split(trim_end(input.spec_bytes()), 44u8).len() as int,
            ) || total_power_of(
                after_steps(
                    split(trim_end(input.spec_bytes()), 44u8),
                    split(trim_end(input.spec_bytes()), 44u8).len(),
                ),
                256,
            ) > usize::MAX,
        },
{
    let steps = parse_input(input);
    let ghost texts = split(trim_end(input.spec_bytes()), 44u8);
    let mut map: AocHashMap<Vec<u8>> = AocHashMap::new();
    let mut i: usize = 0;
    assert(texts_of(map.buckets@) =~= after_steps(texts, 0)) by {
        assert forall|b: int| 0 <= b < 256 implies texts_of(map.buckets@)[b] == after_steps(
            texts,
            0,
        )[b] by {
            assert(map.buckets@[b]@.len() == 0);
            assert(views(map.buckets@[b]@) =~= Seq::<Seq<u8>>::empty());
        }
    }
    while i < steps.len()
        invariant
            i <= steps@.len(),
            texts == views(steps@),
            texts == split(trim_end(input.spec_bytes()), 44u8),
            map.wf(),
            all_ops(texts, i as int),
            texts_of(map.buckets@) == after_steps(texts, i as nat),
        decreases steps@.len() - i,
    {
        assert(texts[i as int] == steps@[i as int]@);
        if find_op(&steps[i]) >= steps[i].len() {
            assert(!has_op(texts[i as int]));
            return None;
        }
        let lens = copy_range(steps[i].as_slice(), 0, steps[i].len());
        assert(lens@ =~= steps@[i as int]@);
        let ghost before = map.buckets@;
        let ghost b = hash_of(label_of(lens@), label_of(lens@).len()) as int;
        let ghost held = lens;
        let ghost at = position(before[b]@, label_of(lens@), 0);
        proof {
            lemma_place(before[b]@, label_of(lens@), 0);
        }
        let op = lens.op();
        if op == 61u8 {
            map.insert(lens);
        } else {
            map.remove(lens);
        }
        proof {
            let now = texts_of(map.buckets@);
            let want = after_step(texts_of(before), texts[i as int]);
            let old_box = before[b]@;
            let new_box = map.buckets@[b]@;
            assert(texts_of(before)[b] == views(old_box));
            assert(now.len() == want.len());
            if op == 61u8 {
                if at < old_box.len() {
                    assert(new_box == old_box.update(at, held));
                    assert(views(new_box) =~= views(old_box).update(at, held@));
                } else {
                    assert(new_box == old_box.push(held));
                    assert(views(new_box) =~= views(old_box).push(held@));
                }
            } else if at < old_box.len() {
                assert(new_box == old_box.remove(at));
                assert(views(new_box) =~= views(old_box).remove(at));
            } else {
                assert(new_box == old_box);
            }
            assert forall|c: int| 0 <= c < now.len() implies now[c] == want[c] by {
                if c != b {
                    assert(map.buckets@[c] == before[c]);
                }
            }
            assert(now =~= want);
        }
        i += 1;
    }
    proof {
        lemma_total_power(map.buckets@, 256);
    }
    map.focusing_power()
}

} // verus!
