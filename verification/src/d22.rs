//! Bricks fall until they rest on the ground or on another brick; the
//! solver asks which bricks carry no other alone, and how many would fall
//! if one were taken away.

use vstd::prelude::*;
use vstd::string::StringSliceAdditionalSpecFns;
use crate::text::{
    views, lines, split, numbers_among, first_index, split_lines, split_bytes, parse_usizes,
    find_byte, copy_range,
};

verus! {

pub const X: usize = 0;

pub const Y: usize = 1;

pub const Z: usize = 2;

/// A brick takes up the cells from `start` to `end`, both included; the
/// coordinates are x, y and z.
#[derive(Debug, PartialEq, Eq, Hash, Clone, Copy)]
pub struct Brick {
    pub start: [usize; 3],
    pub end: [usize; 3],
}

/// The ranges `a` and `b`, both with their ends included, share a point:
/// `b` begins in `a`, or `a` begins in `b`.
pub open spec fn ranges_overlap(a: (usize, usize), b: (usize, usize)) -> bool {
    a.0 <= b.0 && a.1 >= b.0 || a.0 >= b.0 && a.0 <= b.1
}

/// The two bricks overlap along the axis `coord`.
pub open spec fn overlap_on(a: Brick, b: Brick, coord: int) -> bool {
    ranges_overlap((a.start@[coord], a.end@[coord]), (b.start@[coord], b.end@[coord]))
}

/// Seen from above, the two bricks cover a common cell.
pub open spec fn stacked(a: Brick, b: Brick) -> bool {
    overlap_on(a, b, 0) && overlap_on(a, b, 1)
}

/// `b` lies directly on `a`.
pub open spec fn supports_spec(a: Brick, b: Brick) -> bool {
    stacked(a, b) && a.end@[2] + 1 == b.start@[2]
}

/// The two bricks take up the same cells.
pub open spec fn same(a: Brick, b: Brick) -> bool {
    a.start@ == b.start@ && a.end@ == b.end@
}

/// The brick `a` moved so that it begins at height `z`.
pub open spec fn moved_to(a: Brick, z: int, b: Brick) -> bool {
    &&& b.start@[0] == a.start@[0]
    &&& b.start@[1] == a.start@[1]
    &&& b.start@[2] == z
    &&& b.end@[0] == a.end@[0]
    &&& b.end@[1] == a.end@[1]
    &&& b.end@[2] == z + a.end@[2] - a.start@[2]
}

/// `bricks[i]` rests on the brick `me` and is not that brick.
pub open spec fn carried(me: Brick, bricks: Seq<Brick>, i: int) -> bool {
    0 <= i < bricks.len() && !same(bricks[i], me) && supports_spec(me, bricks[i])
}

/// `bricks[k]` is another brick than `me`, ends at the same height, and
/// carries `bricks[i]` too.
pub open spec fn helps(me: Brick, bricks: Seq<Brick>, k: int, i: int) -> bool {
    0 <= k < bricks.len() && !same(bricks[k], me) && bricks[k].end@[2] == me.end@[2]
        && supports_spec(bricks[k], bricks[i])
}

/// Some brick with an index below `n` helps to carry `bricks[i]`.
pub open spec fn helped(me: Brick, bricks: Seq<Brick>, i: int, n: int) -> bool {
    exists|k: int| 0 <= k < n && #[trigger] helps(me, bricks, k, i)
}

/// Every brick that rests on `me` rests on another brick too.
pub open spec fn safe_spec(me: Brick, bricks: Seq<Brick>) -> bool {
    forall|i: int| #[trigger] carried(me, bricks, i) ==> helped(me, bricks, i, bricks.len() as int)
}

impl Brick {
    /// No coordinate of the start is above that of the end.
    pub open spec fn wf(&self) -> bool {
        self.start@[0] <= self.end@[0] && self.start@[1] <= self.end@[1] && self.start@[2]
            <= self.end@[2]
    }

    /// The number of cells from the lowest to the highest, both counted.
    pub open spec fn height(&self) -> int {
        self.end@[2] - self.start@[2] + 1
    }

    /// Whether the two bricks take up the same cells.
    pub fn is_same(&self, other: &Self) -> (r: bool)
        ensures
            r == same(*self, *other),
    {
        let r = self.start[X] == other.start[X] && self.start[Y] == other.start[Y] && self.start[Z]
            == other.start[Z] && self.end[X] == other.end[X] && self.end[Y] == other.end[Y]
            && self.end[Z] == other.end[Z];
        proof {
            if r {
                assert(self.start@ =~= other.start@);
                assert(self.end@ =~= other.end@);
            }
        }
        r
    }

    /// The brick at height `z`.
    pub fn drop_down_to(self, z: usize) -> (r: Self)
        requires
            self.wf(),
            z + self.height() - 1 <= usize::MAX,
        ensures
            moved_to(self, z as int, r),
            r.wf(),
            r.height() == self.height(),
    {
        let height = self.end[Z] - self.start[Z];
        Brick {
            start: [self.start[X], self.start[Y], z],
            end: [self.end[X], self.end[Y], z + height],
        }
    }

    /// Whether `other` lies directly on this brick.
    pub fn supports(&self, other: &Self) -> (r: bool)
        ensures
            r == supports_spec(*self, *other),
    {
        let x_overlap = self.overlaps(other, X);
        let y_overlap = self.overlaps(other, Y);
        let z_touch = other.start[Z] > 0 && self.end[Z] == other.start[Z] - 1;
        x_overlap && y_overlap && z_touch
    }

    /// Whether the two bricks overlap along the axis `coord`.
    pub fn overlaps(&self, other: &Self, coord: usize) -> (r: bool)
        requires
            coord <= Z,
        ensures
            r == overlap_on(*self, *other, coord as int),
    {
        Self::overlaps_helper(
            (self.start[coord], self.end[coord]),
            (other.start[coord], other.end[coord]),
        )
    }

    pub fn overlaps_helper(a: (usize, usize), b: (usize, usize)) -> (r: bool)
        ensures
            r == ranges_overlap(a, b),
    {
        a.0 <= b.0 && a.1 >= b.0 || a.0 >= b.0 && a.0 <= b.1
    }

    /// Whether every brick that rests on this one rests on another brick
    /// as well, so that none falls when this brick is taken away.
    pub fn safe_to_disintegrate(&self, others: &Vec<Brick>) -> (r: bool)
        ensures
            r == safe_spec(*self, others@),
    {
        let n = others.len();
        let mut supported: Vec<usize> = Vec::new();
        let mut i: usize = 0;
        while i < n
            invariant
                n == others@.len(),
                i <= n,
                forall|s: int|
                    0 <= s < supported@.len() ==> (#[trigger] supported@[s]) < i && carried(
                        *self,
                        others@,
                        supported@[s] as int,
                    ),
                forall|b: int|
                    0 <= b < i && #[trigger] carried(*self, others@, b) ==> supported@.contains(
                        b as usize,
                    ),
            decreases n - i,
        {
            if !others[i].is_same(self) && self.supports(&others[i]) {
                let ghost before = supported@;
                supported.push(i);
                assert forall|b: int| 0 <= b < i + 1 && #[trigger] carried(
                    *self,
                    others@,
                    b,
                ) implies supported@.contains(b as usize) by {
                    if b < i {
                        assert(before.contains(b as usize));
                        let s = choose|s: int| 0 <= s < before.len() && before[s] == b as usize;
                        assert(supported@[s] == b as usize);
                    } else {
                        assert(supported@[supported@.len() - 1] == b as usize);
                    }
                }
            }
            i += 1;
        }
        if supported.len() == 0 {
            assert forall|b: int| #[trigger] carried(*self, others@, b) implies helped(
                *self,
                others@,
                b,
                n as int,
            ) by {
                assert(supported@.contains(b as usize));
            }
            return true;
        }
        let mut k: usize = 0;
        while k < n
            invariant
                n == others@.len(),
                k <= n,
                forall|s: int|
                    0 <= s < supported@.len() ==> (#[trigger] supported@[s]) < n && carried(
                        *self,
                        others@,
                        supported@[s] as int,
                    ) && !helped(*self, others@, supported@[s] as int, k as int),
                forall|b: int|
                    #[trigger] carried(*self, others@, b) && !helped(*self, others@, b, k as int)
                        ==> supported@.contains(b as usize),
            decreases n - k,
        {
            let brick = &others[k];
            if !brick.is_same(self) && brick.end[Z] == self.end[Z] {
                let ghost before = supported@;
                let mut kept: Vec<usize> = Vec::new();
                let mut s: usize = 0;
                while s < supported.len()
                    invariant
                        n == others@.len(),
                        k < n,
                        supported@ == before,
                        s <= supported@.len(),
                        *brick == others@[k as int],
                        !same(*brick, *self),
                        brick.end@[2] == self.end@[2],
                        forall|t: int| 0 <= t < before.len() ==> (#[trigger] before[t]) < n,
                        forall|t: int|
                            0 <= t < kept@.len() ==> before.contains(#[trigger] kept@[t])
                                && !supports_spec(*brick, others@[kept@[t] as int]),
                        forall|t: int|
                            0 <= t < s && !supports_spec(*brick, others@[before[t] as int])
                                ==> kept@.contains(#[trigger] before[t]),
                    decreases supported@.len() - s,
                {
                    let candidate = supported[s];
                    if !brick.supports(&others[candidate]) {
                        let ghost old_kept = kept@;
                        kept.push(candidate);
                        assert forall|t: int|
                            0 <= t < s + 1 && !supports_spec(
                                *brick,
                                others@[before[t] as int],
                            ) implies kept@.contains(#[trigger] before[t]) by {
                            if t < s {
                                assert(old_kept.contains(before[t]));
                                let u = choose|u: int|
                                    0 <= u < old_kept.len() && old_kept[u] == before[t];
                                assert(kept@[u] == before[t]);
                            } else {
                                assert(kept@[kept@.len() - 1] == before[t]);
                            }
                        }
                        assert forall|t: int| 0 <= t < kept@.len() implies before.contains(
                            #[trigger] kept@[t],
                        ) && !supports_spec(*brick, others@[kept@[t] as int]) by {
                            if t < old_kept.len() {
                                assert(kept@[t] == old_kept[t]);
                            } else {
                                assert(before[s as int] == candidate);
                            }
                        }
                    }
                    s += 1;
                }
                supported = kept;
                assert forall|t: int| 0 <= t < supported@.len() implies (
                #[trigger] supported@[t]) < n && carried(*self, others@, supported@[t] as int)
                    && !helped(*self, others@, supported@[t] as int, k + 1) by {
                    let v = supported@[t];
                    assert(before.contains(v));
                    let u = choose|u: int| 0 <= u < before.len() && before[u] == v;
                    assert(!helped(*self, others@, before[u] as int, k as int));
                    if helped(*self, others@, v as int, k + 1) {
                        let w = choose|w: int| 0 <= w < k + 1 && #[trigger] helps(*self, others@, w, v as int);
                        if w < k {
                            assert(helped(*self, others@, v as int, k as int));
                        }
                    }
                }
                assert forall|b: int|
                    #[trigger] carried(*self, others@, b) && !helped(
                        *self,
                        others@,
                        b,
                        k + 1,
                    ) implies supported@.contains(b as usize) by {
                    if helped(*self, others@, b, k as int) {
                        let w = choose|w: int| 0 <= w < k && #[trigger] helps(*self, others@, w, b);
                        assert(helps(*self, others@, w, b));
                    }
                    assert(before.contains(b as usize));
                    let u = choose|u: int| 0 <= u < before.len() && before[u] == b as usize;
                    assert(!helps(*self, others@, k as int, b));
                    assert(!supports_spec(*brick, others@[before[u] as int]));
                    assert(kept@.contains(before[u]));
                }
            } else {
                assert forall|b: int| !helps(*self, others@, k as int, b) by {}
                assert forall|t: int| 0 <= t < supported@.len() implies !helped(
                    *self,
                    others@,
                    (#[trigger] supported@[t]) as int,
                    k + 1,
                ) by {
                    let v = supported@[t];
                    if helped(*self, others@, v as int, k + 1) {
                        let w = choose|w: int| 0 <= w < k + 1 && #[trigger] helps(*self, others@, w, v as int);
                        if w < k {
                            assert(helped(*self, others@, v as int, k as int));
                        }
                    }
                }
                assert forall|b: int|
                    #[trigger] carried(*self, others@, b) && !helped(
                        *self,
                        others@,
                        b,
                        k + 1,
                    ) implies supported@.contains(b as usize) by {
                    if helped(*self, others@, b, k as int) {
                        let w = choose|w: int| 0 <= w < k && #[trigger] helps(*self, others@, w, b);
                        assert(helps(*self, others@, w, b));
                    }
                }
            }
            k += 1;
        }
        if supported.len() == 0 {
            assert forall|b: int| #[trigger] carried(*self, others@, b) implies helped(
                *self,
                others@,
                b,
                n as int,
            ) by {
                if !helped(*self, others@, b, n as int) {
                    assert(supported@.contains(b as usize));
                }
            }
            true
        } else {
            assert(carried(*self, others@, supported@[0] as int));
            false
        }
    }

    /// How many other bricks fall when this brick is taken away: the
    /// bricks that come to rest at another height when those that begin
    /// above this brick fall once more without it.
    pub fn disintegrate(&self, bricks: &Vec<Brick>) -> (r: usize)
        requires
            all_wf(bricks@),
            exists|h: nat| fits(bricks@, h),
        ensures
            exists|dropped: Seq<Brick>| #[trigger]
                settled_above(
                    by_height(without(bricks@, *self, bricks@.len())),
                    dropped,
                    self.end@[2] as int,
                    without(bricks@, *self, bricks@.len()).len() as int,
                ) && r == moved_count(
                    by_height(without(bricks@, *self, bricks@.len())),
                    dropped,
                    without(bricks@, *self, bricks@.len()).len(),
                ),
    {
        let ghost h = choose|h: nat| fits(bricks@, h);
        let mut rest: Vec<Brick> = Vec::new();
        let mut i: usize = 0;
        while i < bricks.len()
            invariant
                i <= bricks@.len(),
                all_wf(bricks@),
                fits(bricks@, h),
                rest@.len() <= i,
                rest@ == without(bricks@, *self, i as nat),
                forall|k: int| 0 <= k < rest@.len() ==> bricks@.contains(#[trigger] rest@[k]),
            decreases bricks@.len() - i,
        {
            if !self.is_same(&bricks[i]) {
                let ghost before = rest@;
                rest.push(bricks[i]);
                assert forall|k: int| 0 <= k < rest@.len() implies bricks@.contains(
                    #[trigger] rest@[k],
                ) by {
                    if k < before.len() {
                        assert(rest@[k] == before[k]);
                    } else {
                        assert(bricks@[i as int] == rest@[k]);
                    }
                }
            }
            i += 1;
        }
        proof {
            lemma_part_fits(bricks@, rest@, h);
        }
        drop_bricks_counted(rest, self.end[Z])
    }
}

/// The first `k` bricks without those that take up the cells of `me`.
pub open spec fn without(bricks: Seq<Brick>, me: Brick, k: nat) -> Seq<Brick>
    decreases k,
{
    if k == 0 {
        Seq::empty()
    } else if same(me, bricks[k - 1]) {
        without(bricks, me, (k - 1) as nat)
    } else {
        without(bricks, me, (k - 1) as nat).push(bricks[k - 1])
    }
}

/// Every brick is well formed.
pub open spec fn all_wf(bricks: Seq<Brick>) -> bool {
    forall|i: int| 0 <= i < bricks.len() ==> (#[trigger] bricks[i]).wf()
}

/// No brick reaches the height `h`, and a tower of as many bricks of
/// height `h` as there are bricks stays within the machine word.
pub open spec fn fits(bricks: Seq<Brick>, h: nat) -> bool {
    &&& forall|i: int| 0 <= i < bricks.len() ==> (#[trigger] bricks[i]).end@[2] < h
    &&& (bricks.len() + 1) * h <= usize::MAX
}

/// Bricks taken from a heap that fits fit as well, if they are no more.
pub proof fn lemma_part_fits(bricks: Seq<Brick>, part: Seq<Brick>, h: nat)
    requires
        all_wf(bricks),
        fits(bricks, h),
        part.len() <= bricks.len(),
        forall|k: int| 0 <= k < part.len() ==> bricks.contains(#[trigger] part[k]),
    ensures
        all_wf(part),
        fits(part, h),
{
    assert forall|k: int| 0 <= k < part.len() implies (#[trigger] part[k]).wf() && part[k].end@[2]
        < h by {
        assert(bricks.contains(part[k]));
        let j = choose|j: int| 0 <= j < bricks.len() && bricks[j] == part[k];
        assert(bricks[j].wf());
    }
    assert((part.len() + 1) * h <= (bricks.len() + 1) * h) by (nonlinear_arith)
        requires
            part.len() <= bricks.len(),
            h >= 0,
    ;
}

/// The bricks in the order of the height at which they begin, lowest
/// first; where `brick` goes among `sorted`.
pub open spec fn place(sorted: Seq<Brick>, brick: Brick) -> int
    decreases sorted.len(),
{
    if sorted.len() == 0 {
        0
    } else if sorted.last().start@[2] > brick.start@[2] {
        place(sorted.drop_last(), brick)
    } else {
        sorted.len() as int
    }
}

/// The bricks ordered by the height at which they begin, lowest first;
/// bricks that begin at the same height keep their order.
pub open spec fn by_height(bricks: Seq<Brick>) -> Seq<Brick>
    decreases bricks.len(),
{
    if bricks.len() == 0 {
        bricks
    } else {
        let before = by_height(bricks.drop_last());
        before.insert(place(before, bricks.last()), bricks.last())
    }
}

/// Where a brick goes is a position in the sequence.
pub proof fn lemma_place_within(sorted: Seq<Brick>, brick: Brick)
    ensures
        0 <= place(sorted, brick) <= sorted.len(),
    decreases sorted.len(),
{
    if sorted.len() > 0 {
        lemma_place_within(sorted.drop_last(), brick);
    }
}

/// Ordering neither adds nor loses a brick.
pub proof fn lemma_by_height_keeps(bricks: Seq<Brick>)
    ensures
        by_height(bricks).len() == bricks.len(),
        forall|k: int| 0 <= k < bricks.len() ==> bricks.contains(#[trigger] by_height(bricks)[k]),
    decreases bricks.len(),
{
    if bricks.len() > 0 {
        let before = by_height(bricks.drop_last());
        lemma_by_height_keeps(bricks.drop_last());
        lemma_place_within(before, bricks.last());
        let p = place(before, bricks.last());
        let after = before.insert(p, bricks.last());
        assert forall|k: int| 0 <= k < bricks.len() implies bricks.contains(#[trigger] after[k]) by {
            if k == p {
                assert(bricks[bricks.len() - 1] == after[k]);
            } else {
                let j = if k < p {
                    k
                } else {
                    k - 1
                };
                assert(after[k] == before[j]);
                assert(bricks.drop_last().contains(before[j]));
                let m = choose|m: int| 0 <= m < bricks.drop_last().len() && bricks.drop_last()[m] == before[j];
                assert(bricks[m] == before[j]);
            }
        }
    }
}

/// Orders the bricks by the height at which they begin.
pub fn sort_by_height(bricks: &Vec<Brick>) -> (sorted: Vec<Brick>)
    ensures
        sorted@ == by_height(bricks@),
        sorted@.len() == bricks@.len(),
        forall|k: int| 0 <= k < sorted@.len() ==> bricks@.contains(#[trigger] sorted@[k]),
{
    let mut out: Vec<Brick> = Vec::new();
    let mut i: usize = 0;
    assert(bricks@.take(0) =~= Seq::<Brick>::empty());
    while i < bricks.len()
        invariant
            i <= bricks@.len(),
            out@ == by_height(bricks@.take(i as int)),
            out@.len() == i,
        decreases bricks@.len() - i,
    {
        let brick = bricks[i];
        assert(bricks@.take(i + 1).drop_last() =~= bricks@.take(i as int));
        assert(bricks@.take(i + 1).last() == brick);
        let mut p: usize = out.len();
        assert(out@.take(p as int) =~= out@);
        while p > 0 && out[p - 1].start[Z] > brick.start[Z]
            invariant
                p <= out@.len(),
                place(out@, brick) == place(out@.take(p as int), brick),
            decreases p,
        {
            assert(out@.take(p as int).drop_last() =~= out@.take(p - 1));
            p -= 1;
        }
        out.insert(p, brick);
        i += 1;
    }
    assert(bricks@.take(i as int) =~= bricks@);
    proof {
        lemma_by_height_keeps(bricks@);
    }
    out
}

/// The greatest height at which one of the first `k` bricks of `dropped`
/// that lie under `brick` ends; zero if none lies under it.
pub open spec fn top_below(dropped: Seq<Brick>, brick: Brick, k: nat) -> int
    decreases k,
{
    if k == 0 {
        0
    } else {
        let before = top_below(dropped, brick, (k - 1) as nat);
        if stacked(brick, dropped[k - 1]) && dropped[k - 1].end@[2] > before {
            dropped[k - 1].end@[2] as int
        } else {
            before
        }
    }
}

/// Some one of the first `k` bricks of `dropped` lies under `brick`.
pub open spec fn any_below(dropped: Seq<Brick>, brick: Brick, k: nat) -> bool
    decreases k,
{
    if k == 0 {
        false
    } else {
        any_below(dropped, brick, (k - 1) as nat) || stacked(brick, dropped[k - 1])
    }
}

/// The height at which `brick` comes to rest on the bricks `dropped`: one
/// above the highest brick under it, or one if nothing lies under it.
pub open spec fn rest_level(dropped: Seq<Brick>, brick: Brick) -> int {
    if any_below(dropped, brick, dropped.len()) {
        top_below(dropped, brick, dropped.len()) + 1
    } else {
        1
    }
}

/// `dropped` is what the first `k` of the ordered bricks become when each
/// in turn falls as far as it can.
pub open spec fn settled(sorted: Seq<Brick>, dropped: Seq<Brick>, k: int) -> bool {
    &&& dropped.len() == k
    &&& forall|i: int|
        0 <= i < k ==> moved_to(sorted[i], rest_level(dropped.take(i), sorted[i]), #[trigger] dropped[i])
}

/// The highest end among the bricks of `dropped` under `brick`.
fn highest_below(dropped: &Vec<Brick>, brick: &Brick) -> (r: Option<usize>)
    ensures
        match r {
            Some(z) => any_below(dropped@, *brick, dropped@.len()) && z == top_below(
                dropped@,
                *brick,
                dropped@.len(),
            ) && exists|i: int| 0 <= i < dropped@.len() && (#[trigger] dropped@[i]).end@[2] == z,
            None => !any_below(dropped@, *brick, dropped@.len()),
        },
{
    let mut max_z: Option<usize> = None;
    let mut i: usize = 0;
    while i < dropped.len()
        invariant
            i <= dropped@.len(),
            match max_z {
                Some(z) => any_below(dropped@, *brick, i as nat) && z == top_below(
                    dropped@,
                    *brick,
                    i as nat,
                ) && exists|j: int| 0 <= j < i && (#[trigger] dropped@[j]).end@[2] == z,
                None => !any_below(dropped@, *brick, i as nat) && top_below(
                    dropped@,
                    *brick,
                    i as nat,
                ) == 0,
            },
        decreases dropped@.len() - i,
    {
        let below = &dropped[i];
        if brick.overlaps(below, X) && brick.overlaps(below, Y) {
            match max_z {
                Some(z) => {
                    if below.end[Z] > z {
                        max_z = Some(below.end[Z]);
                        assert(dropped@[i as int].end@[2] == below.end@[2]);
                    } else {
                        proof {
                            let j = choose|j: int|
                                0 <= j < i && (#[trigger] dropped@[j]).end@[2] == z;
                            assert(dropped@[j].end@[2] == z);
                        }
                    }
                },
                None => {
                    max_z = Some(below.end[Z]);
                    assert(dropped@[i as int].end@[2] == below.end@[2]);
                },
            }
        } else {
            match max_z {
                Some(z) => {
                    proof {
                        let j = choose|j: int| 0 <= j < i && (#[trigger] dropped@[j]).end@[2] == z;
                        assert(dropped@[j].end@[2] == z);
                    }
                },
                None => {},
            }
        }
        i += 1;
    }
    max_z
}

/// Lets the bricks fall, lowest first, each until it lies on the ground
/// at height one or on a brick that fell before. The result holds the
/// bricks in the order in which they fell.
pub fn drop_bricks(bricks: Vec<Brick>) -> (dropped: Vec<Brick>)
    requires
        all_wf(bricks@),
        exists|h: nat| fits(bricks@, h),
    ensures
        settled(by_height(bricks@), dropped@, bricks@.len() as int),
        all_wf(dropped@),
{
    let ghost h = choose|h: nat| fits(bricks@, h);
    let sorted = sort_by_height(&bricks);
    proof {
        lemma_part_fits(bricks@, sorted@, h);
    }
    let n = sorted.len();
    let mut dropped_bricks: Vec<Brick> = Vec::new();
    let mut i: usize = 0;
    while i < n
        invariant
            n == sorted@.len(),
            i <= n,
            all_wf(sorted@),
            fits(sorted@, h),
            all_wf(dropped_bricks@),
            settled(sorted@, dropped_bricks@, i as int),
            forall|k: int| 0 <= k < i ==> (#[trigger] dropped_bricks@[k]).end@[2] <= i * h,
        decreases n - i,
    {
        let brick = sorted[i];
        let ghost before = dropped_bricks@;
        assert(brick.wf() && brick.end@[2] < h);
        assert((i + 1) * h <= (n + 1) * h) by (nonlinear_arith)
            requires
                i + 1 <= n + 1,
                h >= 0,
        ;
        assert((i + 1) * h == i * h + h) by (nonlinear_arith);
        assert(i * h >= 0) by (nonlinear_arith)
            requires
                h >= 0,
                i >= 0,
        ;
        let level = match highest_below(&dropped_bricks, &brick) {
            Some(z) => z + 1,
            None => 1,
        };
        assert(before.take(i as int) =~= before);
        let fallen = brick.drop_down_to(level);
        dropped_bricks.push(fallen);
        assert forall|k: int| 0 <= k < i + 1 implies moved_to(
            sorted@[k],
            rest_level(dropped_bricks@.take(k), sorted@[k]),
            #[trigger] dropped_bricks@[k],
        ) by {
            assert(dropped_bricks@.take(k) =~= before.take(k));
            if k < i {
                assert(dropped_bricks@[k] == before[k]);
            }
        }
        i += 1;
    }
    dropped_bricks
}

/// The height at which `brick` comes to rest when only bricks that begin
/// above `end_z` fall.
pub open spec fn level_above(dropped: Seq<Brick>, brick: Brick, end_z: int) -> int {
    if brick.start@[2] <= end_z {
        brick.start@[2] as int
    } else {
        rest_level(dropped, brick)
    }
}

/// `dropped` is what the first `k` of the ordered bricks become when each
/// in turn that begins above `end_z` falls as far as it can.
pub open spec fn settled_above(sorted: Seq<Brick>, dropped: Seq<Brick>, end_z: int, k: int) -> bool {
    &&& dropped.len() == k
    &&& forall|i: int|
        0 <= i < k ==> moved_to(
            sorted[i],
            level_above(dropped.take(i), sorted[i], end_z),
            #[trigger] dropped[i],
        )
}

/// How many of the first `k` bricks came to rest at another height than
/// they began at.
pub open spec fn moved_count(sorted: Seq<Brick>, dropped: Seq<Brick>, k: nat) -> nat
    decreases k,
{
    if k == 0 {
        0
    } else {
        moved_count(sorted, dropped, (k - 1) as nat) + if dropped[k - 1].start@[2] != sorted[k
            - 1].start@[2] {
            1nat
        } else {
            0nat
        }
    }
}

/// The count of moved bricks depends on the bricks counted only.
pub proof fn lemma_moved_count_prefix(sorted: Seq<Brick>, a: Seq<Brick>, b: Seq<Brick>, k: nat)
    requires
        k <= a.len(),
        k <= b.len(),
        forall|i: int| 0 <= i < k ==> a[i] == b[i],
    ensures
        moved_count(sorted, a, k) == moved_count(sorted, b, k),
    decreases k,
{
    if k > 0 {
        lemma_moved_count_prefix(sorted, a, b, (k - 1) as nat);
    }
}

/// Lets the bricks that begin above `end_z` fall as in `drop_bricks`, and
/// counts those that come to rest at another height than they began at.
pub fn drop_bricks_counted(bricks: Vec<Brick>, end_z: usize) -> (count: usize)
    requires
        all_wf(bricks@),
        exists|h: nat| fits(bricks@, h),
    ensures
        count <= bricks@.len(),
        exists|dropped: Seq<Brick>| #[trigger]
            settled_above(by_height(bricks@), dropped, end_z as int, bricks@.len() as int)
                && count == moved_count(by_height(bricks@), dropped, bricks@.len()),
{
    let ghost h = choose|h: nat| fits(bricks@, h);
    let sorted = sort_by_height(&bricks);
    proof {
        lemma_part_fits(bricks@, sorted@, h);
    }
    let n = sorted.len();
    let mut dropped_bricks: Vec<Brick> = Vec::new();
    let mut count: usize = 0;
    let mut i: usize = 0;
    while i < n
        invariant
            n == sorted@.len(),
            i <= n,
            count <= i,
            all_wf(sorted@),
            fits(sorted@, h),
            settled_above(sorted@, dropped_bricks@, end_z as int, i as int),
            count == moved_count(sorted@, dropped_bricks@, i as nat),
            forall|k: int| 0 <= k < i ==> (#[trigger] dropped_bricks@[k]).end@[2] <= i * h,
        decreases n - i,
    {
        let brick = sorted[i];
        assert(brick.wf() && brick.end@[2] < h);
        assert((i + 1) * h <= (n + 1) * h) by (nonlinear_arith)
            requires
                i + 1 <= n + 1,
                h >= 0,
        ;
        assert((i + 1) * h == i * h + h) by (nonlinear_arith);
        assert(i * h >= 0) by (nonlinear_arith)
            requires
                h >= 0,
                i >= 0,
        ;
        let ghost before = dropped_bricks@;
        assert(before.take(i as int) =~= before);
        if brick.start[Z] <= end_z {
            dropped_bricks.push(brick);
        } else {
            let level: usize = match highest_below(&dropped_bricks, &brick) {
                Some(z) => z + 1,
                None => 1,
            };
            if level == brick.start[Z] {
                dropped_bricks.push(brick);
            } else {
                count += 1;
                dropped_bricks.push(brick.drop_down_to(level));
            }
        }
        proof {
            lemma_moved_count_prefix(sorted@, before, dropped_bricks@, i as nat);
        }
        assert forall|k: int| 0 <= k < i + 1 implies moved_to(
            sorted@[k],
            level_above(dropped_bricks@.take(k), sorted@[k], end_z as int),
            #[trigger] dropped_bricks@[k],
        ) by {
            assert(dropped_bricks@.take(k) =~= before.take(k));
            if k < i {
                assert(dropped_bricks@[k] == before[k]);
            }
        }
        assert forall|k: int| 0 <= k < i + 1 implies (#[trigger] dropped_bricks@[k]).end@[2] <= (i
            + 1) * h by {
            if k < i {
                assert(dropped_bricks@[k] == before[k]);
            }
        }
        i += 1;
    }
    count
}

/// The three numbers before the tilde of a line.
pub open spec fn line_start(line: Seq<u8>) -> Seq<usize> {
    numbers_among(split(line.take(first_index(line, 126u8)), 44u8))
}

/// The three numbers behind the tilde of a line.
pub open spec fn line_end(line: Seq<u8>) -> Seq<usize> {
    numbers_among(split(line.skip(first_index(line, 126u8) + 1), 44u8))
}

/// The line writes a brick: two corners of three numbers each, with a
/// tilde between them, and no coordinate of the first above that of the
/// second.
pub open spec fn brick_line(line: Seq<u8>) -> bool {
    &&& first_index(line, 126u8) < line.len()
    &&& line_start(line).len() == 3
    &&& line_end(line).len() == 3
    &&& forall|k: int| 0 <= k < 3 ==> line_start(line)[k] <= line_end(line)[k]
}

/// `brick` is the brick that the line writes.
pub open spec fn reads_brick(line: Seq<u8>, brick: Brick) -> bool {
    brick_line(line) && brick.start@ == line_start(line) && brick.end@ == line_end(line)
}

/// `bricks` holds the brick of each line.
pub open spec fn reads_bricks(rows: Seq<Seq<u8>>, bricks: Seq<Brick>) -> bool {
    &&& bricks.len() == rows.len()
    &&& forall|i: int| 0 <= i < rows.len() ==> #[trigger] reads_brick(rows[i], bricks[i])
}

/// Reads one brick from each line: two corners, each three numbers with
/// commas between them, and a tilde between the corners. `None` if a line
/// is not so, or a start lies beyond its end.
pub fn parse_input(inp: &str) -> (r: Option<Vec<Brick>>)
    ensures
        match r {
            Some(bricks) => all_wf(bricks@) && reads_bricks(lines(inp.spec_bytes()), bricks@),
            None => exists|i: int|
                0 <= i < lines(inp.spec_bytes()).len() && !brick_line(
                    #[trigger] lines(inp.spec_bytes())[i],
                ),
        },
{
    let all = split_lines(inp.as_bytes());
    let ghost rows = lines(inp.spec_bytes());
    let mut bricks: Vec<Brick> = Vec::new();
    let mut i: usize = 0;
    while i < all.len()
        invariant
            i <= all@.len(),
            rows == lines(inp.spec_bytes()),
            views(all@) == rows,
            bricks@.len() == i,
            all_wf(bricks@),
            forall|k: int| 0 <= k < i ==> #[trigger] reads_brick(rows[k], bricks@[k]),
        decreases all@.len() - i,
    {
        let line = &all[i];
        assert(rows[i as int] == line@);
        let delim = match find_byte(line.as_slice(), 126u8) {
            Some(delim) => delim,
            None => {
                assert(!brick_line(rows[i as int]));
                return None;
            },
        };
        let len = line.len();
        let left = copy_range(line.as_slice(), 0, delim);
        let right = copy_range(line.as_slice(), delim + 1, len);
        assert(left@ =~= line@.take(delim as int));
        assert(right@ =~= line@.skip(delim + 1));
        let start = parse_usizes(&split_bytes(left.as_slice(), 44u8));
        let end = parse_usizes(&split_bytes(right.as_slice(), 44u8));
        if start.len() != 3 || end.len() != 3 {
            assert(!brick_line(rows[i as int]));
            return None;
        }
        let brick = Brick { start: [start[X], start[Y], start[Z]], end: [end[X], end[Y], end[Z]] };
        if !(brick.start[X] <= brick.end[X] && brick.start[Y] <= brick.end[Y] && brick.start[Z]
            <= brick.end[Z]) {
            assert(!brick_line(rows[i as int]));
            return None;
        }
        assert(brick.start@ =~= start@);
        assert(brick.end@ =~= end@);
        let ghost before = bricks@;
        bricks.push(brick);
        assert forall|k: int| 0 <= k < i + 1 implies #[trigger] reads_brick(rows[k], bricks@[k]) by {
            if k < i {
                assert(bricks@[k] == before[k]);
                assert(reads_brick(rows[k], before[k]));
            }
        }
        i += 1;
    }
    Some(bricks)
}

/// Whether a tower of all the bricks stays within the machine word.
pub fn check_fits(bricks: &Vec<Brick>) -> (r: bool)
    requires
        all_wf(bricks@),
    ensures
        r <==> exists|h: nat| fits(bricks@, h),
{
    let mut tallest: usize = 0;
    let mut i: usize = 0;
    while i < bricks.len()
        invariant
            all_wf(bricks@),
            i <= bricks@.len(),
            forall|k: int| 0 <= k < i ==> (#[trigger] bricks@[k]).end@[2] <= tallest,
            tallest > 0 ==> exists|k: int| 0 <= k < i && (#[trigger] bricks@[k]).end@[2] == tallest,
        decreases bricks@.len() - i,
    {
        let top = bricks[i].end[Z];
        if top > tallest {
            tallest = top;
            assert(bricks@[i as int].end@[2] == tallest);
        }
        i += 1;
    }
    let n = bricks.len();
    let fitting = if tallest == usize::MAX || n == usize::MAX {
        false
    } else {
        (n + 1).checked_mul(tallest + 1).is_some()
    };
    proof {
        if fitting {
            assert(fits(bricks@, (tallest + 1) as nat));
        } else {
            assert forall|h: nat| !fits(bricks@, h) by {
                if fits(bricks@, h) {
                    if tallest > 0 {
                        let k = choose|k: int|
                            0 <= k < n && (#[trigger] bricks@[k]).end@[2] == tallest;
                        assert(bricks@[k].end@[2] < h);
                    } else if n > 0 {
                        assert(bricks@[0].end@[2] < h);
                    }
                    assert((n + 1) * h >= (n + 1) * (tallest + 1) && (n + 1) * h >= h && (n + 1)
                        * h >= n + 1) by (nonlinear_arith)
                        requires
                            h >= tallest + 1,
                            n >= 0,
                            tallest >= 0,
                    ;
                }
            }
        }
    }
    fitting
}

/// How many of the first `k` bricks can be taken away without another
/// brick falling.
pub open spec fn safe_count(dropped: Seq<Brick>, k: nat) -> nat
    decreases k,
{
    if k == 0 {
        0
    } else {
        safe_count(dropped, (k - 1) as nat) + if safe_spec(dropped[k - 1], dropped) {
            1nat
        } else {
            0nat
        }
    }
}

/// Some line writes no brick.
pub open spec fn unread(rows: Seq<Seq<u8>>) -> bool {
    exists|i: int| 0 <= i < rows.len() && !brick_line(#[trigger] rows[i])
}

/// No tower of the bricks stays within the machine word.
pub open spec fn too_tall(bricks: Seq<Brick>) -> bool {
    forall|h: nat| !fits(bricks, h)
}

/// The number of bricks that can be taken away without another brick
/// falling, after all bricks have fallen as far as they can. `None` if
/// the text cannot be read or a tower of the bricks does not fit the
/// machine word.
pub fn get_solution_1(input: &str) -> (r: Option<usize>)
    ensures
        r matches Some(count) ==> exists|bricks: Seq<Brick>, dropped: Seq<Brick>|
            reads_bricks(lines(input.spec_bytes()), bricks) && #[trigger] settled(
                by_height(bricks),
                dropped,
                bricks.len() as int,
            ) && count == safe_count(dropped, dropped.len()),
        r is None ==> unread(lines(input.spec_bytes())) || exists|bricks: Seq<Brick>| #[trigger]
            reads_bricks(lines(input.spec_bytes()), bricks) && too_tall(bricks),
{
    let bricks = match parse_input(input) {
        Some(bricks) => bricks,
        None => {
            return None;
        },
    };
    if !check_fits(&bricks) {
        assert(reads_bricks(lines(input.spec_bytes()), bricks@) && too_tall(bricks@));
        return None;
    }
    let ghost read = bricks@;
    let dropped_bricks = drop_bricks(bricks);
    let n = dropped_bricks.len();
    let mut count: usize = 0;
    let mut i: usize = 0;
    while i < n
        invariant
            n == dropped_bricks@.len(),
            i <= n,
            count == safe_count(dropped_bricks@, i as nat),
            count <= i,
        decreases n - i,
    {
        if dropped_bricks[i].safe_to_disintegrate(&dropped_bricks) {
            count += 1;
        }
        i += 1;
    }
    proof {
        assert(reads_bricks(lines(input.spec_bytes()), read) && settled(
            by_height(read),
            dropped_bricks@,
            read.len() as int,
        ));
    }
    Some(count)
}

/// `count` bricks come to rest at another height when the bricks that
/// begin above `brick` fall once more without it.
pub open spec fn falls(brick: Brick, bricks: Seq<Brick>, count: nat) -> bool {
    exists|dropped: Seq<Brick>| #[trigger]
        settled_above(
            by_height(without(bricks, brick, bricks.len())),
            dropped,
            brick.end@[2] as int,
            without(bricks, brick, bricks.len()).len() as int,
        ) && count == moved_count(
            by_height(without(bricks, brick, bricks.len())),
            dropped,
            without(bricks, brick, bricks.len()).len(),
        )
}

/// `counts` holds, for each of the first bricks, how many bricks fall
/// when it is taken away: none for a brick that is safe to take away.
pub open spec fn tallies(bricks: Seq<Brick>, counts: Seq<usize>) -> bool {
    &&& counts.len() <= bricks.len()
    &&& forall|i: int|
        0 <= i < counts.len() ==> if safe_spec(bricks[i], bricks) {
            #[trigger] counts[i] == 0
        } else {
            falls(bricks[i], bricks, counts[i] as nat)
        }
}

/// The sum of the first `k` counts.
pub open spec fn tally_sum(counts: Seq<usize>, k: nat) -> nat
    decreases k,
{
    if k == 0 {
        0
    } else {
        tally_sum(counts, (k - 1) as nat) + counts[k - 1] as nat
    }
}

/// The sum of the first counts does not change when more follow.
pub proof fn lemma_tally_sum_pushed(counts: Seq<usize>, c: usize, k: nat)
    requires
        k <= counts.len(),
    ensures
        tally_sum(counts.push(c), k) == tally_sum(counts, k),
    decreases k,
{
    if k > 0 {
        lemma_tally_sum_pushed(counts, c, (k - 1) as nat);
    }
}

/// The bricks, after they fell, cannot be counted: no tower of them stays
/// within the machine word, or the sum of the counts of the first of them
/// does not.
pub open spec fn uncounted(dropped: Seq<Brick>) -> bool {
    too_tall(dropped) || exists|counts: Seq<usize>| #[trigger]
        tallies(dropped, counts) && tally_sum(counts, counts.len()) > usize::MAX
}

/// No tower of the bricks stays within the machine word, or they fall to
/// `dropped` and cannot be counted there.
pub open spec fn falls_short(bricks: Seq<Brick>, dropped: Seq<Brick>) -> bool {
    too_tall(bricks) || (settled(by_height(bricks), dropped, bricks.len() as int) && uncounted(
        dropped,
    ))
}

/// The sum over all bricks of the number of bricks that fall when the
/// brick is taken away.
pub fn get_solution_2(input: &str) -> (r: Option<usize>)
    ensures
        r matches Some(sum) ==> exists|bricks: Seq<Brick>, dropped: Seq<Brick>, counts: Seq<usize>|
            reads_bricks(lines(input.spec_bytes()), bricks) && #[trigger] settled(
                by_height(bricks),
                dropped,
                bricks.len() as int,
            ) && #[trigger] tallies(dropped, counts) && counts.len() == dropped.len() && sum
                == tally_sum(counts, counts.len()),
        r is None ==> unread(lines(input.spec_bytes())) || exists|
            bricks: Seq<Brick>,
            dropped: Seq<Brick>,
        |
            reads_bricks(lines(input.spec_bytes()), bricks) && #[trigger] falls_short(
                bricks,
                dropped,
            ),
{
    let bricks = match parse_input(input) {
        Some(bricks) => bricks,
        None => {
            return None;
        },
    };
    let ghost rows = lines(input.spec_bytes());
    let ghost read = bricks@;
    if !check_fits(&bricks) {
        assert(reads_bricks(rows, read) && falls_short(read, read));
        return None;
    }
    let dropped_bricks = drop_bricks(bricks);
    if !check_fits(&dropped_bricks) {
        assert(reads_bricks(rows, read) && falls_short(read, dropped_bricks@));
        return None;
    }
    let mut sum: usize = 0;
    let mut i: usize = 0;
    let ghost mut counts: Seq<usize> = Seq::empty();
    while i < dropped_bricks.len()
        invariant
            i <= dropped_bricks@.len(),
            all_wf(dropped_bricks@),
            exists|h: nat| fits(dropped_bricks@, h),
            rows == lines(input.spec_bytes()),
            reads_bricks(rows, read),
            settled(by_height(read), dropped_bricks@, read.len() as int),
            counts.len() == i,
            tallies(dropped_bricks@, counts),
            sum == tally_sum(counts, i as nat),
        decreases dropped_bricks@.len() - i,
    {
        let ghost before = counts;
        let mut fallen: usize = 0;
        if !dropped_bricks[i].safe_to_disintegrate(&dropped_bricks) {
            fallen = dropped_bricks[i].disintegrate(&dropped_bricks);
            assert(falls(dropped_bricks@[i as int], dropped_bricks@, fallen as nat));
        }
        proof {
            counts = before.push(fallen);
            lemma_tally_sum_pushed(before, fallen, i as nat);
            assert forall|k: int| 0 <= k < counts.len() implies if safe_spec(
                dropped_bricks@[k],
                dropped_bricks@,
            ) {
                #[trigger] counts[k] == 0
            } else {
                falls(dropped_bricks@[k], dropped_bricks@, counts[k] as nat)
            } by {
                if k < i {
                    assert(counts[k] == before[k]);
                }
            }
        }
        sum = match sum.checked_add(fallen) {
            Some(sum) => sum,
            None => {
                assert(tallies(dropped_bricks@, counts) && tally_sum(counts, counts.len())
                    > usize::MAX);
                assert(reads_bricks(rows, read) && falls_short(read, dropped_bricks@));
                return None;
            },
        };
        i += 1;
    }
    assert(reads_bricks(rows, read) && settled(
        by_height(read),
        dropped_bricks@,
        read.len() as int,
    ) && tallies(dropped_bricks@, counts) && counts.len() == dropped_bricks@.len());
    Some(sum)
}

} // verus!
