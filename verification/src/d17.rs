//! A crucible is pushed through a city of blocks that each lose some
//! heat; it may go straight only for so many blocks in a row. The solver
//! looks for the way that loses the least heat.

use vstd::prelude::*;
use crate::marks::{grid_trues, grid_cells, one_more, lemma_grid_trues_bounded, lemma_grid_one_more, blank_like};
use vstd::string::StringSliceAdditionalSpecFns;
use crate::text::{views, lines, split_lines};

verus! {

/// The most blocks that a crucible goes in one direction.
pub const MAX_STEPS: usize = 10;

/// The digits among the first `k` bytes of a line, as numbers.
pub open spec fn digits_in(line: Seq<u8>, k: nat) -> Seq<u8>
    decreases k,
{
    if k == 0 {
        Seq::empty()
    } else if 48 <= line[k - 1] <= 57 {
        digits_in(line, (k - 1) as nat).push((line[k - 1] - 48) as u8)
    } else {
        digits_in(line, (k - 1) as nat)
    }
}

/// The heat loss of each block that the lines show.
pub open spec fn heat(rows: Seq<Seq<u8>>) -> Seq<Seq<u8>> {
    Seq::new(rows.len(), |i: int| digits_in(rows[i], rows[i].len()))
}

/// The heat loss of each block, row by row; bytes that are no digits are
/// left out.
pub fn parse_input(input: &str) -> (map: Vec<Vec<u8>>)
    ensures
        views(map@) == heat(lines(input.spec_bytes())),
{
    let all = split_lines(input.as_bytes());
    let ghost rows = lines(input.spec_bytes());
    let mut map: Vec<Vec<u8>> = Vec::new();
    let mut y: usize = 0;
    while y < all.len()
        invariant
            y <= all@.len(),
            rows == views(all@),
            map@.len() == y,
            forall|r: int| 0 <= r < y ==> (#[trigger] map@[r])@ == digits_in(rows[r], rows[r].len()),
        decreases all@.len() - y,
    {
        let line = &all[y];
        let len = line.len();
        assert(rows[y as int] == line@);
        let mut row: Vec<u8> = Vec::new();
        let mut x: usize = 0;
        while x < len
            invariant
                len == line@.len(),
                x <= len,
                row@ == digits_in(line@, x as nat),
            decreases len - x,
        {
            let c = line[x];
            if 48 <= c && c <= 57 {
                row.push(c - 48);
            }
            x += 1;
        }
        map.push(row);
        y += 1;
    }
    assert(views(map@) =~= heat(rows));
    map
}

#[derive(Debug, Clone, Copy, Eq, PartialEq, Hash, Structural)]
pub enum Dir {
    Up,
    Right,
    Down,
    Left,
}

/// The two directions point against each other.
pub open spec fn opposite(a: Dir, b: Dir) -> bool {
    match a {
        Dir::Up => b == Dir::Down,
        Dir::Right => b == Dir::Left,
        Dir::Down => b == Dir::Up,
        Dir::Left => b == Dir::Right,
    }
}

/// The number of a direction, counted clockwise from up.
pub open spec fn dir_index(dir: Dir) -> int {
    match dir {
        Dir::Up => 0,
        Dir::Right => 1,
        Dir::Down => 2,
        Dir::Left => 3,
    }
}

impl Dir {
    pub fn is_opposite(&self, other: &Self) -> (r: bool)
        ensures
            r == opposite(*self, *other),
    {
        match self {
            Dir::Up => *other == Dir::Down,
            Dir::Right => *other == Dir::Left,
            Dir::Down => *other == Dir::Up,
            Dir::Left => *other == Dir::Right,
        }
    }

    /// The number of the direction.
    pub fn index(self) -> (i: usize)
        ensures
            i == dir_index(self),
    {
        match self {
            Dir::Up => 0,
            Dir::Right => 1,
            Dir::Down => 2,
            Dir::Left => 3,
        }
    }
}

/// The column one step in direction `dir`; before the first column lies
/// the largest machine word.
pub open spec fn moved_x(x: usize, dir: Dir) -> int {
    match dir {
        Dir::Right => x + 1,
        Dir::Left => if x == 0 {
            usize::MAX as int
        } else {
            x - 1
        },
        _ => x as int,
    }
}

/// The row one step in direction `dir`; above the first row lies the
/// largest machine word.
pub open spec fn moved_y(y: usize, dir: Dir) -> int {
    match dir {
        Dir::Down => y + 1,
        Dir::Up => if y == 0 {
            usize::MAX as int
        } else {
            y - 1
        },
        _ => y as int,
    }
}

pub trait Position: Sized {
    /// The column and the row of the position.
    spec fn place(&self) -> (usize, usize);

    /// The position one step further in the direction `dir`.
    fn move_pos(self, dir: &Dir) -> (r: Self)
        requires
            self.place().0 < usize::MAX,
            self.place().1 < usize::MAX,
        ensures
            r.place().0 == moved_x(self.place().0, *dir),
            r.place().1 == moved_y(self.place().1, *dir),
    ;
}

impl Position for (usize, usize) {
    open spec fn place(&self) -> (usize, usize) {
        *self
    }

    fn move_pos(self, dir: &Dir) -> (r: Self) {
        match dir {
            Dir::Up => (self.0, self.1.wrapping_sub(1)),
            Dir::Right => (self.0 + 1, self.1),
            Dir::Down => (self.0, self.1 + 1),
            Dir::Left => (self.0.wrapping_sub(1), self.1),
        }
    }
}

/// A crucible on its way: the heat lost so far, the block it is on, the
/// direction in which it came, and for how many blocks in a row.
#[derive(Debug, Clone, Copy)]
pub struct Node {
    pub cost: usize,
    pub pos: (usize, usize),
    pub dir: Dir,
    pub steps: usize,
}

/// How many blocks in a row a crucible has gone after a step in
/// direction `dir`, if it may take the step: no more than three.
pub open spec fn p1_steps(node: Node, dir: Dir) -> Option<usize> {
    if node.dir == dir && node.steps == 3 {
        None
    } else if node.dir == dir {
        Some((node.steps + 1) as usize)
    } else {
        Some(1)
    }
}

/// How many blocks in a row an ultra crucible has gone after a step in
/// direction `dir`, if it may take the step: no more than ten, and no
/// turn before four.
pub open spec fn p2_steps(node: Node, dir: Dir) -> Option<usize> {
    if node.dir == dir && node.steps == 10 {
        None
    } else if node.dir == dir {
        Some((node.steps + 1) as usize)
    } else if node.steps < 4 {
        None
    } else {
        Some(1)
    }
}

impl Node {
    pub fn new(cost: usize, pos: (usize, usize), dir: Dir, steps: usize) -> (node: Node)
        ensures
            node.cost == cost,
            node.pos == pos,
            node.dir == dir,
            node.steps == steps,
    {
        Node { cost, pos, dir, steps }
    }

    pub fn can_move_p1(&self, dir: Dir) -> (r: Option<usize>)
        requires
            self.steps < usize::MAX,
        ensures
            r == p1_steps(*self, dir),
    {
        if self.dir == dir && self.steps == 3 {
            None
        } else if self.dir == dir {
            Some(self.steps + 1)
        } else {
            Some(1)
        }
    }

    pub fn can_move_p2(&self, dir: Dir) -> (r: Option<usize>)
        requires
            self.steps < usize::MAX,
        ensures
            r == p2_steps(*self, dir),
    {
        if self.dir == dir && self.steps == 10 {
            None
        } else if self.dir == dir {
            Some(self.steps + 1)
        } else if self.steps < 4 {
            None
        } else {
            Some(1)
        }
    }

    /// Whether the two crucibles are on the same block, came in the same
    /// direction and have gone as many blocks in a row; the heat lost is
    /// not compared.
    pub fn same_state(&self, other: &Self) -> (r: bool)
        ensures
            r == (self.pos == other.pos && self.dir == other.dir && self.steps == other.steps),
    {
        self.pos.0 == other.pos.0 && self.pos.1 == other.pos.1 && self.dir == other.dir
            && self.steps == other.steps
    }
}

/// The number of crucibles that wait in the first `k` buckets.
pub open spec fn waiting(buckets: Seq<Vec<Node>>, k: nat) -> nat
    decreases k,
{
    if k == 0 {
        0
    } else {
        waiting(buckets, (k - 1) as nat) + buckets[k - 1]@.len()
    }
}

/// `after` is `before` but for bucket `c`, which holds `by` crucibles
/// more.
pub open spec fn changed_at(before: Seq<Vec<Node>>, after: Seq<Vec<Node>>, c: int, by: int) -> bool {
    &&& after.len() == before.len()
    &&& 0 <= c < before.len()
    &&& after[c]@.len() == before[c]@.len() + by
    &&& forall|i: int| 0 <= i < before.len() && i != c ==> after[i]@ == before[i]@
}

/// A change of one bucket changes the number of crucibles that wait by
/// as much.
pub proof fn lemma_waiting_changed(
    before: Seq<Vec<Node>>,
    after: Seq<Vec<Node>>,
    c: int,
    by: int,
    k: nat,
)
    requires
        changed_at(before, after, c, by),
        k <= before.len(),
    ensures
        waiting(after, k) == waiting(before, k) + if c < k {
            by
        } else {
            0
        },
    decreases k,
{
    if k > 0 {
        lemma_waiting_changed(before, after, c, by, (k - 1) as nat);
        if c != k - 1 {
            assert(after[k - 1]@ == before[k - 1]@);
        }
    }
}

/// Buckets that hold the same count the same.
pub proof fn lemma_waiting_same(before: Seq<Vec<Node>>, after: Seq<Vec<Node>>, k: nat)
    requires
        k <= before.len(),
        k <= after.len(),
        forall|i: int| 0 <= i < k ==> after[i]@ == before[i]@,
    ensures
        waiting(after, k) == waiting(before, k),
    decreases k,
{
    if k > 0 {
        lemma_waiting_same(before, after, (k - 1) as nat);
        assert(after[k - 1]@ == before[k - 1]@);
    }
}

/// An empty bucket more changes nothing.
pub proof fn lemma_waiting_extended(before: Seq<Vec<Node>>, after: Seq<Vec<Node>>)
    requires
        after.len() == before.len() + 1,
        after.last()@.len() == 0,
        forall|i: int| 0 <= i < before.len() ==> after[i]@ == before[i]@,
    ensures
        waiting(after, after.len()) == waiting(before, before.len()),
{
    lemma_waiting_same(before, after, before.len());
    assert(waiting(after, after.len()) == waiting(after, before.len()) + after.last()@.len());
}

/// The crucibles that wait, kept in one bucket for each amount of heat
/// lost, so that the one that has lost least is found first.
pub struct Queue {
    pub buckets: Vec<Vec<Node>>,
    pub low: usize,
}

impl Queue {
    /// Every crucible is in the bucket of its heat loss, and no bucket
    /// below `low` holds one.
    pub open spec fn wf(&self) -> bool {
        &&& self.low <= self.buckets@.len()
        &&& forall|c: int, i: int|
            0 <= c < self.buckets@.len() && 0 <= i < self.buckets@[c]@.len() ==> (
            #[trigger] self.buckets@[c]@[i]).cost == c
        &&& forall|c: int| 0 <= c < self.low ==> (#[trigger] self.buckets@[c])@.len() == 0
    }

    /// The number of crucibles that wait.
    pub open spec fn size(&self) -> nat {
        waiting(self.buckets@, self.buckets@.len())
    }

    /// Every crucible that waits has gone no more than ten blocks in a
    /// row.
    pub open spec fn all_small(&self) -> bool {
        forall|c: int, i: int|
            0 <= c < self.buckets@.len() && 0 <= i < self.buckets@[c]@.len() ==> (
            #[trigger] self.buckets@[c]@[i]).steps <= MAX_STEPS
    }

    /// The crucible waits in the queue.
    pub open spec fn holds(&self, node: Node) -> bool {
        exists|c: int, i: int|
            0 <= c < self.buckets@.len() && 0 <= i < self.buckets@[c]@.len()
                && #[trigger] self.buckets@[c]@[i] == node
    }

    /// A queue in which nothing waits.
    pub fn new() -> (q: Queue)
        ensures
            q.wf(),
            q.size() == 0,
            q.buckets@.len() == 0,
            q.all_small(),
            forall|node: Node| !q.holds(node),
    {
        Queue { buckets: Vec::new(), low: 0 }
    }

    /// Puts `node` into the queue. Returns whether there was room for its
    /// bucket; where there was none, the queue is as before.
    pub fn push(&mut self, node: Node) -> (done: bool)
        requires
            old(self).wf(),
        ensures
            final(self).wf(),
            final(self).size() == old(self).size() + if done {
                1int
            } else {
                0int
            },
            old(self).all_small() && node.steps <= MAX_STEPS ==> final(self).all_small(),
            forall|n: Node| #[trigger] final(self).holds(n) ==> old(self).holds(n) || n == node,
            done == (node.cost < usize::MAX),
            done ==> final(self).holds(node),
            forall|n: Node| old(self).holds(n) ==> #[trigger] final(self).holds(n),
            !done ==> *final(self) == *old(self),
    {
        if node.cost == usize::MAX {
            return false;
        }
        while self.buckets.len() <= node.cost
            invariant
                self.wf(),
                self.low == old(self).low,
                self.size() == old(self).size(),
                self.buckets@.len() >= old(self).buckets@.len(),
                forall|c: int|
                    0 <= c < old(self).buckets@.len() ==> (#[trigger] self.buckets@[c])@ == old(
                        self,
                    ).buckets@[c]@,
                forall|c: int|
                    old(self).buckets@.len() <= c < self.buckets@.len() ==> (
                    #[trigger] self.buckets@[c])@.len() == 0,
            decreases node.cost + 1 - self.buckets@.len(),
        {
            let ghost before = self.buckets@;
            self.buckets.push(Vec::new());
            proof {
                lemma_waiting_extended(before, self.buckets@);
                assert forall|c: int| 0 <= c < old(self).buckets@.len() implies (
                #[trigger] self.buckets@[c])@ == old(self).buckets@[c]@ by {
                    assert(self.buckets@[c] == before[c]);
                }
            }
        }
        let ghost before = self.buckets@;
        let ghost lowest = self.low;
        self.buckets[node.cost].push(node);
        if node.cost < self.low {
            self.low = node.cost;
        }
        proof {
            assert(changed_at(before, self.buckets@, node.cost as int, 1));
            lemma_waiting_changed(before, self.buckets@, node.cost as int, 1, before.len());
            assert forall|c: int, i: int|
                0 <= c < self.buckets@.len() && 0 <= i < self.buckets@[c]@.len() implies (
            #[trigger] self.buckets@[c]@[i]).cost == c by {
                if c != node.cost {
                    assert(self.buckets@[c]@ == before[c]@);
                } else if i < before[c]@.len() {
                    assert(self.buckets@[c]@[i] == before[c]@[i]);
                }
            }
            assert forall|n: Node| #[trigger] self.holds(n) implies old(self).holds(n) || n
                == node by {
                let (c, i) = choose|c: int, i: int|
                    0 <= c < self.buckets@.len() && 0 <= i < self.buckets@[c]@.len()
                        && #[trigger] self.buckets@[c]@[i] == n;
                if c != node.cost {
                    assert(self.buckets@[c]@ == before[c]@);
                    if c < old(self).buckets@.len() {
                        assert(before[c]@ == old(self).buckets@[c]@);
                        assert(old(self).buckets@[c]@[i] == n);
                    }
                } else if i < before[c]@.len() {
                    assert(self.buckets@[c]@[i] == before[c]@[i]);
                    if c < old(self).buckets@.len() {
                        assert(before[c]@ == old(self).buckets@[c]@);
                        assert(old(self).buckets@[c]@[i] == n);
                    }
                }
            }
            assert(self.buckets@[node.cost as int]@[before[node.cost as int]@.len() as int]
                == node);
            assert forall|n: Node| old(self).holds(n) implies #[trigger] self.holds(n) by {
                let (c, i) = choose|c: int, i: int|
                    0 <= c < old(self).buckets@.len() && 0 <= i < old(self).buckets@[c]@.len()
                        && #[trigger] old(self).buckets@[c]@[i] == n;
                assert(before[c]@ == old(self).buckets@[c]@);
                if c != node.cost {
                    assert(self.buckets@[c]@ == before[c]@);
                } else {
                    assert(self.buckets@[c]@[i] == before[c]@[i]);
                }
                assert(self.buckets@[c]@[i] == n);
            }
            if old(self).all_small() && node.steps <= MAX_STEPS {
                assert forall|c: int, i: int|
                    0 <= c < self.buckets@.len() && 0 <= i < self.buckets@[c]@.len() implies (
                #[trigger] self.buckets@[c]@[i]).steps <= MAX_STEPS by {
                    if c != node.cost {
                        assert(self.buckets@[c]@ == before[c]@);
                        if c < old(self).buckets@.len() {
                            assert(before[c]@ == old(self).buckets@[c]@);
                            assert(old(self).buckets@[c]@[i].steps <= MAX_STEPS);
                        }
                    } else if i < before[c]@.len() {
                        assert(self.buckets@[c]@[i] == before[c]@[i]);
                        if c < old(self).buckets@.len() {
                            assert(before[c]@ == old(self).buckets@[c]@);
                            assert(old(self).buckets@[c]@[i].steps <= MAX_STEPS);
                        }
                    }
                }
            }
        }
        true
    }

    /// Takes a crucible that has lost the least heat of all that wait.
    pub fn pop(&mut self) -> (r: Option<Node>)
        requires
            old(self).wf(),
        ensures
            final(self).wf(),
            match r {
                Some(node) => final(self).size() + 1 == old(self).size() && forall|c: int, i: int|
                    0 <= c < final(self).buckets@.len() && 0 <= i < final(self).buckets@[c]@.len()
                        ==> node.cost <= (#[trigger] final(self).buckets@[c]@[i]).cost,
                None => old(self).size() == 0 && final(self).size() == 0,
            },
            old(self).all_small() ==> final(self).all_small() && (r matches Some(node)
                ==> node.steps <= MAX_STEPS),
            r matches Some(node) ==> old(self).holds(node),
            forall|n: Node| #[trigger] final(self).holds(n) ==> old(self).holds(n),
            r matches Some(node) ==> forall|n: Node|
                old(self).holds(n) ==> #[trigger] final(self).holds(n) || n == node,
            r is None ==> forall|n: Node| !#[trigger] old(self).holds(n),
    {
        let n = self.buckets.len();
        while self.low < n && self.buckets[self.low].len() == 0
            invariant
                n == self.buckets@.len(),
                self.wf(),
                self.buckets@ == old(self).buckets@,
            decreases n - self.low,
        {
            self.low += 1;
        }
        if self.low >= n {
            proof {
                lemma_waiting_none(self.buckets@, n as nat);
                assert forall|m: Node| !#[trigger] old(self).holds(m) by {
                    if old(self).holds(m) {
                        let (c, i) = choose|c: int, i: int|
                            0 <= c < old(self).buckets@.len() && 0 <= i < old(
                                self,
                            ).buckets@[c]@.len() && #[trigger] old(self).buckets@[c]@[i] == m;
                        assert(self.buckets@[c]@.len() == 0);
                    }
                }
            }
            return None;
        }
        let ghost before = self.buckets@;
        let node = match self.buckets[self.low].pop() {
            Some(node) => node,
            None => Node { cost: 0, pos: (0, 0), dir: Dir::Up, steps: 0 },
        };
        proof {
            assert(changed_at(before, self.buckets@, self.low as int, -1));
            lemma_waiting_changed(before, self.buckets@, self.low as int, -1, before.len());
            assert(node == before[self.low as int]@[before[self.low as int]@.len() - 1]);
            assert(old(self).holds(node));
            assert forall|m: Node| old(self).holds(m) implies #[trigger] self.holds(m) || m
                == node by {
                let (c, i) = choose|c: int, i: int|
                    0 <= c < before.len() && 0 <= i < before[c]@.len() && #[trigger] before[c]@[i]
                        == m;
                if c != self.low {
                    assert(self.buckets@[c]@ == before[c]@);
                    assert(self.buckets@[c]@[i] == m);
                } else if i < before[c]@.len() - 1 {
                    assert(self.buckets@[c]@[i] == before[c]@[i]);
                }
            }
            assert forall|n: Node| #[trigger] self.holds(n) implies old(self).holds(n) by {
                let (c, i) = choose|c: int, i: int|
                    0 <= c < self.buckets@.len() && 0 <= i < self.buckets@[c]@.len()
                        && #[trigger] self.buckets@[c]@[i] == n;
                if c != self.low {
                    assert(self.buckets@[c]@ == before[c]@);
                    assert(before[c]@[i] == n);
                } else {
                    assert(self.buckets@[c]@[i] == before[c]@[i]);
                }
            }
            assert forall|c: int, i: int|
                0 <= c < self.buckets@.len() && 0 <= i < self.buckets@[c]@.len() implies (
            #[trigger] self.buckets@[c]@[i]).cost == c && node.cost <= self.buckets@[c]@[i].cost by {
                if c != self.low {
                    assert(self.buckets@[c]@ == before[c]@);
                    assert(before[c]@[i].cost == c);
                } else {
                    assert(self.buckets@[c]@[i] == before[c]@[i]);
                }
            }
            assert forall|c: int| 0 <= c < self.low implies (#[trigger] self.buckets@[c])@.len()
                == 0 by {
                assert(self.buckets@[c]@ == before[c]@);
            }
            if old(self).all_small() {
                assert forall|c: int, i: int|
                    0 <= c < self.buckets@.len() && 0 <= i < self.buckets@[c]@.len() implies (
                #[trigger] self.buckets@[c]@[i]).steps <= MAX_STEPS by {
                    if c != self.low {
                        assert(self.buckets@[c]@ == before[c]@);
                        assert(before[c]@[i].steps <= MAX_STEPS);
                    } else {
                        assert(self.buckets@[c]@[i] == before[c]@[i]);
                        assert(before[c]@[i].steps <= MAX_STEPS);
                    }
                }
                assert(before[self.low as int]@[before[self.low as int]@.len() - 1].steps
                    <= MAX_STEPS);
            }
        }
        Some(node)
    }
}

/// Where every bucket is empty nothing waits.
pub proof fn lemma_waiting_none(buckets: Seq<Vec<Node>>, k: nat)
    requires
        k <= buckets.len(),
        forall|c: int| 0 <= c < k ==> (#[trigger] buckets[c])@.len() == 0,
    ensures
        waiting(buckets, k) == 0,
    decreases k,
{
    if k > 0 {
        lemma_waiting_none(buckets, (k - 1) as nat);
    }
}

/// The city has a first block, and 44 marks fit for every block of every
/// row.
pub open spec fn city(map: Seq<Vec<u8>>) -> bool {
    &&& map.len() > 0
    &&& map[0]@.len() > 0
    &&& forall|y: int| 0 <= y < map.len() ==> (#[trigger] map[y])@.len() * 44 <= usize::MAX
}

/// Whether the map is a city.
pub fn is_city(map: &Vec<Vec<u8>>) -> (r: bool)
    ensures
        r == city(map@),
{
    if map.len() == 0 || map[0].len() == 0 {
        return false;
    }
    let mut y: usize = 0;
    while y < map.len()
        invariant
            y <= map@.len(),
            forall|k: int| 0 <= k < y ==> (#[trigger] map@[k])@.len() * 44 <= usize::MAX,
        decreases map@.len() - y,
    {
        if map[y].len() > usize::MAX / 44 {
            return false;
        }
        y += 1;
    }
    true
}

/// The crucible stands at the top left, has lost no heat and gone no
/// block, and faces down or to the right.
pub open spec fn is_start(node: Node) -> bool {
    node.cost == 0 && node.pos == (0usize, 0usize) && node.steps == 0 && (node.dir == Dir::Down
        || node.dir == Dir::Right)
}

/// The crucible `to` is what `from` becomes with one step: not straight
/// back, as far as `can_move` lets it go, onto a block of the city whose
/// heat loss it adds.
pub open spec fn moves<F: Fn(&Node, Dir) -> Option<usize>>(
    map: Seq<Vec<u8>>,
    can_move: F,
    from: Node,
    to: Node,
) -> bool {
    &&& !opposite(to.dir, from.dir)
    &&& call_ensures(can_move, (&from, to.dir), Some(to.steps))
    &&& to.steps <= MAX_STEPS
    &&& to.pos.0 == moved_x(from.pos.0, to.dir)
    &&& to.pos.1 == moved_y(from.pos.1, to.dir)
    &&& to.pos.1 < map.len()
    &&& to.pos.0 < map[to.pos.1 as int]@.len()
    &&& to.cost == from.cost + map[to.pos.1 as int]@[to.pos.0 as int]
}

/// The crucibles of `route` begin at the start, and each is what the one
/// before it becomes with one step.
pub open spec fn is_route<F: Fn(&Node, Dir) -> Option<usize>>(
    map: Seq<Vec<u8>>,
    can_move: F,
    route: Seq<Node>,
) -> bool {
    &&& route.len() >= 1
    &&& is_start(route[0])
    &&& forall|i: int|
        0 <= i < route.len() - 1 ==> moves(map, can_move, #[trigger] route[i], route[i + 1])
}

/// Some route leads to the crucible.
pub open spec fn reached<F: Fn(&Node, Dir) -> Option<usize>>(
    map: Seq<Vec<u8>>,
    can_move: F,
    node: Node,
) -> bool {
    exists|route: Seq<Node>| #[trigger] is_route(map, can_move, route) && route.last() == node
}

/// A step from a crucible that a route leads to is led to by a route.
pub proof fn lemma_route_on<F: Fn(&Node, Dir) -> Option<usize>>(
    map: Seq<Vec<u8>>,
    can_move: F,
    from: Node,
    to: Node,
)
    requires
        reached(map, can_move, from),
        moves(map, can_move, from, to),
    ensures
        reached(map, can_move, to),
{
    let route = choose|route: Seq<Node>| #[trigger]
        is_route(map, can_move, route) && route.last() == from;
    let longer = route.push(to);
    assert forall|i: int| 0 <= i < longer.len() - 1 implies moves(
        map,
        can_move,
        #[trigger] longer[i],
        longer[i + 1],
    ) by {
        if i < route.len() - 1 {
            assert(moves(map, can_move, route[i], route[i + 1]));
        }
    }
    assert(is_route(map, can_move, longer) && longer.last() == to);
}

/// The place of the state of a crucible among the marks of its row.
pub open spec fn slot_of(node: Node) -> int {
    44 * node.pos.0 + 11 * dir_index(node.dir) + node.steps
}

/// The two crucibles are on the same block, came in the same direction
/// and have gone as many blocks in a row.
pub open spec fn same(a: Node, b: Node) -> bool {
    a.pos == b.pos && a.dir == b.dir && a.steps == b.steps
}

/// The state of the crucible is marked.
pub open spec fn state_seen(seen: Seq<Vec<bool>>, node: Node) -> bool {
    node.pos.1 < seen.len() && slot_of(node) < seen[node.pos.1 as int]@.len()
        && seen[node.pos.1 as int]@[slot_of(node)]
}

/// The state of the crucible is marked, or a crucible in that state
/// waits.
pub open spec fn pending(queue: Queue, seen: Seq<Vec<bool>>, node: Node) -> bool {
    state_seen(seen, node) || exists|m: Node| #[trigger] queue.holds(m) && same(m, node)
}

/// The crucible `to` is in the state that `from` comes to with one step;
/// the heat lost is not compared.
pub open spec fn step_of<F: Fn(&Node, Dir) -> Option<usize>>(
    map: Seq<Vec<u8>>,
    can_move: F,
    from: Node,
    to: Node,
) -> bool {
    &&& !opposite(to.dir, from.dir)
    &&& call_ensures(can_move, (&from, to.dir), Some(to.steps))
    &&& to.steps <= MAX_STEPS
    &&& to.pos.0 == moved_x(from.pos.0, to.dir)
    &&& to.pos.1 == moved_y(from.pos.1, to.dir)
    &&& to.pos.1 < map.len()
    &&& to.pos.0 < map[to.pos.1 as int]@.len()
}

/// The rule lets crucibles in the same state go equally far, whatever
/// heat they have lost.
pub open spec fn steady<F: Fn(&Node, Dir) -> Option<usize>>(can_move: F) -> bool {
    forall|a: Node, b: Node, dir: Dir, r: Option<usize>, t: Option<usize>|
        same(a, b) && #[trigger] call_ensures(can_move, (&a, dir), r) && #[trigger] call_ensures(
            can_move,
            (&b, dir),
            t,
        ) ==> r == t
}

/// Some route leads to a crucible whose heat loss comes close to the
/// largest machine word.
pub open spec fn spills<F: Fn(&Node, Dir) -> Option<usize>>(map: Seq<Vec<u8>>, can_move: F) -> bool {
    exists|node: Node| #[trigger] reached(map, can_move, node) && node.cost + 255 >= usize::MAX
}

/// Every state that a marked state comes to with one step is marked.
pub open spec fn closed<F: Fn(&Node, Dir) -> Option<usize>>(
    map: Seq<Vec<u8>>,
    can_move: F,
    seen: Seq<Vec<bool>>,
) -> bool {
    forall|a: Node, b: Node|
        #[trigger] step_of(map, can_move, a, b) && state_seen(seen, a) && a.steps <= MAX_STEPS
            ==> state_seen(seen, b)
}

/// Where the states of the start are marked and every step from a marked
/// state leads to one, the states of all crucibles of a route are
/// marked.
pub proof fn lemma_all_seen<F: Fn(&Node, Dir) -> Option<usize>>(
    map: Seq<Vec<u8>>,
    can_move: F,
    seen: Seq<Vec<bool>>,
    route: Seq<Node>,
    i: int,
)
    requires
        closed(map, can_move, seen),
        forall|s: Node| is_start(s) ==> #[trigger] state_seen(seen, s),
        is_route(map, can_move, route),
        0 <= i < route.len(),
    ensures
        state_seen(seen, route[i]),
        route[i].steps <= MAX_STEPS,
    decreases i,
{
    if i > 0 {
        lemma_all_seen(map, can_move, seen, route, i - 1);
        assert(moves(map, can_move, route[i - 1], route[i]));
        assert(step_of(map, can_move, route[i - 1], route[i]));
    }
}

/// A state has one place among the marks of its row.
pub proof fn lemma_slot(a: Node, b: Node)
    requires
        a.steps <= MAX_STEPS,
        b.steps <= MAX_STEPS,
        a.pos.1 == b.pos.1,
        slot_of(a) == slot_of(b),
    ensures
        same(a, b),
{
}

/// The heat that a crucible has lost when it is first taken from the
/// queue on the bottom right block after at least `min_steps` blocks in a
/// row, where `can_move` says how far it may go straight; crucibles that
/// have lost less heat are taken from the queue first. Steps that
/// `can_move` would let go on for more than ten blocks are not taken.
/// `None` if no crucible arrives.
pub fn dijkstra<F: Fn(&Node, Dir) -> Option<usize>>(map: &Vec<Vec<u8>>, can_move: F, min_steps: usize) -> (r:
    Option<usize>)
    requires
        city(map@),
        forall|node: Node, dir: Dir|
            node.steps <= MAX_STEPS ==> call_requires(can_move, (&node, dir)),
    ensures
        r matches Some(cost) ==> exists|node: Node| #[trigger]
            reached(map@, can_move, node) && node.cost == cost && node.pos.0 == map@[0]@.len() - 1
                && node.pos.1 == map@.len() - 1 && node.steps >= min_steps,
        r is None && steady(can_move) && !spills(map@, can_move) ==> forall|node: Node| #[trigger]
            reached(map@, can_move, node) ==> !(node.pos.0 == map@[0]@.len() - 1 && node.pos.1
                == map@.len() - 1 && node.steps >= min_steps),
{
    let down = Node::new(0, (0, 0), Dir::Down, 0);
    let right = Node::new(0, (0, 0), Dir::Right, 0);
    let height = map.len();
    let goal = (map[0].len() - 1, height - 1);
    let mut seen = blank_like(map, 44);
    let mut queue = Queue::new();
    queue.push(down);
    queue.push(right);
    let ghost mut lost = false;
    proof {
        lemma_grid_trues_bounded(seen@, seen@.len());
        let first = seq![down];
        let second = seq![right];
        assert(is_route(map@, can_move, first) && first.last() == down);
        assert(is_route(map@, can_move, second) && second.last() == right);
        assert(reached(map@, can_move, down));
        assert(reached(map@, can_move, right));
        assert(queue.holds(down) && same(down, down));
        assert(queue.holds(right) && same(right, right));
    }
    loop
        invariant
            city(map@),
            height == map@.len(),
            goal.0 == map@[0]@.len() - 1,
            goal.1 == height - 1,
            forall|node: Node, dir: Dir|
                node.steps <= MAX_STEPS ==> call_requires(can_move, (&node, dir)),
            seen@.len() == map@.len(),
            forall|y: int| 0 <= y < seen@.len() ==> (#[trigger] seen@[y])@.len() == map@[y]@.len() * 44,
            queue.wf(),
            queue.all_small(),
            forall|n: Node| #[trigger] queue.holds(n) ==> reached(map@, can_move, n),
            grid_trues(seen@, seen@.len()) <= grid_cells(seen@, seen@.len()),
            down == (Node { cost: 0, pos: (0, 0), dir: Dir::Down, steps: 0 }),
            right == (Node { cost: 0, pos: (0, 0), dir: Dir::Right, steps: 0 }),
            lost ==> spills(map@, can_move),
            forall|n: Node|
                #[trigger] queue.holds(n) ==> n.pos.1 < height && n.pos.0 < map@[n.pos.1 as int]@.len(),
            pending(queue, seen@, down),
            pending(queue, seen@, right),
            forall|a: Node|
                #[trigger] state_seen(seen@, a) && a.steps <= MAX_STEPS ==> !(a.pos.0 == goal.0
                    && a.pos.1 == goal.1 && a.steps >= min_steps),
            steady(can_move) ==> forall|a: Node, b: Node|
                #[trigger] step_of(map@, can_move, a, b) && state_seen(seen@, a) && a.steps
                    <= MAX_STEPS ==> lost || pending(queue, seen@, b),
        decreases grid_cells(seen@, seen@.len()) - grid_trues(seen@, seen@.len()), queue.size(),
    {
        let ghost old_queue = queue;
        let node = match queue.pop() {
            Some(node) => node,
            None => {
                proof {
                    if steady(can_move) && !spills(map@, can_move) {
                        assert(state_seen(seen@, down));
                        assert(state_seen(seen@, right));
                        assert forall|s: Node| is_start(s) implies #[trigger] state_seen(
                            seen@,
                            s,
                        ) by {
                            assert(s == down || s == right);
                        }
                        assert forall|a: Node, b: Node|
                            #[trigger] step_of(map@, can_move, a, b) && state_seen(seen@, a)
                                && a.steps <= MAX_STEPS implies state_seen(seen@, b) by {
                            assert(pending(old_queue, seen@, b));
                        }
                        assert forall|node: Node| #[trigger]
                            reached(map@, can_move, node) implies !(node.pos.0 == map@[0]@.len()
                            - 1 && node.pos.1 == map@.len() - 1 && node.steps >= min_steps) by {
                            let route = choose|route: Seq<Node>| #[trigger]
                                is_route(map@, can_move, route) && route.last() == node;
                            lemma_all_seen(map@, can_move, seen@, route, route.len() - 1);
                        }
                    }
                }
                return None;
            },
        };
        assert(reached(map@, can_move, node));
        assert(old_queue.holds(node));
        if node.pos.1 >= height || node.pos.0 >= map[node.pos.1].len() {
            continue ;
        }
        assert(map@[node.pos.1 as int]@.len() * 44 <= usize::MAX);
        let slot = 44 * node.pos.0 + 11 * node.dir.index() + node.steps;
        assert(slot == slot_of(node));
        if seen[node.pos.1][slot] {
            proof {
                assert(state_seen(seen@, node));
                assert forall|b: Node| pending(old_queue, seen@, b) implies pending(
                    queue,
                    seen@,
                    b,
                ) by {
                    if !state_seen(seen@, b) {
                        let m = choose|m: Node| #[trigger] old_queue.holds(m) && same(m, b);
                        if m == node {
                            assert(slot_of(b) == slot_of(node));
                        } else {
                            assert(queue.holds(m));
                        }
                    }
                }
                if steady(can_move) {
                    assert forall|a: Node, b: Node|
                        #[trigger] step_of(map@, can_move, a, b) && state_seen(seen@, a) && a.steps
                            <= MAX_STEPS implies lost || pending(queue, seen@, b) by {
                        if !lost {
                            assert(pending(old_queue, seen@, b));
                        }
                    }
                }
            }
            continue ;
        }
        let ghost old_seen = seen@;
        seen[node.pos.1][slot] = true;
        proof {
            assert(one_more(old_seen, seen@, node.pos.1 as int, slot as int));
            lemma_grid_one_more(old_seen, seen@, node.pos.1 as int, slot as int, seen@.len());
            lemma_grid_trues_bounded(seen@, seen@.len());
            assert forall|y: int| 0 <= y < seen@.len() implies (#[trigger] seen@[y])@.len()
                == map@[y]@.len() * 44 by {
                assert(old_seen[y]@.len() == map@[y]@.len() * 44);
            }
            assert(state_seen(seen@, node));
            assert forall|a: Node| state_seen(old_seen, a) implies state_seen(seen@, a) by {
                if a.pos.1 != node.pos.1 {
                    assert(seen@[a.pos.1 as int]@ == old_seen[a.pos.1 as int]@);
                }
            }
            assert forall|a: Node| #[trigger]
                state_seen(seen@, a) && a.steps <= MAX_STEPS implies state_seen(old_seen, a)
                || same(a, node) by {
                if a.pos.1 != node.pos.1 {
                    assert(seen@[a.pos.1 as int]@ == old_seen[a.pos.1 as int]@);
                } else if slot_of(a) == slot_of(node) {
                    lemma_slot(a, node);
                }
            }
            assert forall|b: Node| pending(old_queue, old_seen, b) implies pending(
                queue,
                seen@,
                b,
            ) by {
                if state_seen(old_seen, b) {
                    assert(state_seen(seen@, b));
                } else {
                    let m = choose|m: Node| #[trigger] old_queue.holds(m) && same(m, b);
                    if m == node {
                        assert(slot_of(b) == slot_of(node));
                        assert(state_seen(seen@, b));
                    } else {
                        assert(queue.holds(m));
                    }
                }
            }
        }
        if node.pos.0 == goal.0 && node.pos.1 == goal.1 && node.steps >= min_steps {
            return Some(node.cost);
        }
        proof {
            assert forall|a: Node| #[trigger]
                state_seen(seen@, a) && a.steps <= MAX_STEPS implies !(a.pos.0 == goal.0 && a.pos.1
                == goal.1 && a.steps >= min_steps) by {
                if !state_seen(old_seen, a) {
                    assert(same(a, node));
                }
            }
            if steady(can_move) {
                assert forall|a: Node, b: Node|
                    #[trigger] step_of(map@, can_move, a, b) && state_seen(seen@, a) && a.steps
                        <= MAX_STEPS && !same(a, node) implies lost || pending(queue, seen@, b) by {
                    assert(state_seen(old_seen, a));
                    if !lost {
                        assert(pending(old_queue, old_seen, b));
                    }
                }
            }
        }
        let mut d: usize = 0;
        while d < 4
            invariant
                d <= 4,
                city(map@),
                height == map@.len(),
                node.steps <= MAX_STEPS,
                node.pos.1 < height,
                node.pos.0 < map@[node.pos.1 as int]@.len(),
                reached(map@, can_move, node),
                forall|n: Node, dir: Dir|
                    n.steps <= MAX_STEPS ==> call_requires(can_move, (&n, dir)),
                queue.wf(),
                queue.all_small(),
                forall|n: Node| #[trigger] queue.holds(n) ==> reached(map@, can_move, n),
                lost ==> spills(map@, can_move),
                forall|n: Node|
                    #[trigger] queue.holds(n) ==> n.pos.1 < height && n.pos.0
                        < map@[n.pos.1 as int]@.len(),
                pending(queue, seen@, down),
                pending(queue, seen@, right),
                steady(can_move) ==> forall|a: Node, b: Node|
                    #[trigger] step_of(map@, can_move, a, b) && state_seen(seen@, a) && a.steps
                        <= MAX_STEPS && (!same(a, node) || dir_index(b.dir) < d) ==> lost
                        || pending(queue, seen@, b),
            decreases 4 - d,
        {
            let dir = if d == 0 {
                Dir::Up
            } else if d == 1 {
                Dir::Right
            } else if d == 2 {
                Dir::Down
            } else {
                Dir::Left
            };
            assert(dir_index(dir) == d);
            let ghost before = queue;
            let ghost was_lost = lost;
            let ghost mut sent: Option<usize> = None;
            let ghost mut next_node = node;
            let ghost mut pushed = false;
            d += 1;
            if !dir.is_opposite(&node.dir) {
                let moved = can_move(&node, dir);
                proof {
                    sent = moved;
                }
                match moved {
                    Some(steps) => {
                        if steps <= MAX_STEPS {
                            let pos = node.pos.move_pos(&dir);
                            if pos.1 < height && pos.0 < map[pos.1].len() {
                                let cost = map[pos.1][pos.0] as usize;
                                match cost.checked_add(node.cost) {
                                    Some(total) => {
                                        let next = Node::new(total, pos, dir, steps);
                                        proof {
                                            assert(moves(map@, can_move, node, next));
                                            lemma_route_on(map@, can_move, node, next);
                                            next_node = next;
                                        }
                                        let done = queue.push(next);
                                        proof {
                                            pushed = done;
                                            if !done {
                                                assert(node.cost + 255 >= usize::MAX);
                                                lost = true;
                                            }
                                        }
                                    },
                                    None => {
                                        proof {
                                            assert(node.cost + 255 >= usize::MAX);
                                            lost = true;
                                        }
                                    },
                                }
                            }
                        }
                    },
                    None => {},
                }
            }
            proof {
                assert forall|b: Node| pending(before, seen@, b) implies pending(queue, seen@, b) by {
                    if !state_seen(seen@, b) {
                        let m = choose|m: Node| #[trigger] before.holds(m) && same(m, b);
                        assert(queue.holds(m));
                    }
                }
                if steady(can_move) {
                    assert forall|a: Node, b: Node|
                        #[trigger] step_of(map@, can_move, a, b) && state_seen(seen@, a) && a.steps
                            <= MAX_STEPS && (!same(a, node) || dir_index(b.dir) < d) implies lost
                        || pending(queue, seen@, b) by {
                        if !same(a, node) || dir_index(b.dir) < d - 1 {
                            if !was_lost {
                                assert(pending(before, seen@, b));
                            }
                        } else {
                            assert(b.dir == dir);
                            assert(!opposite(dir, node.dir));
                            assert(call_ensures(can_move, (&node, dir), sent));
                            assert(call_ensures(can_move, (&a, dir), Some(b.steps)));
                            assert(sent == Some(b.steps));
                            if !lost {
                                assert(pushed);
                                assert(queue.holds(next_node) && same(next_node, b));
                            }
                        }
                    }
                }
            }
        }
    }
}

/// A route of crucibles through the city that the text shows, by the
/// rule `can_move`, ends at the bottom right with the heat loss `cost`
/// after at least `min_steps` blocks in a row.
pub open spec fn arrives<F: Fn(&Node, Dir) -> Option<usize>>(
    input: Seq<u8>,
    can_move: F,
    min_steps: usize,
    cost: usize,
) -> bool {
    exists|map: Seq<Vec<u8>>, node: Node|
        views(map) == heat(lines(input)) && city(map) && #[trigger] reached(map, can_move, node)
            && node.cost == cost && node.pos.0 == map[0]@.len() - 1 && node.pos.1 == map.len() - 1
            && node.steps >= min_steps
}

/// The text shows no city, or no route of crucibles through the city
/// that it shows, by the rule `can_move`, ends at the bottom right after
/// at least `min_steps` blocks in a row, or some route leads to a
/// crucible whose heat loss comes close to the largest machine word.
pub open spec fn strands<F: Fn(&Node, Dir) -> Option<usize>>(
    input: Seq<u8>,
    can_move: F,
    min_steps: usize,
) -> bool {
    exists|map: Seq<Vec<u8>>| #[trigger]
        views(map) == heat(lines(input)) && (!city(map) || spills(map, can_move) || forall|
            node: Node,
        | #[trigger]
            reached(map, can_move, node) ==> !(node.pos.0 == map[0]@.len() - 1 && node.pos.1
                == map.len() - 1 && node.steps >= min_steps))
}

/// The heat loss of the first crucible that arrives, of those that go at
/// most three blocks straight. `None` if the text shows no city or no
/// crucible arrives.
pub fn get_solution_1(input: &str) -> (r: Option<usize>)
    ensures
        r matches Some(cost) ==> arrives(input.spec_bytes(), Node::can_move_p1, 0, cost),
        r is None ==> strands(input.spec_bytes(), Node::can_move_p1, 0),
{
    let map = parse_input(input);
    if !is_city(&map) {
        assert(views(map@) == heat(lines(input.spec_bytes())) && !city(map@));
        return None;
    }
    let r = dijkstra(&map, Node::can_move_p1, 0);
    proof {
        assert(steady(Node::can_move_p1)) by {
            assert forall|a: Node, b: Node, dir: Dir, r: Option<usize>, t: Option<usize>|
                same(a, b) && #[trigger] call_ensures(Node::can_move_p1, (&a, dir), r)
                    && #[trigger] call_ensures(Node::can_move_p1, (&b, dir), t) implies r == t by {
                assert(r == p1_steps(a, dir));
                assert(t == p1_steps(b, dir));
            }
        }
        if r is None {
            assert(views(map@) == heat(lines(input.spec_bytes())) && (!city(map@) || spills(
                map@,
                Node::can_move_p1,
            ) || forall|node: Node| #[trigger]
                reached(map@, Node::can_move_p1, node) ==> !(node.pos.0 == map@[0]@.len() - 1
                    && node.pos.1 == map@.len() - 1 && node.steps >= 0)));
        }
        if r is Some {
            let node = choose|node: Node| #[trigger]
                reached(map@, Node::can_move_p1, node) && node.cost == r.unwrap() && node.pos.0
                    == map@[0]@.len() - 1 && node.pos.1 == map@.len() - 1 && node.steps >= 0;
            assert(views(map@) == heat(lines(input.spec_bytes())) && city(map@) && reached(
                map@,
                Node::can_move_p1,
                node,
            ));
        }
    }
    r
}

/// The heat loss of the first ultra crucible that arrives; it goes at
/// least four and at most ten blocks straight. `None` if the text shows
/// no city or no crucible arrives.
pub fn get_solution_2(input: &str) -> (r: Option<usize>)
    ensures
        r matches Some(cost) ==> arrives(input.spec_bytes(), Node::can_move_p2, 4, cost),
        r is None ==> strands(input.spec_bytes(), Node::can_move_p2, 4),
{
    let map = parse_input(input);
    if !is_city(&map) {
        assert(views(map@) == heat(lines(input.spec_bytes())) && !city(map@));
        return None;
    }
    let r = dijkstra(&map, Node::can_move_p2, 4);
    proof {
        assert(steady(Node::can_move_p2)) by {
            assert forall|a: Node, b: Node, dir: Dir, r: Option<usize>, t: Option<usize>|
                same(a, b) && #[trigger] call_ensures(Node::can_move_p2, (&a, dir), r)
                    && #[trigger] call_ensures(Node::can_move_p2, (&b, dir), t) implies r == t by {
                assert(r == p2_steps(a, dir));
                assert(t == p2_steps(b, dir));
            }
        }
        if r is None {
            assert(views(map@) == heat(lines(input.spec_bytes())) && (!city(map@) || spills(
                map@,
                Node::can_move_p2,
            ) || forall|node: Node| #[trigger]
                reached(map@, Node::can_move_p2, node) ==> !(node.pos.0 == map@[0]@.len() - 1
                    && node.pos.1 == map@.len() - 1 && node.steps >= 4)));
        }
        if r is Some {
            let node = choose|node: Node| #[trigger]
                reached(map@, Node::can_move_p2, node) && node.cost == r.unwrap() && node.pos.0
                    == map@[0]@.len() - 1 && node.pos.1 == map@.len() - 1 && node.steps >= 4;
            assert(views(map@) == heat(lines(input.spec_bytes())) && city(map@) && reached(
                map@,
                Node::can_move_p2,
                node,
            ));
        }
    }
    r
}

} // verus!
