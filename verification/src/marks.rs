//! A set of small numbers kept as a table of marks, with the number of
//! marks set. The searches use it to remember what they have seen, and its
//! count bounds the steps they can still take.

use vstd::prelude::*;

verus! {

/// How many of the first `k` marks are set.
pub open spec fn trues(bits: Seq<bool>, k: nat) -> nat
    decreases k,
{
    if k == 0 {
        0
    } else {
        trues(bits, (k - 1) as nat) + if bits[k - 1] {
            1nat
        } else {
            0nat
        }
    }
}

/// No more marks are set than there are.
pub proof fn lemma_trues_bounded(bits: Seq<bool>, k: nat)
    ensures
        trues(bits, k) <= k,
    decreases k,
{
    if k > 0 {
        lemma_trues_bounded(bits, (k - 1) as nat);
    }
}

/// Setting a mark that was not set raises the count by one.
pub proof fn lemma_trues_set(bits: Seq<bool>, i: int, k: nat)
    requires
        0 <= i < bits.len(),
        !bits[i],
        k <= bits.len(),
    ensures
        trues(bits.update(i, true), k) == trues(bits, k) + if i < k {
            1nat
        } else {
            0nat
        },
    decreases k,
{
    if k > 0 {
        lemma_trues_set(bits, i, (k - 1) as nat);
    }
}

/// A table where nothing is marked counts nothing.
pub proof fn lemma_trues_none(bits: Seq<bool>, k: nat)
    requires
        k <= bits.len(),
        forall|i: int| 0 <= i < bits.len() ==> !bits[i],
    ensures
        trues(bits, k) == 0,
    decreases k,
{
    if k > 0 {
        lemma_trues_none(bits, (k - 1) as nat);
    }
}

/// A set of numbers below a fixed bound.
pub struct Marks {
    pub bits: Vec<bool>,
    pub count: usize,
}

impl View for Marks {
    type V = Seq<bool>;

    open spec fn view(&self) -> Seq<bool> {
        self.bits@
    }
}

impl Marks {
    /// The count is the number of marks set.
    pub open spec fn wf(&self) -> bool {
        self.count == trues(self.bits@, self.bits@.len())
    }

    /// The empty set of numbers below `n`.
    pub fn new(n: usize) -> (marks: Marks)
        ensures
            marks.wf(),
            marks@.len() == n,
            marks.count == 0,
            forall|i: int| 0 <= i < n ==> !marks@[i],
    {
        let mut bits: Vec<bool> = Vec::new();
        let mut i: usize = 0;
        while i < n
            invariant
                i <= n,
                bits@.len() == i,
                forall|k: int| 0 <= k < i ==> !bits@[k],
            decreases n - i,
        {
            bits.push(false);
            i += 1;
        }
        proof {
            lemma_trues_none(bits@, n as nat);
        }
        Marks { bits, count: 0 }
    }

    /// The bound of the set.
    pub fn len(&self) -> (n: usize)
        ensures
            n == self@.len(),
    {
        self.bits.len()
    }

    /// Whether `i` is in the set.
    pub fn contains(&self, i: usize) -> (r: bool)
        requires
            i < self@.len(),
        ensures
            r == self@[i as int],
    {
        self.bits[i]
    }

    /// Puts `i` into the set. Returns whether it was new.
    pub fn insert(&mut self, i: usize) -> (fresh: bool)
        requires
            old(self).wf(),
            i < old(self)@.len(),
        ensures
            final(self).wf(),
            final(self)@ == old(self)@.update(i as int, true),
            fresh == !old(self)@[i as int],
            final(self).count == old(self).count + if fresh {
                1int
            } else {
                0int
            },
            final(self).count <= final(self)@.len(),
    {
        let n = self.bits.len();
        proof {
            lemma_trues_bounded(self.bits@, self.bits@.len());
        }
        if self.bits[i] {
            assert(self.bits@.update(i as int, true) =~= self.bits@);
            false
        } else {
            proof {
                lemma_trues_set(self.bits@, i as int, self.bits@.len());
                lemma_trues_bounded(self.bits@.update(i as int, true), self.bits@.len());
            }
            self.bits.set(i, true);
            self.count += 1;
            true
        }
    }
}

/// How many marks are set in the first `k` rows of a grid of marks.
pub open spec fn grid_trues(rows: Seq<Vec<bool>>, k: nat) -> nat
    decreases k,
{
    if k == 0 {
        0
    } else {
        grid_trues(rows, (k - 1) as nat) + trues(rows[k - 1]@, rows[k - 1]@.len())
    }
}

/// How many marks there are in the first `k` rows of a grid of marks.
pub open spec fn grid_cells(rows: Seq<Vec<bool>>, k: nat) -> nat
    decreases k,
{
    if k == 0 {
        0
    } else {
        grid_cells(rows, (k - 1) as nat) + rows[k - 1]@.len()
    }
}

/// No more marks are set in a grid than there are.
pub proof fn lemma_grid_trues_bounded(rows: Seq<Vec<bool>>, k: nat)
    ensures
        grid_trues(rows, k) <= grid_cells(rows, k),
    decreases k,
{
    if k > 0 {
        lemma_grid_trues_bounded(rows, (k - 1) as nat);
        lemma_trues_bounded(rows[k - 1]@, rows[k - 1]@.len());
    }
}

/// `after` is `before` with the mark `(y, j)`, which was not set, set.
pub open spec fn one_more(before: Seq<Vec<bool>>, after: Seq<Vec<bool>>, y: int, j: int) -> bool {
    &&& after.len() == before.len()
    &&& 0 <= y < before.len()
    &&& 0 <= j < before[y]@.len()
    &&& !before[y]@[j]
    &&& after[y]@ == before[y]@.update(j, true)
    &&& forall|r: int| 0 <= r < before.len() && r != y ==> after[r]@ == before[r]@
}

/// Setting one mark of a grid raises the number of marks set by one and
/// leaves the number of marks as it was.
pub proof fn lemma_grid_one_more(before: Seq<Vec<bool>>, after: Seq<Vec<bool>>, y: int, j: int, k: nat)
    requires
        one_more(before, after, y, j),
        k <= before.len(),
    ensures
        grid_cells(after, k) == grid_cells(before, k),
        grid_trues(after, k) == grid_trues(before, k) + if y < k {
            1nat
        } else {
            0nat
        },
    decreases k,
{
    if k > 0 {
        lemma_grid_one_more(before, after, y, j, (k - 1) as nat);
        if y == k - 1 {
            lemma_trues_set(before[y]@, j, before[y]@.len());
        } else {
            assert(after[k - 1]@ == before[k - 1]@);
        }
    }
}

/// A grid of marks, none set, with `factor` marks for each cell of
/// `map`.
pub fn blank_like<T>(map: &Vec<Vec<T>>, factor: usize) -> (rows: Vec<Vec<bool>>)
    requires
        forall|y: int| 0 <= y < map@.len() ==> (#[trigger] map@[y])@.len() * factor <= usize::MAX,
    ensures
        rows@.len() == map@.len(),
        forall|y: int| 0 <= y < rows@.len() ==> (#[trigger] rows@[y])@.len() == map@[y]@.len() * factor,
        forall|y: int, j: int| 0 <= y < rows@.len() && 0 <= j < rows@[y]@.len() ==> !rows@[y]@[j],
{
    let height = map.len();
    let mut rows: Vec<Vec<bool>> = Vec::new();
    let mut y: usize = 0;
    while y < height
        invariant
            height == map@.len(),
            y <= height,
            rows@.len() == y,
            forall|r: int| 0 <= r < map@.len() ==> (#[trigger] map@[r])@.len() * factor <= usize::MAX,
            forall|r: int| 0 <= r < y ==> (#[trigger] rows@[r])@.len() == map@[r]@.len() * factor,
            forall|r: int, j: int| 0 <= r < y && 0 <= j < rows@[r]@.len() ==> !rows@[r]@[j],
        decreases height - y,
    {
        assert(map@[y as int]@.len() * factor <= usize::MAX);
        let len = map[y].len() * factor;
        let mut row: Vec<bool> = Vec::new();
        let mut j: usize = 0;
        while j < len
            invariant
                j <= len,
                row@.len() == j,
                forall|k: int| 0 <= k < j ==> !row@[k],
            decreases len - j,
        {
            row.push(false);
            j += 1;
        }
        rows.push(row);
        y += 1;
    }
    rows
}

} // verus!
