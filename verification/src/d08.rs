//! A network of nodes, each with a left and a right neighbour, is walked
//! by a list of turns that repeats; part two walks from many nodes at
//! once.

use vstd::prelude::*;
use vstd::string::StringSliceAdditionalSpecFns;
use crate::names::{distinct, intern, lookup, lemma_noted_distinct};
use crate::text::{views, lines, split_lines, copy_range};

verus! {

#[derive(Debug, Clone, Copy, PartialEq, Eq)]
pub enum Turn {
    Left,
    Right,
}

/// The turn that a byte writes: left for `L`, right for anything else.
pub open spec fn turn_of(c: u8) -> Turn {
    if c == 76 {
        Turn::Left
    } else {
        Turn::Right
    }
}

impl Turn {
    /// The turn that `c` writes.
    pub fn from_byte(c: u8) -> (t: Turn)
        ensures
            t == turn_of(c),
    {
        if c == 76 {
            Turn::Left
        } else {
            Turn::Right
        }
    }
}

/// The nodes by name, and for each node the positions of its left and its
/// right neighbour.
pub struct Network {
    pub names: Vec<Vec<u8>>,
    pub next: Vec<(usize, usize)>,
}

impl Network {
    /// Every node has its neighbours, and they are nodes of the network.
    pub open spec fn wf(&self) -> bool {
        &&& self.names@.len() == self.next@.len()
        &&& distinct(views(self.names@))
        &&& forall|i: int|
            0 <= i < self.next@.len() ==> (#[trigger] self.next@[i]).0 < self.next@.len()
                && self.next@[i].1 < self.next@.len()
    }
}

/// The node that one turn leads to.
pub open spec fn step(next: Seq<(usize, usize)>, node: int, turn: Turn) -> int {
    match turn {
        Turn::Left => next[node].0 as int,
        Turn::Right => next[node].1 as int,
    }
}

/// The node reached from `start` after `k` turns of the repeating list.
pub open spec fn walk(next: Seq<(usize, usize)>, turns: Seq<Turn>, start: int, k: nat) -> int
    decreases k,
{
    if k == 0 {
        start
    } else {
        step(next, walk(next, turns, start, (k - 1) as nat), turns[(k - 1) % (turns.len() as int)])
    }
}

/// The name that a node line defines.
pub open spec fn node_name(line: Seq<u8>) -> Seq<u8> {
    line.subrange(0, 3)
}

/// The name of the left neighbour on a node line.
pub open spec fn left_name(line: Seq<u8>) -> Seq<u8> {
    line.subrange(7, 10)
}

/// The name of the right neighbour on a node line.
pub open spec fn right_name(line: Seq<u8>) -> Seq<u8> {
    line.subrange(12, 15)
}

/// Line `i` defines the node `a`, no line behind it up to line `k` does,
/// and the node has the neighbours that line `i` names.
pub open spec fn last_def(rows: Seq<Seq<u8>>, network: Network, i: int, a: int, k: int) -> bool {
    &&& 2 <= i < k
    &&& i < rows.len()
    &&& node_name(rows[i]) == network.names@[a]@
    &&& network.names@[network.next@[a].0 as int]@ == left_name(rows[i])
    &&& network.names@[network.next@[a].1 as int]@ == right_name(rows[i])
    &&& forall|j: int| i < j < k ==> node_name(#[trigger] rows[j]) != network.names@[a]@
}

/// One of the lines from the third up to line `k` defines the name.
pub open spec fn has_line(rows: Seq<Seq<u8>>, name: Seq<u8>, k: int) -> bool {
    exists|i: int| 2 <= i < k && i < rows.len() && node_name(#[trigger] rows[i]) == name
}

/// None of the lines from the third up to line `k` defines the node `a`,
/// or the last of them that does gives it its neighbours.
pub open spec fn traced(rows: Seq<Seq<u8>>, network: Network, a: int, k: int) -> bool {
    !has_line(rows, network.names@[a]@, k) || exists|i: int| #[trigger]
        last_def(rows, network, i, a, k)
}

/// Some line defines the node `a`, and the last such line gives it its
/// neighbours.
pub open spec fn defined(rows: Seq<Seq<u8>>, network: Network, a: int) -> bool {
    exists|i: int| #[trigger] last_def(rows, network, i, a, rows.len() as int)
}

/// The turns are those of the first line, and the network holds the nodes
/// of the lines from the third on, each with the neighbours that its last
/// line names.
pub open spec fn reads_network(rows: Seq<Seq<u8>>, turns: Seq<Turn>, network: Network) -> bool {
    &&& rows.len() >= 1
    &&& turns == Seq::new(rows[0].len(), |i: int| turn_of(rows[0][i]))
    &&& network.wf()
    &&& forall|i: int| 2 <= i < rows.len() ==> (#[trigger] rows[i]).len() >= 15
    &&& forall|a: int| 0 <= a < network.names@.len() ==> #[trigger] defined(rows, network, a)
}

/// There is a first line, every line from the third on is at least
/// fifteen bytes long, and the neighbours that it names are defined by
/// such lines.
pub open spec fn readable(rows: Seq<Seq<u8>>) -> bool {
    &&& rows.len() >= 1
    &&& forall|i: int| 2 <= i < rows.len() ==> (#[trigger] rows[i]).len() >= 15
    &&& forall|i: int|
        2 <= i < rows.len() ==> has_line(rows, left_name(#[trigger] rows[i]), rows.len() as int)
            && has_line(rows, right_name(rows[i]), rows.len() as int)
}

/// Reads the turns from the first line and the nodes from the third line
/// on, each as `AAA = (BBB, CCC)` with names of three bytes. `None` if
/// there is no first line, a node line is shorter than fifteen bytes, or a
/// neighbour is no node. Where a node is defined twice the later line
/// counts.
pub fn parse_input(input: &str) -> (r: Option<(Vec<Turn>, Network)>)
    ensures
        match r {
            Some((turns, network)) => reads_network(lines(input.spec_bytes()), turns@, network),
            None => !readable(lines(input.spec_bytes())),
        },
{
    let all = split_lines(input.as_bytes());
    let ghost rows = lines(input.spec_bytes());
    if all.len() == 0 {
        return None;
    }
    let count = all.len();
    assert(rows[0] == all@[0]@);
    let mut turns: Vec<Turn> = Vec::new();
    let mut i: usize = 0;
    while i < all[0].len()
        invariant
            all@.len() > 0,
            rows[0] == all@[0]@,
            i <= all@[0]@.len(),
            turns@.len() == i,
            forall|k: int| 0 <= k < i ==> (#[trigger] turns@[k]) == turn_of(rows[0][k]),
        decreases all@[0]@.len() - i,
    {
        turns.push(Turn::from_byte(all[0][i]));
        i += 1;
    }
    assert(turns@ =~= Seq::new(rows[0].len(), |i: int| turn_of(rows[0][i])));
    let mut names: Vec<Vec<u8>> = Vec::new();
    let mut k: usize = 2;
    assert(views(names@) =~= Seq::<Seq<u8>>::empty());
    while k < count
        invariant
            count == all@.len(),
            rows == views(all@),
            rows == lines(input.spec_bytes()),
            2 <= k,
            distinct(views(names@)),
            forall|i: int|
                2 <= i < k  && i < count ==> (#[trigger] rows[i]).len() >= 15 && views(names@).contains(
                    node_name(rows[i]),
                ),
            forall|a: int| 0 <= a < names@.len() ==> #[trigger] has_line(rows, names@[a]@, k as int),
        decreases count - k,
    {
        assert(rows[k as int] == all@[k as int]@);
        if all[k].len() < 15 {
            assert(rows.len() == count);
            assert(!(rows[k as int].len() >= 15));
            return None;
        }
        let name = copy_range(all[k].as_slice(), 0, 3);
        let ghost before = names@;
        let at = intern(&mut names, name.as_slice());
        proof {
            lemma_noted_distinct(views(before), name@);
            assert forall|i: int| 2 <= i < k + 1 && i < count implies (#[trigger] rows[i]).len() >= 15
                && views(names@).contains(node_name(rows[i])) by {
                if i < k {
                    assert(views(before).contains(node_name(rows[i])));
                    let w = choose|w: int|
                        0 <= w < views(before).len() && views(before)[w] == node_name(rows[i]);
                    assert(views(names@)[w] == views(before)[w]);
                } else {
                    assert(views(names@)[at as int] == name@);
                }
            }
            assert forall|a: int| 0 <= a < names@.len() implies #[trigger] has_line(
                rows,
                names@[a]@,
                k + 1,
            ) by {
                if a < before.len() {
                    assert(views(names@)[a] == views(before)[a]);
                    assert(has_line(rows, before[a]@, k as int));
                    let i = choose|i: int|
                        2 <= i < k && i < rows.len() && node_name(#[trigger] rows[i]) == before[a]@;
                    assert(2 <= i < k + 1 && node_name(rows[i]) == names@[a]@);
                } else {
                    assert(views(names@)[a] == name@);
                    assert(node_name(rows[k as int]) == names@[a]@);
                }
            }
        }
        k += 1;
    }
    let n = names.len();
    proof {
        assert forall|a: int| 0 <= a < n implies #[trigger] has_line(
            rows,
            names@[a]@,
            count as int,
        ) by {
            assert(has_line(rows, names@[a]@, k as int));
            let i = choose|i: int|
                2 <= i < k && i < rows.len() && node_name(#[trigger] rows[i]) == names@[a]@;
            assert(2 <= i < count && node_name(rows[i]) == names@[a]@);
        }
    }
    let mut next: Vec<(usize, usize)> = Vec::new();
    let mut j: usize = 0;
    while j < n
        invariant
            n == names@.len(),
            j <= n,
            next@.len() == j,
            forall|m: int| 0 <= m < j ==> (#[trigger] next@[m]).0 < n && next@[m].1 < n,
        decreases n - j,
    {
        next.push((0, 0));
        j += 1;
    }
    let mut network = Network { names, next };
    proof {
        assert forall|a: int| 0 <= a < n implies #[trigger] traced(rows, network, a, 2) by {
            if has_line(rows, network.names@[a]@, 2) {
                let i = choose|i: int|
                    2 <= i < 2 && i < rows.len() && node_name(#[trigger] rows[i])
                        == network.names@[a]@;
            }
        }
    }
    let mut k: usize = 2;
    while k < count
        invariant
            count == all@.len(),
            rows == views(all@),
            rows == lines(input.spec_bytes()),
            2 <= k,
            network.wf(),
            n == network.names@.len(),
            forall|i: int|
                2 <= i < count ==> (#[trigger] rows[i]).len() >= 15 && views(
                    network.names@,
                ).contains(node_name(rows[i])),
            forall|a: int|
                0 <= a < n ==> #[trigger] has_line(rows, network.names@[a]@, count as int),
            forall|a: int| 0 <= a < n ==> #[trigger] traced(rows, network, a, k as int),
        decreases count - k,
    {
        assert(rows[k as int] == all@[k as int]@);
        if all[k].len() < 15 {
            return None;
        }
        let name = copy_range(all[k].as_slice(), 0, 3);
        let left = copy_range(all[k].as_slice(), 7, 10);
        let right = copy_range(all[k].as_slice(), 12, 15);
        let at = lookup(&network.names, name.as_slice());
        let l = lookup(&network.names, left.as_slice());
        let r = lookup(&network.names, right.as_slice());
        match (at, l, r) {
            (Some(at), Some(l), Some(r)) => {
                let ghost before = network;
                network.next.set(at, (l, r));
                proof {
                    assert(network.names@ == before.names@);
                    assert forall|a: int| 0 <= a < n implies #[trigger] traced(
                        rows,
                        network,
                        a,
                        k + 1,
                    ) by {
                        assert(traced(rows, before, a, k as int));
                        if a == at {
                            assert(last_def(rows, network, k as int, a, k + 1));
                        } else {
                            assert(views(network.names@)[a] != views(network.names@)[at as int]);
                            assert(network.next@[a] == before.next@[a]);
                            if has_line(rows, before.names@[a]@, k as int) {
                                let i = choose|i: int| #[trigger]
                                    last_def(rows, before, i, a, k as int);
                                assert(last_def(rows, network, i, a, k + 1));
                            } else if has_line(rows, network.names@[a]@, k + 1) {
                                let i = choose|i: int|
                                    2 <= i < k + 1 && i < rows.len() && node_name(
                                        #[trigger] rows[i],
                                    ) == network.names@[a]@;
                                if i < k {
                                    assert(has_line(rows, before.names@[a]@, k as int));
                                }
                            }
                        }
                    }
                }
            },
            _ => {
                proof {
                    let row = rows[k as int];
                    assert(rows.len() == count);
                    assert(name@ == node_name(row));
                    assert(left@ == left_name(row));
                    assert(right@ == right_name(row));
                    assert(views(network.names@).contains(node_name(row)));
                    if has_line(rows, left_name(row), count as int) {
                        let i = choose|i: int|
                            2 <= i < count && i < rows.len() && node_name(#[trigger] rows[i])
                                == left_name(row);
                        assert(views(network.names@).contains(node_name(rows[i])));
                    }
                    if has_line(rows, right_name(row), count as int) {
                        let i = choose|i: int|
                            2 <= i < count && i < rows.len() && node_name(#[trigger] rows[i])
                                == right_name(row);
                        assert(views(network.names@).contains(node_name(rows[i])));
                    }
                }
                return None;
            },
        }
        k += 1;
    }
    proof {
        assert forall|a: int| 0 <= a < network.names@.len() implies #[trigger] defined(
            rows,
            network,
            a,
        ) by {
            assert(has_line(rows, network.names@[a]@, count as int));
            assert(traced(rows, network, a, k as int));
            let i = choose|i: int| #[trigger] last_def(rows, network, i, a, k as int);
            assert(last_def(rows, network, i, a, rows.len() as int));
        }
    }
    Some((turns, network))
}

/// After `k` turns, and at least one, a walk from `start` stands on a
/// node marked in `goals`.
pub open spec fn arrives(
    next: Seq<(usize, usize)>,
    turns: Seq<Turn>,
    goals: Seq<bool>,
    start: int,
    k: nat,
) -> bool {
    k >= 1 && goals[walk(next, turns, start, k)]
}

/// Walks from `start` by the repeating turns until a node marked in
/// `goals` is reached, and returns the number of turns taken. As many
/// turns are tried as there are pairs of a node and a place in the list of
/// turns, after which the walk can only repeat itself.
pub fn steps_to_goal(turns: &Vec<Turn>, network: &Network, goals: &Vec<bool>, start: usize) -> (r:
    Option<usize>)
    requires
        network.wf(),
        goals@.len() == network.next@.len(),
        start < network.next@.len(),
        turns@.len() > 0,
    ensures
        match r {
            Some(steps) => arrives(network.next@, turns@, goals@, start as int, steps as nat)
                && forall|k: nat|
                k < steps ==> !#[trigger] arrives(network.next@, turns@, goals@, start as int, k),
            None => network.next@.len() * turns@.len() > usize::MAX || forall|k: nat|
                k <= network.next@.len() * turns@.len() ==> !#[trigger] arrives(
                    network.next@,
                    turns@,
                    goals@,
                    start as int,
                    k,
                ),
        },
{
    let n = network.next.len();
    let t = turns.len();
    let limit = match n.checked_mul(t) {
        Some(limit) => limit,
        None => {
            return None;
        },
    };
    let mut current = start;
    let mut steps: usize = 0;
    let mut at: usize = 0;
    while steps < limit
        invariant
            network.wf(),
            n == network.next@.len(),
            t == turns@.len(),
            t > 0,
            goals@.len() == n,
            start < n,
            current < n,
            steps <= limit,
            limit == n * t,
            at == steps % t,
            current == walk(network.next@, turns@, start as int, steps as nat),
            forall|k: nat|
                k <= steps ==> !#[trigger] arrives(network.next@, turns@, goals@, start as int, k),
        decreases limit - steps,
    {
        current = match turns[at] {
            Turn::Left => network.next[current].0,
            Turn::Right => network.next[current].1,
        };
        assert(at == (steps + 1 - 1) % (t as int));
        steps += 1;
        at = if at + 1 == t {
            0
        } else {
            at + 1
        };
        assert(at == steps % t) by (nonlinear_arith)
            requires
                t > 0,
                steps >= 1,
                at == if (steps - 1) % (t as int) + 1 == t {
                    0
                } else {
                    (steps - 1) % (t as int) + 1
                },
        ;
        if goals[current] {
            return Some(steps);
        }
    }
    None
}

/// For each node whether its name ends in the byte `c`.
pub fn nodes_ending_in(network: &Network, c: u8) -> (marks: Vec<bool>)
    ensures
        marks@.len() == network.names@.len(),
        forall|i: int|
            0 <= i < marks@.len() ==> (#[trigger] marks@[i]) == (network.names@[i]@.len() > 0
                && network.names@[i]@.last() == c),
{
    let n = network.names.len();
    let mut marks: Vec<bool> = Vec::new();
    let mut i: usize = 0;
    while i < n
        invariant
            n == network.names@.len(),
            i <= n,
            marks@.len() == i,
            forall|k: int|
                0 <= k < i ==> (#[trigger] marks@[k]) == (network.names@[k]@.len() > 0
                    && network.names@[k]@.last() == c),
        decreases n - i,
    {
        let name = &network.names[i];
        let len = name.len();
        marks.push(len > 0 && name[len - 1] == c);
        i += 1;
    }
    marks
}

/// For each node whether it has the name `name`.
pub open spec fn named(network: Network, name: Seq<u8>) -> Seq<bool> {
    Seq::new(network.names@.len(), |i: int| network.names@[i]@ == name)
}

/// For each node whether its name ends in the byte `c`.
pub open spec fn ending(network: Network, c: u8) -> Seq<bool> {
    Seq::new(
        network.names@.len(),
        |i: int| network.names@[i]@.len() > 0 && network.names@[i]@.last() == c,
    )
}

/// A walk from `start` first stands on a node marked in `goals` after
/// `k` turns.
pub open spec fn first_arrival(
    network: Network,
    turns: Seq<Turn>,
    goals: Seq<bool>,
    start: int,
    k: nat,
) -> bool {
    arrives(network.next@, turns, goals, start, k) && forall|j: nat|
        j < k ==> !#[trigger] arrives(network.next@, turns, goals, start, j)
}

/// The name of the node where the walk starts, `AAA`.
pub open spec fn start_name() -> Seq<u8> {
    seq![65u8, 65u8, 65u8]
}

/// The name of the node where the walk ends, `ZZZ`.
pub open spec fn goal_name() -> Seq<u8> {
    seq![90u8, 90u8, 90u8]
}

/// `steps` is the number of turns that a walk from the node `AAA` takes
/// to the node `ZZZ`.
pub open spec fn is_way(network: Network, turns: Seq<Turn>, steps: nat) -> bool {
    exists|start: int|
        0 <= start < network.names@.len() && network.names@[start]@ == start_name()
            && #[trigger] first_arrival(
            network,
            turns,
            named(network, goal_name()),
            start,
            steps,
        )
}

/// There are no turns, `AAA` or `ZZZ` is no node, the number of pairs of
/// a node and a turn does not fit the machine word, or a walk from `AAA`
/// of as many turns as there are such pairs never stands on `ZZZ`.
pub open spec fn no_way(network: Network, turns: Seq<Turn>) -> bool {
    ||| turns.len() == 0
    ||| !views(network.names@).contains(start_name())
    ||| !views(network.names@).contains(goal_name())
    ||| network.next@.len() * turns.len() > usize::MAX
    ||| forall|start: int, k: nat|
        0 <= start < network.names@.len() && network.names@[start]@ == start_name() && k
            <= network.next@.len() * turns.len() ==> !#[trigger] arrives(
            network.next@,
            turns,
            named(network, goal_name()),
            start,
            k,
        )
}

/// The number of turns from `AAA` to `ZZZ`. `None` if one of them is no
/// node, there are no turns, or `ZZZ` is never reached.
pub fn traverse(turns: Vec<Turn>, network: Network) -> (r: Option<usize>)
    requires
        network.wf(),
    ensures
        r matches Some(steps) ==> is_way(network, turns@, steps as nat),
        r is None ==> no_way(network, turns@),
{
    proof {
        vstd::string::is_ascii_spec_bytes("AAA");
        vstd::string::is_ascii_spec_bytes("ZZZ");
        reveal_strlit("AAA");
        reveal_strlit("ZZZ");
        assert("AAA".spec_bytes() =~= start_name());
        assert("ZZZ".spec_bytes() =~= goal_name());
    }
    if turns.len() == 0 {
        return None;
    }
    let start = match lookup(&network.names, "AAA".as_bytes()) {
        Some(start) => start,
        None => {
            return None;
        },
    };
    let goal = match lookup(&network.names, "ZZZ".as_bytes()) {
        Some(goal) => goal,
        None => {
            return None;
        },
    };
    proof {
        vstd::string::is_ascii_spec_bytes("AAA");
        vstd::string::is_ascii_spec_bytes("ZZZ");
        reveal_strlit("AAA");
        reveal_strlit("ZZZ");
        assert("AAA".spec_bytes() =~= start_name());
        assert("ZZZ".spec_bytes() =~= goal_name());
    }
    let n = network.next.len();
    let mut goals: Vec<bool> = Vec::new();
    let mut i: usize = 0;
    while i < n
        invariant
            i <= n,
            goals@.len() == i,
            forall|k: int| 0 <= k < i ==> goals@[k] == (k == goal),
        decreases n - i,
    {
        goals.push(i == goal);
        i += 1;
    }
    proof {
        let zzz = goal_name();
        assert forall|k: int| 0 <= k < n implies goals@[k] == named(network, zzz)[k] by {
            if network.names@[k]@ == zzz && k != goal {
                assert(views(network.names@)[k] == views(network.names@)[goal as int]);
            }
        }
        assert(goals@ =~= named(network, zzz));
    }
    let r = steps_to_goal(&turns, &network, &goals, start);
    proof {
        if r is Some {
            assert(first_arrival(network, turns@, goals@, start as int, r.unwrap() as nat));
        } else if network.next@.len() * turns@.len() <= usize::MAX {
            assert forall|other: int, k: nat|
                0 <= other < network.names@.len() && network.names@[other]@ == start_name() && k
                    <= network.next@.len() * turns@.len() implies !#[trigger] arrives(
                network.next@,
                turns@,
                named(network, goal_name()),
                other,
                k,
            ) by {
                if other != start {
                    assert(views(network.names@)[other] == views(network.names@)[start as int]);
                }
            }
        }
    }
    r
}

/// `list` holds, for each of the first `k` nodes that end in `A`, in
/// their order, the number of turns that a walk from it takes to its
/// first node that ends in `Z`.
pub open spec fn lists_arrivals(network: Network, turns: Seq<Turn>, k: nat, list: Seq<usize>) -> bool
    decreases k,
{
    if k == 0 {
        list.len() == 0
    } else if ending(network, 65u8)[k - 1] {
        list.len() > 0 && first_arrival(
            network,
            turns,
            ending(network, 90u8),
            k - 1,
            list.last() as nat,
        ) && lists_arrivals(network, turns, (k - 1) as nat, list.drop_last())
    } else {
        lists_arrivals(network, turns, (k - 1) as nat, list)
    }
}

/// There are no turns, the number of pairs of a node and a turn does not
/// fit the machine word, or the walk from the node `i`, which ends in `A`,
/// of as many turns as there are such pairs never stands on a node that
/// ends in `Z`.
pub open spec fn stuck_at(network: Network, turns: Seq<Turn>, i: int) -> bool {
    ||| turns.len() == 0
    ||| network.next@.len() * turns.len() > usize::MAX
    ||| 0 <= i < network.names@.len() && ending(network, 65u8)[i] && forall|k: nat|
        k <= network.next@.len() * turns.len() ==> !#[trigger] arrives(
            network.next@,
            turns,
            ending(network, 90u8),
            i,
            k,
        )
}

/// The walk from some node that ends in `A` cannot be followed to its
/// end.
pub open spec fn stuck(network: Network, turns: Seq<Turn>) -> bool {
    exists|i: int| #[trigger] stuck_at(network, turns, i)
}

/// The number of turns after which walks from all nodes that end in `A`
/// stand on nodes that end in `Z` at the same time: the least common
/// multiple of the numbers of turns that each walk takes to its first
/// such node. `None` if a walk reaches none, or the multiple does not fit
/// the machine word.
pub fn traverse_ghost(turns: Vec<Turn>, network: Network) -> (r: Option<usize>)
    requires
        network.wf(),
    ensures
        r matches Some(m) ==> exists|list: Seq<usize>| #[trigger]
            lists_arrivals(network, turns@, network.names@.len(), list) && m == lcm_spec(
                list,
                list.len(),
            ),
        r is None ==> stuck(network, turns@) || exists|list: Seq<usize>| #[trigger]
            lists_arrivals(network, turns@, network.names@.len(), list) && !lcm_fits(list),
{
    if turns.len() == 0 {
        assert(stuck_at(network, turns@, 0));
        return None;
    }
    let starts = nodes_ending_in(&network, 65u8);
    let goals = nodes_ending_in(&network, 90u8);
    assert(starts@ =~= ending(network, 65u8));
    assert(goals@ =~= ending(network, 90u8));
    let n = network.next.len();
    let mut steps: Vec<usize> = Vec::new();
    let mut i: usize = 0;
    while i < n
        invariant
            network.wf(),
            n == network.next@.len(),
            starts@ == ending(network, 65u8),
            goals@ == ending(network, 90u8),
            turns@.len() > 0,
            i <= n,
            lists_arrivals(network, turns@, i as nat, steps@),
        decreases n - i,
    {
        if starts[i] {
            match steps_to_goal(&turns, &network, &goals, i) {
                Some(s) => {
                    let ghost before = steps@;
                    steps.push(s);
                    assert(steps@.drop_last() =~= before);
                    assert(first_arrival(network, turns@, goals@, i as int, s as nat));
                },
                None => {
                    assert(stuck_at(network, turns@, i as int));
                    return None;
                },
            }
        }
        i += 1;
    }
    let r = lcm(&steps);
    proof {
        assert(lists_arrivals(network, turns@, network.names@.len(), steps@));
    }
    r
}

/// The greatest common divisor by Euclid's rule: the larger number is
/// replaced by its remainder until the smaller is zero.
pub open spec fn gcd_spec(a: nat, b: nat) -> nat
    decreases a + b, b,
{
    if a < b {
        gcd_spec(b, a)
    } else if b == 0 {
        a
    } else {
        gcd_spec(b, a % b)
    }
}

/// The greatest common divisor of two numbers.
pub fn gcd(a: usize, b: usize) -> (r: usize)
    ensures
        r == gcd_spec(a as nat, b as nat),
        (a > 0 || b > 0) ==> r > 0,
    decreases a + b, b,
{
    if a < b {
        gcd(b, a)
    } else if b == 0 {
        a
    } else {
        gcd(b, a % b)
    }
}

/// The first `k` numbers folded by `acc * n / gcd(acc, n)`, beginning
/// with the first number; zero for no numbers.
pub open spec fn lcm_spec(numbers: Seq<usize>, k: nat) -> nat
    decreases k,
{
    if k == 0 {
        0
    } else if k == 1 {
        numbers[0] as nat
    } else {
        let acc = lcm_spec(numbers, (k - 1) as nat);
        let n = numbers[k - 1] as nat;
        if gcd_spec(acc, n) == 0 {
            0
        } else {
            acc * n / gcd_spec(acc, n)
        }
    }
}

/// Folding in the number at place `k` needs no product beyond the
/// machine word.
pub open spec fn lcm_step_fits(numbers: Seq<usize>, k: nat) -> bool {
    gcd_spec(lcm_spec(numbers, k), numbers[k as int] as nat) == 0 || lcm_spec(numbers, k)
        * numbers[k as int] <= usize::MAX
}

/// No step of the fold needs a product beyond the machine word.
pub open spec fn lcm_fits(numbers: Seq<usize>) -> bool {
    forall|k: nat| 1 <= k < numbers.len() ==> #[trigger] lcm_step_fits(numbers, k)
}

/// The least common multiple of the numbers, folded from the left; zero
/// for no numbers. `None` if a product does not fit the machine word.
pub fn lcm(numbers: &Vec<usize>) -> (r: Option<usize>)
    ensures
        r matches Some(m) ==> m == lcm_spec(numbers@, numbers@.len()),
        r is Some <==> lcm_fits(numbers@),
{
    if numbers.len() == 0 {
        return Some(0);
    }
    let mut acc: usize = numbers[0];
    let mut i: usize = 1;
    while i < numbers.len()
        invariant
            1 <= i <= numbers@.len(),
            acc == lcm_spec(numbers@, i as nat),
            forall|k: nat| 1 <= k < i ==> #[trigger] lcm_step_fits(numbers@, k),
        decreases numbers@.len() - i,
    {
        let n = numbers[i];
        let g = gcd(acc, n);
        if g == 0 {
            acc = 0;
        } else {
            let product = match acc.checked_mul(n) {
                Some(product) => product,
                None => {
                    assert(!lcm_step_fits(numbers@, i as nat));
                    return None;
                },
            };
            acc = product / g;
        }
        i += 1;
    }
    Some(acc)
}

/// The number of turns from `AAA` to `ZZZ`.
pub fn get_solution_1(input: &str) -> (r: Option<usize>)
    ensures
        r matches Some(steps) ==> exists|turns: Seq<Turn>, network: Network|
            reads_network(lines(input.spec_bytes()), turns, network) && #[trigger] is_way(
                network,
                turns,
                steps as nat,
            ),
        r is None ==> !readable(lines(input.spec_bytes())) || exists|
            turns: Seq<Turn>,
            network: Network,
        |
            reads_network(lines(input.spec_bytes()), turns, network) && #[trigger] no_way(
                network,
                turns,
            ),
{
    match parse_input(input) {
        Some((turns, network)) => {
            let ghost t = turns@;
            let ghost net = network;
            let r = traverse(turns, network);
            proof {
                if r is Some {
                    assert(reads_network(lines(input.spec_bytes()), t, net) && is_way(
                        net,
                        t,
                        r.unwrap() as nat,
                    ));
                } else {
                    assert(reads_network(lines(input.spec_bytes()), t, net) && no_way(net, t));
                }
            }
            r
        },
        None => None,
    }
}

/// The number of turns until all walks from nodes that end in `A` stand
/// on nodes that end in `Z`.
pub fn get_solution_2(input: &str) -> (r: Option<usize>)
    ensures
        r matches Some(m) ==> exists|turns: Seq<Turn>, network: Network, list: Seq<usize>|
            reads_network(lines(input.spec_bytes()), turns, network) && #[trigger] lists_arrivals(
                network,
                turns,
                network.names@.len(),
                list,
            ) && m == lcm_spec(list, list.len()),
        r is None ==> !readable(lines(input.spec_bytes())) || exists|
            turns: Seq<Turn>,
            network: Network,
        |
            reads_network(lines(input.spec_bytes()), turns, network) && (#[trigger] stuck(
                network,
                turns,
            ) || exists|list: Seq<usize>| #[trigger]
                lists_arrivals(network, turns, network.names@.len(), list) && !lcm_fits(list)),
{
    match parse_input(input) {
        Some((turns, network)) => {
            let ghost t = turns@;
            let ghost net = network;
            let r = traverse_ghost(turns, network);
            proof {
                if r is None {
                    assert(reads_network(lines(input.spec_bytes()), t, net) && (stuck(net, t)
                        || exists|list: Seq<usize>| #[trigger]
                        lists_arrivals(net, t, net.names@.len(), list) && !lcm_fits(list)));
                }
                if r is Some {
                    let list = choose|list: Seq<usize>| #[trigger]
                        lists_arrivals(net, t, net.names@.len(), list) && r.unwrap() == lcm_spec(
                            list,
                            list.len(),
                        );
                    assert(reads_network(lines(input.spec_bytes()), t, net) && lists_arrivals(
                        net,
                        t,
                        net.names@.len(),
                        list,
                    ));
                }
            }
            r
        },
        None => None,
    }
}

} // verus!
