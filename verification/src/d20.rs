//! Modules send pulses to each other: flip-flops switch on low pulses,
//! conjunctions remember the last pulse of each input, and a button sets
//! it all off.

use vstd::prelude::*;
use std::collections::VecDeque;
use vstd::string::StringSliceAdditionalSpecFns;
use crate::names::{distinct, intern, lookup, noted, lemma_noted_distinct};
use crate::text::{
    views, split_lines, split_bytes, trim_bytes, copy_range, same_bytes, lines, split, trim,
};

verus! {

/// The most pulses that one press of the button may set off.
pub const MAX_PULSES: usize = 1000000;

/// The most presses of the button that part two tries.
pub const MAX_PRESSES: usize = 100000;

/// The kind of a module with what it remembers: a flip-flop whether it is
/// on, a conjunction the last pulse of each module that feeds it.
#[derive(Debug, Clone)]
pub enum ModuleTypeMem {
    FlipFlop(bool),
    Conjunction(Vec<(usize, bool)>),
    Broadcast,
    Out,
}

/// The place of `parent` among the inputs, from index `k` on, or the
/// number of inputs.
pub open spec fn input_index(mem: Seq<(usize, bool)>, parent: usize, k: int) -> int
    decreases mem.len() - k,
{
    if k < 0 || k >= mem.len() {
        mem.len() as int
    } else if mem[k].0 == parent {
        k
    } else {
        input_index(mem, parent, k + 1)
    }
}

/// Every input was last seen high.
pub open spec fn all_high(mem: Seq<(usize, bool)>) -> bool {
    forall|i: int| 0 <= i < mem.len() ==> (#[trigger] mem[i]).1
}

impl ModuleTypeMem {
    /// The module can take a pulse from `parent`: a conjunction must have
    /// it among its inputs.
    pub open spec fn knows(&self, parent: usize) -> bool {
        match self {
            ModuleTypeMem::Conjunction(mem) => input_index(mem@, parent, 0) < mem@.len(),
            _ => true,
        }
    }

    /// Whether the module can take a pulse from `parent`.
    pub fn has_input(&self, parent: usize) -> (r: bool)
        ensures
            r == self.knows(parent),
    {
        match self {
            ModuleTypeMem::Conjunction(mem) => find_input(mem, parent) < mem.len(),
            _ => true,
        }
    }

    /// Takes a pulse from `parent` and returns the pulse that the module
    /// sends on, if it sends one: a flip-flop switches on a low pulse and
    /// sends its new state; a conjunction notes the pulse and sends low
    /// if all its inputs were last high, else high; the broadcaster sends
    /// low.
    pub fn handle_pulse(&mut self, pulse: bool, parent: usize) -> (r: Option<bool>)
        requires
            old(self).knows(parent),
        ensures
            match *old(self) {
                ModuleTypeMem::FlipFlop(cur) => if pulse {
                    r is None && *final(self) == *old(self)
                } else {
                    r == Some(!cur) && *final(self) == ModuleTypeMem::FlipFlop(!cur)
                },
                ModuleTypeMem::Conjunction(mem) => *final(self) matches ModuleTypeMem::Conjunction(
                    after,
                ) && after@ == mem@.update(
                    input_index(mem@, parent, 0),
                    (parent, pulse),
                ) && r == Some(!all_high(after@)),
                ModuleTypeMem::Broadcast => r == Some(false) && *final(self) == *old(self),
                ModuleTypeMem::Out => r is None && *final(self) == *old(self),
            },
    {
        match self {
            ModuleTypeMem::FlipFlop(cur) => {
                if pulse {
                    None
                } else {
                    let now = !*cur;
                    *cur = now;
                    Some(now)
                }
            },
            ModuleTypeMem::Conjunction(mem) => {
                let at = find_input(mem, parent);
                mem.set(at, (parent, pulse));
                Some(!every_high(mem))
            },
            ModuleTypeMem::Broadcast => Some(false),
            ModuleTypeMem::Out => None,
        }
    }
}

/// The place of `parent` among the inputs, or their number.
fn find_input(mem: &Vec<(usize, bool)>, parent: usize) -> (r: usize)
    ensures
        r == input_index(mem@, parent, 0),
        r <= mem@.len(),
{
    let n = mem.len();
    let mut k: usize = 0;
    while k < n
        invariant
            n == mem@.len(),
            k <= n,
            input_index(mem@, parent, 0) == input_index(mem@, parent, k as int),
        decreases n - k,
    {
        if mem[k].0 == parent {
            return k;
        }
        k += 1;
    }
    n
}

/// Whether every input was last seen high.
fn every_high(mem: &Vec<(usize, bool)>) -> (r: bool)
    ensures
        r == all_high(mem@),
{
    let n = mem.len();
    let mut k: usize = 0;
    while k < n
        invariant
            n == mem@.len(),
            k <= n,
            forall|i: int| 0 <= i < k ==> (#[trigger] mem@[i]).1,
        decreases n - k,
    {
        if !mem[k].1 {
            return false;
        }
        k += 1;
    }
    true
}

/// A module: its kind and memory, the last pulse it sent, and the places
/// of the modules it sends to.
pub struct Node {
    pub typ: ModuleTypeMem,
    pub last_pulse: bool,
    pub children: Vec<usize>,
}

/// The name of the module that the button sends to.
pub open spec fn broadcaster() -> Seq<u8> {
    seq![98u8, 114u8, 111u8, 97u8, 100u8, 99u8, 97u8, 115u8, 116u8, 101u8, 114u8]
}

/// The definition names a kind of module: the broadcaster, a conjunction
/// by `&`, a flip-flop by `%`, or the module `rx`.
pub open spec fn names_kind(name: Seq<u8>) -> bool {
    name == broadcaster() || (name.len() > 0 && (name[0] == 38 || name[0] == 37)) || name
        == seq![114u8, 120u8]
}

impl Node {
    /// A module as `name` defines it, with nothing remembered.
    pub fn new(name: &[u8], children: Vec<usize>) -> (r: Option<Node>)
        ensures
            r matches Some(node) ==> !node.last_pulse && node.children == children && match node.typ {
                ModuleTypeMem::FlipFlop(on) => !on && name@.len() > 0 && name@[0] == 37,
                ModuleTypeMem::Conjunction(mem) => mem@.len() == 0 && name@.len() > 0 && name@[0]
                    == 38,
                ModuleTypeMem::Broadcast => name@ == broadcaster(),
                ModuleTypeMem::Out => name@ == seq![114u8, 120u8],
            },
            r is Some <==> names_kind(name@),
            r matches Some(node) ==> (node.typ is Broadcast <==> name@ == broadcaster()),
    {
        proof {
            vstd::string::is_ascii_spec_bytes("broadcaster");
            reveal_strlit("broadcaster");
            assert("broadcaster".spec_bytes() =~= broadcaster());
        }
        let typ = if same_bytes(name, "broadcaster".as_bytes()) {
            ModuleTypeMem::Broadcast
        } else if name.len() > 0 && name[0] == 38 {
            ModuleTypeMem::Conjunction(Vec::new())
        } else if name.len() > 0 && name[0] == 37 {
            ModuleTypeMem::FlipFlop(false)
        } else if name.len() == 2 && name[0] == 114 && name[1] == 120 {
            assert(name@ =~= seq![114u8, 120u8]);
            ModuleTypeMem::Out
        } else {
            proof {
                if name@ == seq![114u8, 120u8] {
                    assert(name@.len() == 2 && name@[0] == 114u8 && name@[1] == 120u8);
                }
            }
            return None;
        };
        proof {
            if name@ == broadcaster() && name@.len() > 0 {
                assert(name@[0] == 98u8);
            }
        }
        Some(Node { typ, last_pulse: false, children })
    }
}

/// The modules by name.
pub struct HMGraph {
    pub names: Vec<Vec<u8>>,
    pub nodes: Vec<Node>,
}

impl HMGraph {
    /// Every name has its module, and every module sends to modules of
    /// the graph.
    pub open spec fn wf(&self) -> bool {
        &&& self.names@.len() == self.nodes@.len()
        &&& forall|i: int, k: int|
            0 <= i < self.nodes@.len() && 0 <= k < self.nodes@[i].children@.len() ==> (
            #[trigger] self.nodes@[i].children@[k]) < self.nodes@.len()
    }
}

/// An arrow `->` begins at place `i` of the line.
pub open spec fn arrow_at(line: Seq<u8>, i: int) -> bool {
    0 <= i && i + 2 <= line.len() && line[i] == 45 && line[i + 1] == 62
}

/// The place of the first arrow `->` in the line from `k` on, or the
/// length of the line.
pub open spec fn first_arrow(line: Seq<u8>, k: int) -> int
    decreases line.len() - k,
{
    if k < 0 || k + 2 > line.len() {
        line.len() as int
    } else if arrow_at(line, k) {
        k
    } else {
        first_arrow(line, k + 1)
    }
}

/// The place of the first arrow `->` in the line.
fn find_arrow(line: &[u8]) -> (r: Option<usize>)
    ensures
        match r {
            Some(at) => at == first_arrow(line@, 0),
            None => first_arrow(line@, 0) == line@.len(),
        },
        r matches Some(at) ==> at + 2 <= line@.len() && line@[at as int] == 45 && line@[at + 1]
            == 62,
        match r {
            Some(at) => arrow_at(line@, at as int) && forall|j: int|
                0 <= j < at ==> !arrow_at(line@, j),
            None => forall|j: int| !arrow_at(line@, j),
        },
{
    let n = line.len();
    if n < 2 {
        return None;
    }
    let mut i: usize = 0;
    while i < n - 1
        invariant
            n == line@.len(),
            n >= 2,
            i <= n,
            forall|j: int| 0 <= j < i ==> !arrow_at(line@, j),
            first_arrow(line@, 0) == first_arrow(line@, i as int),
        decreases n - i,
    {
        if line[i] == 45 && line[i + 1] == 62 {
            return Some(i);
        }
        i += 1;
    }
    None
}

/// The definition of the module on a line: what stands before the arrow,
/// without the white space at its ends.
pub open spec fn def_of(line: Seq<u8>) -> Seq<u8> {
    trim(line.subrange(0, first_arrow(line, 0)))
}

/// The words behind the arrow of a line, cut at the commas.
pub open spec fn targets_of(line: Seq<u8>) -> Seq<Seq<u8>> {
    split(line.subrange(first_arrow(line, 0) + 2, line.len() as int), 44u8)
}

/// The name of the module on a line: its definition without the `&` or
/// `%` before it.
pub open spec fn key_of(line: Seq<u8>) -> Seq<u8> {
    let def = def_of(line);
    if def.len() > 0 && (def[0] == 38 || def[0] == 37) {
        def.subrange(1, def.len() as int)
    } else {
        def
    }
}

/// The names of the modules of the first `k` lines, each once, in the
/// order in which they first stand.
pub open spec fn key_table(rows: Seq<Seq<u8>>, k: nat) -> Seq<Seq<u8>>
    decreases k,
{
    if k == 0 {
        Seq::empty()
    } else {
        noted(key_table(rows, (k - 1) as nat), key_of(rows[k - 1]))
    }
}

/// The name `rx`.
pub open spec fn rx_name() -> Seq<u8> {
    seq![114u8, 120u8]
}

/// The names of all modules: those of the lines, and `rx`.
pub open spec fn name_table(rows: Seq<Seq<u8>>) -> Seq<Seq<u8>> {
    noted(key_table(rows, rows.len()), rx_name())
}

/// Every line has an arrow, its definition names a kind of module, and
/// the modules that it sends to are modules of the table.
pub open spec fn module_line(rows: Seq<Seq<u8>>, line: Seq<u8>) -> bool {
    &&& first_arrow(line, 0) < line.len()
    &&& names_kind(def_of(line))
    &&& forall|c: int|
        0 <= c < targets_of(line).len() ==> name_table(rows).contains(
            trim(#[trigger] targets_of(line)[c]),
        )
}

/// Every line writes a module.
pub open spec fn modules_ok(rows: Seq<Seq<u8>>) -> bool {
    forall|l: int| 0 <= l < rows.len() ==> module_line(rows, #[trigger] rows[l])
}

/// `node` is the module that the line writes, with nothing sent yet: it
/// sends to the modules that the line names, and is of the kind that the
/// definition names.
pub open spec fn written(line: Seq<u8>, names: Seq<Seq<u8>>, node: Node) -> bool {
    &&& !node.last_pulse
    &&& node.children@.len() == targets_of(line).len()
    &&& forall|c: int|
        0 <= c < node.children@.len() ==> (#[trigger] node.children@[c]) < names.len()
            && names[node.children@[c] as int] == trim(targets_of(line)[c])
    &&& match node.typ {
        ModuleTypeMem::FlipFlop(on) => !on && def_of(line) != broadcaster() && def_of(line).len()
            > 0 && def_of(line)[0] == 37,
        ModuleTypeMem::Conjunction(_) => def_of(line) != broadcaster() && def_of(line).len() > 0
            && def_of(line)[0] == 38,
        ModuleTypeMem::Broadcast => def_of(line) == broadcaster(),
        ModuleTypeMem::Out => def_of(line) == rx_name(),
    }
}

/// One of the first `k` rows writes the module `node` under the name
/// `name`.
pub open spec fn from_line(
    rows: Seq<Seq<u8>>,
    k: int,
    names: Seq<Seq<u8>>,
    name: Seq<u8>,
    node: Node,
) -> bool {
    exists|l: int| 0 <= l < k && l < rows.len() && key_of(rows[l]) == name && #[trigger] written(
        rows[l],
        names,
        node,
    )
}

/// The module at place `p` is `rx`, which sends to no module, or one that
/// a row writes under its name.
pub open spec fn module_at(rows: Seq<Seq<u8>>, g: HMGraph, p: int) -> bool {
    if g.names@[p]@ == rx_name() {
        g.nodes@[p].typ is Out && g.nodes@[p].children@.len() == 0 && !g.nodes@[p].last_pulse
    } else {
        from_line(rows, rows.len() as int, views(g.names@), g.names@[p]@, g.nodes@[p])
    }
}

/// The module at place `q` sends to the module at place `p`.
pub open spec fn feeds(g: HMGraph, q: int, p: int) -> bool {
    exists|k: int|
        0 <= k < g.nodes@[q].children@.len() && #[trigger] g.nodes@[q].children@[k] == p
}

/// What the module at place `p` remembers, if it is a conjunction, of the
/// first `upto` modules and of the first `k` modules that the next sends
/// to: each of them that sends to it is among its inputs; and all its
/// inputs send to it and were last seen low.
pub open spec fn remembers(g: HMGraph, p: int, upto: int, k: int) -> bool {
    match g.nodes@[p].typ {
        ModuleTypeMem::Conjunction(mem) => (forall|e: int|
            0 <= e < mem@.len() ==> !(#[trigger] mem@[e]).1 && mem@[e].0 < g.nodes@.len() && feeds(
                g,
                mem@[e].0 as int,
                p,
            )) && forall|q: int, c: int|
            0 <= q <= upto && q < g.nodes@.len() && 0 <= c < g.nodes@[q].children@.len() && (q
                < upto || c < k) && #[trigger] g.nodes@[q].children@[c] == p ==> input_index(
                mem@,
                q as usize,
                0,
            ) < mem@.len(),
        _ => true,
    }
}

/// The graph holds the modules of the rows: under each name the module
/// that a row writes, and with each conjunction the modules that send to
/// it.
pub open spec fn reads_modules(rows: Seq<Seq<u8>>, g: HMGraph) -> bool {
    &&& g.wf()
    &&& views(g.names@) == name_table(rows)
    &&& forall|p: int| 0 <= p < g.nodes@.len() ==> #[trigger] module_at(rows, g, p)
    &&& forall|p: int|
        0 <= p < g.nodes@.len() ==> #[trigger] remembers(g, p, g.nodes@.len() as int, 0)
}

/// Every name of the table of the first `k` rows is the name of one of
/// them.
pub proof fn lemma_key_from(rows: Seq<Seq<u8>>, k: nat, name: Seq<u8>)
    requires
        key_table(rows, k).contains(name),
        k <= rows.len(),
    ensures
        exists|l: int| 0 <= l < k && key_of(#[trigger] rows[l]) == name,
    decreases k,
{
    if k > 0 {
        let before = key_table(rows, (k - 1) as nat);
        if before.contains(name) {
            lemma_key_from(rows, (k - 1) as nat, name);
            let l = choose|l: int| 0 <= l < k - 1 && key_of(#[trigger] rows[l]) == name;
            assert(0 <= l < k && key_of(rows[l]) == name);
        } else {
            let i = choose|i: int|
                0 <= i < key_table(rows, k).len() && key_table(rows, k)[i] == name;
            if key_table(rows, k) == before {
                assert(before[i] == name);
            } else {
                assert(key_table(rows, k) == before.push(key_of(rows[k - 1])));
                if i < before.len() {
                    assert(before[i] == name);
                }
                assert(key_of(rows[k - 1]) == name);
            }
        }
    }
}

/// An input that stands among the inputs is found at or before its
/// place.
pub proof fn lemma_input_found(mem: Seq<(usize, bool)>, parent: usize, k: int, j: int)
    requires
        0 <= k <= j < mem.len(),
        mem[j].0 == parent,
    ensures
        k <= input_index(mem, parent, k) <= j,
        mem[input_index(mem, parent, k)].0 == parent,
    decreases j - k,
{
    if mem[k].0 != parent {
        lemma_input_found(mem, parent, k + 1, j);
    }
}

/// An input that is found stands at the place where it is found.
pub proof fn lemma_input_index(mem: Seq<(usize, bool)>, parent: usize, k: int)
    requires
        0 <= k,
    ensures
        input_index(mem, parent, k) < mem.len() ==> k <= input_index(mem, parent, k)
            && mem[input_index(mem, parent, k)].0 == parent,
    decreases mem.len() - k,
{
    if k < mem.len() && mem[k].0 != parent {
        lemma_input_index(mem, parent, k + 1);
    }
}

/// Noting an input keeps the inputs that were there and has the one
/// noted among them.
pub proof fn lemma_noted_input(mem: Seq<(usize, bool)>, parent: usize, other: usize)
    ensures
        input_index(noted_input(mem, parent), parent, 0) < noted_input(mem, parent).len(),
        input_index(mem, other, 0) < mem.len() ==> input_index(
            noted_input(mem, parent),
            other,
            0,
        ) < noted_input(mem, parent).len(),
{
    let after = noted_input(mem, parent);
    let at = input_index(mem, parent, 0);
    lemma_input_index(mem, parent, 0);
    lemma_input_index(mem, other, 0);
    if at < mem.len() {
        assert(after[at].0 == parent);
        lemma_input_found(after, parent, 0, at);
    } else {
        assert(after[mem.len() as int].0 == parent);
        lemma_input_found(after, parent, 0, mem.len() as int);
    }
    let was = input_index(mem, other, 0);
    if was < mem.len() {
        assert(after[was].0 == other);
        lemma_input_found(after, other, 0, was);
    }
}

/// Reads the modules, one from each line: a definition, an arrow, and the
/// names of the modules it sends to, with commas between them. The module
/// `rx` is added. `None` if a line has no arrow, a definition names no
/// kind, or a module sends to one that is not defined.
pub fn parse_input(inp: &str) -> (r: Option<HMGraph>)
    ensures
        r matches Some(graph) ==> graph.wf(),
        match r {
            Some(graph) => modules_ok(lines(inp.spec_bytes())) && views(graph.names@)
                == name_table(lines(inp.spec_bytes())) && reads_modules(
                lines(inp.spec_bytes()),
                graph,
            ),
            None => !modules_ok(lines(inp.spec_bytes())),
        },
{
    let all = split_lines(inp.as_bytes());
    let ghost rows = lines(inp.spec_bytes());
    let mut names: Vec<Vec<u8>> = Vec::new();
    let mut defs: Vec<Vec<u8>> = Vec::new();
    let mut targets: Vec<Vec<Vec<u8>>> = Vec::new();
    let mut owner: Vec<usize> = Vec::new();
    assert(views(names@) =~= Seq::<Seq<u8>>::empty());
    let mut l: usize = 0;
    while l < all.len()
        invariant
            l <= all@.len(),
            rows == views(all@),
            rows == lines(inp.spec_bytes()),
            distinct(views(names@)),
            defs@.len() == l,
            targets@.len() == l,
            owner@.len() == l,
            forall|i: int| 0 <= i < l ==> (#[trigger] owner@[i]) < names@.len(),
            forall|i: int|
                0 <= i < l ==> views(names@)[(#[trigger] owner@[i]) as int] == key_of(rows[i]),
            views(names@) == key_table(rows, l as nat),
            forall|i: int| 0 <= i < l ==> first_arrow(#[trigger] rows[i], 0) < rows[i].len(),
            forall|i: int| 0 <= i < l ==> (#[trigger] defs@[i])@ == def_of(rows[i]),
            forall|i: int|
                0 <= i < l ==> (#[trigger] targets@[i])@.len() == targets_of(rows[i]).len(),
            forall|i: int, c: int|
                0 <= i < l && 0 <= c < targets@[i]@.len() ==> (#[trigger] targets@[i]@[c])@
                    == trim(targets_of(rows[i])[c]),
        decreases all@.len() - l,
    {
        let line = &all[l];
        assert(rows[l as int] == line@);
        let n = line.len();
        let arrow = match find_arrow(line.as_slice()) {
            Some(arrow) => arrow,
            None => {
                assert(!module_line(rows, rows[l as int]));
                return None;
            },
        };
        let left = copy_range(line.as_slice(), 0, arrow);
        let right = copy_range(line.as_slice(), arrow + 2, n);
        let module_def = trim_bytes(left.as_slice());
        let words = split_bytes(right.as_slice(), 44u8);
        assert(views(words@) == targets_of(line@));
        let mut children: Vec<Vec<u8>> = Vec::new();
        let mut w: usize = 0;
        while w < words.len()
            invariant
                w <= words@.len(),
                children@.len() == w,
                views(words@) == targets_of(line@),
                forall|c: int|
                    0 <= c < w ==> (#[trigger] children@[c])@ == trim(targets_of(line@)[c]),
            decreases words@.len() - w,
        {
            assert(views(words@)[w as int] == words@[w as int]@);
            children.push(trim_bytes(words[w].as_slice()));
            w += 1;
        }
        let key = if module_def.len() > 0 && (module_def[0] == 38 || module_def[0] == 37) {
            copy_range(module_def.as_slice(), 1, module_def.len())
        } else {
            copy_range(module_def.as_slice(), 0, module_def.len())
        };
        assert(key@ =~= key_of(line@));
        let ghost old_names = views(names@);
        let ghost old_owner = owner@;
        let at = intern(&mut names, key.as_slice());
        let ghost old_defs = defs@;
        let ghost old_targets = targets@;
        defs.push(module_def);
        targets.push(children);
        owner.push(at);
        proof {
            lemma_noted_distinct(key_table(rows, l as nat), key@);
            assert forall|i: int| 0 <= i < l + 1 implies views(names@)[(
            #[trigger] owner@[i]) as int] == key_of(rows[i]) by {
                if i < l {
                    assert(owner@[i] == old_owner[i]);
                    assert(views(names@)[old_owner[i] as int] == old_names[old_owner[i] as int]);
                }
            }
            assert forall|i: int| 0 <= i < l + 1 implies (#[trigger] defs@[i])@ == def_of(
                rows[i],
            ) by {
                if i < l {
                    assert(defs@[i] == old_defs[i]);
                }
            }
            assert forall|i: int| 0 <= i < l + 1 implies (#[trigger] targets@[i])@.len()
                == targets_of(rows[i]).len() by {
                if i < l {
                    assert(targets@[i] == old_targets[i]);
                } else {
                    assert(views(words@).len() == words@.len());
                }
            }
            assert forall|i: int, c: int|
                0 <= i < l + 1 && 0 <= c < targets@[i]@.len() implies (#[trigger] targets@[i]@[c])@
                == trim(targets_of(rows[i])[c]) by {
                if i < l {
                    assert(targets@[i] == old_targets[i]);
                }
            }
        }
        l += 1;
    }
    proof {
        vstd::string::is_ascii_spec_bytes("rx");
        reveal_strlit("rx");
        assert("rx".spec_bytes() =~= rx_name());
        assert(rows.len() == all@.len());
    }
    let ghost keys = views(names@);
    proof {
        lemma_noted_distinct(keys, rx_name());
    }
    let rx = intern(&mut names, "rx".as_bytes());
    assert(views(names@) == name_table(rows));
    assert forall|i: int| 0 <= i < rows.len() implies views(names@)[(#[trigger] owner@[i]) as int]
        == key_of(rows[i]) by {
        assert(views(names@)[owner@[i] as int] == keys[owner@[i] as int]);
    }
    let count = names.len();
    let mut nodes: Vec<Node> = Vec::new();
    let mut i: usize = 0;
    while i < count
        invariant
            i <= count,
            nodes@.len() == i,
            forall|a: int| 0 <= a < i ==> (#[trigger] nodes@[a]).children@.len() == 0,
            forall|a: int| 0 <= a < i ==> (#[trigger] nodes@[a]).typ is Out,
        decreases count - i,
    {
        nodes.push(Node { typ: ModuleTypeMem::Out, last_pulse: false, children: Vec::new() });
        i += 1;
    }
    let mut l: usize = 0;
    while l < defs.len()
        invariant
            count == names@.len(),
            nodes@.len() == count,
            l <= defs@.len(),
            defs@.len() == targets@.len(),
            defs@.len() == owner@.len(),
            defs@.len() == rows.len(),
            rx < count,
            rows == lines(inp.spec_bytes()),
            views(names@) == name_table(rows),
            forall|i: int| 0 <= i < owner@.len() ==> (#[trigger] owner@[i]) < count,
            forall|a: int, k: int|
                0 <= a < nodes@.len() && 0 <= k < nodes@[a].children@.len() ==> (
                #[trigger] nodes@[a].children@[k]) < count,
            forall|i: int| 0 <= i < rows.len() ==> first_arrow(#[trigger] rows[i], 0) < rows[i].len(),
            forall|i: int| 0 <= i < rows.len() ==> (#[trigger] defs@[i])@ == def_of(rows[i]),
            forall|i: int|
                0 <= i < rows.len() ==> (#[trigger] targets@[i])@.len() == targets_of(
                    rows[i],
                ).len(),
            forall|i: int, c: int|
                0 <= i < rows.len() && 0 <= c < targets@[i]@.len() ==> (
                #[trigger] targets@[i]@[c])@ == trim(targets_of(rows[i])[c]),
            forall|i: int| 0 <= i < l ==> module_line(rows, #[trigger] rows[i]),
            distinct(views(names@)),
            forall|i: int|
                0 <= i < rows.len() ==> views(names@)[(#[trigger] owner@[i]) as int] == key_of(
                    rows[i],
                ),
            forall|i: int|
                0 <= i < l ==> from_line(
                    rows,
                    l as int,
                    views(names@),
                    key_of(rows[i]),
                    nodes@[(#[trigger] owner@[i]) as int],
                ),
            forall|a: int|
                0 <= a < count ==> match (#[trigger] nodes@[a]).typ {
                    ModuleTypeMem::Conjunction(mem) => mem@.len() == 0,
                    _ => true,
                },
        decreases defs@.len() - l,
    {
        let mut children: Vec<usize> = Vec::new();
        let mut c: usize = 0;
        while c < targets[l].len()
            invariant
                l < targets@.len(),
                c <= targets@[l as int]@.len(),
                count == names@.len(),
                forall|k: int| 0 <= k < children@.len() ==> (#[trigger] children@[k]) < count,
                children@.len() == c,
                forall|k: int|
                    0 <= k < c ==> views(names@)[(#[trigger] children@[k]) as int] == trim(
                        targets_of(rows[l as int])[k],
                    ),
                rows == lines(inp.spec_bytes()),
                views(names@) == name_table(rows),
                l < rows.len(),
                targets@[l as int]@.len() == targets_of(rows[l as int]).len(),
                forall|k: int|
                    0 <= k < targets@[l as int]@.len() ==> (#[trigger] targets@[l as int]@[k])@
                        == trim(targets_of(rows[l as int])[k]),
                forall|k: int|
                    0 <= k < c ==> name_table(rows).contains(
                        trim(#[trigger] targets_of(rows[l as int])[k]),
                    ),
            decreases targets@[l as int]@.len() - c,
        {
            assert(targets@[l as int]@[c as int]@ == trim(targets_of(rows[l as int])[c as int]));
            match lookup(&names, targets[l][c].as_slice()) {
                Some(child) => {
                    let ghost kids = children@;
                    children.push(child);
                    assert(views(names@)[child as int] == names@[child as int]@);
                    assert forall|k: int| 0 <= k < c + 1 implies views(names@)[(
                    #[trigger] children@[k]) as int] == trim(targets_of(rows[l as int])[k]) by {
                        if k < c {
                            assert(children@[k] == kids[k]);
                        }
                    }
                },
                None => {
                    assert(!name_table(rows).contains(
                        trim(targets_of(rows[l as int])[c as int]),
                    ));
                    assert(!module_line(rows, rows[l as int]));
                    return None;
                },
            }
            c += 1;
        }
        let node = match Node::new(defs[l].as_slice(), children) {
            Some(node) => node,
            None => {
                assert(!module_line(rows, rows[l as int]));
                return None;
            },
        };
        assert(module_line(rows, rows[l as int]));
        assert(written(rows[l as int], views(names@), node));
        let at = owner[l];
        let ghost before = nodes@;
        nodes.set(at, node);
        assert forall|a: int, k: int|
            0 <= a < nodes@.len() && 0 <= k < nodes@[a].children@.len() implies (
        #[trigger] nodes@[a].children@[k]) < count by {
            if a != at {
                assert(nodes@[a] == before[a]);
            }
        }
        assert forall|i: int| 0 <= i < l + 1 implies from_line(
            rows,
            l + 1,
            views(names@),
            key_of(rows[i]),
            nodes@[(#[trigger] owner@[i]) as int],
        ) by {
            if owner@[i] == at {
                assert(key_of(rows[i]) == key_of(rows[l as int]));
                assert(written(rows[l as int], views(names@), nodes@[at as int]));
            } else {
                assert(nodes@[owner@[i] as int] == before[owner@[i] as int]);
                assert(from_line(rows, l as int, views(names@), key_of(rows[i]), before[owner@[i] as int]));
                let w = choose|w: int|
                    0 <= w < l && w < rows.len() && key_of(rows[w]) == key_of(rows[i])
                        && #[trigger] written(rows[w], views(names@), before[owner@[i] as int]);
                assert(written(rows[w], views(names@), nodes@[owner@[i] as int]));
            }
        }
        assert forall|a: int| 0 <= a < count implies match (#[trigger] nodes@[a]).typ {
            ModuleTypeMem::Conjunction(mem) => mem@.len() == 0,
            _ => true,
        } by {
            if a != at {
                assert(nodes@[a] == before[a]);
            }
        }
        l += 1;
    }
    let ghost before = nodes@;
    nodes.set(rx, Node { typ: ModuleTypeMem::Out, last_pulse: false, children: Vec::new() });
    assert forall|a: int, k: int|
        0 <= a < nodes@.len() && 0 <= k < nodes@[a].children@.len() implies (
    #[trigger] nodes@[a].children@[k]) < count by {
        if a != rx {
            assert(nodes@[a] == before[a]);
        }
    }
    assert forall|a: int| 0 <= a < count implies match (#[trigger] nodes@[a]).typ {
        ModuleTypeMem::Conjunction(mem) => mem@.len() == 0,
        _ => true,
    } by {
        if a != rx {
            assert(nodes@[a] == before[a]);
        }
    }
    let mut graph = HMGraph { names, nodes };
    proof {
        assert forall|p: int| 0 <= p < count implies #[trigger] module_at(rows, graph, p) by {
            let name = graph.names@[p]@;
            assert(views(graph.names@)[p] == name);
            if name != rx_name() {
                assert(views(graph.names@)[rx as int] == rx_name());
                assert(p != rx);
                assert(graph.nodes@[p] == before[p]);
                assert(keys.contains(name)) by {
                    if !keys.contains(rx_name()) {
                        assert(views(graph.names@) == keys.push(rx_name()));
                        assert(p < keys.len());
                    }
                    assert(keys[p] == name);
                }
                lemma_key_from(rows, rows.len(), name);
                let i = choose|i: int| 0 <= i < rows.len() && key_of(#[trigger] rows[i]) == name;
                assert(views(graph.names@)[owner@[i] as int] == name);
                assert(owner@[i] == p);
                assert(from_line(
                    rows,
                    rows.len() as int,
                    views(graph.names@),
                    key_of(rows[i]),
                    before[owner@[i] as int],
                ));
            }
        }
        assert forall|p: int| 0 <= p < count implies #[trigger] remembers(graph, p, 0, 0) by {}
    }
    let mut p: usize = 0;
    while p < count
        invariant
            graph.wf(),
            count == graph.nodes@.len(),
            p <= count,
            views(graph.names@) == name_table(rows),
            forall|a: int| 0 <= a < count ==> #[trigger] module_at(rows, graph, a),
            forall|a: int| 0 <= a < count ==> #[trigger] remembers(graph, a, p as int, 0),
        decreases count - p,
    {
        let n = graph.nodes[p].children.len();
        let mut k: usize = 0;
        while k < n
            invariant
                graph.wf(),
                count == graph.nodes@.len(),
                p < count,
                n == graph.nodes@[p as int].children@.len(),
                k <= n,
                views(graph.names@) == name_table(rows),
                forall|a: int| 0 <= a < count ==> #[trigger] module_at(rows, graph, a),
                forall|a: int| 0 <= a < count ==> #[trigger] remembers(graph, a, p as int, k as int),
            decreases n - k,
        {
            let child = graph.nodes[p].children[k];
            let ghost old_graph = graph;
            register(&mut graph, child, p);
            proof {
                assert forall|q: int, a: int| 0 <= q < count implies feeds(old_graph, q, a)
                    == feeds(graph, q, a) by {
                    assert(graph.nodes@[q].children == old_graph.nodes@[q].children);
                }
                assert forall|a: int| 0 <= a < count implies #[trigger] module_at(
                    rows,
                    graph,
                    a,
                ) by {
                    assert(module_at(rows, old_graph, a));
                    assert(graph.nodes@[a].children == old_graph.nodes@[a].children);
                    if a != child {
                        assert(graph.nodes@[a] == old_graph.nodes@[a]);
                    } else if graph.names@[a]@ != rx_name() {
                        let w = choose|w: int|
                            0 <= w < rows.len() && key_of(rows[w]) == old_graph.names@[a]@
                                && #[trigger] written(
                                rows[w],
                                views(old_graph.names@),
                                old_graph.nodes@[a],
                            );
                        assert(written(rows[w], views(graph.names@), graph.nodes@[a]));
                    }
                }
                assert forall|a: int| 0 <= a < count implies #[trigger] remembers(
                    graph,
                    a,
                    p as int,
                    k + 1,
                ) by {
                    assert(remembers(old_graph, a, p as int, k as int));
                    assert(graph.nodes@[a].children == old_graph.nodes@[a].children);
                    if a != child {
                        assert(graph.nodes@[a] == old_graph.nodes@[a]);
                        match graph.nodes@[a].typ {
                            ModuleTypeMem::Conjunction(mem) => {
                                assert forall|e: int| 0 <= e < mem@.len() implies !(
                                #[trigger] mem@[e]).1 && mem@[e].0 < count && feeds(
                                    graph,
                                    mem@[e].0 as int,
                                    a,
                                ) by {
                                    assert(feeds(old_graph, mem@[e].0 as int, a));
                                }
                            },
                            _ => {},
                        }
                    } else {
                        match old_graph.nodes@[a].typ {
                            ModuleTypeMem::Conjunction(mem) => {
                                let now = graph.nodes@[a].typ->Conjunction_0@;
                                assert(now == noted_input(mem@, p));
                                lemma_input_index(mem@, p, 0);
                                assert(feeds(graph, p as int, a)) by {
                                    assert(graph.nodes@[p as int].children@[k as int] == a);
                                }
                                assert forall|e: int| 0 <= e < now.len() implies !(
                                #[trigger] now[e]).1 && now[e].0 < count && feeds(
                                    graph,
                                    now[e].0 as int,
                                    a,
                                ) by {
                                    if e < mem@.len() && now[e] == mem@[e] {
                                        assert(feeds(old_graph, mem@[e].0 as int, a));
                                    }
                                }
                                assert forall|q: int, c: int|
                                    0 <= q <= p && q < count && 0 <= c
                                        < graph.nodes@[q].children@.len() && (q < p || c < k + 1)
                                        && #[trigger] graph.nodes@[q].children@[c]
                                        == a implies input_index(now, q as usize, 0)
                                    < now.len() by {
                                    lemma_noted_input(mem@, p, q as usize);
                                    if !(q == p && c == k) {
                                        assert(old_graph.nodes@[q].children@[c] == a);
                                    }
                                }
                            },
                            _ => {},
                        }
                    }
                }
            }
            k += 1;
        }
        proof {
            assert forall|a: int| 0 <= a < count implies #[trigger] remembers(
                graph,
                a,
                p + 1,
                0,
            ) by {
                assert(remembers(graph, a, p as int, n as int));
            }
        }
        p += 1;
    }
    Some(graph)
}

/// The inputs with `parent` last seen low: in its place if it is among
/// them, else at the end.
pub open spec fn noted_input(mem: Seq<(usize, bool)>, parent: usize) -> Seq<(usize, bool)> {
    if input_index(mem, parent, 0) < mem.len() {
        mem.update(input_index(mem, parent, 0), (parent, false))
    } else {
        mem.push((parent, false))
    }
}

/// Makes the conjunction `child`, if it is one, remember `parent` as an
/// input that was last low.
fn register(graph: &mut HMGraph, child: usize, parent: usize)
    requires
        old(graph).wf(),
        child < old(graph).nodes@.len(),
    ensures
        final(graph).wf(),
        final(graph).nodes@.len() == old(graph).nodes@.len(),
        forall|i: int|
            0 <= i < final(graph).nodes@.len() ==> (#[trigger] final(graph).nodes@[i]).children
                == old(graph).nodes@[i].children,
        final(graph).names == old(graph).names,
        forall|i: int|
            0 <= i < final(graph).nodes@.len() && i != child ==> (#[trigger] final(graph).nodes@[i])
                == old(graph).nodes@[i],
        final(graph).nodes@[child as int].last_pulse == old(graph).nodes@[child as int].last_pulse,
        match old(graph).nodes@[child as int].typ {
            ModuleTypeMem::Conjunction(mem) => final(graph).nodes@[child as int].typ is Conjunction
                && final(graph).nodes@[child as int].typ->Conjunction_0@ == noted_input(
                mem@,
                parent,
            ),
            other => final(graph).nodes@[child as int].typ == other,
        },
{
    let ghost before = graph.nodes@;
    match &mut graph.nodes[child].typ {
        ModuleTypeMem::Conjunction(mem) => {
            let at = find_input(mem, parent);
            if at < mem.len() {
                mem.set(at, (parent, false));
            } else {
                mem.push((parent, false));
            }
        },
        _ => {},
    }
    assert forall|i: int| 0 <= i < graph.nodes@.len() implies (#[trigger] graph.nodes@[i]).children
        == before[i].children by {
        if i != child {
            assert(graph.nodes@[i] == before[i]);
        }
    }
}

/// What a module remembers, as plain values.
pub enum Memory {
    FlipFlop(bool),
    Conjunction(Seq<(usize, bool)>),
    Broadcast,
    Out,
}

/// What the module remembers.
pub open spec fn memory_of(typ: ModuleTypeMem) -> Memory {
    match typ {
        ModuleTypeMem::FlipFlop(on) => Memory::FlipFlop(on),
        ModuleTypeMem::Conjunction(mem) => Memory::Conjunction(mem@),
        ModuleTypeMem::Broadcast => Memory::Broadcast,
        ModuleTypeMem::Out => Memory::Out,
    }
}

/// A module with this memory can take a pulse from `parent`.
pub open spec fn memory_knows(memory: Memory, parent: usize) -> bool {
    match memory {
        Memory::Conjunction(mem) => input_index(mem, parent, 0) < mem.len(),
        _ => true,
    }
}

/// What a module remembers after a pulse from `parent`, and the pulse
/// that it sends on, if it sends one.
pub open spec fn taken(memory: Memory, pulse: bool, parent: usize) -> (Memory, Option<bool>) {
    match memory {
        Memory::FlipFlop(on) => if pulse {
            (memory, None)
        } else {
            (Memory::FlipFlop(!on), Some(!on))
        },
        Memory::Conjunction(mem) => {
            let after = mem.update(input_index(mem, parent, 0), (parent, pulse));
            (Memory::Conjunction(after), Some(!all_high(after)))
        },
        Memory::Broadcast => (memory, Some(false)),
        Memory::Out => (memory, None),
    }
}

/// The state of the modules while pulses travel: what each remembers and
/// last sent, which watched modules have sent a high pulse, and the
/// numbers of low and high pulses delivered.
pub struct Wires {
    pub memories: Seq<Memory>,
    pub lasts: Seq<bool>,
    pub fired: Seq<bool>,
    pub low: nat,
    pub high: nat,
}

/// The pulse `pulse` from the module `from` to the first `k` of its
/// children.
pub open spec fn sends(children: Seq<usize>, pulse: bool, from: usize, k: nat) -> Seq<
    (usize, bool, usize),
> {
    Seq::new(k, |i: int| (children[i], pulse, from))
}

/// The state after the pulses in `queue` and all that they set off have
/// been delivered, first sent first. Nothing if more than `fuel` pulses
/// are delivered, or a conjunction gets a pulse from a module that is
/// none of its inputs.
pub open spec fn run(
    children: Seq<Seq<usize>>,
    watch: Seq<bool>,
    wires: Wires,
    queue: Seq<(usize, bool, usize)>,
    fuel: nat,
) -> Option<Wires>
    decreases fuel,
{
    if queue.len() == 0 {
        Some(wires)
    } else if fuel == 0 {
        None
    } else {
        let (cur, pulse, parent) = queue[0];
        let rest = queue.skip(1);
        let low = if pulse {
            wires.low
        } else {
            wires.low + 1
        };
        let high = if pulse {
            wires.high + 1
        } else {
            wires.high
        };
        if !memory_knows(wires.memories[cur as int], parent) {
            None
        } else {
            let (memory, sent) = taken(wires.memories[cur as int], pulse, parent);
            let memories = wires.memories.update(cur as int, memory);
            match sent {
                None => run(
                    children,
                    watch,
                    Wires { memories, lasts: wires.lasts, fired: wires.fired, low, high },
                    rest,
                    (fuel - 1) as nat,
                ),
                Some(p) => run(
                    children,
                    watch,
                    Wires {
                        memories,
                        lasts: wires.lasts.update(cur as int, p),
                        fired: if watch[cur as int] && p {
                            wires.fired.update(cur as int, true)
                        } else {
                            wires.fired
                        },
                        low,
                        high,
                    },
                    rest + sends(children[cur as int], p, cur, children[cur as int].len()),
                    (fuel - 1) as nat,
                ),
            }
        }
    }
}

/// The state of the modules of the graph.
pub open spec fn wires_of(g: HMGraph, fired: Seq<bool>, low: nat, high: nat) -> Wires {
    Wires {
        memories: Seq::new(g.nodes@.len(), |i: int| memory_of(g.nodes@[i].typ)),
        lasts: Seq::new(g.nodes@.len(), |i: int| g.nodes@[i].last_pulse),
        fired,
        low,
        high,
    }
}

/// For each module the places of the modules that it sends to.
pub open spec fn children_of(g: HMGraph) -> Seq<Seq<usize>> {
    Seq::new(g.nodes@.len(), |i: int| g.nodes@[i].children@)
}

/// The state after one press of the button: a low pulse to the module
/// `start` and all that it sets off.
pub open spec fn pressed(g: HMGraph, start: usize, watch: Seq<bool>, fired: Seq<bool>) -> Option<
    Wires,
> {
    run(
        children_of(g),
        watch,
        wires_of(g, fired, 0, 0),
        seq![(start, false, g.nodes@.len() as usize)],
        MAX_PULSES as nat,
    )
}

/// One press of the button: a low pulse goes to the broadcaster, and
/// every pulse sent is delivered in the order of sending. Returns the
/// numbers of low and of high pulses delivered, or `None` if there are
/// more than `MAX_PULSES` of them, or a conjunction gets a pulse from a
/// module that is none of its inputs. The modules whose place is marked
/// in `watch` and who send a high pulse are marked in `fired`.
pub fn press(g: &mut HMGraph, start: usize, watch: &Vec<bool>, fired: &mut Vec<bool>) -> (r: Option<
    (usize, usize),
>)
    requires
        old(g).wf(),
        start < old(g).nodes@.len(),
        watch@.len() == old(g).nodes@.len(),
        old(fired)@.len() == old(g).nodes@.len(),
    ensures
        final(g).wf(),
        final(g).nodes@.len() == old(g).nodes@.len(),
        final(fired)@.len() == old(fired)@.len(),
        r matches Some((low, high)) ==> low + high <= MAX_PULSES,
        final(g).names == old(g).names,
        children_of(*final(g)) == children_of(*old(g)),
        match r {
            Some((low, high)) => pressed(*old(g), start, watch@, old(fired)@) == Some(
                wires_of(*final(g), final(fired)@, low as nat, high as nat),
            ),
            None => pressed(*old(g), start, watch@, old(fired)@) is None,
        },
{
    let count = g.nodes.len();
    let ghost children = children_of(*g);
    let ghost goal = pressed(*g, start, watch@, fired@);
    let mut low_pulses: usize = 0;
    let mut high_pulses: usize = 0;
    let mut queue: VecDeque<(usize, bool, usize)> = VecDeque::new();
    queue.push_back((start, false, count));
    assert(queue@[0] == (start, false, count));
    assert(queue@ =~= seq![(start, false, count)]);
    let mut delivered: usize = 0;
    while queue.len() > 0 && delivered < MAX_PULSES
        invariant
            g.wf(),
            count == g.nodes@.len(),
            count == old(g).nodes@.len(),
            watch@.len() == count,
            fired@.len() == count,
            old(fired)@.len() == count,
            delivered <= MAX_PULSES,
            low_pulses + high_pulses == delivered,
            forall|i: int| 0 <= i < queue@.len() ==> (#[trigger] queue@[i]).0 < count,
            g.names == old(g).names,
            children == children_of(*old(g)),
            children == children_of(*g),
            goal == pressed(*old(g), start, watch@, old(fired)@),
            goal == run(
                children,
                watch@,
                wires_of(*g, fired@, low_pulses as nat, high_pulses as nat),
                queue@,
                (MAX_PULSES - delivered) as nat,
            ),
        decreases MAX_PULSES - delivered,
    {
        let ghost old_queue = queue@;
        let ghost model = wires_of(*g, fired@, low_pulses as nat, high_pulses as nat);
        let (cur, pulse, parent) = match queue.pop_front() {
            Some(item) => item,
            None => (start, false, count),
        };
        assert(old_queue[0] == (cur, pulse, parent));
        assert(queue@ =~= old_queue.skip(1));
        assert forall|i: int| 0 <= i < queue@.len() implies (#[trigger] queue@[i]).0 < count by {
            assert(queue@[i] == old_queue[i + 1]);
        }
        delivered += 1;
        if pulse {
            high_pulses += 1;
        } else {
            low_pulses += 1;
        }
        assert(model.memories[cur as int] == memory_of(g.nodes@[cur as int].typ));
        if !g.nodes[cur].typ.has_input(parent) {
            return None;
        }
        let ghost before = g.nodes@;
        let sent = g.nodes[cur].typ.handle_pulse(pulse, parent);
        assert forall|i: int, k: int|
            0 <= i < g.nodes@.len() && 0 <= k < g.nodes@[i].children@.len() implies (
        #[trigger] g.nodes@[i].children@[k]) < g.nodes@.len() by {
            assert(g.nodes@[i].children == before[i].children);
        }
        proof {
            assert forall|i: int| 0 <= i < count && i != cur implies g.nodes@[i] == before[i] by {}
            assert(g.nodes@[cur as int].children == before[cur as int].children);
            assert(g.nodes@[cur as int].last_pulse == before[cur as int].last_pulse);
            assert(children_of(*g) =~= children);
            assert((memory_of(g.nodes@[cur as int].typ), sent) == taken(
                model.memories[cur as int],
                pulse,
                parent,
            ));
            let now = wires_of(*g, fired@, low_pulses as nat, high_pulses as nat);
            assert(now.memories =~= model.memories.update(
                cur as int,
                taken(model.memories[cur as int], pulse, parent).0,
            )) by {
                assert forall|i: int| 0 <= i < count implies now.memories[i]
                    == model.memories.update(
                    cur as int,
                    taken(model.memories[cur as int], pulse, parent).0,
                )[i] by {
                    if i != cur {
                        assert(g.nodes@[i] == before[i]);
                    }
                }
            }
            assert(now.lasts =~= model.lasts) by {
                assert forall|i: int| 0 <= i < count implies now.lasts[i] == model.lasts[i] by {
                    if i != cur {
                        assert(g.nodes@[i] == before[i]);
                    }
                }
            }
        }
        let pulse_to_send = match sent {
            None => {
                continue ;
            },
            Some(pulse_to_send) => pulse_to_send,
        };
        let ghost noted = wires_of(*g, fired@, low_pulses as nat, high_pulses as nat);
        let ghost before = g.nodes@;
        g.nodes[cur].last_pulse = pulse_to_send;
        assert forall|i: int, k: int|
            0 <= i < g.nodes@.len() && 0 <= k < g.nodes@[i].children@.len() implies (
        #[trigger] g.nodes@[i].children@[k]) < g.nodes@.len() by {
            assert(g.nodes@[i].children == before[i].children);
        }
        if watch[cur] && pulse_to_send {
            fired.set(cur, true);
        }
        proof {
            assert forall|i: int| 0 <= i < count && i != cur implies g.nodes@[i] == before[i] by {}
            assert(g.nodes@[cur as int].children == before[cur as int].children);
            assert(g.nodes@[cur as int].typ == before[cur as int].typ);
            assert(children_of(*g) =~= children);
            let now = wires_of(*g, fired@, low_pulses as nat, high_pulses as nat);
            assert(now.memories =~= noted.memories) by {
                assert forall|i: int| 0 <= i < count implies now.memories[i]
                    == noted.memories[i] by {
                    if i != cur {
                        assert(g.nodes@[i] == before[i]);
                    }
                }
            }
            assert(now.lasts =~= noted.lasts.update(cur as int, pulse_to_send)) by {
                assert forall|i: int| 0 <= i < count implies now.lasts[i] == noted.lasts.update(
                    cur as int,
                    pulse_to_send,
                )[i] by {
                    if i != cur {
                        assert(g.nodes@[i] == before[i]);
                    }
                }
            }
        }
        let ghost rest = queue@;
        let n = g.nodes[cur].children.len();
        let mut k: usize = 0;
        assert(queue@ =~= rest + sends(children[cur as int], pulse_to_send, cur, 0));
        while k < n
            invariant
                g.wf(),
                count == g.nodes@.len(),
                cur < count,
                n == g.nodes@[cur as int].children@.len(),
                k <= n,
                forall|i: int| 0 <= i < queue@.len() ==> (#[trigger] queue@[i]).0 < count,
                children == children_of(*g),
                queue@ == rest + sends(children[cur as int], pulse_to_send, cur, k as nat),
            decreases n - k,
        {
            let child = g.nodes[cur].children[k];
            let ghost before_queue = queue@;
            queue.push_back((child, pulse_to_send, cur));
            assert forall|i: int| 0 <= i < queue@.len() implies (#[trigger] queue@[i]).0
                < count by {
                if i < before_queue.len() {
                    assert(queue@[i] == before_queue[i]);
                }
            }
            assert(queue@ =~= rest + sends(
                children[cur as int],
                pulse_to_send,
                cur,
                (k + 1) as nat,
            ));
            k += 1;
        }
    }
    if queue.len() > 0 {
        None
    } else {
        Some((low_pulses, high_pulses))
    }
}

/// Marks in a table the place of every module.
fn no_marks(count: usize) -> (r: Vec<bool>)
    ensures
        r@.len() == count,
        forall|i: int| 0 <= i < count ==> !r@[i],
{
    let mut r: Vec<bool> = Vec::new();
    let mut i: usize = 0;
    while i < count
        invariant
            i <= count,
            r@.len() == i,
            forall|k: int| 0 <= k < i ==> !r@[k],
        decreases count - i,
    {
        r.push(false);
        i += 1;
    }
    r
}

/// The graph holds the modules of the rows by their names, and `start`
/// is the place of the broadcaster.
pub open spec fn begins(rows: Seq<Seq<u8>>, g: HMGraph, start: usize) -> bool {
    &&& reads_modules(rows, g)
    &&& start < g.nodes@.len()
    &&& g.names@[start as int]@ == broadcaster()
}

/// The state after `k` presses of the button, with the numbers of low and
/// of high pulses of all presses added up.
pub open spec fn press_many(
    children: Seq<Seq<usize>>,
    start: usize,
    watch: Seq<bool>,
    wires: Wires,
    k: nat,
) -> Option<Wires>
    decreases k,
{
    if k == 0 {
        Some(wires)
    } else {
        match press_many(children, start, watch, wires, (k - 1) as nat) {
            None => None,
            Some(w) => match run(
                children,
                watch,
                Wires { memories: w.memories, lasts: w.lasts, fired: w.fired, low: 0, high: 0 },
                seq![(start, false, children.len() as usize)],
                MAX_PULSES as nat,
            ) {
                None => None,
                Some(after) => Some(
                    Wires {
                        memories: after.memories,
                        lasts: after.lasts,
                        fired: after.fired,
                        low: w.low + after.low,
                        high: w.high + after.high,
                    },
                ),
            },
        }
    }
}

/// A failed press stays a failure however often the button is pressed
/// after it.
pub proof fn lemma_press_fails(
    children: Seq<Seq<usize>>,
    start: usize,
    watch: Seq<bool>,
    wires: Wires,
    j: nat,
    k: nat,
)
    requires
        j <= k,
        press_many(children, start, watch, wires, j) is None,
    ensures
        press_many(children, start, watch, wires, k) is None,
    decreases k,
{
    if j < k {
        lemma_press_fails(children, start, watch, wires, j, (k - 1) as nat);
    }
}

/// The outcome of a thousand presses of the button on the modules of the
/// rows, none of them watched: the number of low pulses times the number
/// of high pulses, or nothing where a press fails or the product does not
/// fit the machine word.
pub open spec fn pulsed(rows: Seq<Seq<u8>>, outcome: Option<usize>) -> bool {
    exists|g: HMGraph, start: usize| #[trigger]
        begins(rows, g, start) && {
            let end = press_many(
                children_of(g),
                start,
                Seq::new(g.nodes@.len(), |i: int| false),
                wires_of(g, Seq::new(g.nodes@.len(), |i: int| false), 0, 0),
                1000,
            );
            match outcome {
                Some(v) => end is Some && v == end->0.high * end->0.low,
                None => end is None || end->0.high * end->0.low > usize::MAX,
            }
        }
}

/// The number of low pulses times the number of high pulses that a
/// thousand presses of the button deliver.
pub fn get_solution_1(input: &str) -> (r: Option<usize>)
    ensures
        match r {
            Some(v) => pulsed(lines(input.spec_bytes()), Some(v)),
            None => !modules_ok(lines(input.spec_bytes())) || !name_table(
                lines(input.spec_bytes()),
            ).contains(broadcaster()) || pulsed(lines(input.spec_bytes()), None),
        },
{
    let mut g = match parse_input(input) {
        Some(g) => g,
        None => {
            return None;
        },
    };
    let ghost rows = lines(input.spec_bytes());
    proof {
        vstd::string::is_ascii_spec_bytes("broadcaster");
        reveal_strlit("broadcaster");
        assert("broadcaster".spec_bytes() =~= broadcaster());
    }
    let start = match lookup(&g.names, "broadcaster".as_bytes()) {
        Some(start) => start,
        None => {
            return None;
        },
    };
    let count = g.nodes.len();
    if start >= count {
        return None;
    }
    let watch = no_marks(count);
    let mut fired = no_marks(count);
    let ghost first = g;
    let ghost blank = Seq::new(count as nat, |i: int| false);
    assert(watch@ =~= blank);
    assert(fired@ =~= blank);
    assert(begins(rows, first, start));
    let ghost children = children_of(g);
    let ghost begin = wires_of(g, blank, 0, 0);
    let mut low_pulses: usize = 0;
    let mut high_pulses: usize = 0;
    let mut i: usize = 0;
    while i < 1000
        invariant
            g.wf(),
            count == g.nodes@.len(),
            count == first.nodes@.len(),
            start < count,
            watch@.len() == count,
            fired@.len() == count,
            i <= 1000,
            low_pulses <= i * MAX_PULSES,
            high_pulses <= i * MAX_PULSES,
            rows == lines(input.spec_bytes()),
            begins(rows, first, start),
            blank == Seq::new(count as nat, |i: int| false),
            watch@ == blank,
            children == children_of(first),
            children == children_of(g),
            begin == wires_of(first, blank, 0, 0),
            press_many(children, start, blank, begin, i as nat) == Some(
                wires_of(g, fired@, low_pulses as nat, high_pulses as nat),
            ),
        decreases 1000 - i,
    {
        let ghost w = wires_of(g, fired@, low_pulses as nat, high_pulses as nat);
        assert(wires_of(g, fired@, 0, 0) == (Wires {
            memories: w.memories,
            lasts: w.lasts,
            fired: w.fired,
            low: 0,
            high: 0,
        }));
        assert(children.len() == count);
        match press(&mut g, start, &watch, &mut fired) {
            Some((low, high)) => {
                low_pulses += low;
                high_pulses += high;
            },
            None => {
                proof {
                    assert(press_many(children, start, blank, begin, (i + 1) as nat) is None);
                    lemma_press_fails(children, start, blank, begin, (i + 1) as nat, 1000);
                    assert(pulsed(rows, None));
                }
                return None;
            },
        }
        i += 1;
    }
    let r = high_pulses.checked_mul(low_pulses);
    proof {
        let end = press_many(children, start, blank, begin, 1000);
        assert(end->0.high == high_pulses && end->0.low == low_pulses);
        assert(pulsed(rows, r));
    }
    r
}

/// The names of the four modules that are watched: `br`, `lf`, `rz` and
/// `fk`.
pub open spec fn watched_names() -> Seq<Seq<u8>> {
    seq![seq![98u8, 114u8], seq![108u8, 102u8], seq![114u8, 122u8], seq![102u8, 107u8]]
}

/// The graph holds the modules of the rows, `start` is the place of the
/// broadcaster, and `places` are the places of the four watched modules.
pub open spec fn watches(rows: Seq<Seq<u8>>, g: HMGraph, start: usize, places: Seq<usize>) -> bool {
    &&& begins(rows, g, start)
    &&& places.len() == 4
    &&& forall|k: int|
        0 <= k < 4 ==> (#[trigger] places[k]) < g.nodes@.len() && g.names@[places[k] as int]@
            == watched_names()[k]
}

/// For each of `count` modules whether its place is among `places`.
pub open spec fn marks_of(places: Seq<usize>, count: nat) -> Seq<bool> {
    Seq::new(count, |i: int| exists|k: int| 0 <= k < places.len() && #[trigger] places[k] == i)
}

/// The state after `k` presses of the button, each begun with no module
/// marked as having sent a high pulse.
pub open spec fn after_presses(
    children: Seq<Seq<usize>>,
    start: usize,
    watch: Seq<bool>,
    wires: Wires,
    k: nat,
) -> Option<Wires>
    decreases k,
{
    if k == 0 {
        Some(wires)
    } else {
        match after_presses(children, start, watch, wires, (k - 1) as nat) {
            None => None,
            Some(w) => run(
                children,
                watch,
                Wires {
                    memories: w.memories,
                    lasts: w.lasts,
                    fired: Seq::new(children.len(), |i: int| false),
                    low: 0,
                    high: 0,
                },
                seq![(start, false, children.len() as usize)],
                MAX_PULSES as nat,
            ),
        }
    }
}

/// The module at `place` sends a high pulse during press `k`.
pub open spec fn fires(
    children: Seq<Seq<usize>>,
    start: usize,
    watch: Seq<bool>,
    wires: Wires,
    place: usize,
    k: nat,
) -> bool {
    match after_presses(children, start, watch, wires, k) {
        Some(w) => w.fired[place as int],
        None => false,
    }
}

/// What is known of the module at `place` before press `i`: the press
/// noted in `entry` is the first during which it sent a high pulse, or it
/// has sent none yet.
pub open spec fn tracks(
    children: Seq<Seq<usize>>,
    start: usize,
    watch: Seq<bool>,
    wires: Wires,
    place: usize,
    entry: Option<usize>,
    i: nat,
) -> bool {
    match entry {
        Some(v) => 1 <= v < i && fires(children, start, watch, wires, place, v as nat)
            && forall|j: nat|
            1 <= j < v ==> !#[trigger] fires(children, start, watch, wires, place, j),
        None => forall|j: nat|
            1 <= j < i ==> !#[trigger] fires(children, start, watch, wires, place, j),
    }
}

/// `firsts` holds for each of the four modules the press during which it
/// first sent a high pulse, none of them after press `i`.
pub open spec fn all_first(
    children: Seq<Seq<usize>>,
    start: usize,
    watch: Seq<bool>,
    wires: Wires,
    places: Seq<usize>,
    firsts: Seq<Option<usize>>,
    i: nat,
) -> bool {
    &&& firsts.len() == 4
    &&& forall|k: int|
        0 <= k < 4 ==> (#[trigger] firsts[k]) is Some && tracks(
            children,
            start,
            watch,
            wires,
            places[k],
            firsts[k],
            i,
        )
}

/// The product of the first `k` numbers that are there.
pub open spec fn product_of(firsts: Seq<Option<usize>>, k: nat) -> nat
    decreases k,
{
    if k == 0 {
        1
    } else {
        match firsts[k - 1] {
            Some(v) => product_of(firsts, (k - 1) as nat) * (v as nat),
            None => product_of(firsts, (k - 1) as nat),
        }
    }
}

/// The number, if there is one, is at least one.
pub open spec fn at_least_one(entry: Option<usize>) -> bool {
    match entry {
        Some(v) => v >= 1,
        None => true,
    }
}

/// A product of numbers that are at least one grows with their number.
pub proof fn lemma_product_grows(firsts: Seq<Option<usize>>, a: nat, b: nat)
    requires
        a <= b <= firsts.len(),
        forall|k: int| 0 <= k < firsts.len() ==> at_least_one(#[trigger] firsts[k]),
    ensures
        1 <= product_of(firsts, a) <= product_of(firsts, b),
    decreases b - a, a,
{
    if a < b {
        lemma_product_grows(firsts, a, (b - 1) as nat);
        let p = product_of(firsts, (b - 1) as nat);
        assert(at_least_one(firsts[b - 1]));
        match firsts[b - 1] {
            Some(v) => {
                assert(p * v >= p) by (nonlinear_arith)
                    requires
                        p >= 1,
                        v >= 1,
                ;
            },
            None => {},
        }
    } else if a > 0 {
        lemma_product_grows(firsts, (a - 1) as nat, (a - 1) as nat);
        let p = product_of(firsts, (a - 1) as nat);
        assert(at_least_one(firsts[a - 1]));
        match firsts[a - 1] {
            Some(v) => {
                assert(p * v >= 1) by (nonlinear_arith)
                    requires
                        p >= 1,
                        v >= 1,
                ;
            },
            None => {},
        }
    }
}

/// The watched modules do not all send a high pulse in time: a press
/// fails, or one of them sends none during `MAX_PRESSES` presses.
pub open spec fn stalls(
    children: Seq<Seq<usize>>,
    start: usize,
    watch: Seq<bool>,
    wires: Wires,
    places: Seq<usize>,
) -> bool {
    (exists|n: nat|
        1 <= n <= MAX_PRESSES && (#[trigger] after_presses(children, start, watch, wires, n))
            is None) || exists|k: int|
        0 <= k < 4 && #[trigger] tracks(
            children,
            start,
            watch,
            wires,
            places[k],
            None,
            (MAX_PRESSES + 1) as nat,
        )
}

/// The outcome of pressing the button until the four watched modules of
/// the rows have each sent a high pulse: the product of the numbers of
/// the presses during which each first did, or nothing where they do not
/// all do so in time or the product does not fit the machine word.
pub open spec fn sprung(rows: Seq<Seq<u8>>, outcome: Option<usize>) -> bool {
    exists|g: HMGraph, start: usize, places: Seq<usize>| #[trigger]
        watches(rows, g, start, places) && {
            let children = children_of(g);
            let watch = marks_of(places, g.nodes@.len());
            let wires = wires_of(g, Seq::new(g.nodes@.len(), |i: int| false), 0, 0);
            match outcome {
                Some(v) => exists|firsts: Seq<Option<usize>>| #[trigger]
                    all_first(
                        children,
                        start,
                        watch,
                        wires,
                        places,
                        firsts,
                        (MAX_PRESSES + 1) as nat,
                    ) && v == product_of(firsts, 4),
                None => stalls(children, start, watch, wires, places) || exists|
                    firsts: Seq<Option<usize>>,
                | #[trigger]
                    all_first(
                        children,
                        start,
                        watch,
                        wires,
                        places,
                        firsts,
                        (MAX_PRESSES + 1) as nat,
                    ) && product_of(firsts, 4) > usize::MAX,
            }
        }
}

/// One of the names of the broadcaster and the four watched modules is no
/// module of the rows.
pub open spec fn unwatched(rows: Seq<Seq<u8>>) -> bool {
    !name_table(rows).contains(broadcaster()) || exists|k: int|
        0 <= k < 4 && !name_table(rows).contains(#[trigger] watched_names()[k])
}

/// The number of presses after which the four modules `br`, `lf`, `rz`
/// and `fk` have each sent a high pulse for the first time, multiplied
/// with each other.
pub fn get_solution_2(input: &str) -> (r: Option<usize>)
    ensures
        match r {
            Some(v) => sprung(lines(input.spec_bytes()), Some(v)),
            None => !modules_ok(lines(input.spec_bytes())) || unwatched(
                lines(input.spec_bytes()),
            ) || sprung(lines(input.spec_bytes()), None),
        },
{
    let mut g = match parse_input(input) {
        Some(g) => g,
        None => {
            return None;
        },
    };
    let ghost rows = lines(input.spec_bytes());
    proof {
        vstd::string::is_ascii_spec_bytes("broadcaster");
        reveal_strlit("broadcaster");
        assert("broadcaster".spec_bytes() =~= broadcaster());
    }
    let start = match lookup(&g.names, "broadcaster".as_bytes()) {
        Some(start) => start,
        None => {
            return None;
        },
    };
    let count = g.nodes.len();
    if start >= count {
        return None;
    }
    let mut watch = no_marks(count);
    let mut watched: Vec<usize> = Vec::new();
    let mut w: usize = 0;
    while w < 4
        invariant
            w <= 4,
            watch@.len() == count,
            watched@.len() == w,
            count == g.nodes@.len(),
            g.wf(),
            rows == lines(input.spec_bytes()),
            views(g.names@) == name_table(rows),
            forall|k: int| 0 <= k < watched@.len() ==> (#[trigger] watched@[k]) < count,
            forall|k: int|
                0 <= k < w ==> g.names@[(#[trigger] watched@[k]) as int]@ == watched_names()[k],
            forall|i: int|
                0 <= i < count ==> (#[trigger] watch@[i] <==> exists|k: int|
                    0 <= k < w && #[trigger] watched@[k] == i),
        decreases 4 - w,
    {
        proof {
            vstd::string::is_ascii_spec_bytes("br");
            vstd::string::is_ascii_spec_bytes("lf");
            vstd::string::is_ascii_spec_bytes("rz");
            vstd::string::is_ascii_spec_bytes("fk");
            reveal_strlit("br");
            reveal_strlit("lf");
            reveal_strlit("rz");
            reveal_strlit("fk");
            assert("br".spec_bytes() =~= watched_names()[0]);
            assert("lf".spec_bytes() =~= watched_names()[1]);
            assert("rz".spec_bytes() =~= watched_names()[2]);
            assert("fk".spec_bytes() =~= watched_names()[3]);
        }
        let name = if w == 0 {
            "br"
        } else if w == 1 {
            "lf"
        } else if w == 2 {
            "rz"
        } else {
            "fk"
        };
        assert(name.spec_bytes() == watched_names()[w as int]);
        match lookup(&g.names, name.as_bytes()) {
            Some(at) => {
                if at >= count {
                    return None;
                }
                let ghost old_watch = watch@;
                let ghost old_watched = watched@;
                watch.set(at, true);
                watched.push(at);
                assert forall|i: int| 0 <= i < count implies (#[trigger] watch@[i] <==> exists|
                    k: int,
                |
                    0 <= k < w + 1 && #[trigger] watched@[k] == i) by {
                    if i == at {
                        assert(watched@[w as int] == i);
                    } else {
                        assert(watch@[i] == old_watch[i]);
                        if old_watch[i] {
                            let k = choose|k: int| 0 <= k < w && #[trigger] old_watched[k] == i;
                            assert(watched@[k] == i);
                        }
                        if exists|k: int| 0 <= k < w + 1 && #[trigger] watched@[k] == i {
                            let k = choose|k: int| 0 <= k < w + 1 && #[trigger] watched@[k] == i;
                            assert(k < w);
                            assert(old_watched[k] == i);
                        }
                    }
                }
                assert forall|k: int| 0 <= k < w + 1 implies g.names@[(
                #[trigger] watched@[k]) as int]@ == watched_names()[k] by {
                    if k < w {
                        assert(watched@[k] == old_watched[k]);
                    }
                }
            },
            None => {
                assert(!name_table(rows).contains(watched_names()[w as int]));
                return None;
            },
        }
        w += 1;
    }
    let ghost places = watched@;
    let ghost first_g = g;
    let ghost blank = Seq::new(count as nat, |i: int| false);
    let ghost children = children_of(g);
    let ghost marks = marks_of(places, count as nat);
    let ghost begin = wires_of(g, blank, 0, 0);
    assert(watch@ =~= marks);
    assert(watches(rows, first_g, start, places));
    let mut first: Vec<Option<usize>> = Vec::new();
    let mut k: usize = 0;
    while k < watched.len()
        invariant
            k <= watched@.len(),
            first@.len() == k,
            forall|j: int| 0 <= j < k ==> (#[trigger] first@[j]) is None,
        decreases watched@.len() - k,
    {
        first.push(None);
        k += 1;
    }
    let ghost mut state = begin;
    assert(first@[0] is None);
    let mut i: usize = 1;
    while i <= MAX_PRESSES
        invariant
            g.wf(),
            count == g.nodes@.len(),
            count == first_g.nodes@.len(),
            start < count,
            watch@.len() == count,
            first@.len() == watched@.len(),
            watched@.len() == 4,
            places == watched@,
            forall|k: int| 0 <= k < watched@.len() ==> (#[trigger] watched@[k]) < count,
            1 <= i <= MAX_PRESSES + 1,
            rows == lines(input.spec_bytes()),
            watches(rows, first_g, start, places),
            blank == Seq::new(count as nat, |i: int| false),
            children == children_of(first_g),
            children == children_of(g),
            marks == marks_of(places, count as nat),
            watch@ == marks,
            begin == wires_of(first_g, blank, 0, 0),
            after_presses(children, start, marks, begin, (i - 1) as nat) == Some(state),
            state.memories == wires_of(g, blank, 0, 0).memories,
            state.lasts == wires_of(g, blank, 0, 0).lasts,
            forall|k: int|
                0 <= k < 4 ==> tracks(
                    children,
                    start,
                    marks,
                    begin,
                    places[k],
                    #[trigger] first@[k],
                    i as nat,
                ),
            exists|j: int| 0 <= j < 4 && (#[trigger] first@[j]) is None,
        decreases MAX_PRESSES + 1 - i,
    {
        let mut fired = no_marks(count);
        assert(fired@ =~= blank);
        assert(children.len() == count);
        match press(&mut g, start, &watch, &mut fired) {
            Some(_) => {},
            None => {
                proof {
                    assert(after_presses(children, start, marks, begin, i as nat) is None);
                    assert(stalls(children, start, marks, begin, places));
                    assert(sprung(rows, None));
                }
                return None;
            },
        }
        proof {
            state = after_presses(children, start, marks, begin, i as nat)->0;
            assert(state.fired == fired@);
        }
        let mut all = true;
        let mut k: usize = 0;
        while k < watched.len()
            invariant
                k <= watched@.len(),
                first@.len() == watched@.len(),
                watched@.len() == 4,
                places == watched@,
                fired@.len() == count,
                1 <= i <= MAX_PRESSES,
                forall|j: int| 0 <= j < watched@.len() ==> (#[trigger] watched@[j]) < count,
                after_presses(children, start, marks, begin, i as nat) == Some(state),
                state.fired == fired@,
                all ==> forall|j: int| 0 <= j < k ==> (#[trigger] first@[j]) is Some,
                !all ==> exists|j: int| 0 <= j < k && (#[trigger] first@[j]) is None,
                forall|j: int|
                    0 <= j < k ==> tracks(
                        children,
                        start,
                        marks,
                        begin,
                        places[j],
                        #[trigger] first@[j],
                        (i + 1) as nat,
                    ),
                forall|j: int|
                    k <= j < 4 ==> tracks(
                        children,
                        start,
                        marks,
                        begin,
                        places[j],
                        #[trigger] first@[j],
                        i as nat,
                    ),
            decreases watched@.len() - k,
        {
            let ghost before = first@;
            let ghost was = all;
            assert(tracks(children, start, marks, begin, places[k as int], before[k as int], i as nat));
            assert(fires(children, start, marks, begin, places[k as int], i as nat)
                == fired@[watched@[k as int] as int]);
            if first[k].is_none() && fired[watched[k]] {
                first.set(k, Some(i));
            }
            if first[k].is_none() {
                all = false;
            }
            proof {
                assert(tracks(
                    children,
                    start,
                    marks,
                    begin,
                    places[k as int],
                    first@[k as int],
                    (i + 1) as nat,
                ));
                assert forall|j: int| 0 <= j < k implies tracks(
                    children,
                    start,
                    marks,
                    begin,
                    places[j],
                    #[trigger] first@[j],
                    (i + 1) as nat,
                ) by {
                    assert(first@[j] == before[j]);
                }
                assert forall|j: int| k + 1 <= j < 4 implies tracks(
                    children,
                    start,
                    marks,
                    begin,
                    places[j],
                    #[trigger] first@[j],
                    i as nat,
                ) by {
                    assert(first@[j] == before[j]);
                }
                if all {
                    assert forall|j: int| 0 <= j < k + 1 implies (#[trigger] first@[j]) is Some by {
                        if j < k {
                            assert(first@[j] == before[j]);
                        }
                    }
                } else if first@[k as int] is None {
                    assert(0 <= k < k + 1 && first@[k as int] is None);
                } else {
                    assert(!was);
                    let j = choose|j: int| 0 <= j < k && (#[trigger] before[j]) is None;
                    assert(first@[j] == before[j]);
                    assert(0 <= j < k + 1 && first@[j] is None);
                }
            }
            k += 1;
        }
        if all {
            proof {
                assert forall|j: int| 0 <= j < 4 implies (#[trigger] first@[j]) is Some && tracks(
                    children,
                    start,
                    marks,
                    begin,
                    places[j],
                    first@[j],
                    (MAX_PRESSES + 1) as nat,
                ) by {
                    assert(tracks(
                        children,
                        start,
                        marks,
                        begin,
                        places[j],
                        first@[j],
                        (i + 1) as nat,
                    ));
                }
                assert(all_first(
                    children,
                    start,
                    marks,
                    begin,
                    places,
                    first@,
                    (MAX_PRESSES + 1) as nat,
                ));
            }
            let mut product: usize = 1;
            let mut k: usize = 0;
            while k < first.len()
                invariant
                    k <= first@.len(),
                    first@.len() == 4,
                    product == product_of(first@, k as nat),
                    rows == lines(input.spec_bytes()),
                    watches(rows, first_g, start, places),
                    children == children_of(first_g),
                    marks == marks_of(places, first_g.nodes@.len()),
                    begin == wires_of(
                        first_g,
                        Seq::new(first_g.nodes@.len(), |i: int| false),
                        0,
                        0,
                    ),
                    all_first(
                        children,
                        start,
                        marks,
                        begin,
                        places,
                        first@,
                        (MAX_PRESSES + 1) as nat,
                    ),
                decreases first@.len() - k,
            {
                match first[k] {
                    Some(v) => {
                        product = match product.checked_mul(v) {
                            Some(product) => product,
                            None => {
                                proof {
                                    assert forall|j: int| 0 <= j < first@.len() implies at_least_one(
                                        #[trigger] first@[j],
                                    ) by {
                                        assert(tracks(
                                            children,
                                            start,
                                            marks,
                                            begin,
                                            places[j],
                                            first@[j],
                                            (MAX_PRESSES + 1) as nat,
                                        ));
                                    }
                                    lemma_product_grows(first@, (k + 1) as nat, 4);
                                    assert(product_of(first@, 4) > usize::MAX);
                                    assert(sprung(rows, None));
                                }
                                return None;
                            },
                        };
                    },
                    None => {},
                }
                k += 1;
            }
            assert(sprung(rows, Some(product)));
            return Some(product);
        }
        proof {
            assert(exists|j: int| 0 <= j < 4 && (#[trigger] first@[j]) is None);
        }
        i += 1;
    }
    proof {
        let j = choose|j: int| 0 <= j < 4 && (#[trigger] first@[j]) is None;
        assert(tracks(children, start, marks, begin, places[j], first@[j], i as nat));
        assert(tracks(children, start, marks, begin, places[j], None, (MAX_PRESSES + 1) as nat));
        assert(stalls(children, start, marks, begin, places));
        assert(sprung(rows, None));
    }
    None
}

} // verus!
