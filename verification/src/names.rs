//! A table of names: each distinct name stands once, and its position is
//! the dense index by which the rest of a solver knows it.

use vstd::prelude::*;
use crate::text::{views, same_bytes, copy_range};

verus! {

/// No name stands twice.
pub open spec fn distinct(names: Seq<Seq<u8>>) -> bool {
    forall|i: int, j: int| 0 <= i < j < names.len() ==> names[i] != names[j]
}

/// The table with `name` added at the end, unless it stands in it already.
pub open spec fn noted(names: Seq<Seq<u8>>, name: Seq<u8>) -> Seq<Seq<u8>> {
    if names.contains(name) {
        names
    } else {
        names.push(name)
    }
}

/// The names of `words` in the order of their first occurrence, each once.
pub open spec fn dedup(words: Seq<Seq<u8>>) -> Seq<Seq<u8>>
    decreases words.len(),
{
    if words.len() == 0 {
        words
    } else {
        noted(dedup(words.drop_last()), words.last())
    }
}

/// In a table without repetitions a name is found at one position only.
pub proof fn lemma_index_of_distinct(names: Seq<Seq<u8>>, name: Seq<u8>, i: int)
    requires
        distinct(names),
        0 <= i < names.len(),
        names[i] == name,
    ensures
        names.index_of(name) == i,
        names.contains(name),
{
    let j = names.index_of(name);
    assert(0 <= j < names.len() && names[j] == name);
    if i < j {
        assert(names[i] != names[j]);
    }
    if j < i {
        assert(names[j] != names[i]);
    }
}

/// Adding a name keeps the table free of repetitions, and the names that
/// stood in it keep their positions.
pub proof fn lemma_noted_distinct(names: Seq<Seq<u8>>, name: Seq<u8>)
    requires
        distinct(names),
    ensures
        distinct(noted(names, name)),
        noted(names, name).contains(name),
        names.len() <= noted(names, name).len() <= names.len() + 1,
        forall|i: int| 0 <= i < names.len() ==> noted(names, name)[i] == names[i],
{
    let after = noted(names, name);
    if !names.contains(name) {
        assert(after[names.len() as int] == name);
        assert forall|i: int, j: int| 0 <= i < j < after.len() implies after[i] != after[j] by {
            if j == names.len() {
                assert(names[i] == after[i]);
                if after[i] == name {
                    assert(names.contains(name));
                }
            } else {
                assert(names[i] != names[j]);
            }
        }
    }
}

/// The position of `name` in the table.
pub fn lookup(names: &Vec<Vec<u8>>, name: &[u8]) -> (r: Option<usize>)
    ensures
        match r {
            Some(i) => i < names@.len() && names@[i as int]@ == name@ && forall|j: int|
                0 <= j < i ==> (#[trigger] names@[j])@ != name@,
            None => !views(names@).contains(name@),
        },
        r is Some <==> views(names@).contains(name@),
{
    let mut i: usize = 0;
    while i < names.len()
        invariant
            i <= names@.len(),
            forall|j: int| 0 <= j < i ==> (#[trigger] names@[j])@ != name@,
        decreases names@.len() - i,
    {
        if same_bytes(names[i].as_slice(), name) {
            assert(views(names@)[i as int] == name@);
            return Some(i);
        }
        i += 1;
    }
    assert forall|j: int| 0 <= j < views(names@).len() implies views(names@)[j] != name@ by {
        assert(names@[j]@ != name@);
    }
    None
}

/// The position of `name` in the table, after adding it if it was not
/// there.
pub fn intern(names: &mut Vec<Vec<u8>>, name: &[u8]) -> (id: usize)
    requires
        distinct(views(old(names)@)),
    ensures
        views(final(names)@) == noted(views(old(names)@), name@),
        distinct(views(final(names)@)),
        id < final(names)@.len(),
        id == views(final(names)@).index_of(name@),
        views(final(names)@)[id as int] == name@,
{
    proof {
        lemma_noted_distinct(views(names@), name@);
    }
    let ghost before = views(names@);
    match lookup(names, name) {
        Some(i) => {
            proof {
                lemma_index_of_distinct(before, name@, i as int);
            }
            i
        },
        None => {
            let id = names.len();
            names.push(copy_range(name, 0, name.len()));
            assert(name@.subrange(0, name@.len() as int) =~= name@);
            assert(views(names@) =~= before.push(name@));
            proof {
                lemma_index_of_distinct(views(names@), name@, id as int);
            }
            id
        },
    }
}

/// The words in the order of their first occurrence, each once.
pub fn dedup_words(words: &Vec<Vec<u8>>) -> (r: Vec<Vec<u8>>)
    ensures
        views(r@) == dedup(views(words@)),
        distinct(views(r@)),
{
    let mut out: Vec<Vec<u8>> = Vec::new();
    let mut i: usize = 0;
    assert(views(words@).take(0) =~= Seq::<Seq<u8>>::empty());
    assert(views(out@) =~= Seq::<Seq<u8>>::empty());
    while i < words.len()
        invariant
            i <= words@.len(),
            views(out@) == dedup(views(words@).take(i as int)),
            distinct(views(out@)),
        decreases words@.len() - i,
    {
        assert(views(words@).take(i + 1).drop_last() =~= views(words@).take(i as int));
        assert(views(words@).take(i + 1).last() == words@[i as int]@);
        intern(&mut out, words[i].as_slice());
        i += 1;
    }
    assert(views(words@).take(i as int) =~= views(words@));
    out
}

} // verus!
