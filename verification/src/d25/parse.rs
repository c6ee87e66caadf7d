//! Building the graph from its text: each line names a vertex, a colon, and
//! the neighbours of that vertex.

use vstd::prelude::*;
use vstd::string::StringSliceAdditionalSpecFns;
use crate::d25::karger::{Graph, edges_in_range};
use crate::names::{distinct, noted, dedup, intern, dedup_words, lemma_noted_distinct, lemma_index_of_distinct};
use crate::text::{views, split, lines, words, trim, split_lines, split_bytes, split_words, trim_bytes};

verus! {

/// Why a text is not a graph.
#[derive(Debug, PartialEq, Eq)]
pub enum ParseError {
    /// The line with this index, counted from zero, has no colon.
    MissingColon(usize),
}

/// What has been read so far: the distinct vertex names in the order in
/// which they first occurred, and the edges between their positions.
pub struct Book {
    pub names: Seq<Seq<u8>>,
    pub edges: Seq<(usize, usize)>,
}

/// The book with an edge from `parent` to each of `children`, in order; a
/// child not seen before gets the next free position.
pub open spec fn add_children(book: Book, parent: Seq<u8>, children: Seq<Seq<u8>>) -> Book
    decreases children.len(),
{
    if children.len() == 0 {
        book
    } else {
        let before = add_children(book, parent, children.drop_last());
        let names = noted(before.names, children.last());
        Book {
            names,
            edges: before.edges.push(
                (names.index_of(parent) as usize, names.index_of(children.last()) as usize),
            ),
        }
    }
}

/// The name before the first colon of `line`, trimmed, and the distinct
/// words between the first colon and the second, if there is a colon.
pub open spec fn line_fields(line: Seq<u8>) -> Option<(Seq<u8>, Seq<Seq<u8>>)> {
    let parts = split(line, 58u8);
    if parts.len() < 2 {
        None
    } else {
        Some((trim(parts[0]), dedup(words(parts[1]))))
    }
}

/// The book after the first `k` lines, or the index of the first of them
/// without a colon.
pub open spec fn read_lines(all: Seq<Seq<u8>>, k: nat) -> Result<Book, nat>
    decreases k,
{
    if k == 0 {
        Ok(Book { names: Seq::empty(), edges: Seq::empty() })
    } else {
        match read_lines(all, (k - 1) as nat) {
            Err(bad) => Err(bad),
            Ok(book) => match line_fields(all[k - 1]) {
                None => Err((k - 1) as nat),
                Some((parent, children)) => Ok(
                    add_children(
                        Book { names: noted(book.names, parent), edges: book.edges },
                        parent,
                        children,
                    ),
                ),
            },
        }
    }
}

/// The book that the text `input` describes.
pub open spec fn parse_spec(input: Seq<u8>) -> Result<Book, nat> {
    read_lines(lines(input), lines(input).len())
}

/// The names of a book are distinct and its edges join their positions.
pub open spec fn book_ok(book: Book) -> bool {
    &&& distinct(book.names)
    &&& edges_in_range(book.edges, book.names.len())
}

/// Once a line without a colon has been met, later lines change nothing.
pub proof fn lemma_read_error_stays(all: Seq<Seq<u8>>, k: nat, m: nat)
    requires
        k <= m,
        read_lines(all, k) is Err,
    ensures
        read_lines(all, m) == read_lines(all, k),
    decreases m,
{
    if k < m {
        lemma_read_error_stays(all, k, (m - 1) as nat);
    }
}

/// Reads a graph. Every name that occurs becomes a vertex, numbered in the
/// order of first occurrence; every neighbour named on a line gives one
/// edge from the vertex of that line, however often the line repeats it. A
/// line without a colon is an error, and the first such line is named.
pub fn parse_input(inp: &str) -> (r: Result<Graph, ParseError>)
    ensures
        match r {
            Ok(graph) => match parse_spec(inp.spec_bytes()) {
                Ok(book) => graph.n_vertices == book.names.len() && graph.edges@ == book.edges
                    && book_ok(book),
                Err(_) => false,
            },
            Err(ParseError::MissingColon(line)) => parse_spec(inp.spec_bytes()) == Err::<Book, nat>(
                line as nat,
            ),
        },
        r is Ok ==> r->Ok_0.wf(),
{
    let all = split_lines(inp.as_bytes());
    let mut names: Vec<Vec<u8>> = Vec::new();
    let mut edges: Vec<(usize, usize)> = Vec::new();
    let mut k: usize = 0;
    assert(views(names@) =~= Seq::<Seq<u8>>::empty());
    while k < all.len()
        invariant
            k <= all@.len(),
            views(all@) == lines(inp.spec_bytes()),
            read_lines(views(all@), k as nat) == Ok::<Book, nat>(
                Book { names: views(names@), edges: edges@ },
            ),
            book_ok(Book { names: views(names@), edges: edges@ }),
        decreases all@.len() - k,
    {
        let parts = split_bytes(all[k].as_slice(), 58u8);
        assert(views(all@)[k as int] == all@[k as int]@);
        if parts.len() < 2 {
            proof {
                lemma_read_error_stays(views(all@), (k + 1) as nat, all@.len());
            }
            return Err(ParseError::MissingColon(k));
        }
        assert(views(parts@)[0] == parts@[0]@);
        assert(views(parts@)[1] == parts@[1]@);
        let parent = trim_bytes(parts[0].as_slice());
        let found = split_words(parts[1].as_slice());
        let children = dedup_words(&found);
        let parent_id = intern(&mut names, parent.as_slice());
        let ghost start = Book { names: views(names@), edges: edges@ };
        let mut c: usize = 0;
        assert(views(children@).take(0) =~= Seq::<Seq<u8>>::empty());
        while c < children.len()
            invariant
                c <= children@.len(),
                parent_id < names@.len(),
                views(names@)[parent_id as int] == parent@,
                book_ok(Book { names: views(names@), edges: edges@ }),
                add_children(start, parent@, views(children@).take(c as int)) == (Book {
                    names: views(names@),
                    edges: edges@,
                }),
            decreases children@.len() - c,
        {
            assert(views(children@).take(c + 1).drop_last() =~= views(children@).take(c as int));
            assert(views(children@).take(c + 1).last() == children@[c as int]@);
            let ghost before = views(names@);
            let child_id = intern(&mut names, children[c].as_slice());
            proof {
                lemma_noted_distinct(before, children@[c as int]@);
                lemma_index_of_distinct(views(names@), parent@, parent_id as int);
            }
            edges.push((parent_id, child_id));
            c += 1;
        }
        assert(views(children@).take(c as int) =~= views(children@));
        k += 1;
    }
    Ok(Graph { n_edges: edges.len(), n_vertices: names.len(), edges })
}

} // verus!
