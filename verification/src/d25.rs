//! Minimum cut by randomized contraction: a graph is read from text, its
//! edges are contracted at random until two groups of vertices are left,
//! and trials repeat until the groups are joined by the wanted number of
//! edges.

use vstd::prelude::*;
use vstd::string::StringSliceAdditionalSpecFns;
use crate::d25::cut::{find_minimal_cut, find_cut_spec};
use crate::d25::parse::{parse_input, parse_spec, ParseError};

pub mod forest;
pub mod connection;
pub mod rng;
pub mod union_find;
pub mod karger;
pub mod cut;
pub mod parse;

verus! {

/// The number of edges that the wanted cut consists of.
pub const CUT_EDGES: usize = 3;

/// Why no answer was found.
#[derive(Debug, PartialEq, Eq)]
pub enum SolveError {
    /// The text is not a graph.
    Parse(ParseError),
    /// No trial ended in a cut of the wanted size.
    CutNotFound,
}

/// What `get_solution_1` returns for the bytes of its input.
pub open spec fn solution_spec(input: Seq<u8>, seeds: Seq<usize>, max_draws: nat) -> Result<
    nat,
    SolveError,
> {
    match parse_spec(input) {
        Err(line) => Err(SolveError::Parse(ParseError::MissingColon(line as usize))),
        Ok(book) => match find_cut_spec(
            book.names.len(),
            book.edges,
            seeds,
            0,
            CUT_EDGES as nat,
            max_draws,
        ) {
            Some(product) => Ok(product),
            None => Err(SolveError::CutNotFound),
        },
    }
}

/// Reads the graph in `input` and looks for a cut of three edges, with one
/// trial for each seed, in order, and at most `max_draws` draws in a trial.
/// Returns the product of the sizes of the two groups that the first
/// accepted trial leaves.
pub fn get_solution_1(input: &str, seeds: &Vec<usize>, max_draws: usize) -> (r: Result<
    u128,
    SolveError,
>)
    ensures
        match r {
            Ok(product) => solution_spec(input.spec_bytes(), seeds@, max_draws as nat) == Ok::<
                nat,
                SolveError,
            >(product as nat),
            Err(e) => solution_spec(input.spec_bytes(), seeds@, max_draws as nat) == Err::<
                nat,
                SolveError,
            >(e),
        },
{
    match parse_input(input) {
        Err(e) => {
            match e {
                ParseError::MissingColon(line) => Err(
                    SolveError::Parse(ParseError::MissingColon(line)),
                ),
            }
        },
        Ok(graph) => match find_minimal_cut(&graph, seeds, CUT_EDGES, max_draws) {
            Some(product) => Ok(product),
            None => Err(SolveError::CutNotFound),
        },
    }
}

} // verus!
