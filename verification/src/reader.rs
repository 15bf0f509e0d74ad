//! Reading a whole input: what it means, and the function that does it.

use crate::error::ReadError;
use crate::graph::{add_edge, adjacency, adjacency_of, symmetric, Graph};
use crate::graph::{lemma_adjacency_empty, lemma_adjacency_push, lemma_adjacency_symmetric};
use crate::lines::{lines, next_line};
use crate::record::{edge_of, header_of, parse_edge, parse_header, Header};
use crate::text::{code_points, decode};
use std::collections::HashMap;
use vstd::prelude::*;
use vstd::slice::slice_subrange;
use vstd::std_specs::hash::*;
use vstd::utf8::valid_utf8;

verus! {

/// The byte that marks a line as a comment when the line starts with it.
pub const COMMENT_MARK: u8 = 0x63;

/// What has been read of an input after some of its lines.
pub struct Progress {
    /// The header, once its line has been read.
    pub header: Option<Header>,
    /// The edges read so far, one for each edge line, in the order of the lines.
    pub edges: Seq<(u64, u64)>,
}

/// The state before the first line.
pub open spec fn start() -> Progress {
    Progress { header: None, edges: Seq::empty() }
}

/// Whether a line carries no data: a line of at most one byte, or a
/// comment, which starts with `c`.
pub open spec fn is_ignored(line: Seq<u8>) -> bool {
    line.len() <= 1 || line[0] == COMMENT_MARK
}

/// What one line does to the state. A line that is not valid UTF-8 is a
/// stream error, whatever else it holds. A line that carries no data
/// changes nothing. The first line that carries data is the header; every
/// later one is an edge.
pub open spec fn feed(p: Progress, line: Seq<u8>) -> Result<Progress, ReadError> {
    if !valid_utf8(line) {
        Err(ReadError::Stream)
    } else if is_ignored(line) {
        Ok(p)
    } else if p.header is None {
        match header_of(code_points(line)) {
            Ok(h) => Ok(Progress { header: Some(h), edges: p.edges }),
            Err(e) => Err(e),
        }
    } else {
        match edge_of(code_points(line)) {
            Ok(edge) => Ok(Progress { header: p.header, edges: p.edges.push(edge) }),
            Err(e) => Err(e),
        }
    }
}

/// What a sequence of lines does to the state, from the first line on. The
/// first line that fails ends the reading with its error.
pub open spec fn feed_all(p: Progress, lines: Seq<Seq<u8>>) -> Result<Progress, ReadError>
    decreases lines.len(),
{
    if lines.len() == 0 {
        Ok(p)
    } else {
        match feed(p, lines[0]) {
            Ok(q) => feed_all(q, lines.drop_first()),
            Err(e) => Err(e),
        }
    }
}

/// Whether the number of edge lines agrees with the declared number of
/// edges: a file may declare one edge for each edge line, or list each
/// declared edge on two lines, once in each direction.
pub open spec fn counts_agree(nedges: u64, edge_lines: nat) -> bool {
    nedges == edge_lines || 2 * nedges == edge_lines
}

/// What the state after the last line amounts to. An input without a
/// header line is a format error. Then the number of edge lines must agree
/// with the declared number of edges, and after that the graph must have
/// no more nodes than the header declares.
pub open spec fn conclude(p: Progress) -> Result<Map<u64, Set<u64>>, ReadError> {
    match p.header {
        None => Err(ReadError::Format),
        Some(h) => {
            if !counts_agree(h.nedges, p.edges.len()) {
                Err(ReadError::CountMismatch)
            } else if adjacency(p.edges).dom().len() > h.nnodes {
                Err(ReadError::NodeOverflow)
            } else {
                Ok(adjacency(p.edges))
            }
        },
    }
}

/// What the lines of `input` amount to, read in order from the state
/// before the first line.
pub open spec fn scan(input: Seq<u8>) -> Result<Progress, ReadError> {
    feed_all(start(), lines(input))
}

/// What reading `input` gives: the graph that it describes, or the reason
/// for which it is rejected.
pub open spec fn read_outcome(input: Seq<u8>) -> Result<Map<u64, Set<u64>>, ReadError> {
    match scan(input) {
        Ok(p) => conclude(p),
        Err(e) => Err(e),
    }
}

/// The header of `input`, if its lines can be read and one of them is the
/// header.
pub open spec fn declared(input: Seq<u8>) -> Option<Header> {
    match scan(input) {
        Ok(p) => p.header,
        Err(_) => None,
    }
}

/// Reading some lines and then some more is reading them all in one go.
pub proof fn lemma_feed_all_concat(p: Progress, first: Seq<Seq<u8>>, second: Seq<Seq<u8>>)
    ensures
        feed_all(p, first + second) == match feed_all(p, first) {
            Ok(q) => feed_all(q, second),
            Err(e) => Err(e),
        },
    decreases first.len(),
{
    if first.len() > 0 {
        assert((first + second).drop_first() =~= first.drop_first() + second);
        if let Ok(q) = feed(p, first[0]) {
            lemma_feed_all_concat(q, first.drop_first(), second);
        }
    }
}

/// The mathematical value of what `read_graph` returns.
pub open spec fn outcome_of(result: Result<Graph, ReadError>) -> Result<
    Map<u64, Set<u64>>,
    ReadError,
> {
    match result {
        Ok(g) => Ok(adjacency_of(g)),
        Err(e) => Err(e),
    }
}

/// Reads a graph in the DIMACS edge format.
///
/// Returns the graph that `input` describes, or the reason for which the
/// input is rejected. Nothing is returned of an input that is rejected.
pub fn read_graph(input: &[u8]) -> (result: Result<Graph, ReadError>)
    ensures
        outcome_of(result) == read_outcome(input@),
        result matches Ok(g) ==> symmetric(adjacency_of(g)),
        result matches Ok(g) ==> declared(input@) matches Some(h) && g@.dom().len() <= h.nnodes,
{
    broadcast use group_hash_axioms;

    let mut graph: Graph = HashMap::new();
    let mut header: Option<Header> = None;
    let mut seen: usize = 0;
    let mut at: usize = 0;
    let ghost mut p = start();
    proof {
        assert(input@.skip(0) =~= input@);
        lemma_adjacency_empty();
    }
    loop
        invariant
            at <= input.len(),
            scan(input@) == feed_all(p, lines(input@.skip(at as int))),
            p.header == header,
            adjacency_of(graph) == adjacency(p.edges),
            seen == p.edges.len(),
            seen <= at,
        ensures
            scan(input@) == Ok::<Progress, ReadError>(p),
        decreases input.len() - at,
    {
        let (end, next) = match next_line(input, at) {
            Some(found) => found,
            None => {
                break;
            },
        };
        let line = slice_subrange(input, at, end);
        let text = match decode(line) {
            Some(text) => text,
            None => {
                return Err(ReadError::Stream);
            },
        };
        if line.len() > 1 && line[0] != COMMENT_MARK {
            match header {
                None => {
                    match parse_header(text.as_slice()) {
                        Ok(h) => {
                            header = Some(h);
                            proof {
                                p = Progress { header: Some(h), edges: p.edges };
                            }
                        },
                        Err(e) => {
                            return Err(e);
                        },
                    }
                },
                Some(_) => {
                    match parse_edge(text.as_slice()) {
                        Ok((n1, n2)) => {
                            add_edge(&mut graph, n1, n2);
                            seen = seen + 1;
                            proof {
                                lemma_adjacency_push(p.edges, (n1, n2));
                                p = Progress { header: p.header, edges: p.edges.push((n1, n2)) };
                            }
                        },
                        Err(e) => {
                            return Err(e);
                        },
                    }
                },
            }
        }
        at = next;
    }
    proof {
        lemma_adjacency_symmetric(p.edges);
        assert(adjacency_of(graph).dom() =~= graph@.dom());
    }
    match header {
        None => Err(ReadError::Format),
        Some(h) => {
            if h.nedges != seen as u64 && (seen % 2 != 0 || h.nedges != (seen / 2) as u64) {
                Err(ReadError::CountMismatch)
            } else if graph.len() as u64 > h.nnodes {
                Err(ReadError::NodeOverflow)
            } else {
                Ok(graph)
            }
        },
    }
}

} // verus!
