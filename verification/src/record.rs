//! The two kinds of line that carry data: the header and the edges.

use crate::error::ReadError;
use crate::number::{number, parse_number};
use crate::text::{split_words, words};
use vstd::prelude::*;

verus! {

/// What the header line declares.
#[derive(Clone, Copy, Debug, PartialEq, Eq, Structural)]
pub struct Header {
    /// The declared number of nodes.
    pub nnodes: u64,
    /// The declared number of edges.
    pub nedges: u64,
}

/// The word `p`, which opens the header line.
pub open spec fn word_p() -> Seq<u32> {
    seq!['p' as u32]
}

/// The word `edge`, which names the format in the header line.
pub open spec fn word_edge() -> Seq<u32> {
    seq!['e' as u32, 'd' as u32, 'g' as u32, 'e' as u32]
}

/// The word `e`, which opens an edge line.
pub open spec fn word_e() -> Seq<u32> {
    seq!['e' as u32]
}

/// What a line reads as when it is taken for the header: exactly the four
/// words `p`, `edge`, the number of nodes and the number of edges. A line
/// of another shape is a format error; one of this shape whose third or
/// fourth word is no number is a parse error.
pub open spec fn header_of(text: Seq<u32>) -> Result<Header, ReadError> {
    let w = words(text);
    if w.len() != 4 || w[0] != word_p() || w[1] != word_edge() {
        Err(ReadError::Format)
    } else {
        match (number(w[2]), number(w[3])) {
            (Some(nnodes), Some(nedges)) => Ok(Header { nnodes, nedges }),
            _ => Err(ReadError::Parse),
        }
    }
}

/// What a line reads as when it is taken for an edge: exactly the three
/// words `e` and the two node identifiers. A line of another shape is a
/// format error; one of this shape whose second or third word is no number
/// is a parse error.
pub open spec fn edge_of(text: Seq<u32>) -> Result<(u64, u64), ReadError> {
    let w = words(text);
    if w.len() != 3 || w[0] != word_e() {
        Err(ReadError::Format)
    } else {
        match (number(w[1]), number(w[2])) {
            (Some(n1), Some(n2)) => Ok((n1, n2)),
            _ => Err(ReadError::Parse),
        }
    }
}

/// Tells whether a word is `p`.
fn is_word_p(word: &[u32]) -> (r: bool)
    ensures
        r == (word@ == word_p()),
{
    let r = word.len() == 1 && word[0] == 0x70;
    assert(r ==> word@ =~= word_p());
    r
}

/// Tells whether a word is `edge`.
fn is_word_edge(word: &[u32]) -> (r: bool)
    ensures
        r == (word@ == word_edge()),
{
    let r = word.len() == 4
        && word[0] == 0x65
        && word[1] == 0x64
        && word[2] == 0x67
        && word[3] == 0x65;
    assert(r ==> word@ =~= word_edge());
    r
}

/// Tells whether a word is `e`.
fn is_word_e(word: &[u32]) -> (r: bool)
    ensures
        r == (word@ == word_e()),
{
    let r = word.len() == 1 && word[0] == 0x65;
    assert(r ==> word@ =~= word_e());
    r
}

/// Reads the text of a line as the header.
pub fn parse_header(text: &[u32]) -> (r: Result<Header, ReadError>)
    ensures
        r == header_of(text@),
{
    let list = split_words(text);
    if list.len() != 4 {
        return Err(ReadError::Format);
    }
    if !is_word_p(list[0].as_slice()) || !is_word_edge(list[1].as_slice()) {
        return Err(ReadError::Format);
    }
    let nnodes = parse_number(list[2].as_slice());
    let nedges = parse_number(list[3].as_slice());
    match (nnodes, nedges) {
        (Some(nnodes), Some(nedges)) => Ok(Header { nnodes, nedges }),
        _ => Err(ReadError::Parse),
    }
}

/// Reads the text of a line as an edge.
pub fn parse_edge(text: &[u32]) -> (r: Result<(u64, u64), ReadError>)
    ensures
        r == edge_of(text@),
{
    let list = split_words(text);
    if list.len() != 3 {
        return Err(ReadError::Format);
    }
    if !is_word_e(list[0].as_slice()) {
        return Err(ReadError::Format);
    }
    let n1 = parse_number(list[1].as_slice());
    let n2 = parse_number(list[2].as_slice());
    match (n1, n2) {
        (Some(n1), Some(n2)) => Ok((n1, n2)),
        _ => Err(ReadError::Parse),
    }
}

} // verus!
