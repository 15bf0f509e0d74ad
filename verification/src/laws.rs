//! What holds of every reading, whatever the input.

use crate::error::ReadError;
use crate::graph::{adjacency, adjacency_of, symmetric, Graph};
use crate::graph::{lemma_adjacency_nodes, lemma_adjacency_symmetric, lemma_same_edges};
use crate::lines::{chomp, lemma_first_line_ends_at, lemma_lines_concat, lemma_lines_single};
use crate::lines::{lines, CARRIAGE_RETURN, LINE_FEED};
use crate::reader::{counts_agree, declared, feed, feed_all, is_ignored, outcome_of};
use crate::reader::{read_outcome, scan, start, COMMENT_MARK};
use crate::reader::{lemma_feed_all_concat, Progress};
use crate::record::edge_of;
use crate::text::{code_points, lemma_code_points_push_ascii, lemma_words_push_space};
use vstd::prelude::*;
use vstd::utf8::valid_utf8;

verus! {

/// Reading is a function of the input. Two readings of the same bytes
/// both fail with the same error, or both give a graph, and the two graphs
/// have the same nodes and, for each node, the same set of neighbours.
pub proof fn lemma_reading_is_deterministic(
    input: Seq<u8>,
    first: Result<Graph, ReadError>,
    second: Result<Graph, ReadError>,
)
    requires
        outcome_of(first) == read_outcome(input),
        outcome_of(second) == read_outcome(input),
    ensures
        match (first, second) {
            (Ok(first_graph), Ok(second_graph)) => {
                &&& first_graph@.dom() == second_graph@.dom()
                &&& forall|a: u64|
                    first_graph@.contains_key(a) ==> first_graph@[a]@ == second_graph@[a]@
            },
            (Err(first_error), Err(second_error)) => first_error == second_error,
            _ => false,
        },
{
    match (first, second) {
        (Ok(first_graph), Ok(second_graph)) => {
            assert(adjacency_of(first_graph) == adjacency_of(second_graph));
            assert(adjacency_of(first_graph).dom() =~= first_graph@.dom());
            assert(adjacency_of(second_graph).dom() =~= second_graph@.dom());
            assert forall|a: u64| first_graph@.contains_key(a) implies first_graph@[a]@
                == second_graph@[a]@ by {
                assert(adjacency_of(first_graph)[a] == first_graph@[a]@);
                assert(adjacency_of(second_graph)[a] == second_graph@[a]@);
            }
        },
        _ => {},
    }
}

/// Every graph that is read is symmetric: whenever `b` is a neighbour of
/// `a`, `b` is a node too and `a` is a neighbour of `b`.
pub proof fn lemma_graph_is_symmetric(input: Seq<u8>)
    ensures
        read_outcome(input) matches Ok(m) ==> symmetric(m),
{
    if let Ok(p) = scan(input) {
        lemma_adjacency_symmetric(p.edges);
    }
}

/// Every graph that is read has finitely many nodes, and no more of them
/// than the header of its input declares.
pub proof fn lemma_graph_within_declared_nodes(input: Seq<u8>)
    ensures
        read_outcome(input) matches Ok(m) ==> {
            &&& declared(input) matches Some(h)
            &&& m.dom().finite()
            &&& m.dom().len() <= h.nnodes
        },
{
    if let Ok(p) = scan(input) {
        lemma_adjacency_nodes(p.edges);
    }
}

/// Every input that is accepted has a header, and the number of its edge
/// lines agrees with the number of edges that the header declares.
pub proof fn lemma_counts_reconciled(input: Seq<u8>)
    ensures
        read_outcome(input) is Ok ==> {
            &&& scan(input) matches Ok(p)
            &&& p.header matches Some(h)
            &&& counts_agree(h.nedges, p.edges.len())
        },
{
}

/// Whether a line is read as an edge once the header has been read.
pub open spec fn is_edge_line(line: Seq<u8>) -> bool {
    valid_utf8(line) && !is_ignored(line) && edge_of(code_points(line)) is Ok
}

/// Whether two states have the same header and hold the same edges, each
/// of them any number of times.
pub open spec fn same_edges(p: Progress, q: Progress) -> bool {
    &&& p.header == q.header
    &&& forall|e: (u64, u64)| p.edges.contains(e) <==> q.edges.contains(e)
}

/// Whether two readings end alike: both with the same error, or both with
/// states that hold the same edges, the second with `extra` more edge
/// lines than the first.
pub open spec fn alike(
    first: Result<Progress, ReadError>,
    second: Result<Progress, ReadError>,
    extra: int,
) -> bool {
    match (first, second) {
        (Ok(p), Ok(q)) => {
            &&& same_edges(p, q)
            &&& adjacency(p.edges) == adjacency(q.edges)
            &&& q.edges.len() == p.edges.len() + extra
        },
        (Err(first_error), Err(second_error)) => first_error == second_error,
        _ => false,
    }
}

/// A list with one more element holds what it held before, and that
/// element.
proof fn lemma_push_contains(edges: Seq<(u64, u64)>, edge: (u64, u64))
    ensures
        forall|e: (u64, u64)| edges.push(edge).contains(e) <==> (edges.contains(e) || e == edge),
{
    let more = edges.push(edge);
    assert forall|e: (u64, u64)| more.contains(e) <==> (edges.contains(e) || e == edge) by {
        if more.contains(e) {
            let i = choose|i: int| 0 <= i < more.len() && more[i] == e;
            if i < edges.len() {
                assert(edges[i] == e);
            }
        }
        if edges.contains(e) {
            let i = choose|i: int| 0 <= i < edges.len() && edges[i] == e;
            assert(more[i] == e);
        }
        if e == edge {
            assert(more[edges.len() as int] == e);
        }
    }
}

/// From two states that hold the same edges, one line leads to the same
/// error or to two states that again hold the same edges, with as many
/// edge lines between them as before.
pub proof fn lemma_feed_same_edges(p: Progress, q: Progress, line: Seq<u8>)
    requires
        same_edges(p, q),
    ensures
        match (feed(p, line), feed(q, line)) {
            (Ok(p_next), Ok(q_next)) => {
                &&& same_edges(p_next, q_next)
                &&& q_next.edges.len() - p_next.edges.len() == q.edges.len() - p.edges.len()
            },
            (Err(first_error), Err(second_error)) => first_error == second_error,
            _ => false,
        },
{
    if valid_utf8(line) && !is_ignored(line) && p.header is Some {
        if let Ok(edge) = edge_of(code_points(line)) {
            let p_next = Progress { header: p.header, edges: p.edges.push(edge) };
            let q_next = Progress { header: q.header, edges: q.edges.push(edge) };
            assert(feed(p, line) == Ok::<Progress, ReadError>(p_next));
            assert(feed(q, line) == Ok::<Progress, ReadError>(q_next));
            lemma_push_contains(p.edges, edge);
            lemma_push_contains(q.edges, edge);
            assert forall|e: (u64, u64)|
                p_next.edges.contains(e) <==> q_next.edges.contains(e) by {
                assert(p.edges.contains(e) <==> q.edges.contains(e));
            }
        }
    }
}

/// From two states that hold the same edges, the same lines lead to the
/// same error or to two states that again hold the same edges.
pub proof fn lemma_feed_all_same_edges(p: Progress, q: Progress, rest: Seq<Seq<u8>>)
    requires
        same_edges(p, q),
    ensures
        alike(feed_all(p, rest), feed_all(q, rest), q.edges.len() - p.edges.len()),
    decreases rest.len(),
{
    if rest.len() == 0 {
        lemma_same_edges(p.edges, q.edges);
    } else {
        lemma_feed_same_edges(p, q, rest[0]);
        match (feed(p, rest[0]), feed(q, rest[0])) {
            (Ok(p_next), Ok(q_next)) => {
                lemma_feed_all_same_edges(p_next, q_next, rest.drop_first());
            },
            _ => {},
        }
    }
}

/// Once the header has been read, it stays as it is, and so does every
/// edge that has been read.
pub proof fn lemma_progress_stays(p: Progress, rest: Seq<Seq<u8>>, edge: (u64, u64))
    requires
        p.header is Some,
        p.edges.contains(edge),
    ensures
        feed_all(p, rest) matches Ok(q) ==> q.header == p.header && q.edges.contains(edge),
    decreases rest.len(),
{
    if rest.len() > 0 {
        if let Ok(p_next) = feed(p, rest[0]) {
            if valid_utf8(rest[0]) && !is_ignored(rest[0]) {
                lemma_push_contains(p.edges, edge_of(code_points(rest[0]))->Ok_0);
            }
            lemma_progress_stays(p_next, rest.drop_first(), edge);
        }
    }
}

/// Reading an input that ends with a line feed, and then what comes after
/// it, is reading the two together.
pub proof fn lemma_scan_concat(a: Seq<u8>, b: Seq<u8>)
    requires
        a.len() == 0 || a.last() == LINE_FEED,
    ensures
        scan(a + b) == match scan(a) {
            Ok(p) => feed_all(p, lines(b)),
            Err(e) => Err(e),
        },
{
    lemma_lines_concat(a, b);
    lemma_feed_all_concat(start(), lines(a), lines(b));
}

/// Reading one line is feeding it, without the carriage return that may
/// end it.
pub proof fn lemma_feed_line(p: Progress, raw: Seq<u8>)
    requires
        !raw.contains(LINE_FEED),
    ensures
        feed_all(p, lines(raw + seq![LINE_FEED])) == feed(p, chomp(raw)),
{
    reveal_with_fuel(feed_all, 2);
    lemma_lines_single(raw);
    let one = lines(raw + seq![LINE_FEED]);
    assert(one[0] == chomp(raw));
    assert(one.drop_first() =~= Seq::<Seq<u8>>::empty());
}

/// An edge line that is given a second time changes nothing in the graph,
/// and counts as one more edge line.
///
/// Take an input in which `line` stands as a line of its own, and a second
/// input that repeats the line somewhere later, again as a line of its
/// own. If the line reads as an edge, then the two inputs are read alike
/// up to the reconciling of the counts: both meet the same error, or both
/// describe the same graph, the second with one more edge line. Where
/// both inputs are accepted, they give the same graph.
pub proof fn lemma_repeated_edge_line(
    before: Seq<u8>,
    line: Seq<u8>,
    between: Seq<u8>,
    after: Seq<u8>,
)
    requires
        before.len() == 0 || before.last() == LINE_FEED,
        between.len() == 0 || between.last() == LINE_FEED,
        !line.contains(LINE_FEED),
        is_edge_line(chomp(line)),
    ensures
        ({
            let text = line + seq![LINE_FEED];
            let once = before + text + between + after;
            let twice = before + text + between + text + after;
            &&& alike(scan(once), scan(twice), 1)
            &&& read_outcome(once) is Ok && read_outcome(twice) is Ok ==> read_outcome(once)
                == read_outcome(twice)
        }),
{
    let text = line + seq![LINE_FEED];
    let head = before + text + between;
    let edge = edge_of(code_points(chomp(line)))->Ok_0;
    assert((before + text).last() == LINE_FEED);
    assert((head + text).last() == LINE_FEED);
    assert(head.len() == 0 || head.last() == LINE_FEED);
    lemma_scan_concat(head, after);
    lemma_scan_concat(head + text, after);
    lemma_scan_concat(head, text);
    if let Ok(p) = scan(head) {
        // Reading the first part has read the header and the line.
        lemma_scan_concat(before + text, between);
        lemma_scan_concat(before, text);
        let p_before = scan(before)->Ok_0;
        lemma_feed_line(p_before, line);
        let p_next = feed(p_before, chomp(line))->Ok_0;
        assert(p_before.header is Some);
        assert(p_next.edges.last() == edge);
        lemma_progress_stays(p_next, lines(between), edge);
        // So reading the line again adds an edge that is there already.
        lemma_feed_line(p, line);
        let q = Progress { header: p.header, edges: p.edges.push(edge) };
        assert(feed(p, chomp(line)) == Ok::<Progress, ReadError>(q));
        lemma_push_contains(p.edges, edge);
        lemma_feed_all_same_edges(p, q, lines(after));
    }
}

/// A comment or an empty line makes no difference, wherever it stands.
///
/// Take an input and put one more line into it where a line starts: at
/// the very beginning, or right after a line feed. If the new line is text
/// and carries no data, then the new input reads as the old one does: the
/// same graph, or the same error.
pub proof fn lemma_ignored_line(before: Seq<u8>, line: Seq<u8>, after: Seq<u8>)
    requires
        before.len() == 0 || before.last() == LINE_FEED,
        !line.contains(LINE_FEED),
        valid_utf8(chomp(line)),
        is_ignored(chomp(line)),
    ensures
        scan(before + (line + seq![LINE_FEED]) + after) == scan(before + after),
        read_outcome(before + (line + seq![LINE_FEED]) + after) == read_outcome(before + after),
{
    let text = line + seq![LINE_FEED];
    assert((before + text).last() == LINE_FEED);
    lemma_scan_concat(before + text, after);
    lemma_scan_concat(before, text);
    lemma_scan_concat(before, after);
    if let Ok(p) = scan(before) {
        lemma_feed_line(p, line);
    }
}

/// A carriage return at the end of a line makes no difference to how the
/// line is read, unless it makes a line of one byte, which carries no
/// data, into one of two bytes.
pub proof fn lemma_feed_trailing_return(p: Progress, line: Seq<u8>)
    requires
        line.len() == 1 ==> line[0] == COMMENT_MARK,
    ensures
        feed(p, line.push(CARRIAGE_RETURN)) == feed(p, line),
{
    let longer = line.push(CARRIAGE_RETURN);
    lemma_code_points_push_ascii(line, CARRIAGE_RETURN);
    if valid_utf8(line) {
        if line.len() > 0 {
            assert(longer[0] == line[0]);
        }
        lemma_words_push_space(code_points(line), CARRIAGE_RETURN as u32);
    }
}

/// A line feed after the last line makes no difference.
///
/// Take an input whose last line no line feed ends, and end that line
/// with a line feed. Then the new input reads as the old one does: the
/// same graph, or the same error. The one exception is a last line of one
/// byte and a carriage return: it is a line of two bytes without the line
/// feed, and a line of one byte, which carries no data, with it.
pub proof fn lemma_final_line_feed(head: Seq<u8>, tail: Seq<u8>)
    requires
        head.len() == 0 || head.last() == LINE_FEED,
        tail.len() > 0,
        !tail.contains(LINE_FEED),
        tail.len() == 2 && tail[1] == CARRIAGE_RETURN ==> tail[0] == COMMENT_MARK,
    ensures
        scan(head + tail + seq![LINE_FEED]) == scan(head + tail),
        read_outcome(head + tail + seq![LINE_FEED]) == read_outcome(head + tail),
{
    reveal_with_fuel(feed_all, 2);
    assert(head + tail + seq![LINE_FEED] =~= head + (tail + seq![LINE_FEED]));
    lemma_scan_concat(head, tail + seq![LINE_FEED]);
    lemma_scan_concat(head, tail);
    assert(forall|i: int| 0 <= i < tail.len() ==> tail.contains(#[trigger] tail[i]));
    lemma_first_line_ends_at(tail, tail.len() as int);
    assert(lines(tail) =~= seq![tail]);
    assert(lines(tail).drop_first() =~= Seq::<Seq<u8>>::empty());
    if let Ok(p) = scan(head) {
        lemma_feed_line(p, tail);
        if tail.last() == CARRIAGE_RETURN {
            assert(tail.drop_last().push(CARRIAGE_RETURN) =~= tail);
            lemma_feed_trailing_return(p, tail.drop_last());
        }
    }
}

} // verus!
