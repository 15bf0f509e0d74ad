//! Cutting an input into lines.

use vstd::prelude::*;

verus! {

/// The byte that ends a line.
pub const LINE_FEED: u8 = 0x0a;

/// The byte that may stand before a line feed as part of the line ending.
pub const CARRIAGE_RETURN: u8 = 0x0d;

/// The number of bytes that stand before the first line feed of `input`;
/// its length if it holds none.
pub open spec fn first_line_len(input: Seq<u8>) -> nat
    decreases input.len(),
{
    if input.len() == 0 || input[0] == LINE_FEED {
        0
    } else {
        1 + first_line_len(input.drop_first())
    }
}

/// What stands before a line feed, without the carriage return that may
/// end it.
pub open spec fn chomp(raw: Seq<u8>) -> Seq<u8> {
    if raw.len() > 0 && raw.last() == CARRIAGE_RETURN {
        raw.drop_last()
    } else {
        raw
    }
}

/// The lines of `input`. A line ends at a line feed; one carriage return
/// just before the line feed belongs to the line ending and not to the
/// line. What follows the last line feed is a line too unless it is empty,
/// and is taken as it stands.
pub open spec fn lines(input: Seq<u8>) -> Seq<Seq<u8>>
    decreases input.len(),
{
    if input.len() == 0 {
        Seq::empty()
    } else {
        let n = first_line_len(input);
        if n < input.len() {
            seq![chomp(input.take(n as int))] + lines(input.skip(n as int + 1))
        } else {
            seq![input]
        }
    }
}

/// No line feed stands before the end of the first line, and one stands at
/// its end unless the input ends there.
pub proof fn lemma_first_line_len(input: Seq<u8>)
    ensures
        first_line_len(input) <= input.len(),
        forall|i: int| 0 <= i < first_line_len(input) ==> input[i] != LINE_FEED,
        first_line_len(input) < input.len() ==> input[first_line_len(input) as int] == LINE_FEED,
    decreases input.len(),
{
    if input.len() != 0 && input[0] != LINE_FEED {
        let rest = input.drop_first();
        lemma_first_line_len(rest);
        assert forall|i: int| 0 <= i < first_line_len(input) implies input[i] != LINE_FEED by {
            if i > 0 {
                assert(rest[i - 1] == input[i]);
            }
        }
    }
}

/// The first line ends at `k` if no line feed stands before `k` and one
/// stands at `k`, or the input ends there.
pub proof fn lemma_first_line_ends_at(input: Seq<u8>, k: int)
    requires
        0 <= k <= input.len(),
        forall|i: int| 0 <= i < k ==> input[i] != LINE_FEED,
        k < input.len() ==> input[k] == LINE_FEED,
    ensures
        first_line_len(input) == k,
    decreases k,
{
    if k > 0 {
        let rest = input.drop_first();
        assert(forall|i: int| 0 <= i < k - 1 ==> rest[i] == input[i + 1]);
        lemma_first_line_ends_at(rest, k - 1);
    }
}

/// The lines of an input that ends with a line feed, followed by the
/// lines of what comes after it, are the lines of the two together.
pub proof fn lemma_lines_concat(a: Seq<u8>, b: Seq<u8>)
    requires
        a.len() == 0 || a.last() == LINE_FEED,
    ensures
        lines(a + b) == lines(a) + lines(b),
    decreases a.len(),
{
    if a.len() > 0 {
        let n: int = first_line_len(a) as int;
        lemma_first_line_len(a);
        lemma_first_line_ends_at(a + b, n);
        let rest = a.skip(n + 1);
        assert((a + b).take(n) =~= a.take(n));
        assert((a + b).skip(n + 1) =~= rest + b);
        lemma_lines_concat(rest, b);
    }
}

/// A text without a line feed, followed by one, is one line.
pub proof fn lemma_lines_single(raw: Seq<u8>)
    requires
        !raw.contains(LINE_FEED),
    ensures
        lines(raw + seq![LINE_FEED]) == seq![chomp(raw)],
{
    let input = raw + seq![LINE_FEED];
    let n: int = raw.len() as int;
    assert(forall|i: int| 0 <= i < n ==> raw.contains(#[trigger] raw[i]));
    lemma_first_line_ends_at(input, n);
    assert(input.take(n) =~= raw);
    assert(input.skip(n + 1) =~= Seq::<u8>::empty());
    assert(lines(Seq::<u8>::empty()) =~= Seq::<Seq<u8>>::empty());
}

/// Finds the line that starts at `from`. Returns where the line ends and
/// where the rest of the input starts, or `None` when no line starts at
/// `from` because the input ends there.
pub fn next_line(input: &[u8], from: usize) -> (r: Option<(usize, usize)>)
    ensures
        r is None <==> from >= input.len(),
        r matches Some((end, next)) ==> {
            let rest = input@.skip(from as int);
            &&& from <= end <= next <= input.len()
            &&& next == if first_line_len(rest) < rest.len() {
                from + first_line_len(rest) + 1
            } else {
                input.len() as int
            }
            &&& input@.subrange(from as int, end as int) == lines(rest)[0]
            &&& lines(input@.skip(next as int)) == lines(rest).drop_first()
        },
{
    let n: usize = input.len();
    if from >= n {
        return None;
    }
    let ghost rest = input@.skip(from as int);
    let mut feed: usize = from;
    while feed < n && input[feed] != LINE_FEED
        invariant
            n == input.len(),
            from <= feed <= n,
            first_line_len(input@.skip(from as int)) == (feed - from) + first_line_len(
                input@.skip(feed as int),
            ),
        decreases n - feed,
    {
        assert(input@.skip(feed as int).drop_first() =~= input@.skip(feed + 1));
        feed = feed + 1;
    }
    if feed == n {
        Some((n, n))
    } else {
        let end: usize = if feed > from && input[feed - 1] == CARRIAGE_RETURN {
            feed - 1
        } else {
            feed
        };
        assert(rest.skip(feed - from + 1) =~= input@.skip(feed + 1));
        Some((end, feed + 1))
    }
}

} // verus!
