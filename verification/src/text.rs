//! Text as sequences of Unicode code points: decoding from UTF-8 and
//! splitting into words.

use vstd::prelude::*;
use vstd::slice::{slice_subrange, slice_to_vec};
use vstd::utf8::*;

verus! {

/// The code points that a valid UTF-8 byte sequence encodes, in order.
pub open spec fn code_points(bytes: Seq<u8>) -> Seq<u32>
    recommends
        valid_utf8(bytes),
{
    decode_utf8(bytes).map_values(|c: char| c as u32)
}

/// The code point that a well-formed first scalar decodes to is a scalar value.
pub proof fn lemma_first_scalar_in_range(bytes: Seq<u8>)
    requires
        valid_first_scalar(bytes),
    ensures
        is_scalar(decode_first_scalar(bytes)),
        1 <= length_of_first_scalar(bytes) <= bytes.len(),
{
    let b0: u8 = bytes[0];
    if is_leading_byte_width_2(b0) {
        let b1: u8 = bytes[1];
        assert((((b0 & 0x1f) as u32) << 6) | ((b1 & 0x3f) as u32) <= 0x7ff) by (bit_vector);
    } else if is_leading_byte_width_3(b0) {
        let b1: u8 = bytes[1];
        let b2: u8 = bytes[2];
        assert((((b0 & 0x0f) as u32) << 12) | (((b1 & 0x3f) as u32) << 6) | ((b2 & 0x3f) as u32)
            <= 0xffff) by (bit_vector);
    }
}

/// Decoding proceeds scalar by scalar from the front.
pub proof fn lemma_code_points_unfold(bytes: Seq<u8>)
    requires
        bytes.len() > 0,
        valid_first_scalar(bytes),
    ensures
        valid_utf8(bytes) == valid_utf8(pop_first_scalar(bytes)),
        valid_utf8(bytes) ==> code_points(bytes) == seq![decode_first_scalar(bytes)] + code_points(
            pop_first_scalar(bytes),
        ),
{
    lemma_first_scalar_in_range(bytes);
}

/// One more ASCII byte at the end of a byte sequence adds its own code
/// point to the text, and changes nothing in whether the bytes are text.
pub proof fn lemma_code_points_push_ascii(bytes: Seq<u8>, b: u8)
    requires
        b <= 0x7f,
    ensures
        valid_utf8(bytes.push(b)) == valid_utf8(bytes),
        valid_utf8(bytes) ==> code_points(bytes.push(b)) == code_points(bytes).push(b as u32),
    decreases bytes.len(),
{
    let more = bytes.push(b);
    if bytes.len() == 0 {
        assert((b & 0x7f) as u32 == b as u32) by (bit_vector)
            requires
                b <= 0x7f,
        ;
        assert(more[0] == b);
        assert(valid_first_scalar(more));
        assert(pop_first_scalar(more) =~= Seq::<u8>::empty());
        lemma_code_points_unfold(more);
        assert(code_points(Seq::<u8>::empty()) =~= Seq::<u32>::empty());
        assert(code_points(more) =~= code_points(bytes).push(b as u32));
    } else {
        assert(forall|i: int| 0 <= i < bytes.len() ==> more[i] == bytes[i]);
        assert(more[bytes.len() as int] == b);
        assert(valid_first_scalar(more) == valid_first_scalar(bytes));
        if valid_first_scalar(bytes) {
            lemma_first_scalar_in_range(bytes);
            let rest = pop_first_scalar(bytes);
            assert(pop_first_scalar(more) =~= rest.push(b));
            lemma_code_points_push_ascii(rest, b);
            lemma_code_points_unfold(bytes);
            lemma_code_points_unfold(more);
            if valid_utf8(bytes) {
                assert(code_points(more) =~= code_points(bytes).push(b as u32));
            }
        }
    }
}

/// Whether `b` can follow a leading byte inside one encoded scalar.
fn is_continuation(b: u8) -> (r: bool)
    ensures
        r == is_continuation_byte(b),
{
    0x80 <= b && b <= 0xbf
}

/// Decodes the scalar that starts at `at`, if a well-formed one starts there.
/// Returns the code point and the number of bytes it takes.
fn decode_scalar_at(bytes: &[u8], at: usize) -> (r: Option<(u32, usize)>)
    requires
        at < bytes.len(),
    ensures
        match r {
            Some((cp, width)) => {
                &&& valid_first_scalar(bytes@.skip(at as int))
                &&& cp == decode_first_scalar(bytes@.skip(at as int))
                &&& width == length_of_first_scalar(bytes@.skip(at as int))
                &&& at + width <= bytes.len()
            },
            None => !valid_first_scalar(bytes@.skip(at as int)),
        },
{
    let n: usize = bytes.len();
    let b0: u8 = bytes[at];
    if b0 <= 0x7f {
        let cp: u32 = (b0 & 0x7f) as u32;
        Some((cp, 1))
    } else if 0xc0 <= b0 && b0 <= 0xdf {
        if n - at < 2 {
            return None;
        }
        let b1: u8 = bytes[at + 1];
        if !is_continuation(b1) {
            return None;
        }
        let cp: u32 = (((b0 & 0x1f) as u32) << 6) | ((b1 & 0x3f) as u32);
        assert(cp <= 0x7ff) by (bit_vector)
            requires
                cp == (((b0 & 0x1f) as u32) << 6) | ((b1 & 0x3f) as u32),
        ;
        if cp < 0x80 {
            return None;
        }
        Some((cp, 2))
    } else if 0xe0 <= b0 && b0 <= 0xef {
        if n - at < 3 {
            return None;
        }
        let b1: u8 = bytes[at + 1];
        let b2: u8 = bytes[at + 2];
        if !is_continuation(b1) || !is_continuation(b2) {
            return None;
        }
        let cp: u32 = (((b0 & 0x0f) as u32) << 12) | (((b1 & 0x3f) as u32) << 6)
            | ((b2 & 0x3f) as u32);
        if cp < 0x800 || (0xd800 <= cp && cp <= 0xdfff) {
            return None;
        }
        Some((cp, 3))
    } else if 0xf0 <= b0 && b0 <= 0xf7 {
        if n - at < 4 {
            return None;
        }
        let b1: u8 = bytes[at + 1];
        let b2: u8 = bytes[at + 2];
        let b3: u8 = bytes[at + 3];
        if !is_continuation(b1) || !is_continuation(b2) || !is_continuation(b3) {
            return None;
        }
        let cp: u32 = (((b0 & 0x07) as u32) << 18) | (((b1 & 0x3f) as u32) << 12)
            | (((b2 & 0x3f) as u32) << 6) | ((b3 & 0x3f) as u32);
        if cp < 0x10000 || cp > 0x10ffff {
            return None;
        }
        Some((cp, 4))
    } else {
        None
    }
}

/// Decodes a byte sequence as UTF-8 text.
///
/// Returns the code points it encodes, or `None` when the bytes are not
/// valid UTF-8.
pub fn decode(bytes: &[u8]) -> (r: Option<Vec<u32>>)
    ensures
        r is Some <==> valid_utf8(bytes@),
        r matches Some(text) ==> text@ == code_points(bytes@),
{
    let n: usize = bytes.len();
    let mut text: Vec<u32> = Vec::new();
    let mut at: usize = 0;
    assert(bytes@.skip(0) =~= bytes@);
    while at < n
        invariant
            n == bytes.len(),
            at <= n,
            valid_utf8(bytes@) == valid_utf8(bytes@.skip(at as int)),
            valid_utf8(bytes@) ==> code_points(bytes@) == text@ + code_points(
                bytes@.skip(at as int),
            ),
        decreases n - at,
    {
        let ghost rest = bytes@.skip(at as int);
        match decode_scalar_at(bytes, at) {
            None => {
                return None;
            },
            Some((cp, width)) => {
                proof {
                    lemma_code_points_unfold(rest);
                    assert(pop_first_scalar(rest) =~= bytes@.skip(at + width));
                    assert(text@ + (seq![cp] + code_points(pop_first_scalar(rest))) =~= text@.push(
                        cp,
                    ) + code_points(pop_first_scalar(rest)));
                }
                text.push(cp);
                at = at + width;
            },
        }
    }
    Some(text)
}

/// Whether a code point is white space, as Unicode classes it
/// (`White_Space`).
pub open spec fn is_space(cp: u32) -> bool {
    ||| 0x09 <= cp <= 0x0d
    ||| cp == 0x20
    ||| cp == 0x85
    ||| cp == 0xa0
    ||| cp == 0x1680
    ||| 0x2000 <= cp <= 0x200a
    ||| cp == 0x2028
    ||| cp == 0x2029
    ||| cp == 0x202f
    ||| cp == 0x205f
    ||| cp == 0x3000
}

/// Tells whether a code point is white space.
pub fn is_whitespace(cp: u32) -> (r: bool)
    ensures
        r == is_space(cp),
{
    (0x09 <= cp && cp <= 0x0d)
        || cp == 0x20
        || cp == 0x85
        || cp == 0xa0
        || cp == 0x1680
        || (0x2000 <= cp && cp <= 0x200a)
        || cp == 0x2028
        || cp == 0x2029
        || cp == 0x202f
        || cp == 0x205f
        || cp == 0x3000
}

/// The number of code points that stand before the first white space of
/// `text`; its length if it holds none.
pub open spec fn first_word_len(text: Seq<u32>) -> nat
    decreases text.len(),
{
    if text.len() == 0 || is_space(text[0]) {
        0
    } else {
        1 + first_word_len(text.drop_first())
    }
}

/// The words of `text`: its maximal runs of code points that are not white
/// space, in order.
pub open spec fn words(text: Seq<u32>) -> Seq<Seq<u32>>
    decreases text.len(),
{
    if text.len() == 0 {
        Seq::empty()
    } else if is_space(text[0]) {
        words(text.drop_first())
    } else {
        let n = first_word_len(text);
        if n < text.len() {
            seq![text.take(n as int)] + words(text.skip(n as int + 1))
        } else {
            seq![text]
        }
    }
}

/// The first word of a text ends inside the text.
pub proof fn lemma_first_word_len(text: Seq<u32>)
    ensures
        first_word_len(text) <= text.len(),
    decreases text.len(),
{
    if text.len() > 0 && !is_space(text[0]) {
        lemma_first_word_len(text.drop_first());
    }
}

/// White space at the end of a text does not change where its first word
/// ends.
pub proof fn lemma_first_word_len_push(text: Seq<u32>, cp: u32)
    requires
        is_space(cp),
    ensures
        first_word_len(text.push(cp)) == first_word_len(text),
    decreases text.len(),
{
    if text.len() > 0 && !is_space(text[0]) {
        assert(text.push(cp).drop_first() =~= text.drop_first().push(cp));
        lemma_first_word_len_push(text.drop_first(), cp);
    }
}

/// White space at the end of a text does not change its words.
pub proof fn lemma_words_push_space(text: Seq<u32>, cp: u32)
    requires
        is_space(cp),
    ensures
        words(text.push(cp)) == words(text),
    decreases text.len(),
{
    let more = text.push(cp);
    if text.len() == 0 {
        assert(more.drop_first() =~= Seq::<u32>::empty());
        assert(words(more) == words(more.drop_first()));
    } else if is_space(text[0]) {
        assert(more.drop_first() =~= text.drop_first().push(cp));
        lemma_words_push_space(text.drop_first(), cp);
    } else {
        let n: int = first_word_len(text) as int;
        lemma_first_word_len(text);
        lemma_first_word_len_push(text, cp);
        assert(more.take(n) =~= text.take(n));
        if n < text.len() {
            assert(more.skip(n + 1) =~= text.skip(n + 1).push(cp));
            lemma_words_push_space(text.skip(n + 1), cp);
        } else {
            assert(more.skip(n + 1) =~= Seq::<u32>::empty());
            assert(text.take(n) =~= text);
            assert(words(Seq::<u32>::empty()) =~= Seq::<Seq<u32>>::empty());
            assert(words(more) =~= seq![text]);
        }
    }
}

/// The words that a list of vectors holds, each as a sequence.
pub open spec fn word_views(list: Seq<Vec<u32>>) -> Seq<Seq<u32>> {
    Seq::new(list.len(), |i: int| list[i]@)
}

/// Splits `text` at white space and returns its words.
pub fn split_words(text: &[u32]) -> (list: Vec<Vec<u32>>)
    ensures
        word_views(list@) == words(text@),
{
    let n: usize = text.len();
    let mut list: Vec<Vec<u32>> = Vec::new();
    let mut at: usize = 0;
    assert(text@.skip(0) =~= text@);
    while at < n
        invariant
            n == text.len(),
            at <= n,
            word_views(list@) + words(text@.skip(at as int)) == words(text@),
        decreases n - at,
    {
        let ghost rest = text@.skip(at as int);
        if is_whitespace(text[at]) {
            assert(rest.drop_first() =~= text@.skip(at + 1));
            at = at + 1;
        } else {
            let start: usize = at;
            let mut end: usize = at + 1;
            assert(rest.drop_first() =~= text@.skip(end as int));
            while end < n && !is_whitespace(text[end])
                invariant
                    n == text.len(),
                    start < end <= n,
                    first_word_len(text@.skip(start as int)) == (end - start) + first_word_len(
                        text@.skip(end as int),
                    ),
                decreases n - end,
            {
                assert(text@.skip(end as int).drop_first() =~= text@.skip(end + 1));
                end = end + 1;
            }
            let word = slice_to_vec(slice_subrange(text, start, end));
            let next: usize = if end < n {
                end + 1
            } else {
                end
            };
            proof {
                if end < n {
                    assert(rest.take(end - start) =~= word@);
                    assert(rest.skip(end - start + 1) =~= text@.skip(end + 1));
                }
                assert(word_views(list@.push(word)) + words(text@.skip(next as int))
                    =~= word_views(list@) + words(rest));
            }
            list.push(word);
            at = next;
        }
    }
    list
}

} // verus!
