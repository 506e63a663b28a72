//! What it means to encode a value for one way of quoting: the mathematical
//! model that the encoders are proved against.
//!
//! Each style has bytes that would end the value or be misread if written as
//! they are. Such a byte is written as a character reference. A reference ends
//! with `;` only where the byte behind it would otherwise be read as part of it.

use crate::bytes::{
    is_digit, is_whitespace, AMPERSAND, DIGIT_ZERO, DOUBLE_QUOTE, GREATER_THAN, HASH, SEMICOLON,
    SINGLE_QUOTE, UPPER_G, UPPER_T,
};
use vstd::prelude::*;

verus! {

/// The three ways of writing an attribute's value.
#[derive(Clone, Copy, PartialEq, Eq, Structural, Debug)]
pub enum QuoteStyle {
    /// Between two `"`.
    Double,
    /// Between two `'`.
    Single,
    /// Without quotes.
    Unquoted,
}

/// The bytes that cannot stand as they are in a value written in `style`.
pub open spec fn must_escape(style: QuoteStyle, b: u8) -> bool {
    match style {
        QuoteStyle::Double => b == DOUBLE_QUOTE,
        QuoteStyle::Single => b == SINGLE_QUOTE,
        QuoteStyle::Unquoted => is_whitespace(b) || b == GREATER_THAN,
    }
}

/// `n` in decimal, as ASCII digits without leading zeros.
pub open spec fn decimal(n: nat) -> Seq<u8>
    decreases n,
{
    if n < 10 {
        seq![(DIGIT_ZERO + n) as u8]
    } else {
        decimal(n / 10).push((DIGIT_ZERO + n % 10) as u8)
    }
}

/// The character reference written for `b`, without a closing `;`: `&GT` for
/// `>`, and for every other byte the numeric reference `&#` with the byte's
/// code in decimal.
pub open spec fn reference(b: u8) -> Seq<u8> {
    if b == GREATER_THAN {
        seq![AMPERSAND, UPPER_G, UPPER_T]
    } else {
        seq![AMPERSAND, HASH] + decimal(b as nat)
    }
}

/// Whether the reference for `b` must be closed with `;` when `next` follows
/// it. A digit would be read as one more digit of a numeric reference; a `;`
/// would be read as the end of any reference and so be lost.
pub open spec fn needs_terminator(b: u8, next: u8) -> bool {
    if b == GREATER_THAN {
        next == SEMICOLON
    } else {
        is_digit(next) || next == SEMICOLON
    }
}

/// The reference for `b`, closed with `;` where what follows asks for it.
pub open spec fn closed_reference(b: u8, next: Option<u8>) -> Seq<u8> {
    if next is Some && needs_terminator(b, next->Some_0) {
        reference(b).push(SEMICOLON)
    } else {
        reference(b)
    }
}

/// What is written for the byte `b` in `style`, when `next` is the byte behind it.
pub open spec fn escaped_byte(style: QuoteStyle, b: u8, next: Option<u8>) -> Seq<u8> {
    if must_escape(style, b) {
        closed_reference(b, next)
    } else {
        seq![b]
    }
}

/// The byte at index `i` of `v`, if there is one.
pub open spec fn byte_at(v: Seq<u8>, i: int) -> Option<u8> {
    if 0 <= i < v.len() {
        Some(v[i])
    } else {
        None
    }
}

/// `v` encoded for `style`: what is written for each of its bytes, in order.
pub open spec fn escaped(style: QuoteStyle, v: Seq<u8>) -> Seq<u8>
    decreases v.len(),
{
    if v.len() == 0 {
        Seq::empty()
    } else {
        escaped_byte(style, v[0], byte_at(v, 1)) + escaped(style, v.skip(1))
    }
}

/// `decimal` writes at least one byte, and only digits.
pub proof fn lemma_decimal_is_digits(n: nat)
    ensures
        decimal(n).len() >= 1,
        n < 256 ==> decimal(n).len() <= 3,
        forall|i: int| 0 <= i < decimal(n).len() ==> is_digit(#[trigger] decimal(n)[i]),
    decreases n,
{
    if n >= 10 {
        lemma_decimal_is_digits(n / 10);
        if n < 256 {
            reveal_with_fuel(decimal, 3);
        }
    }
}

/// A reference begins with `&` and holds no byte that any style escapes, nor a
/// `;`.
pub proof fn lemma_reference_is_safe(b: u8)
    ensures
        3 <= reference(b).len() <= 5,
        reference(b)[0] == AMPERSAND,
        forall|style: QuoteStyle, i: int|
            0 <= i < reference(b).len() ==> !#[trigger] must_escape(style, reference(b)[i]),
        forall|i: int| 0 <= i < reference(b).len() ==> #[trigger] reference(b)[i] != SEMICOLON,
{
    lemma_decimal_is_digits(b as nat);
}

/// The encoding of an empty value is empty. The encoding of any other value
/// begins with the value's first byte, or with `&` where that byte is escaped.
pub proof fn lemma_escaped_first(style: QuoteStyle, v: Seq<u8>)
    ensures
        v.len() == 0 ==> escaped(style, v).len() == 0,
        v.len() > 0 ==> escaped(style, v).len() > 0 && escaped(style, v)[0] == (if must_escape(
            style,
            v[0],
        ) {
            AMPERSAND
        } else {
            v[0]
        }),
{
    if v.len() > 0 {
        lemma_reference_is_safe(v[0]);
    }
}

/// No byte of an encoding is one that its style escapes.
pub proof fn lemma_escaped_is_safe(style: QuoteStyle, v: Seq<u8>)
    ensures
        forall|i: int|
            0 <= i < escaped(style, v).len() ==> !must_escape(
                style,
                #[trigger] escaped(style, v)[i],
            ),
    decreases v.len(),
{
    if v.len() > 0 {
        lemma_reference_is_safe(v[0]);
        lemma_escaped_is_safe(style, v.skip(1));
        let head = escaped_byte(style, v[0], byte_at(v, 1));
        let tail = escaped(style, v.skip(1));
        assert forall|i: int| 0 <= i < escaped(style, v).len() implies !must_escape(
            style,
            #[trigger] escaped(style, v)[i],
        ) by {
            if i < head.len() {
                assert(escaped(style, v)[i] == head[i]);
                if must_escape(style, v[0]) {
                    if i < reference(v[0]).len() {
                        assert(head[i] == reference(v[0])[i]);
                        assert(!must_escape(style, reference(v[0])[i]));
                    } else {
                        assert(head[i] == SEMICOLON);
                    }
                }
            } else {
                assert(escaped(style, v)[i] == tail[i - head.len()]);
            }
        }
    }
}

/// An encoding is no shorter than the value and at most five times as long.
pub proof fn lemma_escaped_len(style: QuoteStyle, v: Seq<u8>)
    ensures
        v.len() <= escaped(style, v).len() <= 5 * v.len(),
    decreases v.len(),
{
    if v.len() > 0 {
        lemma_decimal_is_digits(v[0] as nat);
        reveal_with_fuel(decimal, 3);
        lemma_escaped_len(style, v.skip(1));
    }
}

/// Bytes that need no escaping are written as they are: where the first `m`
/// bytes of `v` are such, the encoding is those bytes and then the encoding of
/// the rest.
pub proof fn lemma_escaped_keeps_safe_prefix(style: QuoteStyle, v: Seq<u8>, m: int)
    requires
        0 <= m <= v.len(),
        forall|i: int| 0 <= i < m ==> !must_escape(style, #[trigger] v[i]),
    ensures
        escaped(style, v) == v.take(m) + escaped(style, v.skip(m)),
    decreases m,
{
    if m == 0 {
        assert(v.skip(0) =~= v);
        assert(v.take(0) + escaped(style, v) =~= escaped(style, v));
    } else {
        let rest = v.skip(1);
        assert forall|i: int| 0 <= i < m - 1 implies !must_escape(style, #[trigger] rest[i]) by {
            assert(rest[i] == v[i + 1]);
        }
        lemma_escaped_keeps_safe_prefix(style, rest, m - 1);
        assert(rest.skip(m - 1) =~= v.skip(m));
        assert(seq![v[0]] + rest.take(m - 1) =~= v.take(m));
        assert(escaped(style, v) =~= v.take(m) + escaped(style, v.skip(m)));
    }
}

/// A value can be encoded in two parts wherever the second part does not begin
/// with a byte that closes a reference written for the last byte of the first.
pub proof fn lemma_escaped_split(style: QuoteStyle, v: Seq<u8>, at: int)
    requires
        0 <= at <= v.len(),
        0 < at < v.len() ==> !(must_escape(style, v[at - 1]) && needs_terminator(v[at - 1], v[at])),
    ensures
        escaped(style, v) == escaped(style, v.take(at)) + escaped(style, v.skip(at)),
    decreases at,
{
    if at == 0 {
        assert(v.skip(0) =~= v);
        assert(v.take(0) =~= Seq::<u8>::empty());
        assert(escaped(style, v.take(0)) + escaped(style, v) =~= escaped(style, v));
    } else {
        let rest = v.skip(1);
        let head = v.take(at);
        assert(rest.skip(at - 1) =~= v.skip(at));
        assert(rest.take(at - 1) =~= head.skip(1));
        if at - 1 > 0 && at - 1 < rest.len() {
            assert(rest[at - 2] == v[at - 1] && rest[at - 1] == v[at]);
        }
        lemma_escaped_split(style, rest, at - 1);
        assert(head[0] == v[0]);
        if at == 1 {
            assert(byte_at(head, 1) is None);
            if must_escape(style, v[0]) && v.len() > 1 {
                assert(!needs_terminator(v[0], v[1]));
            }
        } else {
            assert(byte_at(head, 1) == byte_at(v, 1));
        }
        assert(escaped_byte(style, head[0], byte_at(head, 1)) == escaped_byte(
            style,
            v[0],
            byte_at(v, 1),
        ));
        assert(escaped(style, v) =~= escaped(style, head) + escaped(style, v.skip(at)));
    }
}

/// Leftmost-longest on the encoders' own tables: where a byte that is escaped
/// stands before one that would be read as part of its reference, the rule for
/// the two bytes is the one applied. The reference is written with its closing
/// `;`, and the second byte follows it unchanged.
pub proof fn lemma_closed_before_follower(style: QuoteStyle, v: Seq<u8>, at: int)
    requires
        0 <= at,
        at + 1 < v.len(),
        must_escape(style, v[at]),
        needs_terminator(v[at], v[at + 1]),
    ensures
        escaped(style, v) == escaped(style, v.take(at)) + reference(v[at]).push(SEMICOLON)
            + seq![v[at + 1]] + escaped(style, v.skip(at + 2)),
{
    lemma_escaped_split(style, v, at);
    let rest = v.skip(at);
    assert(rest[0] == v[at] && rest[1] == v[at + 1]);
    assert(rest.skip(1)[0] == v[at + 1]);
    assert(rest.skip(1).skip(1) =~= v.skip(at + 2));
    assert(escaped(style, rest.skip(1)) == seq![v[at + 1]] + escaped(style, v.skip(at + 2)));
    assert(escaped(style, rest) =~= reference(v[at]).push(SEMICOLON) + seq![v[at + 1]] + escaped(
        style,
        v.skip(at + 2),
    ));
    assert(escaped(style, v) =~= escaped(style, v.take(at)) + reference(v[at]).push(SEMICOLON)
        + seq![v[at + 1]] + escaped(style, v.skip(at + 2)));
}

} // verus!
