//! Reading a written value back: a model of the reader that the encoders write
//! for, and the proof that it reads what was encoded.
//!
//! The reader knows the references that this library writes: a decimal
//! reference to an ASCII code point, and `&GT`. A reference needs no closing
//! `;`; a numeric one takes every digit that follows, and either kind takes a
//! `;` that follows. Any other `&` is read as it stands.
//!
//! This is the reader that the encoders are made for, not every reader there
//! is. One that leaves `&GT` unread before a letter, a digit or `=` reads a
//! bare value back only where no `>` in it stands before one of these.

use crate::attr::{form, is_quote};
use crate::bytes::{
    is_digit, AMPERSAND, DIGIT_ZERO, DOUBLE_QUOTE, GREATER_THAN, HASH, SEMICOLON, SINGLE_QUOTE,
    UPPER_G, UPPER_T,
};
use crate::escape::{
    decimal, escaped, lemma_decimal_is_digits, lemma_escaped_first, lemma_escaped_is_safe,
    lemma_escaped_keeps_safe_prefix, lemma_reference_is_safe, must_escape, needs_terminator,
    reference, QuoteStyle,
};
use crate::minify::{shortest_form, shortest_style};
use vstd::prelude::*;

verus! {

/// The number of digits that `s` begins with.
pub open spec fn leading_digits(s: Seq<u8>) -> int
    decreases s.len(),
{
    if s.len() > 0 && is_digit(s[0]) {
        1 + leading_digits(s.skip(1))
    } else {
        0
    }
}

/// The number that the digits `digits` write in decimal.
pub open spec fn decimal_value(digits: Seq<u8>) -> nat
    decreases digits.len(),
{
    if digits.len() == 0 {
        0
    } else {
        10 * decimal_value(digits.drop_last()) + (digits.last() - DIGIT_ZERO) as nat
    }
}

/// 1 where `s` begins with `;`, else 0.
pub open spec fn closing(s: Seq<u8>) -> int {
    if s.len() > 0 && s[0] == SEMICOLON {
        1
    } else {
        0
    }
}

/// The reference that `s` begins with, if it begins with one: the byte that it
/// stands for, and the number of bytes that it takes up.
pub open spec fn leading_reference(s: Seq<u8>) -> Option<(u8, int)> {
    if s.len() >= 3 && s[0] == AMPERSAND && s[1] == HASH && is_digit(s[2]) {
        let digits = leading_digits(s.skip(2));
        let code = decimal_value(s.subrange(2, 2 + digits));
        if 0 < code < 128 {
            Some((code as u8, 2 + digits + closing(s.skip(2 + digits))))
        } else {
            None
        }
    } else if s.len() >= 3 && s[0] == AMPERSAND && s[1] == UPPER_G && s[2] == UPPER_T {
        Some((GREATER_THAN, 3 + closing(s.skip(3))))
    } else {
        None
    }
}

/// No more digits lead a sequence than it has bytes.
pub proof fn lemma_leading_digits_bound(s: Seq<u8>)
    ensures
        0 <= leading_digits(s) <= s.len(),
    decreases s.len(),
{
    if s.len() > 0 && is_digit(s[0]) {
        lemma_leading_digits_bound(s.skip(1));
    }
}

/// A leading reference takes up at least three bytes and no more than there are.
pub proof fn lemma_leading_reference_bound(s: Seq<u8>)
    ensures
        leading_reference(s) matches Some((_, n)) ==> 3 <= n <= s.len(),
{
    if s.len() >= 3 {
        lemma_leading_digits_bound(s.skip(2));
        if is_digit(s[2]) {
            assert(s.skip(2)[0] == s[2]);
        }
    }
}

/// What a reader makes of the bytes `s` of a value: each reference becomes the
/// byte that it stands for, and every other byte is kept.
pub open spec fn decoded(s: Seq<u8>) -> Seq<u8>
    decreases s.len(),
    via decoded_terminates
{
    if s.len() == 0 {
        Seq::empty()
    } else {
        match leading_reference(s) {
            Some((b, n)) => seq![b] + decoded(s.skip(n)),
            None => seq![s[0]] + decoded(s.skip(1)),
        }
    }
}

#[via_fn]
proof fn decoded_terminates(s: Seq<u8>) {
    lemma_leading_reference_bound(s);
}

/// The number of bytes that `s` begins with, up to the first that ends a value
/// written in `style`: the closing quote, or for a bare value whitespace or `>`.
/// These are the bytes that an encoder must escape.
pub open spec fn value_run(style: QuoteStyle, s: Seq<u8>) -> int
    decreases s.len(),
{
    if s.len() == 0 || must_escape(style, s[0]) {
        0
    } else {
        1 + value_run(style, s.skip(1))
    }
}

/// Reads a value between two `quote` bytes at the start of `input`: the value,
/// and what follows the closing quote. `None` where `input` does not begin with
/// `quote`, or no second one follows.
pub open spec fn read_quoted(style: QuoteStyle, quote: u8, input: Seq<u8>) -> Option<
    (Seq<u8>, Seq<u8>),
> {
    if input.len() == 0 || input[0] != quote {
        None
    } else {
        let body = input.skip(1);
        let n = value_run(style, body);
        if n == body.len() {
            None
        } else {
            Some((decoded(body.take(n)), body.skip(n + 1)))
        }
    }
}

/// Reads a value written in `style` at the start of `input`: the value, and
/// what follows it. A bare value ends before the first whitespace or `>`, or
/// with the input; what begins with a quote is no bare value.
pub open spec fn read_value(style: QuoteStyle, input: Seq<u8>) -> Option<(Seq<u8>, Seq<u8>)> {
    match style {
        QuoteStyle::Double => read_quoted(style, DOUBLE_QUOTE, input),
        QuoteStyle::Single => read_quoted(style, SINGLE_QUOTE, input),
        QuoteStyle::Unquoted => {
            if input.len() > 0 && is_quote(input[0]) {
                None
            } else {
                let n = value_run(style, input);
                Some((decoded(input.take(n)), input.skip(n)))
            }
        },
    }
}

/// The leading digits of a sequence are digits, and what follows them is none.
pub proof fn lemma_leading_digits_are_digits(s: Seq<u8>)
    ensures
        0 <= leading_digits(s) <= s.len(),
        forall|i: int| 0 <= i < leading_digits(s) ==> is_digit(#[trigger] s[i]),
        leading_digits(s) < s.len() ==> !is_digit(s[leading_digits(s)]),
    decreases s.len(),
{
    if s.len() > 0 && is_digit(s[0]) {
        let rest = s.skip(1);
        lemma_leading_digits_are_digits(rest);
        assert forall|i: int| 0 <= i < leading_digits(s) implies is_digit(#[trigger] s[i]) by {
            if i > 0 {
                assert(s[i] == rest[i - 1]);
            }
        }
        if leading_digits(s) < s.len() {
            assert(s[leading_digits(s)] == rest[leading_digits(rest)]);
        }
    }
}

/// Digits followed by something that is no digit: the leading digits are those.
pub proof fn lemma_leading_digits_of_run(digits: Seq<u8>, rest: Seq<u8>)
    requires
        forall|i: int| 0 <= i < digits.len() ==> is_digit(#[trigger] digits[i]),
        rest.len() == 0 || !is_digit(rest[0]),
    ensures
        leading_digits(digits + rest) == digits.len(),
    decreases digits.len(),
{
    let all = digits + rest;
    if digits.len() == 0 {
        assert(all =~= rest);
    } else {
        assert(all[0] == digits[0]);
        assert(all.skip(1) =~= digits.skip(1) + rest);
        assert forall|i: int| 0 <= i < digits.skip(1).len() implies is_digit(
            #[trigger] digits.skip(1)[i],
        ) by {
            assert(digits.skip(1)[i] == digits[i + 1]);
        }
        lemma_leading_digits_of_run(digits.skip(1), rest);
    }
}

/// Reading a number that was written in decimal gives the number.
pub proof fn lemma_decimal_value_of_decimal(n: nat)
    ensures
        decimal_value(decimal(n)) == n,
    decreases n,
{
    if n < 10 {
        let digits = decimal(n);
        assert(digits.drop_last() =~= Seq::<u8>::empty());
        assert(decimal_value(digits.drop_last()) == 0);
    } else {
        lemma_decimal_value_of_decimal(n / 10);
        let digits = decimal(n);
        assert(digits.drop_last() =~= decimal(n / 10));
    }
}

/// The reference for an ASCII byte is read as that byte, where it is closed
/// with `;` or what follows it is nothing that would be read as part of it.
pub proof fn lemma_reference_is_read(b: u8, closed: bool, rest: Seq<u8>)
    requires
        0 < b < 128,
        closed || rest.len() == 0 || !needs_terminator(b, rest[0]),
    ensures
        ({
            let written = if closed {
                reference(b).push(SEMICOLON)
            } else {
                reference(b)
            };
            &&& leading_reference(written + rest) == Some((b, written.len() as int))
            &&& decoded(written + rest) == seq![b] + decoded(rest)
        }),
{
    let written = if closed {
        reference(b).push(SEMICOLON)
    } else {
        reference(b)
    };
    let s = written + rest;
    lemma_reference_is_safe(b);
    if b == GREATER_THAN {
        assert(s[0] == AMPERSAND && s[1] == UPPER_G && s[2] == UPPER_T);
        if closed {
            assert(s.skip(3)[0] == SEMICOLON);
        } else if rest.len() > 0 {
            assert(s.skip(3)[0] == rest[0]);
        } else {
            assert(s.skip(3).len() == 0);
        }
        assert(s.skip(written.len() as int) =~= rest);
    } else {
        let digits = decimal(b as nat);
        let k = digits.len() as int;
        lemma_decimal_is_digits(b as nat);
        lemma_decimal_value_of_decimal(b as nat);
        let after = s.skip(2 + k);
        assert(s[0] == AMPERSAND && s[1] == HASH);
        assert(s[2] == digits[0]);
        assert(s.skip(2) =~= digits + after);
        if closed {
            assert(after[0] == SEMICOLON);
        } else if rest.len() > 0 {
            assert(after[0] == rest[0]);
        } else {
            assert(after.len() == 0);
        }
        lemma_leading_digits_of_run(digits, after);
        assert(s.subrange(2, 2 + k) =~= digits);
        assert(s.skip(written.len() as int) =~= rest);
    }
}

/// Encoding leaves a reference that a value begins with as it is, and what
/// follows the reference is encoded as it would be alone. Where the value
/// begins with an `&` that starts no reference, the encoding does so too.
pub proof fn lemma_leading_reference_of_escaped(style: QuoteStyle, v: Seq<u8>)
    requires
        v.len() > 0,
        v[0] == AMPERSAND,
    ensures
        leading_reference(escaped(style, v)) == leading_reference(v),
        leading_reference(v) matches Some((_, n)) ==> escaped(style, v).skip(n) == escaped(
            style,
            v.skip(n),
        ),
        escaped(style, v)[0] == AMPERSAND,
        escaped(style, v).skip(1) == escaped(style, v.skip(1)),
{
    let e = escaped(style, v);
    assert(e.skip(1) =~= escaped(style, v.skip(1)));
    let numeric = v.len() >= 3 && v[1] == HASH && is_digit(v[2]);
    let named = v.len() >= 3 && v[1] == UPPER_G && v[2] == UPPER_T;
    if numeric || named {
        let k = if numeric {
            leading_digits(v.skip(2))
        } else {
            1
        };
        lemma_leading_digits_are_digits(v.skip(2));
        let c = closing(v.skip(2 + k));
        let m = 2 + k + c;
        assert(v.skip(2)[0] == v[2]);
        assert(c == 1 ==> v.skip(2 + k)[0] == v[2 + k]);
        assert forall|i: int| 0 <= i < m implies !must_escape(style, #[trigger] v[i]) by {
            if 2 <= i < 2 + k {
                assert(v[i] == v.skip(2)[i - 2]);
            }
        }
        lemma_escaped_keeps_safe_prefix(style, v, m);
        let y = escaped(style, v.skip(m));
        assert(e == v.take(m) + y);
        assert(e.len() >= 3 && e[0] == v[0] && e[1] == v[1] && e[2] == v[2]);
        lemma_escaped_first(style, v.skip(m));
        if m < v.len() {
            assert(v.skip(m)[0] == v[m]);
        }
        let after = e.skip(2 + k);
        if c == 1 {
            assert(after[0] == v[2 + k]);
        } else if y.len() > 0 {
            assert(after[0] == y[0]);
            assert(v[m] == v.skip(2)[k]);
            assert(v.skip(2 + k)[0] == v[m]);
        } else {
            assert(after.len() == 0);
        }
        assert(closing(after) == c);
        if numeric {
            let digits = v.subrange(2, 2 + k);
            assert forall|i: int| 0 <= i < digits.len() implies is_digit(#[trigger] digits[i]) by {
                assert(digits[i] == v.skip(2)[i]);
            }
            assert(e.skip(2) =~= digits + after);
            lemma_leading_digits_of_run(digits, after);
            assert(e.subrange(2, 2 + k) =~= digits);
        }
        assert(e.skip(m) =~= y);
    } else {
        lemma_escaped_first(style, v.skip(1));
        if e.len() >= 3 {
            let x = escaped(style, v.skip(1));
            assert(e[1] == x[0] && e[2] == x[1]);
            assert(v.skip(1)[0] == v[1]);
            if e[1] == HASH || e[1] == UPPER_G {
                assert(v[1] == e[1]);
                assert(x.skip(1) =~= escaped(style, v.skip(1).skip(1)));
                lemma_escaped_first(style, v.skip(1).skip(1));
                assert(x[1] == x.skip(1)[0]);
                assert(v.skip(1).skip(1)[0] == v[2]);
            }
        }
    }
}

/// Encoding changes nothing of what a value is read as.
pub proof fn lemma_decoded_escaped(style: QuoteStyle, v: Seq<u8>)
    ensures
        decoded(escaped(style, v)) == decoded(v),
    decreases v.len(),
{
    let e = escaped(style, v);
    if v.len() > 0 {
        let b = v[0];
        let x = escaped(style, v.skip(1));
        if must_escape(style, b) {
            let closed = v.len() > 1 && needs_terminator(b, v[1]);
            lemma_escaped_first(style, v.skip(1));
            if v.len() > 1 {
                assert(v.skip(1)[0] == v[1]);
            }
            lemma_reference_is_read(b, closed, x);
            lemma_decoded_escaped(style, v.skip(1));
        } else if b == AMPERSAND {
            lemma_leading_reference_of_escaped(style, v);
            lemma_leading_reference_bound(v);
            match leading_reference(v) {
                Some((_, n)) => {
                    lemma_decoded_escaped(style, v.skip(n));
                },
                None => {
                    lemma_decoded_escaped(style, v.skip(1));
                },
            }
        } else {
            assert(e[0] == b);
            assert(e.skip(1) =~= x);
            lemma_decoded_escaped(style, v.skip(1));
        }
    }
}

/// Bytes that need no escaping, before one that does or before the end: the
/// value runs up to there.
pub proof fn lemma_value_run(style: QuoteStyle, body: Seq<u8>, rest: Seq<u8>)
    requires
        forall|i: int| 0 <= i < body.len() ==> !must_escape(style, #[trigger] body[i]),
        rest.len() == 0 || must_escape(style, rest[0]),
    ensures
        value_run(style, body + rest) == body.len(),
    decreases body.len(),
{
    let all = body + rest;
    if body.len() == 0 {
        assert(all =~= rest);
    } else {
        assert(all[0] == body[0]);
        assert(all.skip(1) =~= body.skip(1) + rest);
        assert forall|i: int| 0 <= i < body.skip(1).len() implies !must_escape(
            style,
            #[trigger] body.skip(1)[i],
        ) by {
            assert(body.skip(1)[i] == body[i + 1]);
        }
        lemma_value_run(style, body.skip(1), rest);
    }
}

/// What follows a value written in `style` does not run on into it. After a
/// closing quote anything may stand; a bare value must be followed by
/// whitespace, by `>`, or by nothing.
pub open spec fn may_follow(style: QuoteStyle, rest: Seq<u8>) -> bool {
    style == QuoteStyle::Unquoted ==> rest.len() == 0 || must_escape(style, rest[0])
}

/// A value between two quotes is read back as what the value is read as,
/// whatever follows the closing quote.
proof fn lemma_quoted_reads_back(style: QuoteStyle, quote: u8, v: Seq<u8>, rest: Seq<u8>)
    requires
        style == QuoteStyle::Double && quote == DOUBLE_QUOTE || style == QuoteStyle::Single
            && quote == SINGLE_QUOTE,
    ensures
        read_quoted(style, quote, seq![quote] + escaped(style, v) + seq![quote] + rest) == Some(
            (decoded(v), rest),
        ),
{
    let payload = escaped(style, v);
    let input = seq![quote] + payload + seq![quote] + rest;
    let body = input.skip(1);
    let after = seq![quote] + rest;
    assert(body =~= payload + after);
    lemma_escaped_is_safe(style, v);
    lemma_value_run(style, payload, after);
    assert(body.take(payload.len() as int) =~= payload);
    assert(body.skip(payload.len() as int + 1) =~= rest);
    lemma_decoded_escaped(style, v);
}

/// A bare value is read back as what the value is read as.
proof fn lemma_unquoted_reads_back(v: Seq<u8>, rest: Seq<u8>)
    requires
        may_follow(QuoteStyle::Unquoted, rest),
    ensures
        read_value(QuoteStyle::Unquoted, form(QuoteStyle::Unquoted, v).rendering() + rest) == Some(
            (decoded(v), rest),
        ),
{
    let style = QuoteStyle::Unquoted;
    let data = escaped(style, v);
    let written = form(style, v).rendering();
    let input = written + rest;
    lemma_escaped_is_safe(style, v);
    lemma_decoded_escaped(style, v);
    if data.len() > 0 && is_quote(data[0]) {
        let q = data[0];
        let closed = data.len() > 1 && needs_terminator(q, data[1]);
        let tail = data.skip(1);
        let prefix = if closed {
            reference(q).push(SEMICOLON)
        } else {
            reference(q)
        };
        assert(written =~= prefix + tail);
        lemma_reference_is_safe(q);
        if tail.len() > 0 {
            assert(tail[0] == data[1]);
        }
        lemma_reference_is_read(q, closed, tail);
        assert(decoded(data) == seq![q] + decoded(tail));
        assert forall|i: int| 0 <= i < written.len() implies !must_escape(
            style,
            #[trigger] written[i],
        ) by {
            if i < reference(q).len() {
                assert(written[i] == reference(q)[i]);
                assert(!must_escape(style, reference(q)[i]));
            } else if i < prefix.len() {
                assert(written[i] == SEMICOLON);
            } else {
                assert(written[i] == data[i - prefix.len() + 1]);
            }
        }
        assert(input[0] == AMPERSAND);
    } else {
        assert(written =~= data);
        if data.len() > 0 {
            assert(input[0] == data[0]);
        } else if rest.len() > 0 {
            assert(input[0] == rest[0]);
        }
    }
    lemma_value_run(style, written, rest);
    assert(input.take(written.len() as int) =~= written);
    assert(input.skip(written.len() as int) =~= rest);
}

/// Encoding keeps the meaning: a value written in any of the three forms is
/// read back, in that form's style, as what the value itself is read as, and
/// the reader stops exactly behind it.
pub proof fn lemma_reads_back(style: QuoteStyle, v: Seq<u8>, rest: Seq<u8>)
    requires
        may_follow(style, rest),
    ensures
        read_value(style, form(style, v).rendering() + rest) == Some((decoded(v), rest)),
{
    match style {
        QuoteStyle::Double => {
            lemma_quoted_reads_back(style, DOUBLE_QUOTE, v, rest);
        },
        QuoteStyle::Single => {
            lemma_quoted_reads_back(style, SINGLE_QUOTE, v, rest);
        },
        QuoteStyle::Unquoted => {
            lemma_unquoted_reads_back(v, rest);
        },
    }
}

/// The form that is kept as the shortest is read back, in its style, as what
/// the value is read as.
pub proof fn lemma_shortest_reads_back(v: Seq<u8>, rest: Seq<u8>)
    requires
        may_follow(shortest_style(v), rest),
    ensures
        read_value(shortest_style(v), shortest_form(v).rendering() + rest) == Some(
            (decoded(v), rest),
        ),
{
    lemma_reads_back(shortest_style(v), v, rest);
}

/// Round trip: a value that holds no reference of its own is read back, from
/// any of its three forms, as exactly the bytes that were encoded.
pub proof fn lemma_round_trip(style: QuoteStyle, v: Seq<u8>)
    requires
        decoded(v) == v,
    ensures
        read_value(style, form(style, v).rendering()) == Some((v, Seq::<u8>::empty())),
{
    lemma_reads_back(style, v, Seq::<u8>::empty());
    assert(form(style, v).rendering() + Seq::<u8>::empty() =~= form(style, v).rendering());
}

} // verus!
