//! The minified value of one attribute, and the three encoders that make one.

use crate::bytes::{is_digit, DOUBLE_QUOTE, SEMICOLON, SINGLE_QUOTE};
use crate::encoders::QuoteEncoders;
use crate::escape::{byte_at, closed_reference, escaped, QuoteStyle};
use crate::tables::reference_bytes;
use std::cmp::Ordering;
use std::string::FromUtf8Error;
use vstd::prelude::*;
use vstd::std_specs::cmp::{PartialEqSpecImpl, PartialOrdSpecImpl};
use vstd::utf8::{decode_utf8, valid_utf8};

verus! {

/// How an attribute is to be written.
#[derive(Clone, Copy, PartialEq, Eq, Structural, Debug)]
pub enum AttrType {
    /// Not at all: the attribute says nothing that its absence does not say.
    Redundant,
    /// By its name alone.
    NoValue,
    /// With its value between quotes.
    Quoted,
    /// With its value bare.
    Unquoted,
}

/// What a minified value stands for: how the attribute is written, and the
/// three runs of bytes that make up the written value.
pub struct MinifiedView {
    pub typ: AttrType,
    pub prefix: Seq<u8>,
    pub payload: Seq<u8>,
    pub suffix: Seq<u8>,
}

impl MinifiedView {
    /// The bytes written for the value: prefix, payload, suffix.
    pub open spec fn rendering(self) -> Seq<u8> {
        self.prefix + self.payload + self.suffix
    }

    /// The number of bytes written.
    pub open spec fn len(self) -> nat {
        self.rendering().len()
    }
}

/// A minified value. The payload is the part of `data` from `start` on, so
/// that a leading byte of `data` can be left out without moving the rest.
pub struct AttrValMinified {
    typ: AttrType,
    prefix: Vec<u8>,
    data: Vec<u8>,
    start: usize,
    suffix: Vec<u8>,
}

impl View for AttrValMinified {
    type V = MinifiedView;

    closed spec fn view(&self) -> MinifiedView {
        MinifiedView {
            typ: self.typ,
            prefix: self.prefix@,
            payload: self.data@.skip(self.start as int),
            suffix: self.suffix@,
        }
    }
}

/// The error of `String::from_utf8`. Nothing is read from it.
#[verifier::external_type_specification]
#[verifier::external_body]
pub struct ExFromUtf8Error(FromUtf8Error);

/// `String::from_utf8`. As std documents it: the conversion succeeds exactly
/// on valid UTF-8, and the string then holds the characters that the bytes
/// encode.
pub assume_specification[ String::from_utf8 ](vec: Vec<u8>) -> (text: Result<String, FromUtf8Error>)
    ensures
        text is Ok <==> valid_utf8(vec@),
        text matches Ok(s) ==> s@ == decode_utf8(vec@),
;

impl AttrValMinified {
    #[verifier::type_invariant]
    spec fn well_formed(&self) -> bool {
        &&& self.start <= self.data.len()
        &&& self.prefix.len() + (self.data.len() - self.start) + self.suffix.len() <= usize::MAX
    }

    /// A value that writes nothing, of type `typ`.
    pub(crate) fn nothing(typ: AttrType) -> (min: AttrValMinified)
        ensures
            min@ == (MinifiedView {
                typ,
                prefix: Seq::empty(),
                payload: Seq::empty(),
                suffix: Seq::empty(),
            }),
    {
        let min = AttrValMinified {
            typ,
            prefix: Vec::new(),
            data: Vec::new(),
            start: 0,
            suffix: Vec::new(),
        };
        assert(min@.payload =~= Seq::empty());
        min
    }

    /// The number of bytes that [`out`](Self::out) writes.
    pub fn len(&self) -> (n: usize)
        ensures
            n == self@.len(),
    {
        proof {
            use_type_invariant(self);
        }
        self.prefix.len() + (self.data.len() - self.start) + self.suffix.len()
    }

    /// Appends the written value to `out`.
    pub fn out(&self, out: &mut Vec<u8>)
        ensures
            final(out)@ == old(out)@ + self@.rendering(),
    {
        proof {
            use_type_invariant(self);
        }
        out.extend_from_slice(self.prefix.as_slice());
        out.extend_from_slice(vstd::slice::slice_subrange(
            self.data.as_slice(),
            self.start,
            self.data.len(),
        ));
        out.extend_from_slice(self.suffix.as_slice());
        assert(out@ =~= old(out)@ + self@.rendering());
    }

    /// The written value as text.
    pub fn str(&self) -> (text: String)
        requires
            valid_utf8(self@.rendering()),
        ensures
            text@ == decode_utf8(self@.rendering()),
    {
        let mut out: Vec<u8> = Vec::with_capacity(self.len());
        self.out(&mut out);
        assert(out@ =~= self@.rendering());
        match String::from_utf8(out) {
            Ok(text) => text,
            Err(_) => vstd::pervasive::unreached(),
        }
    }

    /// How the attribute is to be written.
    pub fn typ(&self) -> (typ: AttrType)
        ensures
            typ == self@.typ,
    {
        self.typ
    }

    /// Orders two values by the number of bytes they write.
    pub fn cmp(&self, other: &Self) -> (order: Ordering)
        ensures
            order == length_order(self@.len(), other@.len()),
    {
        let here = self.len();
        let there = other.len();
        if here < there {
            Ordering::Less
        } else if here == there {
            Ordering::Equal
        } else {
            Ordering::Greater
        }
    }
}

/// How two lengths compare.
pub open spec fn length_order(left: nat, right: nat) -> Ordering {
    if left < right {
        Ordering::Less
    } else if left == right {
        Ordering::Equal
    } else {
        Ordering::Greater
    }
}

impl PartialEq for AttrValMinified {
    /// Two values are equal where they write the same number of bytes, whatever
    /// the bytes.
    fn eq(&self, other: &Self) -> (equal: bool) {
        self.len() == other.len()
    }
}

impl PartialEqSpecImpl for AttrValMinified {
    open spec fn obeys_eq_spec() -> bool {
        true
    }

    open spec fn eq_spec(&self, other: &Self) -> bool {
        self@.len() == other@.len()
    }
}

impl Eq for AttrValMinified {

}

impl PartialOrd for AttrValMinified {
    /// Values are ordered by the number of bytes they write.
    fn partial_cmp(&self, other: &Self) -> (order: Option<Ordering>) {
        Some(self.cmp(other))
    }
}

impl PartialOrdSpecImpl for AttrValMinified {
    open spec fn obeys_partial_cmp_spec() -> bool {
        true
    }

    open spec fn partial_cmp_spec(&self, other: &Self) -> Option<Ordering> {
        Some(length_order(self@.len(), other@.len()))
    }
}

/// One of the two quote bytes.
pub open spec fn is_quote(b: u8) -> bool {
    b == DOUBLE_QUOTE || b == SINGLE_QUOTE
}

/// `v` written between two `"`.
pub open spec fn double_quoted_form(v: Seq<u8>) -> MinifiedView {
    MinifiedView {
        typ: AttrType::Quoted,
        prefix: seq![DOUBLE_QUOTE],
        payload: escaped(QuoteStyle::Double, v),
        suffix: seq![DOUBLE_QUOTE],
    }
}

/// `v` written between two `'`.
pub open spec fn single_quoted_form(v: Seq<u8>) -> MinifiedView {
    MinifiedView {
        typ: AttrType::Quoted,
        prefix: seq![SINGLE_QUOTE],
        payload: escaped(QuoteStyle::Single, v),
        suffix: seq![SINGLE_QUOTE],
    }
}

/// `v` written without quotes. A value that begins with a quote byte would be
/// read as a quoted one, so such a first byte is written as its reference: the
/// reference is the prefix, and the payload leaves the byte out.
pub open spec fn unquoted_form(v: Seq<u8>) -> MinifiedView {
    let data = escaped(QuoteStyle::Unquoted, v);
    if data.len() > 0 && is_quote(data[0]) {
        MinifiedView {
            typ: AttrType::Unquoted,
            prefix: closed_reference(data[0], byte_at(data, 1)),
            payload: data.skip(1),
            suffix: Seq::empty(),
        }
    } else {
        MinifiedView {
            typ: AttrType::Unquoted,
            prefix: Seq::empty(),
            payload: data,
            suffix: Seq::empty(),
        }
    }
}

/// The form of `v` in `style`.
pub open spec fn form(style: QuoteStyle, v: Seq<u8>) -> MinifiedView {
    match style {
        QuoteStyle::Double => double_quoted_form(v),
        QuoteStyle::Single => single_quoted_form(v),
        QuoteStyle::Unquoted => unquoted_form(v),
    }
}

/// Writes `val` between the quote byte `quote`.
fn encode_using_quotes(encoders: &QuoteEncoders, style: QuoteStyle, quote: u8, val: &[u8]) -> (min:
    AttrValMinified)
    requires
        escaped(style, val@).len() + 2 <= usize::MAX,
    ensures
        min@ == (MinifiedView {
            typ: AttrType::Quoted,
            prefix: seq![quote],
            payload: escaped(style, val@),
            suffix: seq![quote],
        }),
{
    let data = encoders.escape(style, val);
    let min = AttrValMinified {
        typ: AttrType::Quoted,
        prefix: vec![quote],
        data,
        start: 0,
        suffix: vec![quote],
    };
    assert(min@.payload =~= escaped(style, val@));
    assert(min@.prefix =~= seq![quote]);
    assert(min@.suffix =~= seq![quote]);
    min
}

/// Encodes `val` for writing between two `"`: every `"` in it becomes `&#34`,
/// closed with `;` where a digit or a `;` follows.
pub fn encode_using_double_quotes(encoders: &QuoteEncoders, val: &[u8]) -> (min: AttrValMinified)
    requires
        double_quoted_form(val@).len() <= usize::MAX,
    ensures
        min@ == double_quoted_form(val@),
{
    encode_using_quotes(encoders, QuoteStyle::Double, DOUBLE_QUOTE, val)
}

/// Encodes `val` for writing between two `'`: every `'` in it becomes `&#39`,
/// closed with `;` where a digit or a `;` follows.
pub fn encode_using_single_quotes(encoders: &QuoteEncoders, val: &[u8]) -> (min: AttrValMinified)
    requires
        single_quoted_form(val@).len() <= usize::MAX,
    ensures
        min@ == single_quoted_form(val@),
{
    encode_using_quotes(encoders, QuoteStyle::Single, SINGLE_QUOTE, val)
}

/// Encodes `val` for writing without quotes: whitespace and `>` become
/// references, and so does a quote byte that the value begins with.
pub fn encode_unquoted(encoders: &QuoteEncoders, val: &[u8]) -> (min: AttrValMinified)
    requires
        unquoted_form(val@).len() <= usize::MAX,
    ensures
        min@ == unquoted_form(val@),
{
    let data = encoders.escape(QuoteStyle::Unquoted, val);
    let mut prefix: Vec<u8> = Vec::new();
    let mut start: usize = 0;
    if data.len() > 0 && (data[0] == DOUBLE_QUOTE || data[0] == SINGLE_QUOTE) {
        prefix = reference_bytes(data[0]);
        if data.len() > 1 && (is_digit(data[1]) || data[1] == SEMICOLON) {
            prefix.push(SEMICOLON);
        }
        start = 1;
    }
    let min = AttrValMinified { typ: AttrType::Unquoted, prefix, data, start, suffix: Vec::new() };
    assert(min@.payload =~= unquoted_form(val@).payload);
    assert(min@.suffix =~= Seq::empty());
    assert(min@.prefix =~= unquoted_form(val@).prefix);
    min
}

} // verus!
