//! The three replacers, built once and handed to every call that encodes.

use crate::escape::{escaped, QuoteStyle};
use crate::pattern::{replaced, Replacer};
use crate::tables::{
    build_double_quoted_replacer, build_single_quoted_replacer, build_unquoted_replacer,
    lemma_replaced_is_escaped, lemma_style_table, style_patterns, style_replacements,
};
use vstd::prelude::*;

verus! {

/// One replacer for each way of quoting. A value of this type is immutable and
/// can be shared by any number of callers.
pub struct QuoteEncoders {
    double_quoted: Replacer,
    single_quoted: Replacer,
    unquoted: Replacer,
}

impl QuoteEncoders {
    /// The replacer of `style`.
    pub closed spec fn replacer(&self, style: QuoteStyle) -> Replacer {
        match style {
            QuoteStyle::Double => self.double_quoted,
            QuoteStyle::Single => self.single_quoted,
            QuoteStyle::Unquoted => self.unquoted,
        }
    }

    /// Each replacer holds the table of its style.
    pub open spec fn holds_tables(&self) -> bool {
        forall|style: QuoteStyle|
            {
                &&& (#[trigger] self.replacer(style)).patterns() == style_patterns(style)
                &&& self.replacer(style).replacements() == style_replacements(style)
            }
    }

    #[verifier::type_invariant]
    spec fn well_formed(&self) -> bool {
        self.holds_tables()
    }

    /// Builds the three replacers, each from the table of its style.
    pub fn new() -> (encoders: QuoteEncoders)
        ensures
            encoders.holds_tables(),
    {
        let double_quoted = build_double_quoted_replacer();
        let single_quoted = build_single_quoted_replacer();
        let unquoted = build_unquoted_replacer();
        let encoders = QuoteEncoders { double_quoted, single_quoted, unquoted };
        assert forall|style: QuoteStyle|
            {
                &&& (#[trigger] encoders.replacer(style)).patterns() == style_patterns(style)
                &&& encoders.replacer(style).replacements() == style_replacements(style)
            } by {
            match style {
                QuoteStyle::Double => {},
                QuoteStyle::Single => {},
                QuoteStyle::Unquoted => {},
            }
        }
        encoders
    }

    /// Encodes `val` for `style`: each byte that cannot stand in a value of that
    /// style is replaced by its reference, and every other byte is kept. This is
    /// what replacing by the table of `style` comes to.
    pub fn escape(&self, style: QuoteStyle, val: &[u8]) -> (data: Vec<u8>)
        ensures
            data@ == escaped(style, val@),
            data@ == replaced(style_patterns(style), style_replacements(style), val@),
    {
        proof {
            use_type_invariant(self);
            assert(self.replacer(style).patterns() == style_patterns(style));
            lemma_style_table(style);
            lemma_replaced_is_escaped(
                style,
                style_patterns(style),
                style_replacements(style),
                val@,
            );
        }
        match style {
            QuoteStyle::Double => self.double_quoted.replace_all(val),
            QuoteStyle::Single => self.single_quoted.replace_all(val),
            QuoteStyle::Unquoted => self.unquoted.replace_all(val),
        }
    }
}

} // verus!
