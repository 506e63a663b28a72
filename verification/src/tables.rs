//! The pattern tables of the three encoders, and the proof that replacing by
//! such a table encodes a value as [`escaped`] says.

use crate::bytes::{
    AMPERSAND, CARRIAGE_RETURN, DIGIT_ZERO, DOUBLE_QUOTE, FORM_FEED, GREATER_THAN, HASH, LINE_FEED,
    SEMICOLON, SINGLE_QUOTE, SPACE, TAB, UPPER_G, UPPER_T,
};
use crate::escape::{
    byte_at, decimal, escaped, escaped_byte, must_escape, needs_terminator, reference, QuoteStyle,
};
use crate::pattern::{
    lemma_longest_wins, lemma_unmatched_is_copied, occurs_at, replaced, replaced_from,
    well_formed_table, Replacer,
};
use vstd::prelude::*;

verus! {

/// Row `k` of a table is a rule of `style`: a byte that must be escaped, alone
/// or before a byte that asks for a closing `;`, and with it the reference to
/// write. In the second form the byte behind is written again after the `;`.
pub open spec fn is_rule(style: QuoteStyle, pattern: Seq<u8>, replacement: Seq<u8>) -> bool {
    &&& 1 <= pattern.len() <= 2
    &&& must_escape(style, pattern[0])
    &&& pattern.len() == 1 ==> replacement == reference(pattern[0])
    &&& pattern.len() == 2 ==> {
        &&& needs_terminator(pattern[0], pattern[1])
        &&& replacement == reference(pattern[0]).push(SEMICOLON).push(pattern[1])
    }
}

/// The table holds the rules of `style`, all of them and nothing else.
pub open spec fn is_escape_table(
    style: QuoteStyle,
    patterns: Seq<Seq<u8>>,
    replacements: Seq<Seq<u8>>,
) -> bool {
    &&& well_formed_table(patterns, replacements)
    &&& forall|k: int|
        0 <= k < patterns.len() ==> is_rule(style, #[trigger] patterns[k], replacements[k])
    &&& forall|b: u8| must_escape(style, b) ==> patterns.contains(#[trigger] seq![b])
    &&& forall|b: u8, f: u8|
        must_escape(style, b) && needs_terminator(b, f) ==> patterns.contains(
            #[trigger] seq![b, f],
        )
}

/// Leftmost-longest on an escape table: where a byte that is escaped stands
/// before one that asks for a closing `;`, both the rule for the byte alone and
/// the rule for the two bytes occur there, and the scan applies the second. It
/// writes the closed reference and the second byte, and goes on behind both.
pub proof fn lemma_two_byte_rule_wins(
    style: QuoteStyle,
    patterns: Seq<Seq<u8>>,
    replacements: Seq<Seq<u8>>,
    input: Seq<u8>,
    at: int,
)
    requires
        is_escape_table(style, patterns, replacements),
        0 <= at,
        at + 1 < input.len(),
        must_escape(style, input[at]),
        needs_terminator(input[at], input[at + 1]),
    ensures
        replaced_from(patterns, replacements, input, at) == reference(input[at]).push(
            SEMICOLON,
        ).push(input[at + 1]) + replaced_from(patterns, replacements, input, at + 2),
{
    let b = input[at];
    let f = input[at + 1];
    assert(patterns.contains(seq![b, f]));
    let k = choose|k: int| 0 <= k < patterns.len() && patterns[k] == seq![b, f];
    assert(input.subrange(at, at + 2) =~= seq![b, f]);
    lemma_longest_wins(patterns, replacements, input, at, k);
}

/// Where a byte that is escaped stands before nothing that asks for a closing
/// `;`, the rule for the byte alone is the only one that occurs there. The scan
/// writes the open reference and goes on behind the byte.
pub proof fn lemma_one_byte_rule_applies(
    style: QuoteStyle,
    patterns: Seq<Seq<u8>>,
    replacements: Seq<Seq<u8>>,
    input: Seq<u8>,
    at: int,
)
    requires
        is_escape_table(style, patterns, replacements),
        0 <= at < input.len(),
        must_escape(style, input[at]),
        at + 1 < input.len() ==> !needs_terminator(input[at], input[at + 1]),
    ensures
        replaced_from(patterns, replacements, input, at) == reference(input[at]) + replaced_from(
            patterns,
            replacements,
            input,
            at + 1,
        ),
{
    let b = input[at];
    assert(patterns.contains(seq![b]));
    let k = choose|k: int| 0 <= k < patterns.len() && patterns[k] == seq![b];
    assert(input.subrange(at, at + 1) =~= seq![b]);
    assert forall|j: int|
        0 <= j < patterns.len() && occurs_at(
            #[trigger] patterns[j],
            input,
            at,
        ) implies patterns[j].len() <= 1 by {
        if patterns[j].len() == 2 {
            assert(is_rule(style, patterns[j], replacements[j]));
            assert(input.subrange(at, at + 2)[0] == patterns[j][0]);
            assert(input.subrange(at, at + 2)[1] == patterns[j][1]);
        }
    }
    lemma_longest_wins(patterns, replacements, input, at, k);
}

/// A byte that is not escaped begins no rule: the scan copies it.
pub proof fn lemma_other_bytes_are_copied(
    style: QuoteStyle,
    patterns: Seq<Seq<u8>>,
    replacements: Seq<Seq<u8>>,
    input: Seq<u8>,
    at: int,
)
    requires
        is_escape_table(style, patterns, replacements),
        0 <= at < input.len(),
        !must_escape(style, input[at]),
    ensures
        replaced_from(patterns, replacements, input, at) == seq![input[at]] + replaced_from(
            patterns,
            replacements,
            input,
            at + 1,
        ),
{
    assert forall|k: int| 0 <= k < patterns.len() implies !occurs_at(
        #[trigger] patterns[k],
        input,
        at,
    ) by {
        if occurs_at(patterns[k], input, at) {
            assert(is_rule(style, patterns[k], replacements[k]));
            assert(input.subrange(at, at + patterns[k].len())[0] == patterns[k][0]);
        }
    }
    lemma_unmatched_is_copied(patterns, replacements, input, at);
}

/// Replacing by an escape table from index `at` on writes the encoding of what
/// stands from `at` on.
pub proof fn lemma_replaced_from_is_escaped(
    style: QuoteStyle,
    patterns: Seq<Seq<u8>>,
    replacements: Seq<Seq<u8>>,
    input: Seq<u8>,
    at: int,
)
    requires
        is_escape_table(style, patterns, replacements),
        0 <= at <= input.len(),
    ensures
        replaced_from(patterns, replacements, input, at) == escaped(style, input.skip(at)),
    decreases input.len() - at,
{
    let rest = input.skip(at);
    if at < input.len() {
        let b = input[at];
        assert(rest[0] == b);
        assert(rest.skip(1) =~= input.skip(at + 1));
        if !must_escape(style, b) {
            lemma_other_bytes_are_copied(style, patterns, replacements, input, at);
            lemma_replaced_from_is_escaped(style, patterns, replacements, input, at + 1);
        } else if at + 1 < input.len() && needs_terminator(b, input[at + 1]) {
            let f = input[at + 1];
            lemma_two_byte_rule_wins(style, patterns, replacements, input, at);
            lemma_replaced_from_is_escaped(style, patterns, replacements, input, at + 2);
            assert(rest.skip(1)[0] == f);
            assert(rest.skip(1).skip(1) =~= input.skip(at + 2));
            assert(escaped(style, rest.skip(1)) == seq![f] + escaped(style, input.skip(at + 2)));
            assert(byte_at(rest, 1) == Some(f));
            assert(escaped(style, rest) =~= reference(b).push(SEMICOLON).push(f) + escaped(
                style,
                input.skip(at + 2),
            ));
        } else {
            lemma_one_byte_rule_applies(style, patterns, replacements, input, at);
            lemma_replaced_from_is_escaped(style, patterns, replacements, input, at + 1);
            assert(escaped_byte(style, b, byte_at(rest, 1)) == reference(b));
        }
    } else {
        assert(rest.len() == 0);
    }
}

/// Replacing by an escape table encodes the input.
pub proof fn lemma_replaced_is_escaped(
    style: QuoteStyle,
    patterns: Seq<Seq<u8>>,
    replacements: Seq<Seq<u8>>,
    input: Seq<u8>,
)
    requires
        is_escape_table(style, patterns, replacements),
    ensures
        replaced(patterns, replacements, input) == escaped(style, input),
{
    lemma_replaced_from_is_escaped(style, patterns, replacements, input, 0);
    assert(input.skip(0) =~= input);
}

/// The bytes before which a numeric reference must be closed: the ten digits,
/// then `;`.
pub open spec fn followers() -> Seq<u8> {
    Seq::new(11, |i: int| if i < 10 { (DIGIT_ZERO + i) as u8 } else { SEMICOLON })
}

/// The whitespace bytes, in the order of their rows in the unquoted table.
pub open spec fn whitespace_bytes() -> Seq<u8> {
    seq![TAB, LINE_FEED, FORM_FEED, CARRIAGE_RETURN, SPACE]
}

/// The patterns for the quote `q`: `q` before each follower, then `q` alone.
pub open spec fn quote_patterns(q: u8) -> Seq<Seq<u8>> {
    Seq::new(12, |k: int| if k < 11 { seq![q, followers()[k]] } else { seq![q] })
}

/// The replacements that belong to [`quote_patterns`].
pub open spec fn quote_replacements(q: u8) -> Seq<Seq<u8>> {
    Seq::new(
        12,
        |k: int|
            if k < 11 {
                reference(q).push(SEMICOLON).push(followers()[k])
            } else {
                reference(q)
            },
    )
}

/// The patterns of the unquoted style: for each follower in turn, each
/// whitespace byte before it; each whitespace byte alone; `>` before `;`; `>`
/// alone.
pub open spec fn unquoted_patterns() -> Seq<Seq<u8>> {
    Seq::new(
        62,
        |k: int|
            if k < 55 {
                seq![whitespace_bytes()[k % 5], followers()[k / 5]]
            } else if k < 60 {
                seq![whitespace_bytes()[k - 55]]
            } else if k == 60 {
                seq![GREATER_THAN, SEMICOLON]
            } else {
                seq![GREATER_THAN]
            },
    )
}

/// The replacements that belong to [`unquoted_patterns`].
pub open spec fn unquoted_replacements() -> Seq<Seq<u8>> {
    Seq::new(
        62,
        |k: int|
            if k < 55 {
                reference(whitespace_bytes()[k % 5]).push(SEMICOLON).push(followers()[k / 5])
            } else if k < 60 {
                reference(whitespace_bytes()[k - 55])
            } else if k == 60 {
                reference(GREATER_THAN).push(SEMICOLON).push(SEMICOLON)
            } else {
                reference(GREATER_THAN)
            },
    )
}

/// The patterns of the encoder of `style`.
pub open spec fn style_patterns(style: QuoteStyle) -> Seq<Seq<u8>> {
    match style {
        QuoteStyle::Double => quote_patterns(DOUBLE_QUOTE),
        QuoteStyle::Single => quote_patterns(SINGLE_QUOTE),
        QuoteStyle::Unquoted => unquoted_patterns(),
    }
}

/// The replacements of the encoder of `style`.
pub open spec fn style_replacements(style: QuoteStyle) -> Seq<Seq<u8>> {
    match style {
        QuoteStyle::Double => quote_replacements(DOUBLE_QUOTE),
        QuoteStyle::Single => quote_replacements(SINGLE_QUOTE),
        QuoteStyle::Unquoted => unquoted_replacements(),
    }
}

/// The row of `f` among the followers.
pub open spec fn follower_index(f: u8) -> int {
    if f == SEMICOLON {
        10
    } else {
        f - DIGIT_ZERO
    }
}

/// The row of `w` among the whitespace bytes.
pub open spec fn whitespace_index(w: u8) -> int {
    if w == TAB {
        0
    } else if w == LINE_FEED {
        1
    } else if w == FORM_FEED {
        2
    } else if w == CARRIAGE_RETURN {
        3
    } else {
        4
    }
}

/// The table for a quote is the escape table of that quote's style.
pub proof fn lemma_quote_table(style: QuoteStyle, q: u8)
    requires
        style == QuoteStyle::Double && q == DOUBLE_QUOTE || style == QuoteStyle::Single && q
            == SINGLE_QUOTE,
    ensures
        is_escape_table(style, quote_patterns(q), quote_replacements(q)),
{
    let patterns = quote_patterns(q);
    let replacements = quote_replacements(q);
    assert forall|i: int, j: int| 0 <= i < j < patterns.len() implies #[trigger] patterns[i]
        != #[trigger] patterns[j] by {
        if j < 11 {
            assert(patterns[i][1] != patterns[j][1]);
        } else {
            assert(patterns[i].len() != patterns[j].len());
        }
    }
    assert forall|b: u8| must_escape(style, b) implies patterns.contains(#[trigger] seq![b]) by {
        assert(patterns[11] =~= seq![b]);
    }
    assert forall|b: u8, f: u8|
        must_escape(style, b) && needs_terminator(b, f) implies patterns.contains(
        #[trigger] seq![b, f],
    ) by {
        assert(patterns[follower_index(f)] =~= seq![b, f]);
    }
}

/// The unquoted table is the escape table of the unquoted style.
pub proof fn lemma_unquoted_table()
    ensures
        is_escape_table(QuoteStyle::Unquoted, unquoted_patterns(), unquoted_replacements()),
{
    let style = QuoteStyle::Unquoted;
    let patterns = unquoted_patterns();
    let replacements = unquoted_replacements();
    assert forall|i: int, j: int| 0 <= i < j < patterns.len() implies #[trigger] patterns[i]
        != #[trigger] patterns[j] by {
        if j < 55 {
            if i % 5 != j % 5 {
                assert(patterns[i][0] != patterns[j][0]);
            } else {
                assert(i / 5 != j / 5);
                assert(patterns[i][1] != patterns[j][1]);
            }
        } else if i < 55 {
            if j == 60 {
                assert(patterns[i][0] != patterns[j][0]);
            } else {
                assert(patterns[i].len() != patterns[j].len());
            }
        } else if j < 60 {
            assert(patterns[i][0] != patterns[j][0]);
        } else if i < 60 {
            assert(patterns[i][0] != patterns[j][0]);
        } else {
            assert(patterns[i].len() != patterns[j].len());
        }
    }
    assert forall|k: int| 0 <= k < patterns.len() implies is_rule(
        style,
        #[trigger] patterns[k],
        replacements[k],
    ) by {
        if k < 55 {
            assert(0 <= k % 5 < 5 && 0 <= k / 5 < 11);
        }
    }
    assert forall|b: u8| must_escape(style, b) implies patterns.contains(#[trigger] seq![b]) by {
        if b == GREATER_THAN {
            assert(patterns[61] =~= seq![b]);
        } else {
            assert(patterns[55 + whitespace_index(b)] =~= seq![b]);
        }
    }
    assert forall|b: u8, f: u8|
        must_escape(style, b) && needs_terminator(b, f) implies patterns.contains(
        #[trigger] seq![b, f],
    ) by {
        if b == GREATER_THAN {
            assert(patterns[60] =~= seq![b, f]);
        } else {
            let k = 5 * follower_index(f) + whitespace_index(b);
            assert(k % 5 == whitespace_index(b) && k / 5 == follower_index(f));
            assert(patterns[k] =~= seq![b, f]);
        }
    }
}

/// The table of each encoder is the escape table of its style.
pub proof fn lemma_style_table(style: QuoteStyle)
    ensures
        is_escape_table(style, style_patterns(style), style_replacements(style)),
{
    match style {
        QuoteStyle::Double => lemma_quote_table(style, DOUBLE_QUOTE),
        QuoteStyle::Single => lemma_quote_table(style, SINGLE_QUOTE),
        QuoteStyle::Unquoted => lemma_unquoted_table(),
    }
}

/// The reference for `b`, without a closing `;`.
pub fn reference_bytes(b: u8) -> (out: Vec<u8>)
    ensures
        out@ == reference(b),
{
    if b == GREATER_THAN {
        let out = vec![AMPERSAND, UPPER_G, UPPER_T];
        assert(out@ =~= reference(b));
        out
    } else {
        let mut out = vec![AMPERSAND, HASH];
        if b >= 100 {
            out.push(DIGIT_ZERO + b / 100);
        }
        if b >= 10 {
            out.push(DIGIT_ZERO + (b / 10) % 10);
        }
        out.push(DIGIT_ZERO + b % 10);
        proof {
            reveal_with_fuel(decimal, 3);
            assert(out@ =~= reference(b));
        }
        out
    }
}

/// The followers, in the order of [`followers`].
fn follower_bytes() -> (out: Vec<u8>)
    ensures
        out@ == followers(),
{
    let mut out: Vec<u8> = Vec::new();
    let mut d: u8 = 0;
    while d < 10
        invariant
            d <= 10,
            out@ =~= followers().take(d as int),
        decreases 10 - d,
    {
        out.push(DIGIT_ZERO + d);
        d += 1;
    }
    out.push(SEMICOLON);
    assert(out@ =~= followers());
    out
}

/// The whitespace bytes, in the order of [`whitespace_bytes`].
fn whitespace_list() -> (out: Vec<u8>)
    ensures
        out@ == whitespace_bytes(),
{
    let out = vec![TAB, LINE_FEED, FORM_FEED, CARRIAGE_RETURN, SPACE];
    assert(out@ =~= whitespace_bytes());
    out
}

/// Appending a row to a table appends its bytes to the table's view.
proof fn lemma_row_pushed(
    before: Seq<Vec<u8>>,
    after: Vec<Vec<u8>>,
    row: Vec<u8>,
    rows: Seq<Seq<u8>>,
)
    requires
        after@ == before.push(row),
        rows.len() == before.len(),
        forall|i: int| 0 <= i < before.len() ==> (#[trigger] before[i])@ == rows[i],
    ensures
        after.deep_view() == rows.push(row@),
{
    assert(after.deep_view() =~= rows.push(row@)) by {
        assert forall|i: int| 0 <= i < after@.len() implies #[trigger] after.deep_view()[i]
            == rows.push(row@)[i] by {
            assert(after.deep_view()[i] =~= after@[i]@);
        }
    }
}

/// One rule: `b` before `follower`, or `b` alone where there is no follower.
fn push_rule(
    patterns: &mut Vec<Vec<u8>>,
    replacements: &mut Vec<Vec<u8>>,
    b: u8,
    follower: Option<u8>,
)
    ensures
        final(patterns).deep_view() == old(patterns).deep_view().push(
            match follower {
                Some(f) => seq![b, f],
                None => seq![b],
            },
        ),
        final(replacements).deep_view() == old(replacements).deep_view().push(
            match follower {
                Some(f) => reference(b).push(SEMICOLON).push(f),
                None => reference(b),
            },
        ),
{
    let ghost patterns_before = patterns@;
    let ghost replacements_before = replacements@;
    let mut pattern: Vec<u8> = vec![b];
    let mut replacement = reference_bytes(b);
    match follower {
        Some(f) => {
            pattern.push(f);
            replacement.push(SEMICOLON);
            replacement.push(f);
            assert(pattern@ =~= seq![b, f]);
        },
        None => {
            assert(pattern@ =~= seq![b]);
        },
    }
    patterns.push(pattern);
    replacements.push(replacement);
    proof {
        assert forall|i: int| 0 <= i < patterns_before.len() implies (
        #[trigger] patterns_before[i])@ == old(patterns).deep_view()[i] by {
            assert(old(patterns).deep_view()[i] =~= patterns_before[i]@);
        }
        assert forall|i: int| 0 <= i < replacements_before.len() implies (
        #[trigger] replacements_before[i])@ == old(replacements).deep_view()[i] by {
            assert(old(replacements).deep_view()[i] =~= replacements_before[i]@);
        }
        lemma_row_pushed(patterns_before, *patterns, pattern, old(patterns).deep_view());
        lemma_row_pushed(
            replacements_before,
            *replacements,
            replacement,
            old(replacements).deep_view(),
        );
    }
}

/// Compiles the table of the quote `q`.
fn build_quote_replacer(style: QuoteStyle, q: u8) -> (replacer: Replacer)
    requires
        style == QuoteStyle::Double && q == DOUBLE_QUOTE || style == QuoteStyle::Single && q
            == SINGLE_QUOTE,
    ensures
        replacer.patterns() == quote_patterns(q),
        replacer.replacements() == quote_replacements(q),
{
    let mut patterns: Vec<Vec<u8>> = Vec::new();
    let mut replacements: Vec<Vec<u8>> = Vec::new();
    let after = follower_bytes();
    let mut i: usize = 0;
    while i < after.len()
        invariant
            i <= after.len(),
            after@ == followers(),
            patterns.deep_view() =~= quote_patterns(q).take(i as int),
            replacements.deep_view() =~= quote_replacements(q).take(i as int),
        decreases after.len() - i,
    {
        push_rule(&mut patterns, &mut replacements, q, Some(after[i]));
        i += 1;
    }
    push_rule(&mut patterns, &mut replacements, q, None);
    proof {
        assert(patterns.deep_view() =~= quote_patterns(q));
        assert(replacements.deep_view() =~= quote_replacements(q));
        lemma_quote_table(style, q);
    }
    Replacer::new(patterns, replacements).unwrap()
}

/// The replacer of the double-quoted style: every `"` becomes `&#34`, closed
/// with `;` before a digit or a `;`.
pub fn build_double_quoted_replacer() -> (replacer: Replacer)
    ensures
        replacer.patterns() == quote_patterns(DOUBLE_QUOTE),
        replacer.replacements() == quote_replacements(DOUBLE_QUOTE),
{
    build_quote_replacer(QuoteStyle::Double, DOUBLE_QUOTE)
}

/// The replacer of the single-quoted style: every `'` becomes `&#39`, closed
/// with `;` before a digit or a `;`.
pub fn build_single_quoted_replacer() -> (replacer: Replacer)
    ensures
        replacer.patterns() == quote_patterns(SINGLE_QUOTE),
        replacer.replacements() == quote_replacements(SINGLE_QUOTE),
{
    build_quote_replacer(QuoteStyle::Single, SINGLE_QUOTE)
}

/// The replacer of the unquoted style: every whitespace byte becomes its
/// numeric reference, closed with `;` before a digit or a `;`; every `>`
/// becomes `&GT`, closed with `;` before a `;`.
pub fn build_unquoted_replacer() -> (replacer: Replacer)
    ensures
        replacer.patterns() == unquoted_patterns(),
        replacer.replacements() == unquoted_replacements(),
{
    let mut patterns: Vec<Vec<u8>> = Vec::new();
    let mut replacements: Vec<Vec<u8>> = Vec::new();
    let after = follower_bytes();
    let blanks = whitespace_list();
    let mut i: usize = 0;
    while i < after.len()
        invariant
            i <= after.len(),
            after@ == followers(),
            blanks@ == whitespace_bytes(),
            patterns.deep_view() =~= unquoted_patterns().take(5 * i),
            replacements.deep_view() =~= unquoted_replacements().take(5 * i),
        decreases after.len() - i,
    {
        let mut j: usize = 0;
        while j < blanks.len()
            invariant
                i < after.len(),
                j <= blanks.len(),
                after@ == followers(),
                blanks@ == whitespace_bytes(),
                patterns.deep_view() =~= unquoted_patterns().take(5 * i + j),
                replacements.deep_view() =~= unquoted_replacements().take(5 * i + j),
            decreases blanks.len() - j,
        {
            assert((5 * i + j) % 5 == j && (5 * i + j) / 5 == i);
            push_rule(&mut patterns, &mut replacements, blanks[j], Some(after[i]));
            j += 1;
        }
        i += 1;
    }
    let mut j: usize = 0;
    while j < blanks.len()
        invariant
            j <= blanks.len(),
            blanks@ == whitespace_bytes(),
            patterns.deep_view() =~= unquoted_patterns().take(55 + j),
            replacements.deep_view() =~= unquoted_replacements().take(55 + j),
        decreases blanks.len() - j,
    {
        push_rule(&mut patterns, &mut replacements, blanks[j], None);
        j += 1;
    }
    push_rule(&mut patterns, &mut replacements, GREATER_THAN, Some(SEMICOLON));
    push_rule(&mut patterns, &mut replacements, GREATER_THAN, None);
    proof {
        assert(patterns.deep_view() =~= unquoted_patterns());
        assert(replacements.deep_view() =~= unquoted_replacements());
        lemma_unquoted_table();
    }
    Replacer::new(patterns, replacements).unwrap()
}

} // verus!
