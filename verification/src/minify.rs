//! The decision: whether an attribute is left out, written by name alone, or
//! written with a value, and then in which of the three forms.

use crate::attr::{
    double_quoted_form, encode_unquoted, encode_using_double_quotes, encode_using_single_quotes,
    form, single_quoted_form, unquoted_form, AttrType, AttrValMinified, MinifiedView,
};
use crate::encoders::QuoteEncoders;
use crate::escape::{lemma_escaped_len, lemma_reference_is_safe, QuoteStyle};
use crate::whitespace::{
    collapse_whitespace, collapsed, left_trim, left_trimmed, right_trim, right_trimmed,
};
use vstd::prelude::*;

verus! {

/// What is known of one attribute of one element.
#[derive(Debug)]
pub struct AttrPolicy {
    /// Whitespace at the ends of the value means nothing, and a run of
    /// whitespace inside it no more than one space.
    pub collapse_and_trim: bool,
    /// The attribute's presence alone carries its meaning.
    pub boolean: bool,
    /// With an empty value the attribute says nothing.
    pub redundant_if_empty: bool,
    /// The value that a reader supplies where the attribute is absent.
    pub default_value: Option<Vec<u8>>,
}

/// An [`AttrPolicy`] as plain values.
pub struct PolicyView {
    pub collapse_and_trim: bool,
    pub boolean: bool,
    pub redundant_if_empty: bool,
    pub default_value: Option<Seq<u8>>,
}

impl View for AttrPolicy {
    type V = PolicyView;

    open spec fn view(&self) -> PolicyView {
        PolicyView {
            collapse_and_trim: self.collapse_and_trim,
            boolean: self.boolean,
            redundant_if_empty: self.redundant_if_empty,
            default_value: match self.default_value {
                Some(value) => Some(value@),
                None => None,
            },
        }
    }
}

/// The policy that holds of an attribute: the one that was found for it, or,
/// where none was found, the one that sets nothing.
pub open spec fn effective_policy(found: Option<&AttrPolicy>) -> PolicyView {
    match found {
        Some(policy) => policy@,
        None => PolicyView {
            collapse_and_trim: false,
            boolean: false,
            redundant_if_empty: false,
            default_value: None,
        },
    }
}

/// The tag name `script`.
pub open spec fn script_tag() -> Seq<u8> {
    seq![0x73u8, 0x63u8, 0x72u8, 0x69u8, 0x70u8, 0x74u8]
}

/// The attribute name `type`.
pub open spec fn type_attribute() -> Seq<u8> {
    seq![0x74u8, 0x79u8, 0x70u8, 0x65u8]
}

/// The value that the decision is made on: the raw value, trimmed and
/// collapsed where the policy asks for it.
pub open spec fn normalized(policy: PolicyView, raw: Seq<u8>) -> Seq<u8> {
    if policy.collapse_and_trim {
        collapsed(left_trimmed(right_trimmed(raw)))
    } else {
        raw
    }
}

/// Whether the attribute says nothing with the value `value`: the value is
/// empty where that means nothing, or it is the default, or it is the type of
/// a script and names a type that scripts have anyway.
pub open spec fn is_redundant(
    policy: PolicyView,
    tag: Seq<u8>,
    name: Seq<u8>,
    inert_script_types: Seq<Seq<u8>>,
    value: Seq<u8>,
) -> bool {
    ||| policy.redundant_if_empty && value.len() == 0
    ||| policy.default_value == Some(value)
    ||| tag == script_tag() && name == type_attribute() && inert_script_types.contains(value)
}

/// A form that writes nothing.
pub open spec fn nothing(typ: AttrType) -> MinifiedView {
    MinifiedView { typ, prefix: Seq::empty(), payload: Seq::empty(), suffix: Seq::empty() }
}

/// The three forms of `v` have lengths that a `usize` holds.
pub open spec fn forms_fit(v: Seq<u8>) -> bool {
    &&& double_quoted_form(v).len() <= usize::MAX
    &&& single_quoted_form(v).len() <= usize::MAX
    &&& unquoted_form(v).len() <= usize::MAX
}

/// The style of the shortest of the three forms of `v`. Of two forms of one
/// length the double-quoted one is taken before the other two, and the
/// single-quoted one before the unquoted one.
pub open spec fn shortest_style(v: Seq<u8>) -> QuoteStyle {
    let double = double_quoted_form(v).len();
    let single = single_quoted_form(v).len();
    let bare = unquoted_form(v).len();
    if double <= single && double <= bare {
        QuoteStyle::Double
    } else if single <= bare {
        QuoteStyle::Single
    } else {
        QuoteStyle::Unquoted
    }
}

/// The shortest of the three forms of `v`.
pub open spec fn shortest_form(v: Seq<u8>) -> MinifiedView {
    form(shortest_style(v), v)
}

/// Whether two runs of bytes are the same.
fn same_bytes(left: &[u8], right: &[u8]) -> (same: bool)
    ensures
        same == (left@ == right@),
{
    if left.len() != right.len() {
        return false;
    }
    let mut i: usize = 0;
    while i < left.len()
        invariant
            i <= left.len() == right.len(),
            forall|k: int| 0 <= k < i ==> left@[k] == right@[k],
        decreases left.len() - i,
    {
        if left[i] != right[i] {
            return false;
        }
        i += 1;
    }
    assert(left@ =~= right@);
    true
}

/// Whether `value` is one of `list`.
fn is_listed(list: &Vec<Vec<u8>>, value: &[u8]) -> (listed: bool)
    ensures
        listed == list.deep_view().contains(value@),
{
    let mut i: usize = 0;
    while i < list.len()
        invariant
            i <= list.len(),
            forall|k: int| 0 <= k < i ==> list.deep_view()[k] != value@,
        decreases list.len() - i,
    {
        assert(list.deep_view()[i as int] =~= list@[i as int]@);
        if same_bytes(list[i].as_slice(), value) {
            return true;
        }
        i += 1;
    }
    false
}

/// Decides [`is_redundant`].
fn redundant(
    policy: Option<&AttrPolicy>,
    tag: &[u8],
    name: &[u8],
    inert_script_types: &Vec<Vec<u8>>,
    value: &[u8],
) -> (yes: bool)
    ensures
        yes == is_redundant(
            effective_policy(policy),
            tag@,
            name@,
            inert_script_types.deep_view(),
            value@,
        ),
{
    if let Some(found) = policy {
        if found.redundant_if_empty && value.len() == 0 {
            return true;
        }
        if let Some(default_value) = &found.default_value {
            if same_bytes(default_value.as_slice(), value) {
                return true;
            }
        }
    }
    let script: Vec<u8> = vec![0x73, 0x63, 0x72, 0x69, 0x70, 0x74];
    let type_attr: Vec<u8> = vec![0x74, 0x79, 0x70, 0x65];
    assert(script@ =~= script_tag());
    assert(type_attr@ =~= type_attribute());
    same_bytes(tag, script.as_slice()) && same_bytes(name, type_attr.as_slice()) && is_listed(
        inert_script_types,
        value,
    )
}

/// Encodes `val` in the three forms and keeps the shortest.
pub fn encode_shortest(encoders: &QuoteEncoders, val: &[u8]) -> (min: AttrValMinified)
    requires
        forms_fit(val@),
    ensures
        min@ == shortest_form(val@),
{
    let double = encode_using_double_quotes(encoders, val);
    let single = encode_using_single_quotes(encoders, val);
    let bare = encode_unquoted(encoders, val);
    if double.len() <= single.len() && double.len() <= bare.len() {
        double
    } else if single.len() <= bare.len() {
        single
    } else {
        bare
    }
}

/// What is decided of an attribute before anything is encoded.
pub enum Decision {
    /// The attribute is left out.
    Redundant,
    /// The attribute is written by its name alone.
    NoValue,
    /// The attribute is written with this value, which is still to be encoded.
    Value(Seq<u8>),
}

/// The decision on the raw value `raw` of the attribute `name` of an element
/// `tag`. Redundancy is tested first, on the normalized value, so that an
/// attribute that says nothing is left out even where it is a boolean one.
pub open spec fn decision(
    policy: PolicyView,
    tag: Seq<u8>,
    name: Seq<u8>,
    inert_script_types: Seq<Seq<u8>>,
    raw: Seq<u8>,
) -> Decision {
    let value = normalized(policy, raw);
    if is_redundant(policy, tag, name, inert_script_types, value) {
        Decision::Redundant
    } else if policy.boolean {
        Decision::NoValue
    } else {
        Decision::Value(value)
    }
}

/// The decision that [`minify_attr_val`] makes on its arguments.
pub open spec fn decided(
    policy: Option<&AttrPolicy>,
    inert_script_types: &Vec<Vec<u8>>,
    tag: &[u8],
    name: &[u8],
    raw: Seq<u8>,
) -> Decision {
    decision(effective_policy(policy), tag@, name@, inert_script_types.deep_view(), raw)
}

/// Minifies the value `value_raw` of the attribute `name` of an element `tag`.
///
/// `policy` is what is known of the attribute, if anything is.
/// `inert_script_types` lists the types that a script has anyway.
/// `encode_entities` escapes, for a value of an attribute, what no way of
/// quoting makes safe. It is called only where the attribute is written with a
/// value: once, on the normalized value, with `true` for "in an attribute". It
/// must accept that value, and the forms of what it returns must fit. The
/// result is then the shortest form of what it returned.
pub fn minify_attr_val<E>(
    encoders: &QuoteEncoders,
    policy: Option<&AttrPolicy>,
    inert_script_types: &Vec<Vec<u8>>,
    tag: &[u8],
    name: &[u8],
    value_raw: Vec<u8>,
    encode_entities: E,
) -> (min: AttrValMinified) where E: FnOnce(&[u8], bool) -> Vec<u8>
    requires
        forall|value: &[u8]|
            decided(policy, inert_script_types, tag, name, value_raw@) == Decision::Value(value@)
                ==> call_requires(encode_entities, (value, true)),
        forall|value: &[u8], encoded: Vec<u8>|
            decided(policy, inert_script_types, tag, name, value_raw@) == Decision::Value(value@)
                && call_ensures(encode_entities, (value, true), encoded) ==> forms_fit(encoded@),
    ensures
        match decided(policy, inert_script_types, tag, name, value_raw@) {
            Decision::Redundant => min@ == nothing(AttrType::Redundant),
            Decision::NoValue => min@ == nothing(AttrType::NoValue),
            Decision::Value(value) => exists|given: &[u8], encoded: Vec<u8>|
                {
                    &&& given@ == value
                    &&& call_ensures(encode_entities, (given, true), encoded)
                    &&& min@ == shortest_form(encoded@)
                },
        },
{
    let mut value = value_raw;
    let mut is_boolean = false;
    if let Some(found) = policy {
        is_boolean = found.boolean;
        if found.collapse_and_trim {
            right_trim(&mut value);
            left_trim(&mut value);
            collapse_whitespace(&mut value);
        }
    }
    if redundant(policy, tag, name, inert_script_types, value.as_slice()) {
        return AttrValMinified::nothing(AttrType::Redundant);
    }
    if is_boolean {
        return AttrValMinified::nothing(AttrType::NoValue);
    }
    let encoded = encode_entities(value.as_slice(), true);
    encode_shortest(encoders, encoded.as_slice())
}

/// Whether `val` is so short that each of its forms is sure to fit: no form is
/// longer than five times the value and five bytes more.
pub fn is_short_enough(val: &[u8]) -> (ok: bool)
    ensures
        ok == (5 * val@.len() + 5 <= usize::MAX),
        ok ==> forms_fit(val@),
{
    proof {
        if 5 * val@.len() + 5 <= usize::MAX {
            lemma_short_values_fit(val@);
        }
    }
    val.len() <= (usize::MAX - 5) / 5
}

/// No form of a value is longer than five times the value and five bytes
/// more.
pub proof fn lemma_short_values_fit(v: Seq<u8>)
    requires
        5 * v.len() + 5 <= usize::MAX,
    ensures
        forms_fit(v),
{
    lemma_escaped_len(QuoteStyle::Double, v);
    lemma_escaped_len(QuoteStyle::Single, v);
    lemma_escaped_len(QuoteStyle::Unquoted, v);
    let data = crate::escape::escaped(QuoteStyle::Unquoted, v);
    if data.len() > 0 {
        lemma_reference_is_safe(data[0]);
        reveal_with_fuel(crate::escape::decimal, 3);
    }
}

/// Minimality: the form that is kept is no longer than any of the three, and
/// it is written with a value.
pub proof fn lemma_shortest_is_minimal(v: Seq<u8>)
    ensures
        forall|style: QuoteStyle| shortest_form(v).len() <= (#[trigger] form(style, v)).len(),
        shortest_form(v).typ == AttrType::Quoted || shortest_form(v).typ == AttrType::Unquoted,
{
    assert forall|style: QuoteStyle|
        shortest_form(v).len() <= (#[trigger] form(style, v)).len() by {
        match style {
            QuoteStyle::Double => {},
            QuoteStyle::Single => {},
            QuoteStyle::Unquoted => {},
        }
    }
}

/// Ties: a form is kept only where it is strictly shorter than each form that
/// is preferred to it. So the double-quoted form is kept wherever none is
/// shorter, and the unquoted one only where it is the one shortest.
pub proof fn lemma_ties_prefer_quotes(v: Seq<u8>)
    ensures
        shortest_style(v) == QuoteStyle::Double <==> double_quoted_form(v).len()
            <= single_quoted_form(v).len() && double_quoted_form(v).len() <= unquoted_form(v).len(),
        shortest_style(v) == QuoteStyle::Single ==> single_quoted_form(v).len()
            < double_quoted_form(v).len(),
        shortest_style(v) == QuoteStyle::Unquoted ==> unquoted_form(v).len() < double_quoted_form(
            v,
        ).len() && unquoted_form(v).len() < single_quoted_form(v).len(),
{
}

/// A boolean attribute that is not redundant is written by its name alone,
/// whatever its value, and nothing is written for the value.
pub proof fn lemma_boolean_has_no_value(
    policy: PolicyView,
    tag: Seq<u8>,
    name: Seq<u8>,
    inert_script_types: Seq<Seq<u8>>,
    raw: Seq<u8>,
)
    requires
        policy.boolean,
        !is_redundant(policy, tag, name, inert_script_types, normalized(policy, raw)),
    ensures
        decision(policy, tag, name, inert_script_types, raw) == Decision::NoValue,
        nothing(AttrType::NoValue).len() == 0,
{
}

/// A boolean attribute never has a value written for it: it is left out or
/// written by its name alone.
pub proof fn lemma_boolean_writes_nothing(
    policy: PolicyView,
    tag: Seq<u8>,
    name: Seq<u8>,
    inert_script_types: Seq<Seq<u8>>,
    raw: Seq<u8>,
)
    requires
        policy.boolean,
    ensures
        !(decision(policy, tag, name, inert_script_types, raw) is Value),
        nothing(AttrType::NoValue).len() == 0,
        nothing(AttrType::Redundant).len() == 0,
{
}

/// An attribute that is redundant when empty is left out when its raw value is
/// empty, whether or not it has a default value as well.
pub proof fn lemma_empty_is_redundant(
    policy: PolicyView,
    tag: Seq<u8>,
    name: Seq<u8>,
    inert_script_types: Seq<Seq<u8>>,
    raw: Seq<u8>,
)
    requires
        policy.redundant_if_empty,
        raw.len() == 0,
    ensures
        decision(policy, tag, name, inert_script_types, raw) == Decision::Redundant,
{
    assert(normalized(policy, raw).len() == 0) by {
        reveal_with_fuel(right_trimmed, 1);
        reveal_with_fuel(left_trimmed, 1);
        reveal_with_fuel(collapsed, 1);
    }
}

/// An attribute is left out when its raw value is its default value, whether
/// or not it is redundant when empty as well. Left aside are the defaults that
/// trimming and collapsing would change, under a policy that asks for both.
pub proof fn lemma_default_is_redundant(
    policy: PolicyView,
    tag: Seq<u8>,
    name: Seq<u8>,
    inert_script_types: Seq<Seq<u8>>,
    raw: Seq<u8>,
)
    requires
        policy.default_value == Some(raw),
        normalized(policy, raw) == raw,
    ensures
        decision(policy, tag, name, inert_script_types, raw) == Decision::Redundant,
{
}

/// An attribute with a value that is neither empty nor its default is written
/// with that value, encoded, also where the policy knows both ways of being
/// redundant. Left aside are boolean attributes, the types of scripts, and raw
/// values that are empty or the default once trimmed and collapsed.
pub proof fn lemma_other_value_is_written(
    policy: PolicyView,
    tag: Seq<u8>,
    name: Seq<u8>,
    inert_script_types: Seq<Seq<u8>>,
    raw: Seq<u8>,
    encoded: Seq<u8>,
)
    requires
        !policy.boolean,
        !(policy.redundant_if_empty && normalized(policy, raw).len() == 0),
        policy.default_value != Some(normalized(policy, raw)),
        !(tag == script_tag() && name == type_attribute() && inert_script_types.contains(
            normalized(policy, raw),
        )),
    ensures
        decision(policy, tag, name, inert_script_types, raw) == Decision::Value(
            normalized(policy, raw),
        ),
        shortest_form(encoded).typ == AttrType::Quoted || shortest_form(encoded).typ
            == AttrType::Unquoted,
{
}

} // verus!
