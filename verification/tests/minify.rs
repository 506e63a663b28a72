use minify_attr::attr::{AttrType, AttrValMinified};
use minify_attr::encoders::QuoteEncoders;
use minify_attr::minify::{encode_shortest, is_short_enough, minify_attr_val, AttrPolicy};

fn rendered(min: &AttrValMinified) -> Vec<u8> {
    let mut out = Vec::new();
    min.out(&mut out);
    out
}

fn policy() -> AttrPolicy {
    AttrPolicy {
        collapse_and_trim: false,
        boolean: false,
        redundant_if_empty: false,
        default_value: None,
    }
}

fn script_types() -> Vec<Vec<u8>> {
    vec![b"text/javascript".to_vec(), b"application/javascript".to_vec()]
}

fn as_it_is(value: &[u8], _in_attr: bool) -> Vec<u8> {
    value.to_vec()
}

fn never(_value: &[u8], _in_attr: bool) -> Vec<u8> {
    panic!("nothing is encoded for an attribute without a value")
}

fn minify(found: Option<&AttrPolicy>, tag: &[u8], name: &[u8], value: &[u8]) -> AttrValMinified {
    let encoders = QuoteEncoders::new();
    minify_attr_val(&encoders, found, &script_types(), tag, name, value.to_vec(), as_it_is)
}

fn written_for_nothing(
    found: Option<&AttrPolicy>,
    tag: &[u8],
    name: &[u8],
    value: &[u8],
) -> AttrType {
    let encoders = QuoteEncoders::new();
    let min = minify_attr_val(&encoders, found, &script_types(), tag, name, value.to_vec(), never);
    assert_eq!(min.len(), 0);
    assert_eq!(rendered(&min), Vec::<u8>::new());
    min.typ()
}

#[test]
fn quotes_inside_a_sentence_make_single_quotes_shortest() {
    let min = minify(None, b"p", b"title", b"he said \"hi\"");
    assert_eq!(rendered(&min), b"'he said \"hi\"'".to_vec());
    assert_eq!(min.len(), 14);
    assert!(min.typ() == AttrType::Quoted);
    let encoders = QuoteEncoders::new();
    let val = b"he said \"hi\"";
    assert_eq!(minify_attr::attr::encode_using_double_quotes(&encoders, val).len(), 20);
    assert_eq!(minify_attr::attr::encode_unquoted(&encoders, val).len(), 18);
}

#[test]
fn empty_value_of_attribute_redundant_if_empty_is_redundant() {
    let found = AttrPolicy { redundant_if_empty: true, ..policy() };
    assert!(written_for_nothing(Some(&found), b"div", b"class", b"") == AttrType::Redundant);
}

#[test]
fn boolean_attribute_has_no_value() {
    let found = AttrPolicy { boolean: true, ..policy() };
    let got = written_for_nothing(Some(&found), b"input", b"checked", b"checked");
    assert!(got == AttrType::NoValue);
    assert!(written_for_nothing(Some(&found), b"input", b"checked", b"") == AttrType::NoValue);
    assert!(written_for_nothing(Some(&found), b"input", b"checked", b"\"' >") == AttrType::NoValue);
    assert!(written_for_nothing(Some(&found), b"input", b"checked", b"false") == AttrType::NoValue);
}

#[test]
fn boolean_attribute_that_is_redundant_is_left_out() {
    let found = AttrPolicy { boolean: true, redundant_if_empty: true, ..policy() };
    assert!(written_for_nothing(Some(&found), b"a", b"x", b"") == AttrType::Redundant);
    assert!(written_for_nothing(Some(&found), b"a", b"x", b"y") == AttrType::NoValue);
    let found = AttrPolicy { boolean: true, default_value: Some(b"on".to_vec()), ..policy() };
    assert!(written_for_nothing(Some(&found), b"a", b"x", b"on") == AttrType::Redundant);
}

#[test]
fn empty_and_default_are_both_redundant() {
    let found = AttrPolicy {
        redundant_if_empty: true,
        default_value: Some(b"get".to_vec()),
        ..policy()
    };
    assert!(written_for_nothing(Some(&found), b"form", b"method", b"") == AttrType::Redundant);
    assert!(written_for_nothing(Some(&found), b"form", b"method", b"get") == AttrType::Redundant);
    let min = minify(Some(&found), b"form", b"method", b"post");
    assert!(min.typ() == AttrType::Unquoted);
    assert_eq!(rendered(&min), b"post".to_vec());
    let min = minify(Some(&found), b"form", b"method", b"get ");
    assert!(min.typ() == AttrType::Quoted);
    assert_eq!(rendered(&min), b"\"get \"".to_vec());
}

#[test]
fn default_is_compared_byte_for_byte() {
    let found = AttrPolicy { default_value: Some(b"get".to_vec()), ..policy() };
    assert_eq!(rendered(&minify(Some(&found), b"form", b"method", b"GET")), b"GET".to_vec());
    assert_eq!(rendered(&minify(Some(&found), b"form", b"method", b"ge")), b"ge".to_vec());
    assert_eq!(rendered(&minify(Some(&found), b"form", b"method", b"")), Vec::<u8>::new());
    assert!(minify(Some(&found), b"form", b"method", b"").typ() == AttrType::Unquoted);
}

#[test]
fn empty_default_makes_the_empty_value_redundant() {
    let found = AttrPolicy { default_value: Some(Vec::new()), ..policy() };
    assert!(written_for_nothing(Some(&found), b"a", b"b", b"") == AttrType::Redundant);
}

#[test]
fn value_is_trimmed_before_it_is_tested() {
    let found = AttrPolicy { collapse_and_trim: true, redundant_if_empty: true, ..policy() };
    assert!(written_for_nothing(Some(&found), b"div", b"class", b" \t\n ") == AttrType::Redundant);
    let found = AttrPolicy {
        collapse_and_trim: true,
        default_value: Some(b"a b".to_vec()),
        ..policy()
    };
    let got = written_for_nothing(Some(&found), b"div", b"class", b"  a \n b ");
    assert!(got == AttrType::Redundant);
}

#[test]
fn value_is_trimmed_and_collapsed_before_it_is_encoded() {
    let found = AttrPolicy { collapse_and_trim: true, ..policy() };
    let min = minify(Some(&found), b"div", b"class", b"  a \t b\n\nc  ");
    assert_eq!(rendered(&min), b"\"a b c\"".to_vec());
    let min = minify(Some(&found), b"div", b"class", b"  a  ");
    assert_eq!(rendered(&min), b"a".to_vec());
}

#[test]
fn value_is_kept_as_it_is_without_a_policy() {
    let min = minify(None, b"div", b"class", b" a ");
    assert_eq!(rendered(&min), b"\" a \"".to_vec());
    let found = policy();
    let min = minify(Some(&found), b"div", b"class", b" a ");
    assert_eq!(rendered(&min), b"\" a \"".to_vec());
}

#[test]
fn script_type_that_scripts_have_anyway_is_redundant() {
    let got = written_for_nothing(None, b"script", b"type", b"text/javascript");
    assert!(got == AttrType::Redundant);
    assert!(
        written_for_nothing(None, b"script", b"type", b"application/javascript")
            == AttrType::Redundant
    );
}

#[test]
fn other_script_types_and_other_attributes_are_written() {
    assert_eq!(rendered(&minify(None, b"script", b"type", b"module")), b"module".to_vec());
    assert_eq!(
        rendered(&minify(None, b"script", b"src", b"text/javascript")),
        b"text/javascript".to_vec()
    );
    assert_eq!(
        rendered(&minify(None, b"style", b"type", b"text/javascript")),
        b"text/javascript".to_vec()
    );
    assert_eq!(
        rendered(&minify(None, b"script", b"type", b"text/javascript ")),
        b"\"text/javascript \"".to_vec()
    );
}

#[test]
fn script_type_is_tested_after_trimming() {
    let found = AttrPolicy { collapse_and_trim: true, ..policy() };
    assert!(
        written_for_nothing(Some(&found), b"script", b"type", b" text/javascript\n")
            == AttrType::Redundant
    );
}

#[test]
fn value_is_escaped_in_attribute_mode_before_it_is_quoted() {
    let encoders = QuoteEncoders::new();
    let min = minify_attr_val(
        &encoders,
        None,
        &script_types(),
        b"a",
        b"href",
        b"a&b".to_vec(),
        |value: &[u8], in_attr: bool| {
            assert!(in_attr);
            assert_eq!(value, b"a&b");
            b"a&amp;b \"c\"".to_vec()
        },
    );
    assert_eq!(rendered(&min), b"'a&amp;b \"c\"'".to_vec());
}

#[test]
fn encoder_gets_the_trimmed_value() {
    let encoders = QuoteEncoders::new();
    let found = AttrPolicy { collapse_and_trim: true, ..policy() };
    let min = minify_attr_val(
        &encoders,
        Some(&found),
        &script_types(),
        b"a",
        b"class",
        b"  x   y ".to_vec(),
        |value: &[u8], _in_attr: bool| {
            assert_eq!(value, b"x y");
            value.to_vec()
        },
    );
    assert_eq!(rendered(&min), b"\"x y\"".to_vec());
}

#[test]
fn bare_form_is_kept_where_it_is_shortest() {
    let encoders = QuoteEncoders::new();
    let min = encode_shortest(&encoders, b"abc");
    assert_eq!(rendered(&min), b"abc".to_vec());
    assert!(min.typ() == AttrType::Unquoted);
    let min = encode_shortest(&encoders, b"");
    assert_eq!(min.len(), 0);
    assert!(min.typ() == AttrType::Unquoted);
}

#[test]
fn double_quotes_are_preferred_on_a_tie_of_all_three() {
    let encoders = QuoteEncoders::new();
    let min = encode_shortest(&encoders, b">");
    assert_eq!(rendered(&min), b"\">\"".to_vec());
}

#[test]
fn double_quotes_are_preferred_to_single_quotes_on_a_tie() {
    let encoders = QuoteEncoders::new();
    let min = encode_shortest(&encoders, b" ");
    assert_eq!(rendered(&min), b"\" \"".to_vec());
    let min = encode_shortest(&encoders, b"  \"'");
    assert_eq!(rendered(&min), b"\"  &#34'\"".to_vec());
}

#[test]
fn single_quotes_are_preferred_to_no_quotes_on_a_tie() {
    let encoders = QuoteEncoders::new();
    let min = encode_shortest(&encoders, b">\"");
    assert_eq!(rendered(&min), b"'>\"'".to_vec());
    assert!(min.typ() == AttrType::Quoted);
}

#[test]
fn single_quotes_are_kept_where_they_are_shortest() {
    let encoders = QuoteEncoders::new();
    let min = encode_shortest(&encoders, b"a \"b\"");
    assert_eq!(rendered(&min), b"'a \"b\"'".to_vec());
}

#[test]
fn kept_form_is_no_longer_than_any_form() {
    let encoders = QuoteEncoders::new();
    let alphabet = b"\"' >;1a";
    let mut values: Vec<Vec<u8>> = vec![Vec::new()];
    for _ in 0..4 {
        let mut longer = Vec::new();
        for v in &values {
            for &b in alphabet {
                let mut w = v.clone();
                w.push(b);
                longer.push(w);
            }
        }
        values.extend(longer);
        values.sort();
        values.dedup();
    }
    for v in &values {
        let kept = encode_shortest(&encoders, v);
        let double = minify_attr::attr::encode_using_double_quotes(&encoders, v);
        let single = minify_attr::attr::encode_using_single_quotes(&encoders, v);
        let bare = minify_attr::attr::encode_unquoted(&encoders, v);
        assert!(kept.len() <= double.len());
        assert!(kept.len() <= single.len());
        assert!(kept.len() <= bare.len());
        let want = if double.len() <= single.len() && double.len() <= bare.len() {
            rendered(&double)
        } else if single.len() <= bare.len() {
            rendered(&single)
        } else {
            rendered(&bare)
        };
        assert_eq!(rendered(&kept), want);
    }
}

#[test]
fn any_value_in_memory_is_short_enough() {
    assert!(is_short_enough(b""));
    assert!(is_short_enough(&vec![b'"'; 100_000]));
}
