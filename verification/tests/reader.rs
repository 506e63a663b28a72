use minify_attr::attr::{
    encode_unquoted, encode_using_double_quotes, encode_using_single_quotes, AttrValMinified,
};
use minify_attr::encoders::QuoteEncoders;
use minify_attr::escape::QuoteStyle;
use minify_attr::minify::encode_shortest;

fn rendered(min: &AttrValMinified) -> Vec<u8> {
    let mut out = Vec::new();
    min.out(&mut out);
    out
}

/// The reference that `s` begins with: the byte it stands for, and its length.
fn leading_reference(s: &[u8]) -> Option<(u8, usize)> {
    if s.len() >= 3 && s[0] == b'&' && s[1] == b'#' && s[2].is_ascii_digit() {
        let digits = s[2..].iter().take_while(|b| b.is_ascii_digit()).count();
        let mut code: u128 = 0;
        for d in &s[2..2 + digits] {
            code = code.saturating_mul(10).saturating_add((d - b'0') as u128);
        }
        let closing = if s.get(2 + digits) == Some(&b';') { 1 } else { 0 };
        if 0 < code && code < 128 {
            Some((code as u8, 2 + digits + closing))
        } else {
            None
        }
    } else if s.starts_with(b"&GT") {
        Some((b'>', if s.get(3) == Some(&b';') { 4 } else { 3 }))
    } else {
        None
    }
}

fn decoded(mut s: &[u8]) -> Vec<u8> {
    let mut out = Vec::new();
    while !s.is_empty() {
        match leading_reference(s) {
            Some((b, n)) => {
                out.push(b);
                s = &s[n..];
            }
            None => {
                out.push(s[0]);
                s = &s[1..];
            }
        }
    }
    out
}

fn ends_value(style: QuoteStyle, b: u8) -> bool {
    match style {
        QuoteStyle::Double => b == b'"',
        QuoteStyle::Single => b == b'\'',
        QuoteStyle::Unquoted => b"\t\n\x0c\r >".contains(&b),
    }
}

/// Reads a value written in `style` at the start of `input`.
fn read_value(style: QuoteStyle, input: &[u8]) -> Option<(Vec<u8>, Vec<u8>)> {
    let body = match style {
        QuoteStyle::Double => input.strip_prefix(b"\"")?,
        QuoteStyle::Single => input.strip_prefix(b"'")?,
        QuoteStyle::Unquoted => {
            if input.first() == Some(&b'"') || input.first() == Some(&b'\'') {
                return None;
            }
            input
        }
    };
    let n = body.iter().take_while(|&&b| !ends_value(style, b)).count();
    match style {
        QuoteStyle::Unquoted => Some((decoded(&body[..n]), body[n..].to_vec())),
        _ if n == body.len() => None,
        _ => Some((decoded(&body[..n]), body[n + 1..].to_vec())),
    }
}

fn written(encoders: &QuoteEncoders, style: QuoteStyle, v: &[u8]) -> Vec<u8> {
    match style {
        QuoteStyle::Double => rendered(&encode_using_double_quotes(encoders, v)),
        QuoteStyle::Single => rendered(&encode_using_single_quotes(encoders, v)),
        QuoteStyle::Unquoted => rendered(&encode_unquoted(encoders, v)),
    }
}

fn all_values(alphabet: &[u8], max_len: usize) -> Vec<Vec<u8>> {
    let mut all: Vec<Vec<u8>> = vec![Vec::new()];
    let mut last: Vec<Vec<u8>> = vec![Vec::new()];
    for _ in 0..max_len {
        let mut next = Vec::new();
        for v in &last {
            for &b in alphabet {
                let mut longer = v.clone();
                longer.push(b);
                next.push(longer);
            }
        }
        all.extend(next.iter().cloned());
        last = next;
    }
    all
}

const STYLES: [QuoteStyle; 3] = [QuoteStyle::Double, QuoteStyle::Single, QuoteStyle::Unquoted];

#[test]
fn value_without_references_is_read_back_as_it_was() {
    let encoders = QuoteEncoders::new();
    for v in all_values(b"\"' \n>;7a", 4) {
        assert_eq!(decoded(&v), v);
        for style in STYLES {
            let out = written(&encoders, style, &v);
            assert_eq!(read_value(style, &out), Some((v.clone(), Vec::new())));
        }
    }
}

#[test]
fn value_is_read_back_with_its_meaning() {
    let encoders = QuoteEncoders::new();
    for v in all_values(b"\"' >;3&#GT", 4) {
        for style in STYLES {
            let out = written(&encoders, style, &v);
            assert_eq!(read_value(style, &out), Some((decoded(&v), Vec::new())));
        }
    }
}

#[test]
fn reader_stops_behind_the_value() {
    let encoders = QuoteEncoders::new();
    for v in [&b""[..], b"a b", b"\"1", b"';", b">;", b"x>", b"&#3", b"a\"", b"q "] {
        for style in STYLES {
            for rest in [&b" b=c>"[..], b">text", b"\tx"] {
                let mut input = written(&encoders, style, v);
                input.extend_from_slice(rest);
                assert_eq!(read_value(style, &input), Some((decoded(v), rest.to_vec())));
            }
        }
        for style in [QuoteStyle::Double, QuoteStyle::Single] {
            for rest in [&b"1"[..], b";", b"\"", b"'", b"a"] {
                let mut input = written(&encoders, style, v);
                input.extend_from_slice(rest);
                assert_eq!(read_value(style, &input), Some((decoded(v), rest.to_vec())));
            }
        }
    }
}

#[test]
fn value_with_a_reference_of_its_own_is_read_as_that_reference() {
    let encoders = QuoteEncoders::new();
    let v = b"&#65 \"&GT";
    for style in STYLES {
        let out = written(&encoders, style, v);
        assert_eq!(read_value(style, &out), Some((b"A \">".to_vec(), Vec::new())));
    }
}

#[test]
fn unclosed_reference_would_swallow_a_digit() {
    assert_eq!(decoded(b"&#345"), b"&#345".to_vec());
    assert_eq!(decoded(b"&#34;5"), b"\"5".to_vec());
    assert_eq!(decoded(b"&#34;"), b"\"".to_vec());
    assert_eq!(decoded(b"&#34;;"), b"\";".to_vec());
    assert_eq!(decoded(b"&#321"), b"&#321".to_vec());
    assert_eq!(decoded(b"&#32;1"), b" 1".to_vec());
}

#[test]
fn kept_form_is_read_back_in_its_style() {
    let encoders = QuoteEncoders::new();
    for v in all_values(b"\"' >;3a", 4) {
        let out = rendered(&encode_shortest(&encoders, &v));
        let style = match out.first() {
            Some(b'"') => QuoteStyle::Double,
            Some(b'\'') => QuoteStyle::Single,
            _ => QuoteStyle::Unquoted,
        };
        assert_eq!(read_value(style, &out), Some((v.clone(), Vec::new())));
    }
}
