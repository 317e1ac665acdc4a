use auxein_core::report::{write_transformation, TransformationText};
use auxein_core::types::Space;
use auxein_core::emit::{quote, write_usize_vec};
use auxein_core::json::{parse, Value, MAX_DEPTH};
use auxein_core::types::Error;

fn json_message(text: &str) -> String {
    match parse(text) {
        Err(Error::Json(m)) => m,
        Err(other) => panic!("unexpected error kind: {other:?}"),
        Ok(v) => panic!("unexpectedly parsed: {v:?}"),
    }
}

#[test]
fn roundish() {
    let v = parse(r#"{"x":[1,-2.5e2,true,null,"é\\n"]}"#).unwrap();
    let Value::Object(o) = v else { panic!() };
    assert!(o.contains_key("x"));
}

#[test]
fn hostile_json_nesting_is_bounded() {
    let depth = 24usize;
    let text = format!("{}0{}", "[".repeat(depth), "]".repeat(depth));
    assert!(parse(&text).is_err());
    assert_eq!(json_message(&text), "JSON nesting is too deep");
}

#[test]
fn nesting_up_to_the_bound_is_accepted() {
    let text = format!("{}0{}", "[".repeat(MAX_DEPTH), "]".repeat(MAX_DEPTH));
    assert!(parse(&text).is_ok());
    let deeper = format!("{}0{}", "[".repeat(MAX_DEPTH + 1), "]".repeat(MAX_DEPTH + 1));
    assert!(parse(&deeper).is_err());
}

#[test]
fn parsed_values_keep_their_shape() {
    let v = parse(" [1, \"a\\u00e9\\ud83d\\ude00\", {\"k\": false}, null] ").unwrap();
    let Value::Array(items) = v else { panic!() };
    assert_eq!(items.len(), 4);
    assert!(matches!(&items[0], Value::Number(t) if t == "1"));
    assert!(matches!(&items[1], Value::String(s) if s == "a\u{e9}\u{1F600}"));
    let Value::Object(o) = &items[2] else { panic!() };
    assert_eq!(o.len(), 1);
    assert!(matches!(&o.entries[0], (k, Value::Bool(false)) if k == "k"));
    assert!(matches!(&items[3], Value::Null));
}

#[test]
fn number_text_is_kept_verbatim() {
    let v = parse("-0.50e+3").unwrap();
    assert!(matches!(v, Value::Number(t) if t == "-0.50e+3"));
}

#[test]
fn json_errors_name_their_place() {
    assert_eq!(json_message("[1 2]"), "expected ',' or ']' at byte 3");
    assert_eq!(json_message("{\"a\" 1}"), "expected ':' at byte 5");
    assert_eq!(json_message("{1:2}"), "expected object key at byte 1");
    assert_eq!(json_message("{\"a\":1 \"b\":2}"), "expected ',' or '}' at byte 7");
    assert_eq!(json_message("tru"), "invalid literal at byte 0");
    assert_eq!(json_message("1 1"), "unexpected trailing JSON at byte 2");
    assert_eq!(json_message(""), "unexpected end of JSON");
    assert_eq!(json_message("-"), "invalid number at byte 0");
    assert_eq!(json_message("1."), "invalid number at byte 0");
    assert_eq!(json_message("[1e]"), "invalid number at byte 1");
    assert_eq!(json_message("\"é\" x"), "unexpected trailing JSON at byte 5");
    assert_eq!(json_message("x"), "unexpected byte 120 at 0");
    assert_eq!(json_message(" é"), "unexpected byte 195 at 1");
}

#[test]
fn json_string_errors() {
    assert_eq!(json_message("\"abc"), "unterminated JSON string");
    assert_eq!(json_message("\"a\\"), "unterminated escape");
    assert_eq!(json_message("\"\\x\""), "invalid string escape");
    assert_eq!(json_message("\"\\u12x4\""), "invalid unicode escape");
    assert_eq!(json_message("\"\\u12\""), "short unicode escape");
    assert_eq!(json_message("\"\\u12"), "short unicode escape");
    assert_eq!(json_message("\"\\ud800\""), "high surrogate without low surrogate");
    assert_eq!(json_message("\"\\ud800\\u0041\""), "invalid low surrogate");
    assert_eq!(json_message("\"\\udc00\""), "unpaired low surrogate");
    assert_eq!(json_message("\"a\u{1}\""), "control byte in JSON string");
}

#[test]
fn duplicate_keys_are_refused() {
    assert_eq!(json_message("{\"a\":1,\"a\":2}"), "duplicate object key");
}

#[test]
fn non_finite_numbers_are_refused() {
    assert_eq!(json_message("1e309"), "non-finite JSON number");
    assert_eq!(json_message("-1e400"), "non-finite JSON number");
    assert!(parse("1.7976931348623157e308").is_ok());
    assert!(parse("1e-400").is_ok());
    // 2^1024 - 2^970 rounds up to infinity; one less stays finite.
    let threshold = "179769313486231580793728971405303415079934132710037826936173778980444968292764750946649017977587207096330286416692887910946555547851940402630657488671505820681908902000708383676273854845817711531764475730270069855571366959622842914819860834936475292719074168444365510704342711559699508093042880177904174497792";
    assert_eq!(json_message(threshold), "non-finite JSON number");
    let below = "179769313486231580793728971405303415079934132710037826936173778980444968292764750946649017977587207096330286416692887910946555547851940402630657488671505820681908902000708383676273854845817711531764475730270069855571366959622842914819860834936475292719074168444365510704342711559699508093042880177904174497791";
    assert!(parse(below).is_ok());
}

#[test]
fn quote_escapes_what_json_requires() {
    let mut out = String::from("x=");
    quote(&mut out, "a\"b\\c\nd\re\tf\u{8}g\u{c}h\u{1}i\u{1f}é");
    assert_eq!(out, "x=\"a\\\"b\\\\c\\nd\\re\\tf\\bg\\fh\\u0001i\\u001fé\"");
}

#[test]
fn quoted_text_parses_back() {
    let text = "tab\t quote\" back\\ nul\u{0} snow\u{2603}";
    let mut out = String::new();
    quote(&mut out, text);
    assert!(matches!(parse(&out).unwrap(), Value::String(s) if s == text));
}

#[test]
fn usize_vectors_are_json_arrays() {
    let mut out = String::new();
    write_usize_vec(&mut out, &[]);
    assert_eq!(out, "[]");
    out.clear();
    write_usize_vec(&mut out, &[0, 7, 120]);
    assert_eq!(out, "[0,7,120]");
}

#[test]
fn malformed_ascii_json_never_panics() {
    let alphabet = b"[]{}:,\\\"-+.eE0123456789truefalsenull abcXYZ";
    let mut state = 0x9e37_79b9_7f4a_7c15u64;
    for len in 0..256usize {
        for _ in 0..16 {
            let mut text = String::with_capacity(len);
            for _ in 0..len {
                state ^= state << 13;
                state ^= state >> 7;
                state ^= state << 17;
                text.push(alphabet[(state as usize) % alphabet.len()] as char);
            }
            let _ = parse(&text);
        }
    }
}

#[test]
fn transformations_are_written_in_report_order() {
    let mut out = String::new();
    write_transformation(&mut out, &TransformationText::DestroyCells { count: 3, waves: 2, k_through: "0.5".to_string() });
    assert_eq!(out, "{\"phase\":\"solvency\",\"type\":\"destroy_cells\",\"count\":3,\"waves\":2,\"K_through\":0.5}");
    let mut out = String::new();
    write_transformation(&mut out, &TransformationText::Promote { space: Space::Temporal, layer: 1, count: 4 });
    assert_eq!(out, "{\"phase\":\"temporal\",\"type\":\"promote\",\"layer\":1,\"count\":4}");
    let mut out = String::from("[");
    write_transformation(
        &mut out,
        &TransformationText::GrowthReject {
            geometric_seeds: 1,
            temporal_seeds: 0,
            seeds: 1,
            layer_requested: true,
            units: 120,
        },
    );
    assert_eq!(
        out,
        "[{\"phase\":\"growth\",\"type\":\"reject\",\"geometric_seeds\":1,\"temporal_seeds\":0,\"seeds\":1,\"layer_requested\":true,\"units\":120}"
    );
    let mut out = String::new();
    write_transformation(&mut out, &TransformationText::ClearSigma { count: 10 });
    assert_eq!(out, "{\"phase\":\"solvency\",\"type\":\"clear_sigma\",\"count\":10}");
}

#[test]
fn nested_overflowing_numbers_are_refused() {
    assert_eq!(json_message("{\"a\":[1,{\"b\":[2e308]}]}"), "non-finite JSON number");
    assert!(parse("{\"a\":[1,{\"b\":[1.7976931348623157e308]}]}").is_ok());
}
