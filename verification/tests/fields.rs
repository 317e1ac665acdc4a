use auxein_core::fields::{
    exact_keys, expect_object, parse_u64, take_array, take_string, take_u64,
};
use auxein_core::json::{parse, Object, Value};
use auxein_core::types::Error;

fn object(text: &str) -> Object {
    expect_object(parse(text).unwrap(), "state").unwrap()
}

fn invalid_message<T: std::fmt::Debug>(r: Result<T, Error>) -> String {
    match r {
        Err(Error::Invalid(m)) => m,
        other => panic!("expected an Invalid error, got {other:?}"),
    }
}

#[test]
fn expect_object_accepts_only_objects() {
    assert_eq!(object("{\"a\":1}").len(), 1);
    assert_eq!(
        invalid_message(expect_object(parse("[1]").unwrap(), "layer")),
        "layer must be an object"
    );
}

#[test]
fn exact_keys_ignores_order_but_not_membership() {
    let o = object("{\"b\":1,\"a\":2}");
    assert!(exact_keys(&o, &["a", "b"], "state").is_ok());
    assert_eq!(
        invalid_message(exact_keys(&o, &["a"], "state")),
        "state has missing or unknown keys"
    );
    assert_eq!(
        invalid_message(exact_keys(&o, &["a", "b", "c"], "state")),
        "state has missing or unknown keys"
    );
    assert_eq!(
        invalid_message(exact_keys(&o, &["a", "c"], "state")),
        "state has missing or unknown keys"
    );
    assert_eq!(
        invalid_message(exact_keys(&o, &["a", "a"], "state")),
        "state has missing or unknown keys"
    );
}

#[test]
fn take_u64_reads_plain_integers() {
    let mut o = object("{\"n\":42,\"big\":18446744073709551615,\"over\":18446744073709551616,\"neg\":-1,\"frac\":1.0,\"exp\":1e3,\"s\":\"7\"}");
    assert_eq!(take_u64(&mut o, "n", "count").unwrap(), 42);
    assert_eq!(take_u64(&mut o, "big", "count").unwrap(), u64::MAX);
    for key in ["over", "neg", "frac", "exp", "s"] {
        assert_eq!(
            invalid_message(take_u64(&mut o, key, "count")),
            "count must be a nonnegative integer"
        );
    }
    assert_eq!(o.len(), 0);
    assert_eq!(invalid_message(take_u64(&mut o, "n", "count")), "missing count");
}

#[test]
fn parse_u64_follows_std() {
    assert_eq!(parse_u64("+7"), Some(7));
    assert_eq!(parse_u64("007"), Some(7));
    assert_eq!(parse_u64("+"), None);
    assert_eq!(parse_u64(""), None);
    assert_eq!(parse_u64("1_0"), None);
    assert_eq!(parse_u64("18446744073709551616"), None);
    for t in ["0", "9", "+12", "18446744073709551615", "x", "-1"] {
        assert_eq!(parse_u64(t), t.parse::<u64>().ok());
    }
}

#[test]
fn take_string_and_array_remove_the_member() {
    let mut o = object("{\"s\":\"hi\",\"l\":[1,2],\"x\":true}");
    assert_eq!(take_string(&mut o, "s", "name").unwrap(), "hi");
    assert_eq!(take_array(&mut o, "l", "items").unwrap().len(), 2);
    assert_eq!(invalid_message(take_string(&mut o, "x", "name")), "name must be a string");
    assert_eq!(o.len(), 0);
    assert_eq!(invalid_message(take_array(&mut o, "l", "items")), "items must be a list");
    assert!(!o.contains_key("s"));
}

#[test]
fn remove_keeps_the_other_members_in_order() {
    let mut o = object("{\"a\":1,\"b\":2,\"c\":3}");
    assert!(matches!(o.remove("b"), Some(Value::Number(t)) if t == "2"));
    assert!(o.remove("b").is_none());
    let keys: Vec<&str> = o.entries.iter().map(|(k, _)| k.as_str()).collect();
    assert_eq!(keys, ["a", "c"]);
}
