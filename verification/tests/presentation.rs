use auxein_core::json::{parse, Value};
use auxein_core::presentation::{parse_presentation, parse_weighted_presentation};
use auxein_core::types::Error;

fn invalid_message<T: std::fmt::Debug>(r: Result<T, Error>) -> String {
    match r {
        Err(Error::Invalid(m)) => m,
        other => panic!("expected an Invalid error, got {other:?}"),
    }
}

fn doc(text: &str) -> Value {
    parse(text).unwrap()
}

#[test]
fn presentations_keep_their_number_texts() {
    let xs = parse_presentation(doc("[[1,2.5],[-0.25e1,0]]")).unwrap();
    assert_eq!(xs, vec![vec!["1".to_string(), "2.5".to_string()], vec!["-0.25e1".to_string(), "0".to_string()]]);
}

#[test]
fn presentation_shape_errors() {
    assert_eq!(
        invalid_message(parse_presentation(doc("{}"))),
        "presentation must be a JSON array of vectors"
    );
    assert_eq!(invalid_message(parse_presentation(doc("[]"))), "presentation must be nonempty");
    assert_eq!(
        invalid_message(parse_presentation(doc("[[1],2]"))),
        "presentation items must be vectors"
    );
    assert_eq!(
        invalid_message(parse_presentation(doc("[[1,\"a\"]]"))),
        "vector component must be a real number"
    );
    let huge = Value::Array(vec![Value::Array(vec![Value::Number("1e400".to_string())])]);
    assert_eq!(invalid_message(parse_presentation(huge)), "vector component must be finite");
}

#[test]
fn weighted_presentations_read_atoms_in_order() {
    let atoms = parse_weighted_presentation(doc("[[2,[1,2],0.5],[1,[],0]]")).unwrap();
    assert_eq!(atoms.len(), 2);
    assert_eq!(atoms[0].weight, "2");
    assert_eq!(atoms[0].center, vec!["1".to_string(), "2".to_string()]);
    assert_eq!(atoms[0].variance, "0.5");
    assert!(atoms[1].center.is_empty());
}

#[test]
fn weighted_presentation_errors() {
    assert_eq!(
        invalid_message(parse_weighted_presentation(doc("{}"))),
        "weighted presentation must be a JSON array"
    );
    assert_eq!(
        invalid_message(parse_weighted_presentation(doc("[]"))),
        "presentation must be nonempty"
    );
    assert_eq!(
        invalid_message(parse_weighted_presentation(doc("[[1,[0]]]"))),
        "weighted presentation items must be [W,C,V]"
    );
    assert_eq!(
        invalid_message(parse_weighted_presentation(doc("[3]"))),
        "weighted presentation items must be [W,C,V]"
    );
    assert_eq!(
        invalid_message(parse_weighted_presentation(doc("[[1,[0],0],[1,2,0]]"))),
        "presentation[1].center must be a vector"
    );
    // The weight is checked before the center, the center before the variance.
    assert_eq!(
        invalid_message(parse_weighted_presentation(doc("[[\"w\",2,\"v\"]]"))),
        "weight must be a real number"
    );
    assert_eq!(
        invalid_message(parse_weighted_presentation(doc("[[1,[\"c\"],\"v\"]]"))),
        "vector component must be a real number"
    );
    assert_eq!(
        invalid_message(parse_weighted_presentation(doc("[[1,[0],\"v\"]]"))),
        "variance must be a real number"
    );
}
