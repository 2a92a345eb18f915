use fsm_records::Value;

fn s(x: &str) -> String {
    x.to_string()
}

#[test]
fn single_renders_as_bare_string() {
    assert_eq!(Value::Single(s("hello")).render(), s("hello"));
}

#[test]
fn empty_single_renders_empty() {
    assert_eq!(Value::Single(s("")).render(), s(""));
}

#[test]
fn list_renders_bracketed_and_quoted() {
    assert_eq!(Value::List(vec![s("p"), s("q")]).render(), s("[\"p\", \"q\"]"));
}

#[test]
fn one_element_list_renders_without_separator() {
    assert_eq!(Value::List(vec![s("a")]).render(), s("[\"a\"]"));
}

#[test]
fn empty_list_renders_as_brackets() {
    assert_eq!(Value::List(Vec::new()).render(), s("[]"));
}

#[test]
fn value_equality_is_structural() {
    assert!(Value::Single(s("a")) == Value::Single(s("a")));
    assert!(Value::Single(s("a")) != Value::Single(s("b")));
    assert!(Value::Single(s("a")) != Value::List(vec![s("a")]));
    assert!(Value::List(vec![s("a"), s("b")]) == Value::List(vec![s("a"), s("b")]));
    assert!(Value::List(vec![s("a"), s("b")]) != Value::List(vec![s("b"), s("a")]));
    assert!(Value::List(vec![s("a")]) != Value::List(vec![s("a"), s("a")]));
}

#[test]
fn clone_preserves_value() {
    let v = Value::List(vec![s("a"), s("b")]);
    let c = v.clone();
    assert!(v == c);
    let w = Value::Single(s("z"));
    assert!(w.clone() == w);
}
