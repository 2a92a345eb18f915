use fsm_records::DataRecord;
use fsm_records::Value;

fn s(x: &str) -> String {
    x.to_string()
}

#[test]
fn insert_on_empty_gives_single() {
    let mut r = DataRecord::new();
    r.insert(s("f"), s("x"));
    let v = r.get("f").expect("field must be present");
    assert!(*v == Value::Single(s("x")));
}

#[test]
fn insert_twice_promotes_then_grows() {
    let mut r = DataRecord::new();
    r.insert(s("f"), s("x"));
    r.insert(s("f"), s("y"));
    assert!(*r.get("f").unwrap() == Value::List(vec![s("x"), s("y")]));
    r.insert(s("f"), s("z"));
    assert!(*r.get("f").unwrap() == Value::List(vec![s("x"), s("y"), s("z")]));
}

#[test]
fn insert_distinct_names_stay_single() {
    let mut r = DataRecord::new();
    r.insert(s("a"), s("1"));
    r.insert(s("b"), s("2"));
    assert!(*r.get("a").unwrap() == Value::Single(s("1")));
    assert!(*r.get("b").unwrap() == Value::Single(s("2")));
    assert_eq!(r.num_fields(), 2);
}

#[test]
fn append_single_onto_single_overwrites() {
    let mut r = DataRecord::new();
    r.append_value(s("f"), Value::Single(s("a"))).unwrap();
    r.append_value(s("f"), Value::Single(s("b"))).unwrap();
    assert!(*r.get("f").unwrap() == Value::Single(s("b")));
}

#[test]
fn append_single_onto_list_pushes() {
    let mut r = DataRecord::new();
    r.append_value(s("f"), Value::List(vec![s("a")])).unwrap();
    r.append_value(s("f"), Value::Single(s("b"))).unwrap();
    assert!(*r.get("f").unwrap() == Value::List(vec![s("a"), s("b")]));
}

#[test]
fn append_list_onto_list_concatenates() {
    let mut r = DataRecord::new();
    r.append_value(s("f"), Value::List(vec![s("a"), s("b")])).unwrap();
    r.append_value(s("f"), Value::List(vec![s("c"), s("d")])).unwrap();
    assert!(*r.get("f").unwrap() == Value::List(vec![s("a"), s("b"), s("c"), s("d")]));
}

#[test]
fn append_onto_absent_stores_as_is() {
    let mut r = DataRecord::new();
    r.append_value(s("f"), Value::List(vec![s("a")])).unwrap();
    assert!(*r.get("f").unwrap() == Value::List(vec![s("a")]));
    r.append_value(s("g"), Value::Single(s("b"))).unwrap();
    assert!(*r.get("g").unwrap() == Value::Single(s("b")));
}

#[test]
fn append_list_onto_single_is_fatal() {
    let mut r = DataRecord::new();
    r.append_value(s("f"), Value::Single(s("a"))).unwrap();
    let e = r.append_value(s("f"), Value::List(vec![s("b")])).unwrap_err();
    assert_eq!(e.field, s("f"));
    assert!(e.existing == Value::Single(s("a")));
    assert!(e.incoming == Value::List(vec![s("b")]));
    // the record is left unchanged
    assert!(*r.get("f").unwrap() == Value::Single(s("a")));
    assert_eq!(r.num_fields(), 1);
}

#[test]
fn overwrite_from_overlays_fields() {
    let mut a = DataRecord::new();
    a.insert(s("a"), s("1"));
    a.insert(s("b"), s("2"));
    let mut b = DataRecord::new();
    b.insert(s("b"), s("3"));
    b.insert(s("c"), s("4"));
    a.overwrite_from(b);
    assert!(*a.get("a").unwrap() == Value::Single(s("1")));
    assert!(*a.get("b").unwrap() == Value::Single(s("3")));
    assert!(*a.get("c").unwrap() == Value::Single(s("4")));
    assert_eq!(a.num_fields(), 3);
}

#[test]
fn overwrite_from_empty_changes_nothing() {
    let mut a = DataRecord::new();
    a.insert(s("a"), s("1"));
    a.overwrite_from(DataRecord::new());
    assert!(*a.get("a").unwrap() == Value::Single(s("1")));
    assert_eq!(a.num_fields(), 1);
}

#[test]
fn remove_deletes_and_tolerates_absent() {
    let mut r = DataRecord::new();
    r.insert(s("a"), s("1"));
    r.insert(s("b"), s("2"));
    r.remove("a");
    assert!(r.get("a").is_none());
    assert!(*r.get("b").unwrap() == Value::Single(s("2")));
    r.remove("missing");
    assert_eq!(r.num_fields(), 1);
}

#[test]
fn get_absent_is_none() {
    let r = DataRecord::new();
    assert!(r.get("nothing").is_none());
}

#[test]
fn keys_and_iter_list_the_fields() {
    let mut r = DataRecord::new();
    r.insert(s("a"), s("1"));
    r.insert(s("b"), s("2"));
    assert_eq!(r.keys(), vec![s("a"), s("b")]);
    let pairs = r.iter();
    assert!(pairs == vec![(s("a"), Value::Single(s("1"))), (s("b"), Value::Single(s("2")))]);
}

#[test]
fn clone_copies_fields_and_key() {
    let mut r = DataRecord::new();
    r.insert(s("a"), s("1"));
    r.record_key = Some(s("k"));
    let c = r.clone();
    assert!(*c.get("a").unwrap() == Value::Single(s("1")));
    assert_eq!(c.record_key, Some(s("k")));
}

#[test]
fn default_is_empty() {
    let r = DataRecord::default();
    assert_eq!(r.num_fields(), 0);
    assert!(r.record_key.is_none());
}
