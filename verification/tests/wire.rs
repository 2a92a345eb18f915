use fsm_records::DataRecord;
use fsm_records::Value;

fn s(x: &str) -> String {
    x.to_string()
}

#[test]
fn list_round_trips_through_wire() {
    let mut r = DataRecord::new();
    r.append_value(s("x"), Value::List(vec![s("p"), s("q")])).unwrap();
    let w = r.iter();
    assert!(w == vec![(s("x"), Value::List(vec![s("p"), s("q")]))]);
    let r2 = DataRecord::from_wire(w);
    assert!(*r2.get("x").unwrap() == Value::List(vec![s("p"), s("q")]));
    assert_eq!(r2.num_fields(), 1);
}

#[test]
fn single_round_trips_through_wire() {
    let mut r = DataRecord::new();
    r.insert(s("x"), s("z"));
    let w = r.iter();
    assert!(w == vec![(s("x"), Value::Single(s("z")))]);
    let r2 = DataRecord::from_wire(w);
    assert!(*r2.get("x").unwrap() == Value::Single(s("z")));
}

#[test]
fn record_key_never_crosses_the_wire() {
    let mut r = DataRecord::new();
    r.insert(s("a"), s("1"));
    r.record_key = Some(s("ident"));
    let w = r.iter();
    assert!(w == vec![(s("a"), Value::Single(s("1")))]);
    let r2 = DataRecord::from_wire(w);
    assert!(r2.record_key.is_none());
    assert!(*r2.get("a").unwrap() == Value::Single(s("1")));
    // a second trip over the wire still carries no key
    let r3 = DataRecord::from_wire(r2.iter());
    assert!(r3.record_key.is_none());
}

#[test]
fn from_wire_later_pair_wins_on_repeated_name() {
    let w = vec![(s("a"), Value::Single(s("1"))), (s("a"), Value::Single(s("2")))];
    let r = DataRecord::from_wire(w);
    assert_eq!(r.num_fields(), 1);
    assert!(*r.get("a").unwrap() == Value::Single(s("2")));
}
