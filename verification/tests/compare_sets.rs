use fsm_records::DataRecord;
use fsm_records::Value;

fn s(x: &str) -> String {
    x.to_string()
}

#[test]
fn compare_identical_sets_all_empty() {
    let mut r1 = DataRecord::new();
    r1.insert(s("a"), s("1"));
    r1.insert(s("b"), s("2"));
    let mut r2 = DataRecord::new();
    r2.append_value(s("c"), Value::List(vec![s("x"), s("y")])).unwrap();
    let set = vec![r1, r2];
    let copy = set.clone();
    let (d_result, d_other) = DataRecord::compare_sets(&set, &copy);
    assert_eq!(d_result, vec![Vec::<String>::new(), Vec::<String>::new()]);
    assert_eq!(d_other, vec![Vec::<String>::new(), Vec::<String>::new()]);
}

#[test]
fn compare_against_empty_reports_whole_record() {
    let mut rec = DataRecord::new();
    rec.insert(s("a"), s("1"));
    rec.insert(s("b"), s("2"));
    let (d_result, d_other) = DataRecord::compare_sets(&[rec], &[]);
    assert_eq!(d_result, vec![vec![s("a:1"), s("b:2")]]);
    assert_eq!(d_other, Vec::<Vec<String>>::new());
}

#[test]
fn compare_differing_values_reported_on_both_sides() {
    let mut r1 = DataRecord::new();
    r1.insert(s("a"), s("1"));
    let mut r2 = DataRecord::new();
    r2.insert(s("a"), s("2"));
    let (d_result, d_other) = DataRecord::compare_sets(&[r1], &[r2]);
    assert_eq!(d_result, vec![vec![s("a:1")]]);
    assert_eq!(d_other, vec![vec![s("a:2")]]);
}

#[test]
fn compare_missing_field_reported_once() {
    let mut r1 = DataRecord::new();
    r1.insert(s("a"), s("1"));
    r1.insert(s("b"), s("2"));
    let mut r2 = DataRecord::new();
    r2.insert(s("a"), s("1"));
    let (d_result, d_other) = DataRecord::compare_sets(&[r1], &[r2]);
    assert_eq!(d_result, vec![vec![s("b:2")]]);
    assert_eq!(d_other, vec![Vec::<String>::new()]);
}

#[test]
fn compare_renders_list_values() {
    let mut r1 = DataRecord::new();
    r1.append_value(s("x"), Value::List(vec![s("p"), s("q")])).unwrap();
    let mut r2 = DataRecord::new();
    r2.insert(s("y"), s("1"));
    let (d_result, d_other) = DataRecord::compare_sets(&[r1], &[r2]);
    assert_eq!(d_result, vec![vec![s("x:[\"p\", \"q\"]")]]);
    assert_eq!(d_other, vec![vec![s("y:1")]]);
}

#[test]
fn compare_single_differs_from_list_of_one() {
    let mut r1 = DataRecord::new();
    r1.insert(s("a"), s("1"));
    let mut r2 = DataRecord::new();
    r2.append_value(s("a"), Value::List(vec![s("1")])).unwrap();
    let (d_result, d_other) = DataRecord::compare_sets(&[r1], &[r2]);
    assert_eq!(d_result, vec![vec![s("a:1")]]);
    assert_eq!(d_other, vec![vec![s("a:[\"1\"]")]]);
}

#[test]
fn compare_longer_side_reports_extra_records_whole() {
    let mut r1 = DataRecord::new();
    r1.insert(s("a"), s("1"));
    let mut r2 = DataRecord::new();
    r2.insert(s("a"), s("1"));
    let mut extra = DataRecord::new();
    extra.insert(s("z"), s("9"));
    let (d_result, d_other) = DataRecord::compare_sets(&[r1], &[r2, extra]);
    assert_eq!(d_result, vec![Vec::<String>::new()]);
    assert_eq!(d_other, vec![Vec::<String>::new(), vec![s("z:9")]]);
}
