//! A single row of extracted data: a mapping from field name to [`Value`],
//! plus an optional identifying key set by the driving engine.
//!
//! The mapping is modelled as a `Map<Seq<char>, ValueView>`; the backing
//! storage keeps one entry per field name, so field names are unique.

use vstd::prelude::*;

use crate::value::Value;
use crate::value::ValueView;

verus! {

/// Transformation options for extracted records.
#[derive(Debug, Clone)]
pub enum DataRecordConversion {
    /// Convert all field names to lowercase.
    LowercaseKeys,
}

/// The mathematical content of a record: its field mapping and its optional
/// identifying key.
pub struct RecordView {
    pub fields: Map<Seq<char>, ValueView>,
    pub record_key: Option<Seq<char>>,
}

/// The mapping that a sequence of name–value pairs denotes; on a repeated
/// name the later pair wins.
pub open spec fn pairs_map(s: Seq<(Seq<char>, ValueView)>) -> Map<Seq<char>, ValueView>
    decreases s.len(),
{
    if s.len() == 0 {
        Map::empty()
    } else {
        pairs_map(s.drop_last()).insert(s.last().0, s.last().1)
    }
}

/// All pair names in the sequence are distinct.
pub open spec fn unique_keys(s: Seq<(Seq<char>, ValueView)>) -> bool {
    forall|i: int, j: int|
        0 <= i < j < s.len() ==> (#[trigger] s[i]).0 != (#[trigger] s[j]).0
}

/// A name is in the mapping exactly when some pair carries it.
pub proof fn lemma_pairs_map_contains(s: Seq<(Seq<char>, ValueView)>, k: Seq<char>)
    ensures
        pairs_map(s).contains_key(k) <==> exists|i: int|
            0 <= i < s.len() && (#[trigger] s[i]).0 == k,
    decreases s.len(),
{
    if s.len() > 0 {
        lemma_pairs_map_contains(s.drop_last(), k);
        if s.last().0 == k {
            assert(s[s.len() - 1].0 == k);
        } else {
            if pairs_map(s).contains_key(k) {
                let i = choose|i: int|
                    0 <= i < s.drop_last().len() && (#[trigger] s.drop_last()[i]).0 == k;
                assert(s[i].0 == k);
            }
            if exists|i: int| 0 <= i < s.len() && (#[trigger] s[i]).0 == k {
                let i = choose|i: int| 0 <= i < s.len() && (#[trigger] s[i]).0 == k;
                assert(i < s.len() - 1);
                assert(s.drop_last()[i].0 == k);
            }
        }
    }
}

/// With distinct names, each pair is found in the mapping under its name.
pub proof fn lemma_pairs_map_get(s: Seq<(Seq<char>, ValueView)>, i: int)
    requires
        unique_keys(s),
        0 <= i < s.len(),
    ensures
        pairs_map(s).contains_key(s[i].0),
        pairs_map(s)[s[i].0] == s[i].1,
    decreases s.len(),
{
    if i < s.len() - 1 {
        assert(unique_keys(s.drop_last())) by {
            assert(forall|x: int, y: int|
                0 <= x < y < s.drop_last().len() ==> s.drop_last()[x] == s[x] && s.drop_last()[y]
                    == s[y]);
        }
        lemma_pairs_map_get(s.drop_last(), i);
        assert(s.drop_last()[i] == s[i]);
        assert(s[i].0 != s.last().0);
    }
}

proof fn lemma_pairs_map_update(s: Seq<(Seq<char>, ValueView)>, i: int, p: (Seq<char>, ValueView))
    requires
        unique_keys(s),
        0 <= i < s.len(),
        p.0 == s[i].0,
    ensures
        pairs_map(s.update(i, p)) == pairs_map(s).insert(p.0, p.1),
    decreases s.len(),
{
    let su = s.update(i, p);
    if i == s.len() - 1 {
        assert(su.drop_last() =~= s.drop_last());
        assert(su.last() == p);
        assert(pairs_map(s.drop_last()).insert(s[i].0, s[i].1).insert(p.0, p.1)
            =~= pairs_map(s.drop_last()).insert(p.0, p.1));
    } else {
        assert(unique_keys(s.drop_last())) by {
            assert(forall|x: int, y: int|
                0 <= x < y < s.drop_last().len() ==> s.drop_last()[x] == s[x] && s.drop_last()[y]
                    == s[y]);
        }
        assert(su.drop_last() =~= s.drop_last().update(i, p));
        lemma_pairs_map_update(s.drop_last(), i, p);
        assert(su.last() == s.last());
        assert(p.0 != s.last().0);
        assert(pairs_map(s.drop_last()).insert(p.0, p.1).insert(s.last().0, s.last().1)
            =~= pairs_map(s.drop_last()).insert(s.last().0, s.last().1).insert(p.0, p.1));
    }
}

proof fn lemma_pairs_map_push(s: Seq<(Seq<char>, ValueView)>, p: (Seq<char>, ValueView))
    ensures
        pairs_map(s.push(p)) == pairs_map(s).insert(p.0, p.1),
{
    assert(s.push(p).drop_last() =~= s);
    assert(s.push(p).last() == p);
}

proof fn lemma_pairs_map_remove(s: Seq<(Seq<char>, ValueView)>, i: int)
    requires
        unique_keys(s),
        0 <= i < s.len(),
    ensures
        pairs_map(s.remove(i)) == pairs_map(s).remove(s[i].0),
    decreases s.len(),
{
    if i == s.len() - 1 {
        assert(s.remove(i) =~= s.drop_last());
        lemma_pairs_map_contains(s.drop_last(), s[i].0);
        assert(forall|j: int|
            0 <= j < s.drop_last().len() ==> (#[trigger] s.drop_last()[j]).0 == s[j].0);
        assert(!pairs_map(s.drop_last()).contains_key(s[i].0));
        assert(pairs_map(s.drop_last()).insert(s[i].0, s[i].1).remove(s[i].0)
            =~= pairs_map(s.drop_last()));
    } else {
        assert(unique_keys(s.drop_last())) by {
            assert(forall|x: int, y: int|
                0 <= x < y < s.drop_last().len() ==> s.drop_last()[x] == s[x] && s.drop_last()[y]
                    == s[y]);
        }
        lemma_pairs_map_remove(s.drop_last(), i);
        let sr = s.remove(i);
        assert(sr.drop_last() =~= s.drop_last().remove(i));
        assert(sr.last() == s.last());
        assert(s[i].0 != s.last().0);
        assert(pairs_map(s.drop_last()).remove(s[i].0).insert(s.last().0, s.last().1)
            =~= pairs_map(s.drop_last()).insert(s.last().0, s.last().1).remove(s[i].0));
    }
}

/// The value a single-string insertion leaves in a field: a fresh `Single`,
/// a `Single` promoted to a two-element `List`, or a `List` grown by one.
pub open spec fn insert_merged(
    m: Map<Seq<char>, ValueView>,
    k: Seq<char>,
    v: Seq<char>,
) -> ValueView {
    if !m.contains_key(k) {
        ValueView::Single(v)
    } else {
        match m[k] {
            ValueView::Single(s) => ValueView::List(seq![s, v]),
            ValueView::List(xs) => ValueView::List(xs.push(v)),
        }
    }
}

/// The strings a field's value holds, in order: none for an absent field, one
/// for a `Single`, the list's elements for a `List`.
pub open spec fn field_strings(v: Option<ValueView>) -> Seq<Seq<char>> {
    match v {
        Option::None => Seq::empty(),
        Option::Some(ValueView::Single(s)) => seq![s],
        Option::Some(ValueView::List(xs)) => xs,
    }
}

/// Law: a single-string insertion strictly grows its field: the strings the
/// field holds afterwards are exactly those it held before with the new
/// string appended at the end, whatever shape the field had.
pub proof fn lemma_insert_grows(m: Map<Seq<char>, ValueView>, k: Seq<char>, v: Seq<char>)
    ensures
        field_strings(Option::Some(insert_merged(m, k, v))) == field_strings(
            if m.contains_key(k) {
                Option::Some(m[k])
            } else {
                Option::<ValueView>::None
            },
        ).push(v),
{
    if !m.contains_key(k) {
        assert(seq![v] =~= Seq::<Seq<char>>::empty().push(v));
    } else {
        match m[k] {
            ValueView::Single(s) => {
                assert(seq![s, v] =~= seq![s].push(v));
            },
            ValueView::List(xs) => {},
        }
    }
}

/// Whole-value merging succeeds unless an incoming `List` meets an existing
/// `Single`.
pub open spec fn append_ok(m: Map<Seq<char>, ValueView>, k: Seq<char>, v: ValueView) -> bool {
    !(m.contains_key(k) && m[k] is Single && v is List)
}

/// The value a successful whole-value merge leaves in a field.
pub open spec fn append_merged(
    m: Map<Seq<char>, ValueView>,
    k: Seq<char>,
    v: ValueView,
) -> ValueView {
    if !m.contains_key(k) {
        v
    } else {
        match (m[k], v) {
            (ValueView::Single(_), incoming) => incoming,
            (ValueView::List(xs), ValueView::Single(s)) => ValueView::List(xs.push(s)),
            (ValueView::List(xs), ValueView::List(ys)) => ValueView::List(xs + ys),
        }
    }
}

/// The unrecoverable merge conflict: an incoming `List` may not be merged
/// onto an existing `Single` field. Carries the field name and both values
/// for diagnosis.
#[derive(Debug)]
pub struct MergeConflict {
    /// The name of the field on which the conflict arose.
    pub field: String,
    /// The `Single` value already stored under the field.
    pub existing: Value,
    /// The incoming `List` value that could not be merged.
    pub incoming: Value,
}

/// A single row of extracted data: field name to value, plus an optional
/// identifying key.
pub struct DataRecord {
    fields: Vec<(String, Value)>,
    /// An optional key identifying the record, set directly by the driving
    /// engine from fields flagged as identifying. It is never part of the
    /// wire form in either direction.
    pub record_key: Option<String>,
}

impl View for DataRecord {
    type V = RecordView;

    closed spec fn view(&self) -> RecordView {
        RecordView {
            fields: pairs_map(self.fields_seq()),
            record_key: match self.record_key {
                Option::Some(k) => Option::Some(k@),
                Option::None => Option::None,
            },
        }
    }
}

impl DataRecord {
    /// The record's fields as stored: one name–value pair per field, in
    /// storage order.
    pub closed spec fn fields_seq(&self) -> Seq<(Seq<char>, ValueView)> {
        Seq::new(self.fields@.len(), |i: int| (self.fields@[i].0@, self.fields@[i].1@))
    }

    /// Well-formed: field names are unique, so the pair sequence and the
    /// mapping carry the same information.
    pub open spec fn wf(&self) -> bool {
        unique_keys(self.fields_seq())
    }

    /// Creates a new, empty record.
    pub fn new() -> (r: DataRecord)
        ensures
            r.wf(),
            r@.fields == Map::<Seq<char>, ValueView>::empty(),
            r@.record_key is None,
            r.fields_seq() == Seq::<(Seq<char>, ValueView)>::empty(),
    {
        let r = DataRecord { fields: Vec::new(), record_key: None };
        proof {
            assert(r.fields_seq() =~= Seq::<(Seq<char>, ValueView)>::empty());
        }
        r
    }

    /// The number of fields currently in the record.
    pub fn num_fields(&self) -> (n: usize)
        ensures
            n == self.fields_seq().len(),
    {
        self.fields.len()
    }

    /// The field at a storage position, as a name–value pair.
    pub fn field_at(&self, i: usize) -> (r: (&String, &Value))
        requires
            i < self.fields_seq().len(),
        ensures
            r.0@ == self.fields_seq()[i as int].0,
            r.1@ == self.fields_seq()[i as int].1,
    {
        let pair = &self.fields[i];
        (&pair.0, &pair.1)
    }

    /// The storage position of a field name, if present.
    fn find_index(&self, key: &String) -> (r: Option<usize>)
        ensures
            match r {
                Option::Some(j) => j < self.fields_seq().len() && self.fields_seq()[j as int].0
                    == key@,
                Option::None => forall|j: int|
                    0 <= j < self.fields_seq().len() ==> (#[trigger] self.fields_seq()[j]).0
                        != key@,
            },
    {
        let mut i: usize = 0;
        while i < self.fields.len()
            invariant
                i <= self.fields.len(),
                forall|j: int| 0 <= j < i ==> (#[trigger] self.fields_seq()[j]).0 != key@,
            decreases self.fields.len() - i,
        {
            if self.fields[i].0 == *key {
                assert(self.fields_seq()[i as int].0 == key@);
                return Some(i);
            }
            assert(self.fields_seq()[i as int].0 != key@);
            i += 1;
        }
        None
    }

    /// Retrieves a reference to a field's value; does not mutate.
    pub fn get(&self, key: &str) -> (r: Option<&Value>)
        requires
            self.wf(),
        ensures
            match r {
                Option::Some(v) => self@.fields.contains_key(key@) && v@ == self@.fields[key@],
                Option::None => !self@.fields.contains_key(key@),
            },
    {
        let k = key.to_owned();
        match self.find_index(&k) {
            Some(j) => {
                proof {
                    lemma_pairs_map_get(self.fields_seq(), j as int);
                }
                Some(&self.fields[j].1)
            },
            None => {
                proof {
                    lemma_pairs_map_contains(self.fields_seq(), key@);
                }
                None
            },
        }
    }

    /// Inserts a single string value, with auto-promotion: an absent field
    /// becomes `Single(value)`; an existing `Single(old)` is promoted to
    /// `List([old, value])`; an existing `List` has `value` appended. The
    /// field only ever grows.
    pub fn insert(&mut self, name: String, value: String)
        requires
            old(self).wf(),
        ensures
            final(self).wf(),
            final(self)@.fields == old(self)@.fields.insert(
                name@,
                insert_merged(old(self)@.fields, name@, value@),
            ),
            final(self)@.record_key == old(self)@.record_key,
    {
        let ghost m = old(self)@.fields;
        let ghost s0 = old(self).fields_seq();
        let ghost vv = value@;
        match self.find_index(&name) {
            Some(j) => {
                proof {
                    lemma_pairs_map_get(s0, j as int);
                }
                let k = self.fields[j].0.clone();
                let cur = self.fields[j].1.clone();
                let merged = match cur {
                    Value::Single(s) => {
                        let mut l: Vec<String> = Vec::new();
                        l.push(s);
                        l.push(value);
                        let r = Value::List(l);
                        proof {
                            assert(l.deep_view() =~= seq![s0[j as int].1->Single_0, vv]);
                        }
                        r
                    },
                    Value::List(mut l) => {
                        l.push(value);
                        let r = Value::List(l);
                        proof {
                            assert(l.deep_view() =~= s0[j as int].1->List_0.push(vv));
                        }
                        r
                    },
                };
                let ghost mv = merged@;
                self.fields[j] = (k, merged);
                proof {
                    assert(self.fields_seq() =~= s0.update(j as int, (name@, mv)));
                    lemma_pairs_map_update(s0, j as int, (name@, mv));
                    assert(mv == insert_merged(m, name@, vv));
                    assert(unique_keys(self.fields_seq()));
                }
            },
            None => {
                proof {
                    lemma_pairs_map_contains(s0, name@);
                }
                self.fields.push((name, Value::Single(value)));
                proof {
                    assert(self.fields_seq() =~= s0.push((name@, ValueView::Single(vv))));
                    lemma_pairs_map_push(s0, (name@, ValueView::Single(vv)));
                    assert(unique_keys(self.fields_seq()));
                }
            },
        }
    }

    /// Merges a whole `Value` into the record, with a more restrictive policy
    /// than `insert`: an absent field stores the value as-is; `Single` over
    /// `Single` overwrites (last write wins); `Single` meeting an incoming
    /// `List` is an unrecoverable conflict and leaves the record unchanged;
    /// a `List` grows by the incoming `Single` or by a whole incoming `List`.
    pub fn append_value(&mut self, name: String, value: Value) -> (r: Result<(), MergeConflict>)
        requires
            old(self).wf(),
        ensures
            final(self).wf(),
            match r {
                Result::Ok(()) => {
                    &&& append_ok(old(self)@.fields, name@, value@)
                    &&& final(self)@.fields == old(self)@.fields.insert(
                        name@,
                        append_merged(old(self)@.fields, name@, value@),
                    )
                    &&& final(self)@.record_key == old(self)@.record_key
                },
                Result::Err(e) => {
                    &&& !append_ok(old(self)@.fields, name@, value@)
                    &&& *final(self) == *old(self)
                    &&& e.field@ == name@
                    &&& e.existing@ == old(self)@.fields[name@]
                    &&& e.incoming@ == value@
                },
            },
    {
        let ghost m = old(self)@.fields;
        let ghost s0 = old(self).fields_seq();
        let ghost vv = value@;
        match self.find_index(&name) {
            Some(j) => {
                proof {
                    lemma_pairs_map_get(s0, j as int);
                }
                let k = self.fields[j].0.clone();
                let is_single = match &self.fields[j].1 {
                    Value::Single(_) => true,
                    Value::List(_) => false,
                };
                if is_single {
                    match value {
                        Value::Single(s) => {
                            self.fields[j] = (k, Value::Single(s));
                            proof {
                                assert(self.fields_seq() =~= s0.update(j as int, (name@, vv)));
                                lemma_pairs_map_update(s0, j as int, (name@, vv));
                                assert(vv == append_merged(m, name@, vv));
                                assert(unique_keys(self.fields_seq()));
                            }
                            Ok(())
                        },
                        Value::List(l) => {
                            let existing = self.fields[j].1.clone();
                            Err(MergeConflict { field: name, existing, incoming: Value::List(l) })
                        },
                    }
                } else {
                    let cur = self.fields[j].1.clone();
                    let mut xs = match cur {
                        Value::List(xs) => xs,
                        Value::Single(s) => {
                            let mut l: Vec<String> = Vec::new();
                            l.push(s);
                            l
                        },
                    };
                    assert(xs.deep_view() == s0[j as int].1->List_0);
                    match value {
                        Value::Single(s) => {
                            xs.push(s);
                            let ghost mv = ValueView::List(xs.deep_view());
                            self.fields[j] = (k, Value::List(xs));
                            proof {
                                assert(xs.deep_view() =~= s0[j as int].1->List_0.push(vv->Single_0));
                                assert(self.fields_seq() =~= s0.update(j as int, (name@, mv)));
                                lemma_pairs_map_update(s0, j as int, (name@, mv));
                                assert(mv == append_merged(m, name@, vv));
                                assert(unique_keys(self.fields_seq()));
                            }
                            Ok(())
                        },
                        Value::List(mut l) => {
                            xs.append(&mut l);
                            let ghost mv = ValueView::List(xs.deep_view());
                            self.fields[j] = (k, Value::List(xs));
                            proof {
                                assert(xs.deep_view() =~= s0[j as int].1->List_0 + vv->List_0);
                                assert(self.fields_seq() =~= s0.update(j as int, (name@, mv)));
                                lemma_pairs_map_update(s0, j as int, (name@, mv));
                                assert(mv == append_merged(m, name@, vv));
                                assert(unique_keys(self.fields_seq()));
                            }
                            Ok(())
                        },
                    }
                }
            },
            None => {
                proof {
                    lemma_pairs_map_contains(s0, name@);
                }
                self.fields.push((name, value));
                proof {
                    assert(self.fields_seq() =~= s0.push((name@, vv)));
                    lemma_pairs_map_push(s0, (name@, vv));
                    assert(vv == append_merged(m, name@, vv));
                    assert(unique_keys(self.fields_seq()));
                }
                Ok(())
            },
        }
    }

    /// Replaces or adds one field, whatever its current shape.
    fn set_field(&mut self, name: String, value: Value)
        requires
            old(self).wf(),
        ensures
            final(self).wf(),
            final(self)@.fields == old(self)@.fields.insert(name@, value@),
            final(self)@.record_key == old(self)@.record_key,
    {
        let ghost s0 = old(self).fields_seq();
        let ghost vv = value@;
        match self.find_index(&name) {
            Some(j) => {
                self.fields[j] = (name, value);
                proof {
                    assert(self.fields_seq() =~= s0.update(j as int, (s0[j as int].0, vv)));
                    lemma_pairs_map_update(s0, j as int, (s0[j as int].0, vv));
                    assert(unique_keys(self.fields_seq()));
                }
            },
            None => {
                self.fields.push((name, value));
                proof {
                    assert(self.fields_seq() =~= s0.push((name@, vv)));
                    lemma_pairs_map_push(s0, (name@, vv));
                    assert(unique_keys(self.fields_seq()));
                }
            },
        }
    }

    /// Overlays another record onto this one: every field present in `from`
    /// replaces the corresponding field here; fields absent from `from` are
    /// left untouched. The record key is not affected.
    pub fn overwrite_from(&mut self, from: DataRecord)
        requires
            old(self).wf(),
        ensures
            final(self).wf(),
            final(self)@.fields == old(self)@.fields.union_prefer_right(from@.fields),
            final(self)@.record_key == old(self)@.record_key,
    {
        let ghost fseq = from.fields_seq();
        let n = from.fields.len();
        let mut i: usize = 0;
        while i < n
            invariant
                i <= n,
                self.wf(),
                n == from.fields_seq().len(),
                fseq == from.fields_seq(),
                self@.fields == old(self)@.fields.union_prefer_right(pairs_map(fseq.take(i as int))),
                self@.record_key == old(self)@.record_key,
            decreases n - i,
        {
            let k = from.fields[i].0.clone();
            let v = from.fields[i].1.clone();
            proof {
                assert(k@ == fseq[i as int].0);
                assert(v@ == fseq[i as int].1);
            }
            self.set_field(k, v);
            proof {
                assert(fseq.take(i as int + 1).drop_last() =~= fseq.take(i as int));
                assert(fseq.take(i as int + 1).last() == fseq[i as int]);
                assert(old(self)@.fields.union_prefer_right(pairs_map(fseq.take(i as int + 1)))
                    =~= old(self)@.fields.union_prefer_right(
                    pairs_map(fseq.take(i as int)),
                ).insert(fseq[i as int].0, fseq[i as int].1));
            }
            i += 1;
        }
        proof {
            assert(fseq.take(n as int) =~= fseq);
        }
    }

    /// Deletes the field if present; no effect when absent.
    pub fn remove(&mut self, key: &str)
        requires
            old(self).wf(),
        ensures
            final(self).wf(),
            final(self)@.fields == old(self)@.fields.remove(key@),
            final(self)@.record_key == old(self)@.record_key,
    {
        let ghost s0 = old(self).fields_seq();
        let k = key.to_owned();
        match self.find_index(&k) {
            Some(j) => {
                self.fields.remove(j);
                proof {
                    assert(self.fields_seq() =~= s0.remove(j as int));
                    lemma_pairs_map_remove(s0, j as int);
                    assert(unique_keys(self.fields_seq())) by {
                        assert(forall|x: int|
                            0 <= x < s0.remove(j as int).len() ==> s0.remove(j as int)[x] == (
                            if x < j as int {
                                s0[x]
                            } else {
                                s0[x + 1]
                            }));
                    }
                }
            },
            None => {
                proof {
                    lemma_pairs_map_contains(s0, key@);
                    assert(old(self)@.fields.remove(key@) =~= old(self)@.fields);
                }
            },
        }
    }

    /// The record's current field names, one per field, in storage order.
    pub fn keys(&self) -> (r: Vec<String>)
        ensures
            r.deep_view().len() == self.fields_seq().len(),
            forall|i: int|
                0 <= i < r.deep_view().len() ==> r.deep_view()[i] == self.fields_seq()[i].0,
    {
        let mut out: Vec<String> = Vec::new();
        let mut i: usize = 0;
        while i < self.fields.len()
            invariant
                i <= self.fields.len(),
                out.deep_view().len() == i,
                forall|j: int| 0 <= j < i ==> out.deep_view()[j] == self.fields_seq()[j].0,
            decreases self.fields.len() - i,
        {
            let ghost prev = out.deep_view();
            let k = self.fields[i].0.clone();
            out.push(k);
            proof {
                assert(out.deep_view() =~= prev.push(self.fields@[i as int].0@));
            }
            i += 1;
        }
        out
    }

    /// A snapshot of the record's current fields, as name–value pairs in
    /// storage order. This is also the record's wire form: the record key is
    /// never part of it.
    pub fn iter(&self) -> (r: Vec<(String, Value)>)
        ensures
            r.deep_view() == self.fields_seq(),
    {
        let mut out: Vec<(String, Value)> = Vec::new();
        let mut i: usize = 0;
        while i < self.fields.len()
            invariant
                i <= self.fields.len(),
                out.deep_view().len() == i,
                forall|j: int| 0 <= j < i ==> out.deep_view()[j] == self.fields_seq()[j],
            decreases self.fields.len() - i,
        {
            let k = self.fields[i].0.clone();
            let v = self.fields[i].1.clone();
            out.push((k, v));
            i += 1;
        }
        proof {
            assert(out.deep_view() =~= self.fields_seq());
        }
        out
    }

    /// Reads a record back from its wire form: a flat listing of name–value
    /// pairs, a later pair winning on a repeated name. The record key is not
    /// part of the wire form, so it comes back unset.
    pub fn from_wire(pairs: Vec<(String, Value)>) -> (r: DataRecord)
        ensures
            r.wf(),
            r@.fields == pairs_map(pairs.deep_view()),
            r@.record_key is None,
    {
        let ghost w = pairs.deep_view();
        let mut rec = DataRecord::new();
        let mut i: usize = 0;
        while i < pairs.len()
            invariant
                i <= pairs.len(),
                rec.wf(),
                w == pairs.deep_view(),
                w.len() == pairs.len(),
                rec@.fields == pairs_map(w.take(i as int)),
                rec@.record_key is None,
            decreases pairs.len() - i,
        {
            let k = pairs[i].0.clone();
            let v = pairs[i].1.clone();
            proof {
                assert(k@ == w[i as int].0);
                assert(v@ == w[i as int].1);
                assert(w.take(i as int + 1).drop_last() =~= w.take(i as int));
                assert(w.take(i as int + 1).last() == w[i as int]);
            }
            rec.set_field(k, v);
            i += 1;
        }
        proof {
            assert(w.take(pairs.len() as int) =~= w);
        }
        rec
    }
}

impl Clone for DataRecord {
    /// An exact copy: the same fields in the same storage order, and the same
    /// record key.
    fn clone(&self) -> (r: Self)
        ensures
            r.fields_seq() == self.fields_seq(),
            r@ == self@,
    {
        let fields = self.iter();
        let record_key = match &self.record_key {
            Some(k) => Some(k.clone()),
            None => None,
        };
        let r = DataRecord { fields, record_key };
        proof {
            assert(r.fields_seq() =~= self.fields_seq());
        }
        r
    }
}

impl Default for DataRecord {
    /// An empty record, as `new` gives it.
    fn default() -> (r: Self)
        ensures
            r.wf(),
            r@.fields == Map::<Seq<char>, ValueView>::empty(),
            r@.record_key is None,
    {
        DataRecord::new()
    }
}

/// A record's field mapping is exactly the mapping its pair sequence denotes.
pub proof fn lemma_view_fields(r: DataRecord)
    ensures
        r@.fields == pairs_map(r.fields_seq()),
{
}

/// Law: a record written to its wire form (`iter`) and read back
/// (`from_wire`) keeps exactly its fields; and whatever record key was set
/// before writing, the record read back carries none.
pub proof fn lemma_wire_round_trip(r: DataRecord, w: Vec<(String, Value)>, r2: DataRecord)
    requires
        r.wf(),
        w.deep_view() == r.fields_seq(),
        r2@.fields == pairs_map(w.deep_view()),
        r2@.record_key is None,
    ensures
        r2@.fields == r@.fields,
        r2@.record_key is None,
{
}

} // verus!
