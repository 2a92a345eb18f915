//! Positional comparison of two sequences of records, for template
//! regression testing: records are paired by index, and each field of one
//! record is reported when the paired record lacks it or holds a different
//! value.

use vstd::prelude::*;
use vstd::string::StringExecFns;

use crate::record::lemma_pairs_map_get;
use crate::record::lemma_view_fields;
use crate::record::DataRecord;
use crate::value::render_value;
use crate::value::ValueView;

verus! {

/// A field differs from the paired record when there is no paired record at
/// all, or the paired record lacks the name, or holds another value under it.
pub open spec fn differs(
    other: Option<Map<Seq<char>, ValueView>>,
    p: (Seq<char>, ValueView),
) -> bool {
    match other {
        Option::None => true,
        Option::Some(m) => !m.contains_key(p.0) || m[p.0] != p.1,
    }
}

/// How a differing field is reported: `name:value`, the value in its
/// human-readable rendering.
pub open spec fn diff_entry(p: (Seq<char>, ValueView)) -> Seq<char> {
    p.0 + seq![':'] + render_value(p.1)
}

/// The differences of one record's fields against an optional paired field
/// mapping, in the record's field order.
pub open spec fn record_diff(
    rec: Seq<(Seq<char>, ValueView)>,
    other: Option<Map<Seq<char>, ValueView>>,
) -> Seq<Seq<char>>
    decreases rec.len(),
{
    if rec.len() == 0 {
        Seq::empty()
    } else {
        let rest = record_diff(rec.drop_last(), other);
        if differs(other, rec.last()) {
            rest.push(diff_entry(rec.last()))
        } else {
            rest
        }
    }
}

/// One difference listing per record of `result`: record `i` is held against
/// `other[i]` when that exists, and is reported whole otherwise.
pub open spec fn set_diffs(result: Seq<DataRecord>, other: Seq<DataRecord>) -> Seq<
    Seq<Seq<char>>,
> {
    Seq::new(
        result.len(),
        |i: int|
            record_diff(
                result[i].fields_seq(),
                if i < other.len() {
                    Option::Some(other[i]@.fields)
                } else {
                    Option::None
                },
            ),
    )
}

proof fn lemma_record_diff_step(
    rec: Seq<(Seq<char>, ValueView)>,
    other: Option<Map<Seq<char>, ValueView>>,
    i: int,
)
    requires
        0 <= i < rec.len(),
    ensures
        record_diff(rec.take(i + 1), other) == if differs(other, rec[i]) {
            record_diff(rec.take(i), other).push(diff_entry(rec[i]))
        } else {
            record_diff(rec.take(i), other)
        },
{
    assert(rec.take(i + 1).drop_last() =~= rec.take(i));
    assert(rec.take(i + 1).last() == rec[i]);
}

/// The differences of `rec`'s fields against `other`, as rendered strings.
fn record_diff_exec(rec: &DataRecord, other: Option<&DataRecord>) -> (r: Vec<String>)
    requires
        rec.wf(),
        match other {
            Option::Some(o) => o.wf(),
            Option::None => true,
        },
    ensures
        r.deep_view() == record_diff(
            rec.fields_seq(),
            match other {
                Option::Some(o) => Option::Some(o@.fields),
                Option::None => Option::None,
            },
        ),
{
    let ghost s = rec.fields_seq();
    let ghost om = match other {
        Option::Some(o) => Option::Some(o@.fields),
        Option::None => Option::None,
    };
    let mut out: Vec<String> = Vec::new();
    let n = rec.num_fields();
    let mut i: usize = 0;
    while i < n
        invariant
            i <= n,
            n == s.len(),
            s == rec.fields_seq(),
            rec.wf(),
            match other {
                Option::Some(o) => o.wf() && om == Option::Some(o@.fields),
                Option::None => om == Option::<Map<Seq<char>, ValueView>>::None,
            },
            out.deep_view() == record_diff(s.take(i as int), om),
        decreases n - i,
    {
        let (name, val) = rec.field_at(i);
        let report = match other {
            Option::None => true,
            Option::Some(o) => {
                match o.get(name.as_str()) {
                    Option::None => true,
                    Option::Some(v0) => *v0 != *val,
                }
            },
        };
        proof {
            assert(report == differs(om, s[i as int]));
            lemma_record_diff_step(s, om, i as int);
        }
        if report {
            let mut e = name.clone();
            e.append(":");
            let rendered = val.render();
            e.append(rendered.as_str());
            let ghost prev = out.deep_view();
            out.push(e);
            proof {
                reveal_strlit(":");
                assert(e@ =~= diff_entry(s[i as int]));
                assert(out.deep_view() =~= prev.push(e@));
            }
        }
        i += 1;
    }
    proof {
        assert(s.take(n as int) =~= s);
    }
    out
}

/// One difference listing per record of `recs`, each held against the record
/// of `other` at the same index.
fn diffs_against(recs: &[DataRecord], other: &[DataRecord]) -> (r: Vec<Vec<String>>)
    requires
        forall|i: int| 0 <= i < recs@.len() ==> (#[trigger] recs@[i]).wf(),
        forall|i: int| 0 <= i < other@.len() ==> (#[trigger] other@[i]).wf(),
    ensures
        r.deep_view() == set_diffs(recs@, other@),
{
    let mut out: Vec<Vec<String>> = Vec::new();
    let mut i: usize = 0;
    while i < recs.len()
        invariant
            i <= recs@.len(),
            forall|k: int| 0 <= k < recs@.len() ==> (#[trigger] recs@[k]).wf(),
            forall|k: int| 0 <= k < other@.len() ==> (#[trigger] other@[k]).wf(),
            out.deep_view() == set_diffs(recs@, other@).take(i as int),
        decreases recs@.len() - i,
    {
        let entry = if i < other.len() {
            record_diff_exec(&recs[i], Some(&other[i]))
        } else {
            record_diff_exec(&recs[i], None)
        };
        let ghost prev = out.deep_view();
        out.push(entry);
        proof {
            assert(out.deep_view() =~= prev.push(entry.deep_view()));
            assert(out.deep_view() =~= set_diffs(recs@, other@).take(i as int + 1));
        }
        i += 1;
    }
    proof {
        assert(set_diffs(recs@, other@).take(recs@.len() as int) =~= set_diffs(recs@, other@));
    }
    out
}

impl DataRecord {
    /// Compares two sequences of records positionally and returns, for each
    /// side, one listing per record of the `name:value` fields that the
    /// record at the same index on the other side lacks or holds differently.
    /// A record with no counterpart at its index is reported whole.
    pub fn compare_sets(result: &[DataRecord], other: &[DataRecord]) -> (r: (
        Vec<Vec<String>>,
        Vec<Vec<String>>,
    ))
        requires
            forall|i: int| 0 <= i < result@.len() ==> (#[trigger] result@[i]).wf(),
            forall|i: int| 0 <= i < other@.len() ==> (#[trigger] other@[i]).wf(),
        ensures
            r.0.deep_view() == set_diffs(result@, other@),
            r.1.deep_view() == set_diffs(other@, result@),
    {
        (diffs_against(result, other), diffs_against(other, result))
    }
}

/// Law: a record with no counterpart at its index is reported whole: one
/// `name:value` entry per field, in field order.
pub proof fn lemma_record_diff_unpaired(rec: Seq<(Seq<char>, ValueView)>)
    ensures
        record_diff(rec, Option::None).len() == rec.len(),
        forall|j: int|
            0 <= j < rec.len() ==> #[trigger] record_diff(rec, Option::None)[j] == diff_entry(
                rec[j],
            ),
    decreases rec.len(),
{
    if rec.len() > 0 {
        lemma_record_diff_unpaired(rec.drop_last());
        assert(forall|j: int|
            0 <= j < rec.drop_last().len() ==> (#[trigger] rec.drop_last()[j]) == rec[j]);
        assert(record_diff(rec, Option::None) == record_diff(rec.drop_last(), Option::None).push(
            diff_entry(rec.last()),
        ));
    }
}

proof fn lemma_record_diff_matching_empty(
    rec: Seq<(Seq<char>, ValueView)>,
    m: Map<Seq<char>, ValueView>,
)
    requires
        forall|j: int|
            0 <= j < rec.len() ==> m.contains_key((#[trigger] rec[j]).0) && m[rec[j].0] == rec[j].1,
    ensures
        record_diff(rec, Option::Some(m)).len() == 0,
    decreases rec.len(),
{
    if rec.len() > 0 {
        assert(forall|j: int|
            0 <= j < rec.drop_last().len() ==> (#[trigger] rec.drop_last()[j]) == rec[j]);
        lemma_record_diff_matching_empty(rec.drop_last(), m);
    }
}

/// Law: comparing a sequence of records against an identical copy of itself
/// yields an empty difference listing at every index, on both sides.
pub proof fn lemma_compare_self_empty(recs: Seq<DataRecord>)
    requires
        forall|i: int| 0 <= i < recs.len() ==> (#[trigger] recs[i]).wf(),
    ensures
        set_diffs(recs, recs).len() == recs.len(),
        forall|i: int|
            0 <= i < recs.len() ==> #[trigger] set_diffs(recs, recs)[i] == Seq::<Seq<char>>::empty(),
{
    assert forall|i: int|
        0 <= i < recs.len() implies #[trigger] set_diffs(recs, recs)[i] == Seq::<
        Seq<char>,
    >::empty() by {
        let s = recs[i].fields_seq();
        let m = recs[i]@.fields;
        lemma_view_fields(recs[i]);
        assert forall|j: int|
            0 <= j < s.len() implies m.contains_key((#[trigger] s[j]).0) && m[s[j].0] == s[j].1 by {
            lemma_pairs_map_get(s, j);
        }
        lemma_record_diff_matching_empty(s, m);
        assert(record_diff(s, Option::Some(m)) =~= Seq::<Seq<char>>::empty());
    }
}

} // verus!
