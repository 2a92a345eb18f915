//! The two-shape value union: a field holds either one extracted string or an
//! ordered list of extracted strings.

use vstd::prelude::*;
use vstd::string::StringExecFns;

verus! {

/// A field's value: one extracted string, or an ordered list of strings.
///
/// The list keeps insertion order and permits duplicates. Shape transitions
/// (`Single` to `List` and the like) happen only through the record's merge
/// operations.
#[derive(Debug)]
pub enum Value {
    /// A single extracted string.
    Single(String),
    /// A list of extracted strings, in insertion order.
    List(Vec<String>),
}

/// The mathematical shape of a `Value`: one character sequence, or an ordered
/// sequence of character sequences.
pub enum ValueView {
    Single(Seq<char>),
    List(Seq<Seq<char>>),
}

impl View for Value {
    type V = ValueView;

    open spec fn view(&self) -> ValueView {
        match self {
            Value::Single(s) => ValueView::Single(s@),
            Value::List(l) => ValueView::List(l.deep_view()),
        }
    }
}

impl DeepView for Value {
    type V = ValueView;

    open spec fn deep_view(&self) -> ValueView {
        self.view()
    }
}

impl Clone for Value {
    fn clone(&self) -> (r: Self)
        ensures
            r@ == self@,
    {
        match self {
            Value::Single(s) => Value::Single(s.clone()),
            Value::List(l) => {
                let r = l.clone();
                proof {
                    assert(r.deep_view() =~= l.deep_view());
                }
                Value::List(r)
            },
        }
    }
}

/// True when the two vectors hold the same strings in the same order.
fn string_vecs_eq(a: &Vec<String>, b: &Vec<String>) -> (r: bool)
    ensures
        r == (a.deep_view() == b.deep_view()),
{
    if a.len() != b.len() {
        assert(a.deep_view().len() != b.deep_view().len());
        return false;
    }
    let mut i: usize = 0;
    while i < a.len()
        invariant
            i <= a.len(),
            a.len() == b.len(),
            forall|j: int| 0 <= j < i ==> a.deep_view()[j] == b.deep_view()[j],
        decreases a.len() - i,
    {
        if a[i] != b[i] {
            assert(a.deep_view()[i as int] != b.deep_view()[i as int]);
            return false;
        }
        i += 1;
    }
    proof {
        assert(a.deep_view() =~= b.deep_view());
    }
    true
}

impl PartialEq for Value {
    /// Structural equality: `Single` equals `Single` on string equality,
    /// `List` equals `List` elementwise in order; the two shapes never equal
    /// each other.
    fn eq(&self, other: &Self) -> (r: bool) {
        match (self, other) {
            (Value::Single(a), Value::Single(b)) => *a == *b,
            (Value::List(a), Value::List(b)) => string_vecs_eq(a, b),
            _ => false,
        }
    }
}

impl vstd::std_specs::cmp::PartialEqSpecImpl for Value {
    open spec fn obeys_eq_spec() -> bool {
        true
    }

    open spec fn eq_spec(&self, other: &Self) -> bool {
        self@ == other@
    }
}

/// A character sequence wrapped in double quotes.
pub open spec fn quoted(s: Seq<char>) -> Seq<char> {
    seq!['"'] + s + seq!['"']
}

/// The elements of a rendered list: each one quoted, separated by a comma and
/// a space.
pub open spec fn render_items(xs: Seq<Seq<char>>) -> Seq<char>
    decreases xs.len(),
{
    if xs.len() == 0 {
        Seq::empty()
    } else if xs.len() == 1 {
        quoted(xs[0])
    } else {
        render_items(xs.drop_last()) + seq![',', ' '] + quoted(xs.last())
    }
}

/// The human-readable rendering of a value: a single value renders as its
/// string, a list as a bracketed listing of its quoted elements.
pub open spec fn render_value(v: ValueView) -> Seq<char> {
    match v {
        ValueView::Single(s) => s,
        ValueView::List(xs) => seq!['['] + render_items(xs) + seq![']'],
    }
}

proof fn lemma_render_items_step(xs: Seq<Seq<char>>, i: int)
    requires
        0 <= i < xs.len(),
    ensures
        render_items(xs.take(i + 1)) == if i == 0 {
            quoted(xs[0])
        } else {
            render_items(xs.take(i)) + seq![',', ' '] + quoted(xs[i])
        },
{
    let pre = xs.take(i + 1);
    assert(pre.drop_last() =~= xs.take(i));
    assert(pre.last() == xs[i]);
    if i == 0 {
        assert(pre[0] == xs[0]);
    }
}

impl Value {
    /// Human-readable rendering, as `Display` would give it: a single value is
    /// its bare string; a list is a bracketed listing of its quoted elements.
    pub fn render(&self) -> (r: String)
        ensures
            r@ == render_value(self@),
    {
        match self {
            Value::Single(s) => s.clone(),
            Value::List(l) => {
                proof {
                    reveal_strlit("[");
                }
                let ghost xs = l.deep_view();
                let mut out = String::new();
                out.append("[");
                assert(out@ =~= seq!['['] + render_items(xs.take(0)));
                let mut i: usize = 0;
                while i < l.len()
                    invariant
                        i <= l.len(),
                        xs == l.deep_view(),
                        xs.len() == l.len(),
                        out@ == seq!['['] + render_items(xs.take(i as int)),
                    decreases l.len() - i,
                {
                    if i > 0 {
                        out.append(", ");
                    }
                    out.append("\"");
                    out.append(l[i].as_str());
                    out.append("\"");
                    proof {
                        reveal_strlit("\"");
                        reveal_strlit(", ");
                        lemma_render_items_step(xs, i as int);
                        assert(xs[i as int] == l.deep_view()[i as int]);
                        assert(out@ =~= seq!['['] + render_items(xs.take(i as int + 1)));
                    }
                    i += 1;
                }
                proof {
                    reveal_strlit("]");
                    assert(xs.take(l.len() as int) =~= xs);
                }
                out.append("]");
                proof {
                    reveal_strlit("]");
                    assert(out@ =~= seq!['['] + render_items(xs) + seq![']']);
                }
                out
            },
        }
    }
}

} // verus!
