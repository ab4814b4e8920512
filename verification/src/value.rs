//! The value model: the tagged union of encodable values, its mathematical
//! view, the equality contract (maps compared independently of entry order),
//! and the unique-key association list that represents maps.

use vstd::prelude::*;
use crate::wire::is_utf8;

verus! {

broadcast use vstd::seq::axiom_seq_index_decreases;

/// Failure conditions of a single encode or decode call.  Every error is
/// terminal for the call in progress.
#[derive(Clone, Copy, Debug, PartialEq, Eq, Structural)]
pub enum Error {
    /// The underlying byte sink or source failed.
    Sink,
    /// Fewer bytes were available than the declared layout requires.
    Truncated,
    /// A string payload is not well-formed UTF-8.
    InvalidUtf8,
    /// A reserved or extension tag byte that this codec does not implement.
    UnsupportedTag,
    /// The value has no representation in the wire format, such as an
    /// integer outside the 64-bit signed range.
    OutOfRange,
}

/// An in-memory tagged value.
///
/// `Float` carries the IEEE-754 double-precision bit pattern, so that the
/// codec's logic stays within integer arithmetic; `String` carries the UTF-8
/// bytes of the text.  `Mapping` is an association list whose keys are unique
/// under [`eqv`]; entry order is insignificant for equality, which
/// [`value_eq`] decides.
pub enum Value {
    Null,
    Boolean(bool),
    Integer(i128),
    Float(u64),
    String(Vec<u8>),
    Bytes(Vec<u8>),
    Array(Vec<Value>),
    Mapping(Vec<(Value, Value)>),
}

/// The mathematical model of a [`Value`]: the same shape over `int`, `Seq`
/// and pairs.  All contracts of the codec speak of this type.
#[verifier::ext_equal]
pub enum ValueView {
    Null,
    Boolean(bool),
    Integer(int),
    Float(u64),
    String(Seq<u8>),
    Bytes(Seq<u8>),
    Array(Seq<ValueView>),
    Mapping(Seq<(ValueView, ValueView)>),
}

/// The model of `v`.
pub open spec fn view_of(v: Value) -> ValueView
    decreases v,
{
    match v {
        Value::Null => ValueView::Null,
        Value::Boolean(b) => ValueView::Boolean(b),
        Value::Integer(i) => ValueView::Integer(i as int),
        Value::Float(bits) => ValueView::Float(bits),
        Value::String(s) => ValueView::String(s@),
        Value::Bytes(b) => ValueView::Bytes(b@),
        Value::Array(a) => ValueView::Array(views_of(a@)),
        Value::Mapping(m) => ValueView::Mapping(entry_views_of(m@)),
    }
}

/// The models of a sequence of values, in order.
pub open spec fn views_of(s: Seq<Value>) -> Seq<ValueView>
    decreases s,
{
    if s.len() == 0 {
        Seq::empty()
    } else {
        seq![view_of(s[0])] + views_of(s.drop_first())
    }
}

/// The models of a sequence of entries, in order.
pub open spec fn entry_views_of(s: Seq<(Value, Value)>) -> Seq<(ValueView, ValueView)>
    decreases s,
{
    if s.len() == 0 {
        Seq::empty()
    } else {
        seq![(view_of(s[0].0), view_of(s[0].1))] + entry_views_of(s.drop_first())
    }
}

/// `views_of` maps the sequence elementwise.
pub broadcast proof fn lemma_views_of(s: Seq<Value>)
    ensures
        (#[trigger] views_of(s)).len() == s.len(),
        forall|i: int| 0 <= i < s.len() ==> views_of(s)[i] == view_of(#[trigger] s[i]),
    decreases s.len(),
{
    if s.len() > 0 {
        lemma_views_of(s.drop_first());
        assert forall|i: int| 0 <= i < s.len() implies views_of(s)[i] == view_of(s[i]) by {
            if i > 0 {
                assert(views_of(s)[i] == views_of(s.drop_first())[i - 1]);
                assert(s.drop_first()[i - 1] == s[i]);
            }
        }
    }
}

/// `entry_views_of` maps the sequence elementwise.
pub broadcast proof fn lemma_entry_views_of(s: Seq<(Value, Value)>)
    ensures
        (#[trigger] entry_views_of(s)).len() == s.len(),
        forall|i: int|
            0 <= i < s.len() ==> entry_views_of(s)[i] == (
                view_of(#[trigger] s[i].0),
                view_of(s[i].1),
            ),
    decreases s.len(),
{
    if s.len() > 0 {
        lemma_entry_views_of(s.drop_first());
        assert forall|i: int|
            0 <= i < s.len() implies entry_views_of(s)[i] == (
            view_of(s[i].0),
            view_of(s[i].1),
        ) by {
            if i > 0 {
                assert(entry_views_of(s)[i] == entry_views_of(s.drop_first())[i - 1]);
                assert(s.drop_first()[i - 1] == s[i]);
            }
        }
    }
}

impl View for Value {
    type V = ValueView;

    open spec fn view(&self) -> ValueView {
        view_of(*self)
    }
}

/// Whether some entry of `y` matches the entry `e`: equal key and equal
/// value under [`eqv`].
pub open spec fn map_entry_in(e: (ValueView, ValueView), y: Seq<(ValueView, ValueView)>) -> bool
    decreases e,
{
    exists|j: int|
        #![trigger y[j]]
        0 <= j < y.len() && eqv(e.0, y[j].0) && eqv(e.1, y[j].1)
}

/// The model's equality: identical variants with recursively equal payloads,
/// except that two maps are equal whenever they have the same number of
/// entries and every entry of the one is matched by an entry of the other,
/// independent of entry order.
pub open spec fn eqv(a: ValueView, b: ValueView) -> bool
    decreases a,
{
    match (a, b) {
        (ValueView::Null, ValueView::Null) => true,
        (ValueView::Boolean(x), ValueView::Boolean(y)) => x == y,
        (ValueView::Integer(x), ValueView::Integer(y)) => x == y,
        (ValueView::Float(x), ValueView::Float(y)) => x == y,
        (ValueView::String(x), ValueView::String(y)) => x == y,
        (ValueView::Bytes(x), ValueView::Bytes(y)) => x == y,
        (ValueView::Array(x), ValueView::Array(y)) => x.len() == y.len() && (forall|i: int|
            #![trigger x[i]]
            0 <= i < x.len() ==> eqv(x[i], y[i])),
        (ValueView::Mapping(x), ValueView::Mapping(y)) => x.len() == y.len() && (forall|i: int|
            #![trigger x[i]]
            0 <= i < x.len() ==> map_entry_in(x[i], y)),
        _ => false,
    }
}

/// Well-formedness: string payloads are UTF-8 text and map keys are unique
/// under [`eqv`].  Values built by hand should satisfy this; every decoded
/// value does.
pub open spec fn wf(g: ValueView) -> bool
    decreases g,
{
    match g {
        ValueView::String(s) => is_utf8(s),
        ValueView::Array(vs) => forall|i: int|
            #![trigger vs[i]]
            0 <= i < vs.len() ==> wf(vs[i]),
        ValueView::Mapping(es) => (forall|i: int|
            #![trigger es[i]]
            0 <= i < es.len() ==> wf(es[i].0) && wf(es[i].1)) && (forall|i: int, j: int|
            #![trigger es[i], es[j]]
            0 <= i < es.len() && 0 <= j < es.len() && i != j ==> !eqv(es[i].0, es[j].0)),
        _ => true,
    }
}

/// Decides [`eqv`] on the models of two values.
#[verifier::loop_isolation(false)]
pub fn value_eq(a: &Value, b: &Value) -> (r: bool)
    ensures
        r == eqv(a@, b@),
    decreases a,
{
    match (a, b) {
        (Value::Null, Value::Null) => true,
        (Value::Boolean(x), Value::Boolean(y)) => {
            proof {
                assert(eqv(a@, b@) == (*x == *y));
            }
            *x == *y
        },
        (Value::Integer(x), Value::Integer(y)) => {
            proof {
                assert(eqv(a@, b@) == (*x == *y));
            }
            *x == *y
        },
        (Value::Float(x), Value::Float(y)) => {
            proof {
                assert(eqv(a@, b@) == (*x == *y));
            }
            *x == *y
        },
        (Value::String(x), Value::String(y)) => {
            proof {
                assert(eqv(a@, b@) == (x@ == y@));
            }
            bytes_eq(x, y)
        },
        (Value::Bytes(x), Value::Bytes(y)) => {
            proof {
                assert(eqv(a@, b@) == (x@ == y@));
            }
            bytes_eq(x, y)
        },
        (Value::Array(x), Value::Array(y)) => {
            proof {
                lemma_views_of(x@);
                lemma_views_of(y@);
            }
            if x.len() != y.len() {
                return false;
            }
            let n = x.len();
            let mut i: usize = 0;
            while i < n
                invariant
                    0 <= i <= n,
                    n == x@.len() == y@.len(),
                    a@ == ValueView::Array(views_of(x@)),
                    b@ == ValueView::Array(views_of(y@)),
                    forall|k: int| 0 <= k < i ==> eqv(#[trigger] views_of(x@)[k], views_of(y@)[k]),
                decreases n - i,
            {
                proof {
                    lemma_views_of(x@);
                    lemma_views_of(y@);
                    assert(decreases_to!(a => x@[i as int]));
                }
                if !value_eq(&x[i], &y[i]) {
                    assert(!eqv(views_of(x@)[i as int], views_of(y@)[i as int]));
                    return false;
                }
                i = i + 1;
            }
            proof {
                lemma_views_of(x@);
                lemma_views_of(y@);
            }
            true
        },
        (Value::Mapping(x), Value::Mapping(y)) => {
            proof {
                lemma_entry_views_of(x@);
                lemma_entry_views_of(y@);
            }
            if x.len() != y.len() {
                return false;
            }
            let n = x.len();
            let ghost xs = entry_views_of(x@);
            let ghost ys = entry_views_of(y@);
            let mut i: usize = 0;
            while i < n
                invariant
                    0 <= i <= n,
                    n == x@.len() == y@.len(),
                    xs == entry_views_of(x@),
                    ys == entry_views_of(y@),
                    a@ == ValueView::Mapping(xs),
                    b@ == ValueView::Mapping(ys),
                    forall|k: int|
                        #![trigger xs[k]]
                        0 <= k < i ==> map_entry_in(xs[k], ys),
                decreases n - i,
            {
                let mut j: usize = 0;
                let mut found = false;
                while j < n
                    invariant
                        0 <= j <= n,
                        0 <= i < n,
                        n == x@.len() == y@.len(),
                        xs == entry_views_of(x@),
                        ys == entry_views_of(y@),
                        !found ==> forall|l: int|
                            #![trigger ys[l]]
                            0 <= l < j ==> !(eqv(xs[i as int].0, ys[l].0) && eqv(
                                xs[i as int].1,
                                ys[l].1,
                            )),
                        found ==> map_entry_in(xs[i as int], ys),
                    decreases n - j,
                {
                    if !found {
                        proof {
                            lemma_entry_views_of(x@);
                            lemma_entry_views_of(y@);
                            assert(decreases_to!(a => x@[i as int].0));
                            assert(decreases_to!(a => x@[i as int].1));
                        }
                        if value_eq(&x[i].0, &y[j].0) && value_eq(&x[i].1, &y[j].1) {
                            found = true;
                        }
                    }
                    j = j + 1;
                }
                if !found {
                    proof {
                        lemma_entry_views_of(x@);
                        lemma_entry_views_of(y@);
                        assert(!map_entry_in(xs[i as int], ys));
                        assert(!eqv(a@, b@));
                    }
                    return false;
                }
                i = i + 1;
            }
            proof {
                lemma_entry_views_of(x@);
                lemma_entry_views_of(y@);
            }
            true
        },
        _ => {
            assert(!eqv(a@, b@));
            false
        },
    }
}

/// The association list `m` with `v` stored under `k`: the first entry whose
/// key equals `k` under [`eqv`] keeps its key and takes the value `v`; when
/// no entry matches, `(k, v)` is appended.
pub open spec fn assoc_set(
    m: Seq<(ValueView, ValueView)>,
    k: ValueView,
    v: ValueView,
) -> Seq<(ValueView, ValueView)>
    decreases m.len(),
{
    if m.len() == 0 {
        seq![(k, v)]
    } else if eqv(m[0].0, k) {
        seq![(m[0].0, v)] + m.drop_first()
    } else {
        seq![m[0]] + assoc_set(m.drop_first(), k, v)
    }
}

/// The map that a run of entries builds up in stream order, later duplicate
/// keys overwriting the values of earlier ones.
pub open spec fn assoc_from(ps: Seq<(ValueView, ValueView)>) -> Seq<(ValueView, ValueView)>
    decreases ps.len(),
{
    if ps.len() == 0 {
        Seq::empty()
    } else {
        assoc_set(assoc_from(ps.drop_last()), ps.last().0, ps.last().1)
    }
}

/// Storing under a key that no entry holds appends the new entry.
pub proof fn lemma_assoc_set_fresh(m: Seq<(ValueView, ValueView)>, k: ValueView, v: ValueView)
    requires
        forall|i: int| #![trigger m[i]] 0 <= i < m.len() ==> !eqv(m[i].0, k),
    ensures
        assoc_set(m, k, v) == m.push((k, v)),
    decreases m.len(),
{
    if m.len() == 0 {
        assert(assoc_set(m, k, v) =~= m.push((k, v)));
    } else {
        lemma_assoc_set_fresh(m.drop_first(), k, v);
        assert(assoc_set(m, k, v) =~= m.push((k, v)));
    }
}

/// Storing under the key of the first matching entry replaces that entry's
/// value and nothing else.
pub proof fn lemma_assoc_set_found(
    m: Seq<(ValueView, ValueView)>,
    k: ValueView,
    v: ValueView,
    i: int,
)
    requires
        0 <= i < m.len(),
        eqv(m[i].0, k),
        forall|j: int| #![trigger m[j]] 0 <= j < i ==> !eqv(m[j].0, k),
    ensures
        assoc_set(m, k, v) == m.update(i, (m[i].0, v)),
    decreases i,
{
    if i == 0 {
        assert(assoc_set(m, k, v) =~= m.update(0, (m[0].0, v)));
    } else {
        lemma_assoc_set_found(m.drop_first(), k, v, i - 1);
        assert(assoc_set(m, k, v) =~= m.update(i, (m[i].0, v)));
    }
}

/// A run of entries with pairwise distinct keys builds exactly itself:
/// nothing is overwritten.
pub proof fn lemma_assoc_from_unique(ps: Seq<(ValueView, ValueView)>)
    requires
        forall|i: int, j: int|
            #![trigger ps[i], ps[j]]
            0 <= i < ps.len() && 0 <= j < ps.len() && i != j ==> !eqv(ps[i].0, ps[j].0),
    ensures
        assoc_from(ps) == ps,
    decreases ps.len(),
{
    if ps.len() > 0 {
        let q = ps.drop_last();
        lemma_assoc_from_unique(q);
        lemma_assoc_set_fresh(q, ps.last().0, ps.last().1);
        assert(assoc_from(ps) =~= ps);
    }
}

/// Stores `v` under `k`: the first entry whose key equals `k` under [`eqv`]
/// keeps its key and takes the value `v`; when no entry matches, `(k, v)` is
/// appended.
#[verifier::loop_isolation(false)]
#[verifier::rlimit(50)]
pub fn map_insert(m: &mut Vec<(Value, Value)>, k: Value, v: Value)
    ensures
        entry_views_of(final(m)@) == assoc_set(entry_views_of(old(m)@), k@, v@),
{
    proof {
        lemma_entry_views_of(m@);
    }
    let ghost ms = entry_views_of(old(m)@);
    let n = m.len();
    let mut i: usize = 0;
    while i < n
        invariant
            0 <= i <= n,
            n == m@.len(),
            m@ == old(m)@,
            forall|j: int| #![trigger ms[j]] 0 <= j < i ==> !eqv(ms[j].0, k@),
        decreases n - i,
    {
        if value_eq(&m[i].0, &k) {
            proof {
                lemma_assoc_set_found(ms, k@, v@, i as int);
            }
            let entry = m.remove(i);
            let k0 = entry.0;
            m.insert(i, (k0, v));
            proof {
                let os = old(m)@;
                let ns = m@;
                assert forall|j: int|
                    0 <= j < ns.len() implies ns[j] == os.update(
                    i as int,
                    (os[i as int].0, v),
                )[j] by {
                    assert(ns[j] == os.remove(i as int).insert(i as int, (os[i as int].0, v))[j]);
                }
                assert(ns =~= os.update(i as int, (os[i as int].0, v)));
                lemma_entry_views_of(ns);
                assert forall|j: int|
                    0 <= j < ns.len() implies entry_views_of(ns)[j] == ms.update(
                    i as int,
                    (ms[i as int].0, v@),
                )[j] by {
                    assert(entry_views_of(ns)[j] == (view_of(ns[j].0), view_of(ns[j].1)));
                    assert(ms[j] == (view_of(os[j].0), view_of(os[j].1)));
                }
                assert(entry_views_of(ns) =~= ms.update(i as int, (ms[i as int].0, v@)));
            }
            return ;
        }
        i = i + 1;
    }
    proof {
        lemma_assoc_set_fresh(ms, k@, v@);
    }
    m.push((k, v));
    proof {
        let os = old(m)@;
        let ns = m@;
        lemma_entry_views_of(ns);
        assert forall|j: int|
            0 <= j < ns.len() implies entry_views_of(ns)[j] == ms.push((k@, v@))[j] by {
            assert(entry_views_of(ns)[j] == (view_of(ns[j].0), view_of(ns[j].1)));
            if j < os.len() {
                assert(ns[j] == os[j]);
                assert(ms[j] == (view_of(os[j].0), view_of(os[j].1)));
            } else {
                assert(ns[j] == (k, v));
            }
        }
        assert(entry_views_of(ns) =~= ms.push((k@, v@)));
    }
}

/// Decides equality of two byte vectors.
fn bytes_eq(a: &Vec<u8>, b: &Vec<u8>) -> (r: bool)
    ensures
        r == (a@ == b@),
{
    if a.len() != b.len() {
        proof {
            assert(a@.len() != b@.len());
        }
        return false;
    }
    let n = a.len();
    let mut i: usize = 0;
    while i < n
        invariant
            0 <= i <= n,
            n == a@.len() == b@.len(),
            forall|k: int| 0 <= k < i ==> a@[k] == b@[k],
        decreases n - i,
    {
        if a[i] != b[i] {
            return false;
        }
        i = i + 1;
    }
    proof {
        assert(a@ =~= b@);
    }
    true
}

} // verus!
