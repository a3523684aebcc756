//! The shared data model: a document is a tree of [`Value`] nodes. Objects
//! keep their members in source order (duplicate keys are kept, not merged),
//! and string and number payloads hold the raw characters captured from the
//! input, with no escape processing and no numeric conversion.

use vstd::prelude::*;

verus! {

/// The identifier of an object member: the raw inner characters of a quoted
/// string in key position.
#[derive(Debug, PartialEq, Eq)]
pub struct Key(pub String);

/// One node of a document tree.
///
/// `String` holds the raw inner characters of a quoted literal, `Number` the
/// literal text matched by the number rule (kept unparsed, so leading zeros
/// and stray dots survive a round trip), `Object` an ordered sequence of
/// members and `Array` an ordered sequence of elements.
#[derive(Debug, PartialEq, Eq)]
pub enum Value {
    String(String),
    Number(String),
    Object(Vec<Pair>),
    Array(Vec<Value>),
}

/// One member of an object: a key and the value bound to it.
#[derive(Debug, PartialEq, Eq)]
pub struct Pair {
    pub key: Key,
    pub value: Value,
}

impl Pair {
    pub fn new(key: Key, value: Value) -> (p: Self)
        ensures
            p.key == key,
            p.value == value,
    {
        Self { key, value }
    }
}

/// The mathematical shape of a document tree: payloads as character
/// sequences, objects as sequences of key/value pairs, arrays as sequences
/// of values. All contracts of this crate speak of this shape.
pub enum SpecValue {
    Str(Seq<char>),
    Num(Seq<char>),
    Obj(Seq<(Seq<char>, SpecValue)>),
    Arr(Seq<SpecValue>),
}

pub open spec fn view_pair(p: Pair) -> (Seq<char>, SpecValue)
    decreases p,
{
    (p.key.0@, view_value(p.value))
}

pub open spec fn view_pairs(ps: Seq<Pair>) -> Seq<(Seq<char>, SpecValue)>
    decreases ps,
{
    if ps.len() == 0 {
        Seq::empty()
    } else {
        seq![view_pair(ps[0])] + view_pairs(ps.subrange(1, ps.len() as int))
    }
}

pub open spec fn view_values(vs: Seq<Value>) -> Seq<SpecValue>
    decreases vs,
{
    if vs.len() == 0 {
        Seq::empty()
    } else {
        seq![view_value(vs[0])] + view_values(vs.subrange(1, vs.len() as int))
    }
}

pub open spec fn view_value(v: Value) -> SpecValue
    decreases v,
{
    match v {
        Value::String(s) => SpecValue::Str(s@),
        Value::Number(s) => SpecValue::Num(s@),
        Value::Object(pairs) => SpecValue::Obj(view_pairs(pairs@)),
        Value::Array(vals) => SpecValue::Arr(view_values(vals@)),
    }
}

impl View for Key {
    type V = Seq<char>;

    open spec fn view(&self) -> Seq<char> {
        self.0@
    }
}

impl View for Pair {
    type V = (Seq<char>, SpecValue);

    open spec fn view(&self) -> (Seq<char>, SpecValue) {
        view_pair(*self)
    }
}

impl View for Value {
    type V = SpecValue;

    open spec fn view(&self) -> SpecValue {
        view_value(*self)
    }
}

/// A string or key payload that renders and re-parses unchanged: it holds no
/// quote (which would end the literal early) and no newline (which the
/// line-based stream elides).
pub open spec fn wf_text(s: Seq<char>) -> bool {
    forall|i: int| 0 <= i < s.len() ==> (#[trigger] s[i]) != '"' && s[i] != '\n'
}

/// A number literal as the parser itself produces one: nonempty, opened by a
/// minus or a digit, and after an optional leading minus all digits or dots.
pub open spec fn wf_num(s: Seq<char>) -> bool {
    &&& s.len() > 0
    &&& (s[0] == '-' || crate::text::is_digit_char(s[0]))
    &&& forall|i: int|
        (if s[0] == '-' {
            1int
        } else {
            0int
        }) <= i < s.len() ==> crate::text::is_num_char(#[trigger] s[i])
}

/// Every tree the parser produces is well-formed, and only well-formed trees
/// are promised to round-trip through formatting and re-parsing.
pub open spec fn wf_value(m: SpecValue) -> bool
    decreases m,
{
    match m {
        SpecValue::Str(s) => wf_text(s),
        SpecValue::Num(s) => wf_num(s),
        SpecValue::Obj(ps) => wf_pairs(ps),
        SpecValue::Arr(vs) => wf_values(vs),
    }
}

pub open spec fn wf_pairs(ps: Seq<(Seq<char>, SpecValue)>) -> bool
    decreases ps,
{
    if ps.len() == 0 {
        true
    } else {
        wf_text(ps[0].0) && wf_value(ps[0].1) && wf_pairs(ps.subrange(1, ps.len() as int))
    }
}

pub open spec fn wf_values(vs: Seq<SpecValue>) -> bool
    decreases vs,
{
    if vs.len() == 0 {
        true
    } else {
        wf_value(vs[0]) && wf_values(vs.subrange(1, vs.len() as int))
    }
}

pub proof fn lemma_wf_pairs_iff(ps: Seq<(Seq<char>, SpecValue)>)
    ensures
        wf_pairs(ps) <==> (forall|i: int|
            0 <= i < ps.len() ==> wf_text((#[trigger] ps[i]).0) && wf_value(ps[i].1)),
    decreases ps,
{
    if ps.len() > 0 {
        let t = ps.subrange(1, ps.len() as int);
        lemma_wf_pairs_iff(t);
        if wf_pairs(ps) {
            assert forall|i: int| 0 <= i < ps.len() implies wf_text((#[trigger] ps[i]).0)
                && wf_value(ps[i].1) by {
                if i > 0 {
                    assert(t[i - 1] == ps[i]);
                }
            }
        }
        if forall|i: int| 0 <= i < ps.len() ==> wf_text((#[trigger] ps[i]).0) && wf_value(
            ps[i].1,
        ) {
            assert forall|i: int| 0 <= i < t.len() implies wf_text((#[trigger] t[i]).0)
                && wf_value(t[i].1) by {
                assert(t[i] == ps[i + 1]);
            }
        }
    }
}

pub proof fn lemma_wf_values_iff(vs: Seq<SpecValue>)
    ensures
        wf_values(vs) <==> (forall|i: int| 0 <= i < vs.len() ==> wf_value(#[trigger] vs[i])),
    decreases vs,
{
    if vs.len() > 0 {
        let t = vs.subrange(1, vs.len() as int);
        lemma_wf_values_iff(t);
        if wf_values(vs) {
            assert forall|i: int| 0 <= i < vs.len() implies wf_value(#[trigger] vs[i]) by {
                if i > 0 {
                    assert(t[i - 1] == vs[i]);
                }
            }
        }
        if forall|i: int| 0 <= i < vs.len() ==> wf_value(#[trigger] vs[i]) {
            assert forall|i: int| 0 <= i < t.len() implies wf_value(#[trigger] t[i]) by {
                assert(t[i] == vs[i + 1]);
            }
        }
    }
}

/// The nesting depth of a tree: how many times the formatter steps into a
/// composite below this node.
pub open spec fn height_value(m: SpecValue) -> nat
    decreases m,
{
    match m {
        SpecValue::Str(_) => 0,
        SpecValue::Num(_) => 0,
        SpecValue::Obj(ps) => 1 + height_pairs(ps),
        SpecValue::Arr(vs) => 1 + height_values(vs),
    }
}

pub open spec fn height_pairs(ps: Seq<(Seq<char>, SpecValue)>) -> nat
    decreases ps,
{
    if ps.len() == 0 {
        0
    } else {
        let h = height_value(ps[0].1);
        let t = height_pairs(ps.subrange(1, ps.len() as int));
        if h > t {
            h
        } else {
            t
        }
    }
}

pub open spec fn height_values(vs: Seq<SpecValue>) -> nat
    decreases vs,
{
    if vs.len() == 0 {
        0
    } else {
        let h = height_value(vs[0]);
        let t = height_values(vs.subrange(1, vs.len() as int));
        if h > t {
            h
        } else {
            t
        }
    }
}

pub proof fn lemma_height_pairs(ps: Seq<(Seq<char>, SpecValue)>)
    ensures
        forall|i: int|
            0 <= i < ps.len() ==> height_value((#[trigger] ps[i]).1) <= height_pairs(ps),
    decreases ps,
{
    if ps.len() > 0 {
        let t = ps.subrange(1, ps.len() as int);
        lemma_height_pairs(t);
        assert forall|i: int| 0 <= i < ps.len() implies height_value((#[trigger] ps[i]).1)
            <= height_pairs(ps) by {
            if i > 0 {
                assert(t[i - 1] == ps[i]);
            }
        }
    }
}

pub proof fn lemma_height_values(vs: Seq<SpecValue>)
    ensures
        forall|i: int| 0 <= i < vs.len() ==> height_value(#[trigger] vs[i]) <= height_values(vs),
    decreases vs,
{
    if vs.len() > 0 {
        let t = vs.subrange(1, vs.len() as int);
        lemma_height_values(t);
        assert forall|i: int| 0 <= i < vs.len() implies height_value(#[trigger] vs[i])
            <= height_values(vs) by {
            if i > 0 {
                assert(t[i - 1] == vs[i]);
            }
        }
    }
}

/// Appending a member raises the nesting depth of a member list at most to
/// the new member's own depth.
pub proof fn lemma_height_pairs_push(ps: Seq<(Seq<char>, SpecValue)>, p: (Seq<char>, SpecValue))
    ensures
        height_pairs(ps.push(p)) <= if height_pairs(ps) > height_value(p.1) {
            height_pairs(ps)
        } else {
            height_value(p.1)
        },
    decreases ps,
{
    let w = ps.push(p);
    if ps.len() == 0 {
        assert(w[0] == p);
        assert(w.subrange(1, w.len() as int) =~= Seq::<(Seq<char>, SpecValue)>::empty());
        assert(height_pairs(Seq::<(Seq<char>, SpecValue)>::empty()) == 0);
    } else {
        let t = ps.subrange(1, ps.len() as int);
        lemma_height_pairs_push(t, p);
        assert(w[0] == ps[0]);
        assert(w.subrange(1, w.len() as int) =~= t.push(p));
    }
}

/// Appending an element raises the nesting depth of an element list at
/// most to the new element's own depth.
pub proof fn lemma_height_values_push(vs: Seq<SpecValue>, v: SpecValue)
    ensures
        height_values(vs.push(v)) <= if height_values(vs) > height_value(v) {
            height_values(vs)
        } else {
            height_value(v)
        },
    decreases vs,
{
    let w = vs.push(v);
    if vs.len() == 0 {
        assert(w[0] == v);
        assert(w.subrange(1, w.len() as int) =~= Seq::<SpecValue>::empty());
        assert(height_values(Seq::<SpecValue>::empty()) == 0);
    } else {
        let t = vs.subrange(1, vs.len() as int);
        lemma_height_values_push(t, v);
        assert(w[0] == vs[0]);
        assert(w.subrange(1, w.len() as int) =~= t.push(v));
    }
}

pub proof fn lemma_view_pairs_push(ps: Seq<Pair>, p: Pair)
    ensures
        view_pairs(ps.push(p)) == view_pairs(ps) + seq![view_pair(p)],
    decreases ps,
{
    let w = ps.push(p);
    if ps.len() == 0 {
        assert(w[0] == p);
        assert(w.subrange(1, w.len() as int) =~= Seq::<Pair>::empty());
        assert(view_pairs(Seq::<Pair>::empty()) =~= Seq::<(Seq<char>, SpecValue)>::empty());
        assert(view_pairs(w) =~= Seq::<(Seq<char>, SpecValue)>::empty() + seq![view_pair(p)]);
        assert(view_pairs(ps) + seq![view_pair(p)] =~= seq![view_pair(p)]);
    } else {
        let t = ps.subrange(1, ps.len() as int);
        lemma_view_pairs_push(t, p);
        assert(w[0] == ps[0]);
        assert(w.subrange(1, w.len() as int) =~= t.push(p));
        assert(view_pairs(w) == seq![view_pair(ps[0])] + (view_pairs(t) + seq![view_pair(p)]));
        assert(seq![view_pair(ps[0])] + (view_pairs(t) + seq![view_pair(p)]) =~= (seq![
            view_pair(ps[0]),
        ] + view_pairs(t)) + seq![view_pair(p)]);
    }
}

pub proof fn lemma_view_values_push(vs: Seq<Value>, v: Value)
    ensures
        view_values(vs.push(v)) == view_values(vs) + seq![view_value(v)],
    decreases vs,
{
    let w = vs.push(v);
    if vs.len() == 0 {
        assert(w[0] == v);
        assert(w.subrange(1, w.len() as int) =~= Seq::<Value>::empty());
        assert(view_values(Seq::<Value>::empty()) =~= Seq::<SpecValue>::empty());
        assert(view_values(w) =~= Seq::<SpecValue>::empty() + seq![view_value(v)]);
        assert(view_values(vs) + seq![view_value(v)] =~= seq![view_value(v)]);
    } else {
        let t = vs.subrange(1, vs.len() as int);
        lemma_view_values_push(t, v);
        assert(w[0] == vs[0]);
        assert(w.subrange(1, w.len() as int) =~= t.push(v));
        assert(view_values(w) == seq![view_value(vs[0])] + (view_values(t) + seq![view_value(v)]));
        assert(seq![view_value(vs[0])] + (view_values(t) + seq![view_value(v)]) =~= (seq![
            view_value(vs[0]),
        ] + view_values(t)) + seq![view_value(v)]);
    }
}

/// Appending a well-formed member keeps a member list well-formed.
pub proof fn lemma_wf_pairs_push(ps: Seq<(Seq<char>, SpecValue)>, p: (Seq<char>, SpecValue))
    requires
        wf_pairs(ps),
        wf_text(p.0),
        wf_value(p.1),
    ensures
        wf_pairs(ps.push(p)),
{
    lemma_wf_pairs_iff(ps);
    lemma_wf_pairs_iff(ps.push(p));
    assert forall|i: int| 0 <= i < ps.push(p).len() implies wf_text(
        (#[trigger] ps.push(p)[i]).0,
    ) && wf_value(ps.push(p)[i].1) by {
        if i < ps.len() {
            assert(ps.push(p)[i] == ps[i]);
        } else {
            assert(ps.push(p)[i] == p);
        }
    }
}

/// Appending a well-formed element keeps an element list well-formed.
pub proof fn lemma_wf_values_push(vs: Seq<SpecValue>, v: SpecValue)
    requires
        wf_values(vs),
        wf_value(v),
    ensures
        wf_values(vs.push(v)),
{
    lemma_wf_values_iff(vs);
    lemma_wf_values_iff(vs.push(v));
    assert forall|i: int| 0 <= i < vs.push(v).len() implies wf_value(
        #[trigger] vs.push(v)[i],
    ) by {
        if i < vs.len() {
            assert(vs.push(v)[i] == vs[i]);
        } else {
            assert(vs.push(v)[i] == v);
        }
    }
}

pub proof fn lemma_view_pairs_index(ps: Seq<Pair>)
    ensures
        view_pairs(ps).len() == ps.len(),
        forall|i: int| 0 <= i < ps.len() ==> view_pairs(ps)[i] == view_pair(#[trigger] ps[i]),
    decreases ps,
{
    if ps.len() > 0 {
        let tail = ps.subrange(1, ps.len() as int);
        lemma_view_pairs_index(tail);
        assert forall|i: int| 0 <= i < ps.len() implies view_pairs(ps)[i] == view_pair(
            #[trigger] ps[i],
        ) by {
            if i > 0 {
                assert(tail[i - 1] == ps[i]);
                assert(view_pairs(ps)[i] == view_pairs(tail)[i - 1]);
            }
        }
    }
}

pub proof fn lemma_view_values_index(vs: Seq<Value>)
    ensures
        view_values(vs).len() == vs.len(),
        forall|i: int| 0 <= i < vs.len() ==> view_values(vs)[i] == view_value(#[trigger] vs[i]),
    decreases vs,
{
    if vs.len() > 0 {
        let tail = vs.subrange(1, vs.len() as int);
        lemma_view_values_index(tail);
        assert forall|i: int| 0 <= i < vs.len() implies view_values(vs)[i] == view_value(
            #[trigger] vs[i],
        ) by {
            if i > 0 {
                assert(tail[i - 1] == vs[i]);
                assert(view_values(vs)[i] == view_values(tail)[i - 1]);
            }
        }
    }
}

} // verus!
