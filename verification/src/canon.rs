//! The canonical rendering of a document tree, as a specification.
//!
//! `fmt_value` is the text the formatter prints: four spaces of indentation
//! per nesting level, one member or element per line. `flat_value` is the
//! same text as the parser's line-based stream sees it, with the newline
//! characters elided. The shape lemma ties the two together and records the
//! facts about first and last characters that the parser contracts lean on.

use vstd::prelude::*;

use crate::ast::{
    wf_text, wf_num, wf_value, SpecValue,
};
use crate::text::{
    all_ws, is_num_char, is_ws_char, nl_free, no_crlf, strip_nl,
    lemma_strip_nl_concat, lemma_strip_nl_free, lemma_no_crlf_concat,
};

verus! {

/// The indentation printed at nesting depth `d`: `4 * d` spaces.
pub open spec fn indent_seq(d: nat) -> Seq<char> {
    Seq::new(4 * d, |i: int| ' ')
}

/// The canonical text of a tree at depth `d`, as printed.
pub open spec fn fmt_value(m: SpecValue, d: nat) -> Seq<char>
    decreases m,
{
    match m {
        SpecValue::Str(s) => seq!['"'] + s + seq!['"'],
        SpecValue::Num(s) => s,
        SpecValue::Obj(ps) => if ps.len() == 0 {
            seq!['{', '}']
        } else {
            seq!['{', '\n'] + fmt_pairs(ps, d + 1) + seq!['\n'] + indent_seq(d) + seq!['}']
        },
        SpecValue::Arr(vs) => if vs.len() == 0 {
            seq!['[', ']']
        } else {
            seq!['[', '\n'] + fmt_elems(vs, d + 1) + seq!['\n'] + indent_seq(d) + seq![']']
        },
    }
}

/// The members of an object, one per line at depth `d`, joined by `,\n`.
pub open spec fn fmt_pairs(ps: Seq<(Seq<char>, SpecValue)>, d: nat) -> Seq<char>
    decreases ps,
{
    if ps.len() == 0 {
        Seq::empty()
    } else {
        let head = indent_seq(d) + seq!['"'] + ps[0].0 + seq!['"', ':', ' '] + fmt_value(
            ps[0].1,
            d,
        );
        if ps.len() == 1 {
            head
        } else {
            head + seq![',', '\n'] + fmt_pairs(ps.subrange(1, ps.len() as int), d)
        }
    }
}

/// The elements of an array, one per line at depth `d`, joined by `,\n`.
pub open spec fn fmt_elems(vs: Seq<SpecValue>, d: nat) -> Seq<char>
    decreases vs,
{
    if vs.len() == 0 {
        Seq::empty()
    } else {
        let head = indent_seq(d) + fmt_value(vs[0], d);
        if vs.len() == 1 {
            head
        } else {
            head + seq![',', '\n'] + fmt_elems(vs.subrange(1, vs.len() as int), d)
        }
    }
}

/// The canonical text of a tree as the parser's stream sees it: the printed
/// text with every newline elided.
pub open spec fn flat_value(m: SpecValue, d: nat) -> Seq<char>
    decreases m,
{
    match m {
        SpecValue::Str(s) => seq!['"'] + s + seq!['"'],
        SpecValue::Num(s) => s,
        SpecValue::Obj(ps) => if ps.len() == 0 {
            seq!['{', '}']
        } else {
            seq!['{'] + flat_pairs(ps, d + 1) + indent_seq(d) + seq!['}']
        },
        SpecValue::Arr(vs) => if vs.len() == 0 {
            seq!['[', ']']
        } else {
            seq!['['] + flat_elems(vs, d + 1) + indent_seq(d) + seq![']']
        },
    }
}

pub open spec fn flat_pairs(ps: Seq<(Seq<char>, SpecValue)>, d: nat) -> Seq<char>
    decreases ps,
{
    if ps.len() == 0 {
        Seq::empty()
    } else {
        let head = indent_seq(d) + seq!['"'] + ps[0].0 + seq!['"', ':', ' '] + flat_value(
            ps[0].1,
            d,
        );
        if ps.len() == 1 {
            head
        } else {
            head + seq![','] + flat_pairs(ps.subrange(1, ps.len() as int), d)
        }
    }
}

pub open spec fn flat_elems(vs: Seq<SpecValue>, d: nat) -> Seq<char>
    decreases vs,
{
    if vs.len() == 0 {
        Seq::empty()
    } else {
        let head = indent_seq(d) + flat_value(vs[0], d);
        if vs.len() == 1 {
            head
        } else {
            head + seq![','] + flat_elems(vs.subrange(1, vs.len() as int), d)
        }
    }
}

/// The printed line of one object member at depth `d`, without a separator.
pub open spec fn pair_text(p: (Seq<char>, SpecValue), d: nat) -> Seq<char> {
    indent_seq(d) + seq!['"'] + p.0 + seq!['"', ':', ' '] + fmt_value(p.1, d)
}

/// The printed line of one array element at depth `d`, without a separator.
pub open spec fn elem_text(v: SpecValue, d: nat) -> Seq<char> {
    indent_seq(d) + fmt_value(v, d)
}

/// A nonempty member list renders as its first `k` members, a separator,
/// and the remaining members.
pub proof fn lemma_fmt_pairs_split(ps: Seq<(Seq<char>, SpecValue)>, k: int, d: nat)
    requires
        0 < k < ps.len(),
    ensures
        fmt_pairs(ps, d) == fmt_pairs(ps.take(k), d) + seq![',', '\n'] + fmt_pairs(
            ps.skip(k),
            d,
        ),
    decreases k,
{
    let tail = ps.subrange(1, ps.len() as int);
    if k == 1 {
        assert(ps.take(1).len() == 1 && ps.take(1)[0] == ps[0]);
        assert(fmt_pairs(ps.take(1), d) == indent_seq(d) + seq!['"'] + ps[0].0 + seq!['"', ':', ' ']
            + fmt_value(ps[0].1, d));
        assert(ps.skip(1) =~= tail);
    } else {
        lemma_fmt_pairs_split(tail, k - 1, d);
        assert(tail.take(k - 1) =~= ps.take(k).subrange(1, k));
        assert(tail.skip(k - 1) =~= ps.skip(k));
        assert(ps.take(k)[0] == ps[0] && ps.take(k).len() == k);
        let head = indent_seq(d) + seq!['"'] + ps[0].0 + seq!['"', ':', ' '] + fmt_value(
            ps[0].1,
            d,
        );
        assert(fmt_pairs(ps.take(k), d) == head + seq![',', '\n'] + fmt_pairs(
            ps.take(k).subrange(1, k),
            d,
        ));
        assert(fmt_pairs(ps, d) == head + seq![',', '\n'] + fmt_pairs(tail, d));
        assert((head + seq![',', '\n'] + (fmt_pairs(tail.take(k - 1), d) + seq![',', '\n']
            + fmt_pairs(tail.skip(k - 1), d))) =~= ((head + seq![',', '\n'] + fmt_pairs(
            tail.take(k - 1),
            d,
        )) + seq![',', '\n'] + fmt_pairs(tail.skip(k - 1), d)));
    }
}

/// A nonempty element list renders as its first `k` elements, a separator,
/// and the remaining elements.
pub proof fn lemma_fmt_elems_split(vs: Seq<SpecValue>, k: int, d: nat)
    requires
        0 < k < vs.len(),
    ensures
        fmt_elems(vs, d) == fmt_elems(vs.take(k), d) + seq![',', '\n'] + fmt_elems(
            vs.skip(k),
            d,
        ),
    decreases k,
{
    let tail = vs.subrange(1, vs.len() as int);
    if k == 1 {
        assert(vs.take(1).len() == 1 && vs.take(1)[0] == vs[0]);
        assert(fmt_elems(vs.take(1), d) == indent_seq(d) + fmt_value(vs[0], d));
        assert(vs.skip(1) =~= tail);
    } else {
        lemma_fmt_elems_split(tail, k - 1, d);
        assert(tail.take(k - 1) =~= vs.take(k).subrange(1, k));
        assert(tail.skip(k - 1) =~= vs.skip(k));
        assert(vs.take(k)[0] == vs[0] && vs.take(k).len() == k);
        let head = indent_seq(d) + fmt_value(vs[0], d);
        assert(fmt_elems(vs.take(k), d) == head + seq![',', '\n'] + fmt_elems(
            vs.take(k).subrange(1, k),
            d,
        ));
        assert(fmt_elems(vs, d) == head + seq![',', '\n'] + fmt_elems(tail, d));
        assert((head + seq![',', '\n'] + (fmt_elems(tail.take(k - 1), d) + seq![',', '\n']
            + fmt_elems(tail.skip(k - 1), d))) =~= ((head + seq![',', '\n'] + fmt_elems(
            tail.take(k - 1),
            d,
        )) + seq![',', '\n'] + fmt_elems(tail.skip(k - 1), d)));
    }
}

/// The characters on which the value dispatch can start a value.
pub open spec fn starts_value(c: char) -> bool {
    c == '{' || c == '[' || c == '"' || c == '-' || crate::text::is_digit_char(c)
}

/// What must follow a canonical value for the parser to stop exactly at its
/// end: after a number token, no further digit or dot.
pub open spec fn delim_ok(m: SpecValue, rest: Seq<char>) -> bool {
    m is Num ==> (rest.len() == 0 || !is_num_char(rest[0]))
}

/// The shape of a canonical rendering: eliding its newlines gives the flat
/// text, it is nonempty, it opens with the character the parser dispatches
/// on, and no carriage return sits before a newline in it.
pub proof fn lemma_shape_value(m: SpecValue, d: nat)
    requires
        wf_value(m),
    ensures
        strip_nl(fmt_value(m, d)) == flat_value(m, d),
        fmt_value(m, d).len() > 0,
        flat_value(m, d).len() > 0,
        flat_value(m, d)[0] == fmt_value(m, d)[0],
        !is_ws_char(fmt_value(m, d)[0]),
        m is Obj ==> fmt_value(m, d)[0] == '{',
        m is Arr ==> fmt_value(m, d)[0] == '[',
        m is Str ==> fmt_value(m, d)[0] == '"',
        m is Num ==> (fmt_value(m, d)[0] == '-' || crate::text::is_digit_char(
            fmt_value(m, d)[0],
        )),
        no_crlf(fmt_value(m, d)),
        fmt_value(m, d)[fmt_value(m, d).len() - 1] != '\r',
        starts_value(fmt_value(m, d)[0]),
    decreases m,
{
    match m {
        SpecValue::Str(s) => {
            let q = seq!['"'];
            assert(nl_free(q) && nl_free(s));
            lemma_strip_nl_concat(q + s, q);
            lemma_strip_nl_concat(q, s);
            lemma_strip_nl_free(q);
            lemma_strip_nl_free(s);
            assert(strip_nl(fmt_value(m, d)) =~= flat_value(m, d));
            assert(no_crlf(q));
            assert(no_crlf(s));
            lemma_no_crlf_concat(q, s);
            lemma_no_crlf_concat(q + s, q);
            assert(fmt_value(m, d)[fmt_value(m, d).len() - 1] == '"');
        },
        SpecValue::Num(s) => {
            assert(nl_free(s));
            lemma_strip_nl_free(s);
            assert(no_crlf(s));
            let last = s.len() - 1;
            if s[0] == '-' && s.len() == 1 {
                assert(s[last] == '-');
            } else {
                assert(is_num_char(s[last]));
            }
        },
        SpecValue::Obj(ps) => {
            if ps.len() == 0 {
                let t = seq!['{', '}'];
                assert(nl_free(t));
                lemma_strip_nl_free(t);
                assert(no_crlf(t));
            } else {
                lemma_shape_pairs(ps, d + 1);
                let a = seq!['{', '\n'];
                let c = fmt_pairs(ps, d + 1);
                let e = seq!['\n'] + indent_seq(d) + seq!['}'];
                assert(fmt_value(m, d) =~= a + c + e);
                lemma_strip_nl_concat(a + c, e);
                lemma_strip_nl_concat(a, c);
                lemma_strip_nl_concat(seq!['\n'] + indent_seq(d), seq!['}']);
                lemma_strip_nl_concat(seq!['\n'], indent_seq(d));
                assert(strip_nl(seq!['\n']) =~= Seq::<char>::empty()) by {
                    assert(seq!['\n'].subrange(1, 1) =~= Seq::<char>::empty());
                    assert(strip_nl(Seq::<char>::empty()) =~= Seq::<char>::empty());
                }
                assert(strip_nl(seq!['{', '\n']) =~= seq!['{']) by {
                    assert(seq!['{', '\n'].subrange(1, 2) =~= seq!['\n']);
                    assert(seq!['{', '\n'].subrange(1, 2).subrange(1, 1) =~= Seq::<char>::empty());
                    assert(strip_nl(Seq::<char>::empty()) =~= Seq::<char>::empty());
                    assert(strip_nl(seq!['{', '\n'].subrange(1, 2)) =~= Seq::<char>::empty());
                }
                assert(nl_free(indent_seq(d)));
                lemma_strip_nl_free(indent_seq(d));
                assert(nl_free(seq!['}']));
                lemma_strip_nl_free(seq!['}']);
                assert(strip_nl(e) =~= indent_seq(d) + seq!['}']);
                assert(strip_nl(fmt_value(m, d)) == strip_nl(a + c) + strip_nl(e));
                assert(strip_nl(fmt_value(m, d)) =~= seq!['{'] + flat_pairs(ps, d + 1)
                    + indent_seq(d) + seq!['}']);
                assert(strip_nl(fmt_value(m, d)) =~= flat_value(m, d));
                // no carriage return before a newline anywhere in the text
                assert(no_crlf(a));
                lemma_no_crlf_concat(a, c);
                assert(no_crlf(e)) by {
                    assert(forall|i: int|
                        0 <= i < e.len() ==> #[trigger] e[i] == '\n' || e[i] == ' ' || e[i]
                            == '}');
                }
                assert((a + c)[(a + c).len() - 1] != '\r');
                lemma_no_crlf_concat(a + c, e);
                assert(fmt_value(m, d)[fmt_value(m, d).len() - 1] == '}');
                assert(fmt_value(m, d)[0] == '{');
                assert(flat_value(m, d)[0] == '{');
            }
        },
        SpecValue::Arr(vs) => {
            if vs.len() == 0 {
                let t = seq!['[', ']'];
                assert(nl_free(t));
                lemma_strip_nl_free(t);
                assert(no_crlf(t));
            } else {
                lemma_shape_elems(vs, d + 1);
                let a = seq!['[', '\n'];
                let c = fmt_elems(vs, d + 1);
                let e = seq!['\n'] + indent_seq(d) + seq![']'];
                assert(fmt_value(m, d) =~= a + c + e);
                lemma_strip_nl_concat(a + c, e);
                lemma_strip_nl_concat(a, c);
                lemma_strip_nl_concat(seq!['\n'] + indent_seq(d), seq![']']);
                lemma_strip_nl_concat(seq!['\n'], indent_seq(d));
                assert(strip_nl(seq!['\n']) =~= Seq::<char>::empty()) by {
                    assert(seq!['\n'].subrange(1, 1) =~= Seq::<char>::empty());
                    assert(strip_nl(Seq::<char>::empty()) =~= Seq::<char>::empty());
                }
                assert(strip_nl(seq!['[', '\n']) =~= seq!['[']) by {
                    assert(seq!['[', '\n'].subrange(1, 2) =~= seq!['\n']);
                    assert(seq!['[', '\n'].subrange(1, 2).subrange(1, 1) =~= Seq::<char>::empty());
                    assert(strip_nl(Seq::<char>::empty()) =~= Seq::<char>::empty());
                    assert(strip_nl(seq!['[', '\n'].subrange(1, 2)) =~= Seq::<char>::empty());
                }
                assert(nl_free(indent_seq(d)));
                lemma_strip_nl_free(indent_seq(d));
                assert(nl_free(seq![']']));
                lemma_strip_nl_free(seq![']']);
                assert(strip_nl(e) =~= indent_seq(d) + seq![']']);
                assert(strip_nl(fmt_value(m, d)) == strip_nl(a + c) + strip_nl(e));
                assert(strip_nl(fmt_value(m, d)) =~= seq!['['] + flat_elems(vs, d + 1)
                    + indent_seq(d) + seq![']']);
                assert(strip_nl(fmt_value(m, d)) =~= flat_value(m, d));
                assert(no_crlf(a));
                lemma_no_crlf_concat(a, c);
                assert(no_crlf(e)) by {
                    assert(forall|i: int|
                        0 <= i < e.len() ==> #[trigger] e[i] == '\n' || e[i] == ' ' || e[i]
                            == ']');
                }
                assert((a + c)[(a + c).len() - 1] != '\r');
                lemma_no_crlf_concat(a + c, e);
                assert(fmt_value(m, d)[fmt_value(m, d).len() - 1] == ']');
                assert(fmt_value(m, d)[0] == '[');
                assert(flat_value(m, d)[0] == '[');
            }
        },
    }
}

/// The shape of a nonempty member list's rendering.
pub proof fn lemma_shape_pairs(ps: Seq<(Seq<char>, SpecValue)>, d: nat)
    requires
        ps.len() > 0,
        wf_value(SpecValue::Obj(ps)),
    ensures
        strip_nl(fmt_pairs(ps, d)) == flat_pairs(ps, d),
        fmt_pairs(ps, d).len() > 0,
        no_crlf(fmt_pairs(ps, d)),
        fmt_pairs(ps, d)[fmt_pairs(ps, d).len() - 1] != '\r',
    decreases ps,
{
    assert(wf_text(ps[0].0) && wf_value(ps[0].1));
    lemma_shape_value(ps[0].1, d);
    let pre = indent_seq(d) + seq!['"'] + ps[0].0 + seq!['"', ':', ' '];
    let v = fmt_value(ps[0].1, d);
    let head = pre + v;
    assert(nl_free(pre)) by {
        assert(forall|i: int|
            0 <= i < pre.len() ==> #[trigger] pre[i] == ' ' || pre[i] == '"' || pre[i] == ':'
                || ps[0].0.contains(pre[i]));
        assert(forall|i: int| 0 <= i < ps[0].0.len() ==> #[trigger] ps[0].0[i] != '\n');
    }
    lemma_strip_nl_free(pre);
    lemma_strip_nl_concat(pre, v);
    assert(strip_nl(head) == pre + flat_value(ps[0].1, d));
    assert(no_crlf(pre)) by {
        assert(forall|i: int| 0 <= i < pre.len() ==> (#[trigger] pre[i]) != '\n' || true);
    }
    assert(no_crlf(head)) by {
        assert(pre[pre.len() - 1] == ' ');
        lemma_no_crlf_concat(pre, v);
    }
    assert(head[head.len() - 1] != '\r');
    if ps.len() == 1 {
        assert(fmt_pairs(ps, d) == head);
        assert(flat_pairs(ps, d) =~= strip_nl(head));
    } else {
        let tail = ps.subrange(1, ps.len() as int);
        assert(wf_value(SpecValue::Obj(tail)));
        lemma_shape_pairs(tail, d);
        let sep = seq![',', '\n'];
        assert(fmt_pairs(ps, d) =~= head + sep + fmt_pairs(tail, d));
        lemma_strip_nl_concat(head + sep, fmt_pairs(tail, d));
        lemma_strip_nl_concat(head, sep);
        assert(strip_nl(sep) =~= seq![',']) by {
            assert(sep.subrange(1, 2) =~= seq!['\n']);
            assert(sep.subrange(1, 2).subrange(1, 1) =~= Seq::<char>::empty());
            assert(strip_nl(Seq::<char>::empty()) =~= Seq::<char>::empty());
            assert(strip_nl(sep.subrange(1, 2)) =~= Seq::<char>::empty());
        }
        assert(strip_nl(fmt_pairs(ps, d)) =~= (strip_nl(head) + seq![',']) + flat_pairs(tail, d));
        assert(flat_pairs(ps, d) =~= (strip_nl(head) + seq![',']) + flat_pairs(tail, d));
        assert(no_crlf(sep));
        lemma_no_crlf_concat(head, sep);
        assert((head + sep)[(head + sep).len() - 1] == '\n');
        lemma_no_crlf_concat(head + sep, fmt_pairs(tail, d));
        assert(fmt_pairs(ps, d)[fmt_pairs(ps, d).len() - 1] == fmt_pairs(tail, d)[fmt_pairs(
            tail,
            d,
        ).len() - 1]);
    }
}

/// The shape of a nonempty element list's rendering.
pub proof fn lemma_shape_elems(vs: Seq<SpecValue>, d: nat)
    requires
        vs.len() > 0,
        wf_value(SpecValue::Arr(vs)),
    ensures
        strip_nl(fmt_elems(vs, d)) == flat_elems(vs, d),
        fmt_elems(vs, d).len() > 0,
        no_crlf(fmt_elems(vs, d)),
        fmt_elems(vs, d)[fmt_elems(vs, d).len() - 1] != '\r',
    decreases vs,
{
    assert(wf_value(vs[0]));
    lemma_shape_value(vs[0], d);
    let pre = indent_seq(d);
    let v = fmt_value(vs[0], d);
    let head = pre + v;
    assert(nl_free(pre));
    lemma_strip_nl_free(pre);
    lemma_strip_nl_concat(pre, v);
    assert(strip_nl(head) == pre + flat_value(vs[0], d));
    assert(no_crlf(pre));
    assert(no_crlf(head)) by {
        if pre.len() > 0 {
            assert(pre[pre.len() - 1] == ' ');
        }
        lemma_no_crlf_concat(pre, v);
    }
    assert(head[head.len() - 1] != '\r');
    if vs.len() == 1 {
        assert(fmt_elems(vs, d) == head);
        assert(flat_elems(vs, d) =~= strip_nl(head));
    } else {
        let tail = vs.subrange(1, vs.len() as int);
        assert(wf_value(SpecValue::Arr(tail)));
        lemma_shape_elems(tail, d);
        let sep = seq![',', '\n'];
        assert(fmt_elems(vs, d) =~= head + sep + fmt_elems(tail, d));
        lemma_strip_nl_concat(head + sep, fmt_elems(tail, d));
        lemma_strip_nl_concat(head, sep);
        assert(strip_nl(sep) =~= seq![',']) by {
            assert(sep.subrange(1, 2) =~= seq!['\n']);
            assert(sep.subrange(1, 2).subrange(1, 1) =~= Seq::<char>::empty());
            assert(strip_nl(Seq::<char>::empty()) =~= Seq::<char>::empty());
            assert(strip_nl(sep.subrange(1, 2)) =~= Seq::<char>::empty());
        }
        assert(strip_nl(fmt_elems(vs, d)) =~= (strip_nl(head) + seq![',']) + flat_elems(tail, d));
        assert(flat_elems(vs, d) =~= (strip_nl(head) + seq![',']) + flat_elems(tail, d));
        assert(no_crlf(sep));
        lemma_no_crlf_concat(head, sep);
        assert((head + sep)[(head + sep).len() - 1] == '\n');
        lemma_no_crlf_concat(head + sep, fmt_elems(tail, d));
        assert(fmt_elems(vs, d)[fmt_elems(vs, d).len() - 1] == fmt_elems(tail, d)[fmt_elems(
            tail,
            d,
        ).len() - 1]);
    }
}

} // verus!
