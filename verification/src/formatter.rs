//! The structural formatter: renders a [`Value`] tree in the canonical
//! form, four spaces of indentation per nesting level, one member or
//! element per line, empty composites as `{}` and `[]`. Rendering is a pure
//! function of the tree; the result is exactly [`fmt_value`] of the tree's
//! shape.

use vstd::prelude::*;
use vstd::string::StringExecFns;

use crate::ast::{
    height_pairs, height_value, height_values, lemma_height_pairs, lemma_height_values,
    lemma_view_pairs_index, lemma_view_values_index, view_pairs, view_value, view_values, Pair,
    SpecValue, Value,
};
use crate::canon::{
    elem_text, fmt_elems, fmt_pairs, fmt_value, indent_seq, lemma_fmt_elems_split,
    lemma_fmt_pairs_split, pair_text,
};

verus! {

/// The formatter's only state: the current nesting depth.
pub struct Formatter {
    depth: usize,
}

impl Formatter {
    /// The current nesting depth.
    pub closed spec fn depth_spec(&self) -> nat {
        self.depth as nat
    }

    pub fn new() -> (f: Self)
        ensures
            f.depth_spec() == 0,
    {
        Self { depth: 0 }
    }

    /// The indentation for the current depth: `4 * depth` spaces.
    fn indent(&self) -> (r: String)
        ensures
            r@ == indent_seq(self.depth as nat),
    {
        let mut s = String::new();
        let mut i: usize = 0;
        while i < self.depth
            invariant
                i <= self.depth,
                s@ == indent_seq(i as nat),
            decreases self.depth - i,
        {
            s.append("    ");
            proof {
                reveal_strlit("    ");
                assert(s@ =~= indent_seq((i + 1) as nat));
            }
            i = i + 1;
        }
        s
    }

    fn format_string(&self, s: String) -> (r: String)
        ensures
            r@ == seq!['"'] + s@ + seq!['"'],
    {
        let r = String::from_str("\"").concat(s.as_str()).concat("\"");
        proof {
            reveal_strlit("\"");
            assert(r@ =~= seq!['"'] + s@ + seq!['"']);
        }
        r
    }

    fn format_number(&self, num: String) -> (r: String)
        ensures
            r@ == num@,
    {
        num
    }

    fn format_object(&mut self, pairs: &Vec<Pair>) -> (r: String)
        requires
            old(self).depth + 1 + height_pairs(view_pairs(pairs@)) <= usize::MAX,
        ensures
            final(self).depth == old(self).depth,
            r@ == fmt_value(SpecValue::Obj(view_pairs(pairs@)), old(self).depth as nat),
        decreases pairs,
    {
        let ghost vps = view_pairs(pairs@);
        let ghost d0 = self.depth as nat;
        proof {
            lemma_view_pairs_index(pairs@);
        }
        if pairs.len() == 0 {
            let r = String::from_str("{}");
            proof {
                reveal_strlit("{}");
                assert(r@ =~= seq!['{', '}']);
            }
            return r;
        }
        self.depth = self.depth + 1;
        let ghost dd = self.depth as nat;
        let mut inner = String::new();
        let mut i: usize = 0;
        while i < pairs.len()
            invariant
                0 < pairs.len(),
                i <= pairs.len(),
                self.depth == d0 + 1,
                dd == d0 + 1,
                vps == view_pairs(pairs@),
                vps.len() == pairs.len(),
                forall|k: int| 0 <= k < pairs@.len() ==> vps[k] == crate::ast::view_pair(#[trigger] pairs@[k]),
                d0 + 1 + height_pairs(vps) <= usize::MAX,
                i > 0 ==> inner@ == fmt_pairs(vps.take(i as int), dd),
                i == 0 ==> inner@ == Seq::<char>::empty(),
            decreases pairs.len() - i,
        {
            if i > 0 {
                inner.append(",\n");
            }
            let ind = self.indent();
            inner.append(ind.as_str());
            inner.append("\"");
            inner.append(pairs[i].key.0.as_str());
            inner.append("\": ");
            proof {
                lemma_height_pairs(vps);
                assert(height_value(vps[i as int].1) <= height_pairs(vps));
            }
            let vtext = self.format_ref(&pairs[i].value);
            inner.append(vtext.as_str());
            proof {
                reveal_strlit(",\n");
                reveal_strlit("\"");
                reveal_strlit("\": ");
                let ii = i as int;
                assert(vps[ii].0 == pairs@[ii].key.0@ && vps[ii].1 == view_value(
                    pairs@[ii].value,
                ));
                assert(seq!['"', ':', ' '] =~= "\": "@);
                if i == 0 {
                    assert(inner@ =~= pair_text(vps[0], dd));
                    assert(vps.take(1).len() == 1 && vps.take(1)[0] == vps[0]);
                    assert(fmt_pairs(vps.take(1), dd) == indent_seq(dd) + seq!['"'] + vps[0].0
                        + seq!['"', ':', ' '] + fmt_value(vps[0].1, dd));
                    assert(pair_text(vps[0], dd) == fmt_pairs(vps.take(1), dd));
                } else {
                    lemma_fmt_pairs_split(vps.take(ii + 1), ii, dd);
                    assert(vps.take(ii + 1).take(ii) =~= vps.take(ii));
                    let single = vps.take(ii + 1).skip(ii);
                    assert(single.len() == 1 && single[0] == vps[ii]);
                    assert(fmt_pairs(single, dd) == indent_seq(dd) + seq!['"'] + vps[ii].0 + seq![
                        '"',
                        ':',
                        ' ',
                    ] + fmt_value(vps[ii].1, dd));
                    assert(inner@ =~= fmt_pairs(vps.take(ii), dd) + seq![',', '\n'] + fmt_pairs(
                        single,
                        dd,
                    ));
                    assert(inner@ == fmt_pairs(vps.take(ii + 1), dd));
                }
            }
            i = i + 1;
        }
        self.depth = self.depth - 1;
        let close = self.indent();
        let mut out = String::from_str("{");
        out.append("\n");
        out.append(inner.as_str());
        out.append("\n");
        out.append(close.as_str());
        out.append("}");
        proof {
            reveal_strlit("{");
            reveal_strlit("\n");
            reveal_strlit("}");
            assert(vps.take(vps.len() as int) =~= vps);
            assert(out@ =~= seq!['{', '\n'] + fmt_pairs(vps, dd) + seq!['\n'] + indent_seq(d0)
                + seq!['}']);
        }
        out
    }

    fn format_array(&mut self, vals: &Vec<Value>) -> (r: String)
        requires
            old(self).depth + 1 + height_values(view_values(vals@)) <= usize::MAX,
        ensures
            final(self).depth == old(self).depth,
            r@ == fmt_value(SpecValue::Arr(view_values(vals@)), old(self).depth as nat),
        decreases vals,
    {
        let ghost vvs = view_values(vals@);
        let ghost d0 = self.depth as nat;
        proof {
            lemma_view_values_index(vals@);
        }
        if vals.len() == 0 {
            let r = String::from_str("[]");
            proof {
                reveal_strlit("[]");
                assert(r@ =~= seq!['[', ']']);
            }
            return r;
        }
        self.depth = self.depth + 1;
        let ghost dd = self.depth as nat;
        let mut inner = String::new();
        let mut i: usize = 0;
        while i < vals.len()
            invariant
                0 < vals.len(),
                i <= vals.len(),
                self.depth == d0 + 1,
                dd == d0 + 1,
                vvs == view_values(vals@),
                vvs.len() == vals.len(),
                forall|k: int| 0 <= k < vals@.len() ==> vvs[k] == view_value(#[trigger] vals@[k]),
                d0 + 1 + height_values(vvs) <= usize::MAX,
                i > 0 ==> inner@ == fmt_elems(vvs.take(i as int), dd),
                i == 0 ==> inner@ == Seq::<char>::empty(),
            decreases vals.len() - i,
        {
            if i > 0 {
                inner.append(",\n");
            }
            let ind = self.indent();
            inner.append(ind.as_str());
            proof {
                lemma_height_values(vvs);
                assert(height_value(vvs[i as int]) <= height_values(vvs));
            }
            let vtext = self.format_ref(&vals[i]);
            inner.append(vtext.as_str());
            proof {
                reveal_strlit(",\n");
                let ii = i as int;
                if i == 0 {
                    assert(inner@ =~= elem_text(vvs[0], dd));
                    assert(vvs.take(1).len() == 1 && vvs.take(1)[0] == vvs[0]);
                    assert(fmt_elems(vvs.take(1), dd) == indent_seq(dd) + fmt_value(vvs[0], dd));
                    assert(elem_text(vvs[0], dd) == fmt_elems(vvs.take(1), dd));
                } else {
                    lemma_fmt_elems_split(vvs.take(ii + 1), ii, dd);
                    assert(vvs.take(ii + 1).take(ii) =~= vvs.take(ii));
                    let single = vvs.take(ii + 1).skip(ii);
                    assert(single.len() == 1 && single[0] == vvs[ii]);
                    assert(fmt_elems(single, dd) == indent_seq(dd) + fmt_value(vvs[ii], dd));
                    assert(inner@ =~= fmt_elems(vvs.take(ii), dd) + seq![',', '\n'] + fmt_elems(
                        single,
                        dd,
                    ));
                    assert(inner@ == fmt_elems(vvs.take(ii + 1), dd));
                }
            }
            i = i + 1;
        }
        self.depth = self.depth - 1;
        let close = self.indent();
        let mut out = String::from_str("[");
        out.append("\n");
        out.append(inner.as_str());
        out.append("\n");
        out.append(close.as_str());
        out.append("]");
        proof {
            reveal_strlit("[");
            reveal_strlit("\n");
            reveal_strlit("]");
            assert(vvs.take(vvs.len() as int) =~= vvs);
            assert(out@ =~= seq!['[', '\n'] + fmt_elems(vvs, dd) + seq!['\n'] + indent_seq(d0)
                + seq![']']);
        }
        out
    }

    fn format_ref(&mut self, v: &Value) -> (r: String)
        requires
            old(self).depth + height_value(view_value(*v)) <= usize::MAX,
        ensures
            final(self).depth == old(self).depth,
            r@ == fmt_value(view_value(*v), old(self).depth as nat),
        decreases v,
    {
        match v {
            Value::String(s) => self.format_string(s.clone()),
            Value::Number(num) => self.format_number(num.clone()),
            Value::Object(pairs) => self.format_object(pairs),
            Value::Array(vals) => self.format_array(vals),
        }
    }

    /// Render a tree in canonical form. The result is exactly the
    /// specification-level rendering of the tree at the formatter's current
    /// depth; the depth is unchanged afterwards.
    pub fn format(&mut self, v: Value) -> (r: String)
        requires
            old(self).depth_spec() + height_value(v@) <= usize::MAX,
        ensures
            final(self).depth_spec() == old(self).depth_spec(),
            r@ == fmt_value(v@, old(self).depth_spec()),
    {
        self.format_ref(&v)
    }
}

} // verus!
