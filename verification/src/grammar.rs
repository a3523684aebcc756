//! The grammar, as total functions on the character stream.
//!
//! `spec_parse_value` reads one value from a stream exactly as the
//! executable parser does: skip whitespace, dispatch on the first
//! character, read the production. The outcome carries either the tree and
//! the unread rest of the stream, or the failure message and the stream at
//! the position where parsing stopped. Every parse function of
//! [`crate::parser`] is proved equal to its function here on every input,
//! so this module is the reference for what parses, to which tree, and
//! what fails, with which message, and where.
//!
//! The two `if` guards on the recursive member and element calls only make
//! the shrinking of the stream visible to the termination check; a parsed
//! member or element always consumes at least one character, so the
//! guarded arms describe no reachable input (the equivalence proof in the
//! parser never uses them).

use vstd::prelude::*;

use crate::ast::SpecValue;
use crate::text::{first_idx_b, is_digit_char, num_tok, num_tok_len_b, ws_len_b};

verus! {

/// What reading one production yields: the tree and the unread rest of the
/// stream, or the failure message and the stream at the stop position.
pub enum Outcome {
    Found(SpecValue, Seq<char>),
    Failed(Seq<char>, Seq<char>),
}

/// "expected `c`"
pub open spec fn m_expected(c: char) -> Seq<char> {
    "expected `"@ + seq![c] + "`"@
}

/// "expected: `e`, found: `a`"
pub open spec fn m_expected_found(e: char, a: char) -> Seq<char> {
    "expected: `"@ + seq![e] + "`, found: `"@ + seq![a] + "`"@
}

/// "invalid token: `c`"
pub open spec fn m_invalid_token(c: char) -> Seq<char> {
    "invalid token: `"@ + seq![c] + "`"@
}

/// "no token found"
pub open spec fn m_no_token() -> Seq<char> {
    "no token found"@
}

/// "expected: `,` or `}`, found: `c`"
pub open spec fn m_obj_sep_found(c: char) -> Seq<char> {
    "expected: `,` or `}`, found: `"@ + seq![c] + "`"@
}

/// "expected `,` or `}}`" (the closing brace doubled, as the original
/// diagnostic spells it)
pub open spec fn m_obj_sep() -> Seq<char> {
    "expected `,` or `}}`"@
}

/// "expected: `,` or `]`, found: c"
pub open spec fn m_arr_sep_found(c: char) -> Seq<char> {
    "expected: `,` or `]`, found: "@ + seq![c]
}

/// "expected `,` or `]`"
pub open spec fn m_arr_sep() -> Seq<char> {
    "expected `,` or `]`"@
}

/// One value: whitespace, then the production chosen by the first
/// character (`{` object, `[` array, `"` string, minus or digit number);
/// any other character, or an exhausted stream, fails.
#[verifier::opaque]
pub open spec fn spec_parse_value(s: Seq<char>) -> Outcome
    decreases s.len(), 2int,
{
    let s1 = s.skip(ws_len_b(s));
    if s1.len() == 0 {
        Outcome::Failed(m_no_token(), s1)
    } else if s1[0] == '{' {
        spec_parse_object(s1)
    } else if s1[0] == '[' {
        spec_parse_array(s1)
    } else if s1[0] == '"' {
        spec_parse_string(s1)
    } else if s1[0] == '-' || is_digit_char(s1[0]) {
        Outcome::Found(SpecValue::Num(num_tok(s1)), s1.skip(num_tok_len_b(s1)))
    } else {
        Outcome::Failed(m_invalid_token(s1[0]), s1)
    }
}

/// A quoted literal: every character up to the next quote, verbatim; fails
/// if no opening quote stands here or no closing quote follows.
pub open spec fn spec_parse_string(s: Seq<char>) -> Outcome {
    if s.len() == 0 {
        Outcome::Failed(m_expected('"'), s)
    } else if s[0] != '"' {
        Outcome::Failed(m_expected_found('"', s[0]), s)
    } else {
        let body = s.skip(1);
        let q = first_idx_b(body, '"');
        if q < body.len() {
            Outcome::Found(SpecValue::Str(body.take(q)), body.skip(q + 1))
        } else {
            Outcome::Failed(m_expected('"'), body.skip(q))
        }
    }
}

/// An object: `{`, then either a closing `}` after whitespace, or its
/// member list.
#[verifier::opaque]
pub open spec fn spec_parse_object(s: Seq<char>) -> Outcome
    decreases s.len(), 1int,
{
    if s.len() == 0 {
        Outcome::Failed(m_expected('{'), s)
    } else if s[0] != '{' {
        Outcome::Failed(m_expected_found('{', s[0]), s)
    } else {
        let t = s.skip(1);
        let t1 = t.skip(ws_len_b(t));
        if t1.len() > 0 && t1[0] == '}' {
            Outcome::Found(SpecValue::Obj(Seq::empty()), t1.skip(1))
        } else {
            spec_parse_members(t, Seq::empty())
        }
    }
}

/// The member list of an object, from just after `{` or `,`: whitespace, a
/// quoted key, whitespace, `:`, a value, whitespace, then a comma and the
/// remaining members or the closing `}`. `acc` holds the members already
/// read, in source order.
pub open spec fn spec_parse_members(t: Seq<char>, acc: Seq<(Seq<char>, SpecValue)>) -> Outcome
    decreases t.len(), 3int,
{
    let u = t.skip(ws_len_b(t));
    if u.len() == 0 {
        Outcome::Failed(m_expected('"'), u)
    } else if u[0] != '"' {
        Outcome::Failed(m_expected_found('"', u[0]), u)
    } else {
        let body = u.skip(1);
        let q = first_idx_b(body, '"');
        if q >= body.len() {
            Outcome::Failed(m_expected('"'), body.skip(q))
        } else {
            let key = body.take(q);
            let after_key = body.skip(q + 1);
            let v0 = after_key.skip(ws_len_b(after_key));
            if v0.len() == 0 {
                Outcome::Failed(m_expected(':'), v0)
            } else if v0[0] != ':' {
                Outcome::Failed(m_expected_found(':', v0[0]), v0)
            } else {
                let o = spec_parse_value(v0.skip(1));
                if o is Failed {
                    o
                } else {
                    let val = o->Found_0;
                    let rest0 = o->Found_1;
                    let rest = rest0.skip(ws_len_b(rest0));
                    let acc2 = acc.push((key, val));
                    if rest.len() == 0 {
                        Outcome::Failed(m_obj_sep(), rest)
                    } else if rest[0] == ',' {
                        if rest.skip(1).len() < t.len() {
                            spec_parse_members(rest.skip(1), acc2)
                        } else {
                            Outcome::Failed(m_obj_sep(), rest)
                        }
                    } else if rest[0] == '}' {
                        Outcome::Found(SpecValue::Obj(acc2), rest.skip(1))
                    } else {
                        Outcome::Failed(m_obj_sep_found(rest[0]), rest)
                    }
                }
            }
        }
    }
}

/// An array: `[`, then either a closing `]` after whitespace, or its
/// element list.
#[verifier::opaque]
pub open spec fn spec_parse_array(s: Seq<char>) -> Outcome
    decreases s.len(), 1int,
{
    if s.len() == 0 {
        Outcome::Failed(m_expected('['), s)
    } else if s[0] != '[' {
        Outcome::Failed(m_expected_found('[', s[0]), s)
    } else {
        let t = s.skip(1);
        let t1 = t.skip(ws_len_b(t));
        if t1.len() > 0 && t1[0] == ']' {
            Outcome::Found(SpecValue::Arr(Seq::empty()), t1.skip(1))
        } else {
            spec_parse_elems(t, Seq::empty())
        }
    }
}

/// The element list of an array, from just after `[` or `,`: a value,
/// whitespace, then a comma and the remaining elements or the closing `]`.
/// `acc` holds the elements already read, in source order.
pub open spec fn spec_parse_elems(t: Seq<char>, acc: Seq<SpecValue>) -> Outcome
    decreases t.len(), 3int,
{
    let o = spec_parse_value(t);
    if o is Failed {
        o
    } else {
        let val = o->Found_0;
        let rest0 = o->Found_1;
        let rest = rest0.skip(ws_len_b(rest0));
        let acc2 = acc.push(val);
        if rest.len() == 0 {
            Outcome::Failed(m_arr_sep(), rest)
        } else if rest[0] == ',' {
            if rest.skip(1).len() < t.len() {
                spec_parse_elems(rest.skip(1), acc2)
            } else {
                Outcome::Failed(m_arr_sep(), rest)
            }
        } else if rest[0] == ']' {
            Outcome::Found(SpecValue::Arr(acc2), rest.skip(1))
        } else {
            Outcome::Failed(m_arr_sep_found(rest[0]), rest)
        }
    }
}

/// Reading a value does not depend on whether its leading whitespace has
/// already been skipped.
pub proof fn lemma_value_ws_invariant(t: Seq<char>)
    ensures
        spec_parse_value(t) == spec_parse_value(t.skip(crate::text::ws_len(t))),
{
    reveal(spec_parse_value);
    crate::text::lemma_ws_len(t);
    crate::text::lemma_ws_len_b(t);
    let u = t.skip(crate::text::ws_len(t));
    crate::text::lemma_ws_skip_idem(t);
    crate::text::lemma_ws_len_b(u);
    assert(u.skip(0) =~= u);
}

} // verus!
