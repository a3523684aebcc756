//! A deterministic pretty-printer for a JSON-like grammar: objects, arrays,
//! quoted strings and numeric literals (no booleans, no null, no escape
//! processing). A recursive-descent parser turns text into a [`ast::Value`]
//! tree while tracking 1-based line numbers for diagnostics, and a structural
//! formatter renders a tree with four spaces of indentation per nesting level.

use vstd::prelude::*;

pub mod ast;
pub mod canon;
pub mod formatter;
pub mod grammar;
pub mod parser;
pub mod text;

use crate::ast::{height_value, view_value, wf_value, SpecValue, Value};
use crate::canon::{flat_value, fmt_value, lemma_shape_value};
use crate::formatter::Formatter;
use crate::parser::{value_at, ParseError, Parser};
use crate::grammar::{spec_parse_value, Outcome};
use crate::text::{concat_lines, no_crlf, split_lines_spec, strip_nl};

verus! {

/// Whether a text is the canonical rendering of some well-formed tree.
pub open spec fn canonical_text(s: Seq<char>) -> bool {
    exists|m: SpecValue| wf_value(m) && s == fmt_value(m, 0)
}

/// Parse a document and render it canonically: the whole pipeline in one
/// call, as a filter uses it. Trailing text after the first value is left
/// unread, as the parser's caller never asks for more.
///
/// The round-trip law lives in this contract: every successful result is a
/// canonical text, and running the pipeline on a canonical text returns it
/// byte for byte — so formatting the tree parsed from previously formatted
/// output reproduces that output exactly.
pub fn format_text(input: &str) -> (r: Result<String, ParseError>)
    requires
        input@.len() < usize::MAX,
    ensures
        r matches Ok(out) ==> canonical_text(out@),
        forall|m: SpecValue|
            wf_value(m) && input@ == #[trigger] fmt_value(m, 0) ==> (r matches Ok(out) && out@
                == input@),
        ({
            let o = spec_parse_value(concat_lines(split_lines_spec(input@)));
            &&& (o matches Outcome::Found(m, rest) ==> r matches Ok(out) && out@ == fmt_value(
                m,
                0,
            ))
            &&& (o matches Outcome::Failed(msg, rest) ==> r matches Err(e) && e.message@ == msg)
        }),
{
    let mut p = Parser::new(input);
    let ghost s0 = p.stream();
    let v = match p.parse_value() {
        Ok(v) => v,
        Err(e) => {
            proof {
                assert forall|m: SpecValue|
                    wf_value(m) && input@ == #[trigger] fmt_value(m, 0) implies false by {
                    lemma_canonical_input(input@, s0, m);
                }
            }
            return Err(e);
        },
    };
    let ghost mv = v@;
    proof {
        assert(height_value(mv) <= input@.len());
    }
    let mut f = Formatter::new();
    let out = f.format(v);
    proof {
        assert(canonical_text(out@)) by {
            assert(wf_value(mv) && out@ == fmt_value(mv, 0));
        }
        assert forall|m: SpecValue|
            wf_value(m) && input@ == #[trigger] fmt_value(m, 0) implies out@ == input@ by {
            lemma_canonical_input(input@, s0, m);
        }
    }
    Ok(out)
}

/// An input that is exactly a canonical rendering reaches the parser as
/// exactly the flat rendering, with nothing before or after it.
proof fn lemma_canonical_input(input: Seq<char>, s0: Seq<char>, m: SpecValue)
    requires
        wf_value(m),
        input == fmt_value(m, 0),
        no_crlf(input) ==> s0 == strip_nl(input),
    ensures
        no_crlf(input),
        input.len() > 0,
        input[0] != '\n' && input[0] != '\r',
        s0 == flat_value(m, 0),
        value_at(s0, Seq::empty(), m, 0, Seq::empty()),
{
    lemma_shape_value(m, 0);
    assert(!crate::text::is_ws_char(input[0]));
    assert(s0 == flat_value(m, 0));
    assert(Seq::empty() + flat_value(m, 0) + Seq::<char>::empty() =~= flat_value(m, 0));
    assert(crate::canon::delim_ok(m, Seq::empty()));
    assert(crate::text::all_ws(Seq::empty()));
}

} // verus!
