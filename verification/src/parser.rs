//! The recursive-descent parser.
//!
//! A `Parser` owns the lines of the input text and a cursor: the index of
//! the current line and a column offset into it. Reading past the end of a
//! line moves to the next line transparently, so the grammar sees one
//! contiguous character stream with the line breaks elided; the line index
//! is kept for diagnostics, and every error carries the 1-based number of
//! the line holding the position where parsing stopped.
//!
//! The central contracts: any tree returned is well-formed
//! ([`crate::ast::wf_value`]); on a stream that carries the canonical
//! rendering of a well-formed tree ([`crate::canon::flat_value`]), parsing
//! returns exactly that tree and consumes exactly its rendering.

use vstd::prelude::*;
use vstd::string::StringExecFns;

use crate::ast::{
    height_pairs, height_value, height_values, lemma_height_pairs_push, lemma_height_values_push,
    lemma_view_pairs_push, lemma_view_values_push, lemma_wf_pairs_push, lemma_wf_values_push,
    view_pair, view_pairs, view_value, view_values, wf_num, wf_pairs, wf_text, wf_value,
    wf_values, Key, Pair, SpecValue, Value,
};
use crate::canon::{
    delim_ok, flat_elems, flat_pairs, flat_value, indent_seq, lemma_shape_value, starts_value,
};
use crate::grammar::{
    m_arr_sep, m_arr_sep_found, m_expected, m_expected_found, m_invalid_token, m_no_token,
    m_obj_sep, m_obj_sep_found, spec_parse_array, spec_parse_elems, spec_parse_members,
    spec_parse_object, spec_parse_string, spec_parse_value, Outcome,
};
use crate::text::{
    all_ws, concat_lines, first_idx, is_num_char, is_ws_char, lemma_concat_lines_nl_free,
    lemma_first_idx, lemma_first_idx_concat, lemma_first_idx_is, lemma_run_len, lemma_run_len_is,
    lemma_split_lines_count, lemma_split_lines_nl_free, lemma_ws_len, lemma_ws_len_concat,
    num_tok_len_b, ws_len_b, first_idx_b,
    lemma_ws_len_is, lines_nl_free, lines_views, nl_free, num_tok, num_tok_len, run_len,
    split_lines, split_lines_spec, str_to_chars, strip_nl, ws_len, chars_to_string,
};

verus! {

/// The stream carries an empty object: `{`, whitespace, `}`, then `rest`.
pub open spec fn obj_empty_at(s: Seq<char>, w: Seq<char>, rest: Seq<char>) -> bool {
    all_ws(w) && s == seq!['{'] + w + seq!['}'] + rest
}

/// The stream carries an empty array: `[`, whitespace, `]`, then `rest`.
pub open spec fn arr_empty_at(s: Seq<char>, w: Seq<char>, rest: Seq<char>) -> bool {
    all_ws(w) && s == seq!['['] + w + seq![']'] + rest
}

/// The stream carries the canonical rendering of the well-formed object
/// with members `ps` at depth `d`, then `rest`.
pub open spec fn obj_at(
    s: Seq<char>,
    ps: Seq<(Seq<char>, SpecValue)>,
    d: nat,
    rest: Seq<char>,
) -> bool {
    wf_value(SpecValue::Obj(ps)) && s == flat_value(SpecValue::Obj(ps), d) + rest
}

/// The stream carries the canonical rendering of the well-formed array
/// with elements `vs` at depth `d`, then `rest`.
pub open spec fn arr_at(s: Seq<char>, vs: Seq<SpecValue>, d: nat, rest: Seq<char>) -> bool {
    wf_value(SpecValue::Arr(vs)) && s == flat_value(SpecValue::Arr(vs), d) + rest
}

/// The stream carries whitespace, then the canonical rendering of the
/// well-formed tree `m` at depth `d`, then `rest`, and `rest` cannot extend
/// a number token.
pub open spec fn value_at(
    s: Seq<char>,
    w: Seq<char>,
    m: SpecValue,
    d: nat,
    rest: Seq<char>,
) -> bool {
    all_ws(w) && wf_value(m) && delim_ok(m, rest) && s == w + flat_value(m, d) + rest
}

/// The stream carries whitespace, an empty composite with internal
/// whitespace, then `rest`.
pub open spec fn value_empty_at(
    s: Seq<char>,
    w1: Seq<char>,
    w2: Seq<char>,
    oc: char,
    cc: char,
    rest: Seq<char>,
) -> bool {
    all_ws(w1) && all_ws(w2) && s == w1 + seq![oc] + w2 + seq![cc] + rest
}

/// What follows the `k`-th member of a canonical object at depth `d`: a
/// comma and the remaining members, or the closing line.
pub open spec fn obj_tail(
    ps: Seq<(Seq<char>, SpecValue)>,
    k: int,
    d: nat,
    rest: Seq<char>,
) -> Seq<char> {
    if k + 1 < ps.len() {
        seq![','] + flat_pairs(ps.skip(k + 1), (d + 1) as nat) + indent_seq(d) + seq!['}'] + rest
    } else {
        indent_seq(d) + seq!['}'] + rest
    }
}

/// The `k`-th member of a canonical object at depth `d` with its tail, as
/// the parser sees it after the indentation: quoted key, colon, space,
/// value, tail.
pub open spec fn key_form(
    ps: Seq<(Seq<char>, SpecValue)>,
    k: int,
    d: nat,
    rest: Seq<char>,
) -> Seq<char> {
    seq!['"'] + ps[k].0 + seq!['"', ':', ' '] + flat_value(ps[k].1, (d + 1) as nat) + obj_tail(
        ps,
        k,
        d,
        rest,
    )
}

/// What follows the `k`-th element of a canonical array at depth `d`.
pub open spec fn arr_tail(vs: Seq<SpecValue>, k: int, d: nat, rest: Seq<char>) -> Seq<char> {
    if k + 1 < vs.len() {
        seq![','] + flat_elems(vs.skip(k + 1), (d + 1) as nat) + indent_seq(d) + seq![']'] + rest
    } else {
        indent_seq(d) + seq![']'] + rest
    }
}

/// The `k`-th element of a canonical array at depth `d` with its tail, as
/// the parser sees it after the indentation.
pub open spec fn elem_form(vs: Seq<SpecValue>, k: int, d: nat, rest: Seq<char>) -> Seq<char> {
    flat_value(vs[k], (d + 1) as nat) + arr_tail(vs, k, d, rest)
}

/// The member lines of a canonical object, unfolded at member `k`.
proof fn lemma_obj_unfold(ps: Seq<(Seq<char>, SpecValue)>, k: int, d: nat, rest: Seq<char>)
    requires
        0 <= k < ps.len(),
    ensures
        flat_pairs(ps.skip(k), (d + 1) as nat) + indent_seq(d) + seq!['}'] + rest == indent_seq(
            (d + 1) as nat,
        ) + key_form(ps, k, d, rest),
{
    let dd = (d + 1) as nat;
    let sk = ps.skip(k);
    assert(sk.len() == ps.len() - k);
    assert(sk[0] == ps[k]);
    assert(sk.subrange(1, sk.len() as int) =~= ps.skip(k + 1));
    let key = ps[k].0;
    let v = flat_value(ps[k].1, dd);
    let head = indent_seq(dd) + seq!['"'] + key + seq!['"', ':', ' '] + v;
    if k + 1 < ps.len() {
        assert(flat_pairs(sk, dd) == head + seq![','] + flat_pairs(ps.skip(k + 1), dd));
        assert(flat_pairs(sk, dd) + indent_seq(d) + seq!['}'] + rest =~= indent_seq(dd)
            + key_form(ps, k, d, rest));
    } else {
        assert(flat_pairs(sk, dd) == head);
        assert(flat_pairs(sk, dd) + indent_seq(d) + seq!['}'] + rest =~= indent_seq(dd)
            + key_form(ps, k, d, rest));
    }
}

/// The element lines of a canonical array, unfolded at element `k`.
proof fn lemma_arr_unfold(vs: Seq<SpecValue>, k: int, d: nat, rest: Seq<char>)
    requires
        0 <= k < vs.len(),
    ensures
        flat_elems(vs.skip(k), (d + 1) as nat) + indent_seq(d) + seq![']'] + rest == indent_seq(
            (d + 1) as nat,
        ) + elem_form(vs, k, d, rest),
{
    let dd = (d + 1) as nat;
    let sk = vs.skip(k);
    assert(sk.len() == vs.len() - k);
    assert(sk[0] == vs[k]);
    assert(sk.subrange(1, sk.len() as int) =~= vs.skip(k + 1));
    let v = flat_value(vs[k], dd);
    let head = indent_seq(dd) + v;
    if k + 1 < vs.len() {
        assert(flat_elems(sk, dd) == head + seq![','] + flat_elems(vs.skip(k + 1), dd));
        assert(flat_elems(sk, dd) + indent_seq(d) + seq![']'] + rest =~= indent_seq(dd)
            + elem_form(vs, k, d, rest));
    } else {
        assert(flat_elems(sk, dd) == head);
        assert(flat_elems(sk, dd) + indent_seq(d) + seq![']'] + rest =~= indent_seq(dd)
            + elem_form(vs, k, d, rest));
    }
}

/// A number token read where a minus or digit stands is a well-formed
/// number literal.
proof fn lemma_wf_num_tok(s: Seq<char>)
    requires
        s.len() > 0,
        s[0] == '-' || crate::text::is_digit_char(s[0]),
    ensures
        wf_num(num_tok(s)),
        num_tok(s).len() > 0,
{
    let n = num_tok(s);
    let k = num_tok_len(s);
    if s[0] == '-' {
        let tail = s.subrange(1, s.len() as int);
        lemma_run_len(tail);
        assert(k == 1 + run_len(tail));
        assert(n[0] == '-');
        assert forall|j: int| 1 <= j < k implies is_num_char(#[trigger] n[j]) by {
            assert(n[j] == s[j] && s[j] == tail[j - 1]);
        }
    } else {
        lemma_run_len(s);
        assert(k == run_len(s));
        assert(k >= 1);
        assert(n[0] == s[0]);
        assert forall|j: int| 0 <= j < k implies is_num_char(#[trigger] n[j]) by {
            assert(n[j] == s[j]);
        }
    }
}

/// A number token directly followed by text that cannot extend it lexes to
/// exactly itself.
proof fn lemma_num_tok_concat(s: Seq<char>, t: Seq<char>)
    requires
        wf_num(s),
        t.len() > 0 ==> !is_num_char(t[0]),
    ensures
        num_tok_len(s + t) == s.len(),
        num_tok(s + t) == s,
{
    let u = s + t;
    assert(u[0] == s[0]);
    if s[0] == '-' {
        let tail = u.subrange(1, u.len() as int);
        assert forall|j: int| 0 <= j < s.len() - 1 implies is_num_char(#[trigger] tail[j]) by {
            assert(tail[j] == s[j + 1]);
        }
        if s.len() - 1 < tail.len() {
            assert(tail[s.len() - 1] == t[0]);
        }
        lemma_run_len_is(tail, s.len() - 1);
    } else {
        assert forall|j: int| 0 <= j < s.len() implies is_num_char(#[trigger] u[j]) by {
            assert(u[j] == s[j]);
        }
        if s.len() < u.len() {
            assert(u[s.len() as int] == t[0]);
        }
        lemma_run_len_is(u, s.len() as int);
    }
    assert(u.take(s.len() as int) =~= s);
}

/// A parse failure: a message naming what was expected or found, and the
/// 1-based number of the line holding the offending position.
#[derive(Debug)]
pub struct ParseError {
    pub message: String,
    pub line_number: usize,
}

impl ParseError {
    pub fn new(message: String, line_number: usize) -> (e: Self)
        ensures
            e.message == message,
            e.line_number == line_number,
    {
        Self { message, line_number }
    }
}

/// The parser: the lines of the input and the current read position.
pub struct Parser {
    lines: Vec<Vec<char>>,
    li: usize,
    pos: usize,
}

impl Parser {
    /// The lines the parser reads, as character sequences.
    pub closed spec fn lines_model(&self) -> Seq<Seq<char>> {
        lines_views(self.lines@)
    }

    /// The parser's internal consistency: the cursor sits inside the lines,
    /// the lines hold no newline characters, and one more line than there
    /// are fits in a line count.
    pub closed spec fn wf(&self) -> bool {
        &&& self.lines@.len() < usize::MAX
        &&& self.li <= self.lines@.len()
        &&& (self.li < self.lines@.len() ==> self.pos <= self.lines@[self.li as int]@.len())
        &&& lines_nl_free(self.lines_model())
    }

    /// A normalized position: either past the last line, or on a character.
    /// Every advance normalizes; only a freshly built parser whose first
    /// line is empty is not normalized (and then reports no token, as the
    /// line-oriented reader does).
    pub closed spec fn norm(&self) -> bool {
        self.li == self.lines@.len() || self.pos < self.lines@[self.li as int]@.len()
    }

    /// The characters still to be read, line breaks elided.
    pub closed spec fn stream(&self) -> Seq<char> {
        if self.li < self.lines@.len() {
            self.lines@[self.li as int]@.skip(self.pos as int) + concat_lines(
                self.lines_model().subrange(self.li + 1, self.lines@.len() as int),
            )
        } else {
            Seq::empty()
        }
    }

    /// The 1-based number of the line holding the current position.
    pub closed spec fn line_num(&self) -> int {
        self.li + 1
    }

    /// The 0-based column of the current position within its line.
    pub closed spec fn col(&self) -> int {
        self.pos as int
    }

    /// The position model, published: the stream is the tail of the line
    /// numbered `line_num` from column `col`, followed by the remaining
    /// lines read contiguously; a `line_num` past the last line means the
    /// end of the input. This is what ties the line number carried by every
    /// error to the text.
    pub proof fn lemma_position(&self)
        requires
            self.wf(),
        ensures
            1 <= self.line_num() <= self.lines_model().len() + 1,
            self.line_num() == self.lines_model().len() + 1 ==> self.stream() == Seq::<
                char,
            >::empty(),
            self.line_num() <= self.lines_model().len() ==> {
                &&& 0 <= self.col() <= self.lines_model()[self.line_num() - 1].len()
                &&& self.stream() == self.lines_model()[self.line_num() - 1].skip(self.col())
                    + concat_lines(
                    self.lines_model().subrange(
                        self.line_num(),
                        self.lines_model().len() as int,
                    ),
                )
            },
    {
    }

    spec fn has_cur(&self) -> bool {
        self.li < self.lines@.len() && self.pos < self.lines@[self.li as int]@.len()
    }

    spec fn cur(&self) -> char {
        self.lines@[self.li as int]@[self.pos as int]
    }

    /// In a normalized state the stream mirrors the cursor: there is a
    /// current character exactly when the stream is nonempty, and it is the
    /// stream's head.
    proof fn lemma_cur(&self)
        requires
            self.wf(),
            self.norm(),
        ensures
            self.has_cur() <==> self.stream().len() > 0,
            self.has_cur() ==> self.stream()[0] == self.cur(),
    {
    }

    proof fn lemma_stream_nl_free(&self)
        requires
            self.wf(),
        ensures
            nl_free(self.stream()),
    {
        if self.li < self.lines@.len() {
            let rest = self.lines_model().subrange(self.li + 1, self.lines@.len() as int);
            assert(lines_nl_free(rest)) by {
                assert(forall|i: int|
                    0 <= i < rest.len() ==> #[trigger] rest[i] == self.lines_model()[self.li + 1
                        + i]);
            }
            lemma_concat_lines_nl_free(rest);
            let line = self.lines@[self.li as int]@;
            let s = self.stream();
            assert forall|i: int| 0 <= i < s.len() implies (#[trigger] s[i]) != '\n' by {
                if i < line.len() - self.pos {
                    assert(s[i] == line[self.pos + i]);
                    assert(line == self.lines_model()[self.li as int]);
                } else {
                    assert(s[i] == concat_lines(rest)[i - (line.len() - self.pos)]);
                }
            }
        }
    }

    /// Build a parser over the lines of `input`.
    pub fn new(input: &str) -> (p: Self)
        requires
            input@.len() < usize::MAX,
        ensures
            p.wf(),
            p.norm(),
            p.col() == 0,
            p.lines_model() == split_lines_spec(input@),
            p.stream() == concat_lines(split_lines_spec(input@)),
            p.stream().len() <= input@.len(),
            crate::text::no_crlf(input@) ==> p.stream() == strip_nl(input@),
            split_lines_spec(input@).len() > 0 && split_lines_spec(input@)[0].len() > 0
                ==> p.line_num() == 1,
    {
        let cs = str_to_chars(input);
        let lines = split_lines(&cs);
        proof {
            lemma_split_lines_count(input@);
            lemma_split_lines_nl_free(input@);
            crate::text::lemma_split_lines_concat_len(input@);
        }
        let mut p = Self { lines, li: 0, pos: 0 };
        proof {
            let ls = p.lines_model();
            if ls.len() > 0 {
                assert(ls[0].skip(0) =~= ls[0]);
                assert(p.stream() == ls[0] + concat_lines(ls.subrange(1, ls.len() as int)));
                assert(p.stream() == concat_lines(ls));
            }
            if crate::text::no_crlf(input@) {
                crate::text::lemma_split_lines_concat(input@);
                if ls.len() == 0 {
                    assert(input@.len() == 0);
                    assert(strip_nl(input@) =~= Seq::<char>::empty());
                }
            }
        }
        // start on the first line that holds a character: line boundaries
        // are transparent to every read, so reading begins past any empty
        // leading lines
        while p.li < p.lines.len() && p.lines[p.li].len() == 0
            invariant
                p.pos == 0,
                p.wf(),
                p.lines_model() == split_lines_spec(input@),
                p.stream() == concat_lines(split_lines_spec(input@)),
                split_lines_spec(input@).len() > 0 && split_lines_spec(input@)[0].len() > 0
                    ==> p.li == 0,
            decreases p.lines@.len() - p.li,
        {
            proof {
                let ls = p.lines_model();
                let line = ls[p.li as int];
                assert(line.skip(0) =~= Seq::<char>::empty());
                let rest = ls.subrange(p.li + 1, ls.len() as int);
                if p.li + 1 < ls.len() {
                    assert(rest[0] == ls[p.li + 1]);
                    assert(rest.subrange(1, rest.len() as int) =~= ls.subrange(
                        p.li + 2,
                        ls.len() as int,
                    ));
                    assert(concat_lines(rest) == ls[p.li + 1] + concat_lines(
                        ls.subrange(p.li + 2, ls.len() as int),
                    ));
                    assert(ls[p.li + 1].skip(0) =~= ls[p.li + 1]);
                } else {
                    assert(rest.len() == 0);
                }
                assert(p.stream() =~= Seq::<char>::empty() + concat_lines(rest));
                assert(Seq::<char>::empty() + concat_lines(rest) =~= concat_lines(rest));
            }
            p.li = p.li + 1;
        }
        p
    }

    /// Step one character forward, moving to the next nonempty line (or the
    /// end) when the current line is exhausted.
    fn succ(&mut self)
        requires
            old(self).wf(),
            old(self).has_cur(),
        ensures
            final(self).wf(),
            final(self).norm(),
            final(self).lines_model() == old(self).lines_model(),
            final(self).stream() == old(self).stream().drop_first(),
            final(self).li >= old(self).li,
    {
        proof {
            let line = self.lines@[self.li as int]@;
            assert(line.skip(self.pos as int).drop_first() =~= line.skip(self.pos + 1));
            assert(old(self).stream().drop_first() =~= line.skip(self.pos + 1) + concat_lines(
                self.lines_model().subrange(self.li + 1, self.lines@.len() as int),
            ));
        }
        let ll = self.lines[self.li].len();
        proof {
            assert(self.pos < ll);
        }
        self.pos = self.pos + 1;
        while self.li < self.lines.len() && self.pos >= self.lines[self.li].len()
            invariant
                self.wf(),
                self.lines_model() == old(self).lines_model(),
                self.stream() == old(self).stream().drop_first(),
                self.li >= old(self).li,
            decreases self.lines@.len() - self.li,
        {
            proof {
                let ls = self.lines_model();
                let line = ls[self.li as int];
                assert(self.pos == line.len());
                assert(line.skip(self.pos as int) =~= Seq::<char>::empty());
                let rest = ls.subrange(self.li + 1, ls.len() as int);
                if self.li + 1 < ls.len() {
                    assert(rest[0] == ls[self.li + 1]);
                    assert(rest.subrange(1, rest.len() as int) =~= ls.subrange(
                        self.li + 2,
                        ls.len() as int,
                    ));
                    assert(concat_lines(rest) == ls[self.li + 1] + concat_lines(
                        ls.subrange(self.li + 2, ls.len() as int),
                    ));
                    assert(ls[self.li + 1].skip(0) =~= ls[self.li + 1]);
                } else {
                    assert(rest.len() == 0);
                }
                assert(self.stream() =~= Seq::<char>::empty() + concat_lines(rest));
                assert(Seq::<char>::empty() + concat_lines(rest) =~= concat_lines(rest));
            }
            self.pos = 0;
            self.li = self.li + 1;
        }
    }

    /// The character at the current position, if any.
    fn get_cur_char(&self) -> (r: Option<char>)
        requires
            self.wf(),
        ensures
            r == if self.has_cur() {
                Some(self.cur())
            } else {
                None::<char>
            },
    {
        if self.li < self.lines.len() {
            let line = &self.lines[self.li];
            if self.pos < line.len() {
                Some(*line.get(self.pos).unwrap())
            } else {
                None
            }
        } else {
            None
        }
    }

    fn cur_char_is(&self, ch: char) -> (r: bool)
        requires
            self.wf(),
        ensures
            r == (self.has_cur() && self.cur() == ch),
    {
        match self.get_cur_char() {
            Some(c) => c == ch,
            None => false,
        }
    }

    /// The current 1-based line number, for diagnostics.
    fn line_number(&self) -> (n: usize)
        requires
            self.wf(),
        ensures
            n == self.line_num(),
    {
        self.li + 1
    }

    /// Fail with a positioned error unless the current character is
    /// `expect`; the position does not move.
    fn expect_char(&self, expect: char) -> (r: Result<(), ParseError>)
        requires
            self.wf(),
        ensures
            r is Ok <==> (self.has_cur() && self.cur() == expect),
            r matches Err(e) ==> e.line_number == self.line_num(),
            r matches Err(e) ==> e.message@ == if self.has_cur() {
                m_expected_found(expect, self.cur())
            } else {
                m_expected(expect)
            },
    {
        match self.get_cur_char() {
            None => Err(ParseError::new(msg_expected(expect), self.line_number())),
            Some(actual) => {
                if expect == actual {
                    Ok(())
                } else {
                    Err(ParseError::new(msg_expected_found(expect, actual), self.line_number()))
                }
            },
        }
    }

    /// Check the current character and step past it.
    fn consume_char(&mut self, ch: char) -> (r: Result<(), ParseError>)
        requires
            old(self).wf(),
        ensures
            final(self).wf(),
            final(self).lines_model() == old(self).lines_model(),
            r is Ok <==> (old(self).has_cur() && old(self).cur() == ch),
            r is Ok ==> final(self).stream() == old(self).stream().drop_first()
                && final(self).norm() && final(self).li >= old(self).li,
            r matches Err(e) ==> e.line_number == final(self).line_num() && *final(self) == *old(
                self,
            ),
            r matches Err(e) ==> e.message@ == if old(self).has_cur() {
                m_expected_found(ch, old(self).cur())
            } else {
                m_expected(ch)
            },
    {
        match self.expect_char(ch) {
            Err(e) => Err(e),
            Ok(()) => {
                self.succ();
                Ok(())
            },
        }
    }

    /// Step over whitespace, crossing line boundaries, until a
    /// non-whitespace character or the end of the input.
    fn skip_whitespace(&mut self)
        requires
            old(self).wf(),
        ensures
            final(self).wf(),
            final(self).lines_model() == old(self).lines_model(),
            final(self).li >= old(self).li,
            old(self).norm() ==> final(self).norm() && final(self).stream() == old(
                self,
            ).stream().skip(ws_len(old(self).stream())),
            !old(self).norm() ==> *final(self) == *old(self),
    {
        let ghost s0 = old(self).stream();
        let mut k: Ghost<int> = Ghost(0);
        proof {
            assert(s0.skip(0) =~= s0);
        }
        loop
            invariant
                self.wf(),
                self.lines_model() == old(self).lines_model(),
                self.li >= old(self).li,
                old(self).norm() ==> {
                    &&& 0 <= k@ <= s0.len()
                    &&& self.norm()
                    &&& self.stream() == s0.skip(k@)
                    &&& forall|j: int| 0 <= j < k@ ==> is_ws_char(#[trigger] s0[j])
                },
                !old(self).norm() ==> *self == *old(self),
            ensures
                self.wf(),
                self.lines_model() == old(self).lines_model(),
                self.li >= old(self).li,
                old(self).norm() ==> self.norm() && self.stream() == s0.skip(ws_len(s0)),
                !old(self).norm() ==> *self == *old(self),
            decreases self.stream().len(),
        {
            let c_opt = self.get_cur_char();
            match c_opt {
                Some(c) => {
                    if crate::text::ws_char(c) {
                        proof {
                            self.lemma_cur();
                            if old(self).norm() {
                                assert(s0.skip(k@)[0] == s0[k@]);
                                assert(s0.skip(k@).drop_first() =~= s0.skip(k@ + 1));
                            }
                        }
                        self.succ();
                        k = Ghost(k@ + 1);
                    } else {
                        proof {
                            if old(self).norm() {
                                self.lemma_cur();
                                assert(s0.skip(k@)[0] == s0[k@]);
                                lemma_ws_len_is(s0, k@);
                            }
                        }
                        break ;
                    }
                },
                None => {
                    proof {
                        if old(self).norm() {
                            self.lemma_cur();
                            lemma_ws_len_is(s0, k@);
                        }
                    }
                    break ;
                },
            }
        }
    }

    /// Read a quoted literal: the opening quote, then every character
    /// verbatim (no escape processing) until the next quote, then the
    /// closing quote. Fails with a positioned error if the input ends
    /// before a closing quote.
    fn parse_inner_string(&mut self) -> (r: Result<String, ParseError>)
        requires
            old(self).wf(),
        ensures
            final(self).wf(),
            final(self).lines_model() == old(self).lines_model(),
            final(self).li >= old(self).li,
            old(self).norm() ==> final(self).norm(),
            final(self).stream().len() <= old(self).stream().len(),
            r matches Err(e) ==> e.line_number == final(self).line_num(),
            r matches Ok(s) ==> crate::ast::wf_text(s@),
            ({
                let s0 = old(self).stream();
                let body = s0.skip(1);
                let q = first_idx(body, '"');
                &&& (old(self).norm() && s0.len() > 0 && s0[0] == '"' && q < body.len() ==> (
                r matches Ok(s) && s@ == body.take(q) && final(self).stream() == body.skip(q + 1)
                    && final(self).norm() && final(self).stream().len() < s0.len()))
                &&& (old(self).norm() && s0.len() > 0 && s0[0] == '"' && q >= body.len() ==> (
                r matches Err(e) && e.message@ == m_expected('"') && final(self).stream().len()
                    == 0))
                &&& (!(old(self).norm() && s0.len() > 0 && s0[0] == '"') ==> (r is Err && *final(self) == *old(self)))
                &&& (old(self).norm() && s0.len() == 0 ==> (r matches Err(e) && e.message@
                    == m_expected('"')))
                &&& (old(self).norm() && s0.len() > 0 && s0[0] != '"' ==> (r matches Err(e)
                    && e.message@ == m_expected_found('"', s0[0])))
            }),
    {
        let ghost s0 = old(self).stream();
        let ghost body = s0.skip(1);
        proof {
            self.lemma_stream_nl_free();
            lemma_first_idx(body, '"');
            if old(self).norm() {
                self.lemma_cur();
            }
        }
        match self.consume_char('"') {
            Err(e) => {
                return Err(e);
            },
            Ok(()) => {},
        }
        proof {
            assert(s0.drop_first() =~= body);
        }
        let mut buf: Vec<char> = Vec::new();
        loop
            invariant
                old(self).wf(),
                body == old(self).stream().skip(1),
                nl_free(body),
                self.wf(),
                self.lines_model() == old(self).lines_model(),
                self.li >= old(self).li,
                self.norm(),
                buf@.len() <= body.len(),
                buf@ == body.take(buf@.len() as int),
                forall|j: int| 0 <= j < buf@.len() ==> body[j] != '"',
                self.stream() == body.skip(buf@.len() as int),
            ensures
                self.wf(),
                self.lines_model() == old(self).lines_model(),
                self.li >= old(self).li,
                self.norm(),
                buf@.len() <= body.len(),
                buf@ == body.take(buf@.len() as int),
                forall|j: int| 0 <= j < buf@.len() ==> body[j] != '"',
                self.stream() == body.skip(buf@.len() as int),
                first_idx(body, '"') == buf@.len(),
            decreases self.stream().len(),
        {
            match self.get_cur_char() {
                Some(ch) => {
                    proof {
                        self.lemma_cur();
                        assert(body.skip(buf@.len() as int)[0] == body[buf@.len() as int]);
                    }
                    if ch == '"' {
                        proof {
                            lemma_first_idx_is(body, '"', buf@.len() as int);
                        }
                        break ;
                    }
                    buf.push(ch);
                    proof {
                        assert(buf@ =~= body.take(buf@.len() as int));
                        assert(body.skip(buf@.len() - 1).drop_first() =~= body.skip(
                            buf@.len() as int,
                        ));
                    }
                    self.succ();
                },
                None => {
                    proof {
                        self.lemma_cur();
                        lemma_first_idx_is(body, '"', buf@.len() as int);
                    }
                    break ;
                },
            }
        }
        proof {
            self.lemma_cur();
        }
        match self.consume_char('"') {
            Err(e) => Err(e),
            Ok(()) => {
                proof {
                    assert(body.skip(buf@.len() as int).drop_first() =~= body.skip(buf@.len() + 1int));
                    assert(forall|j: int|
                        0 <= j < buf@.len() ==> #[trigger] buf@[j] == body[j] && body[j] != '\n');
                }
                Ok(chars_to_string(&buf))
            },
        }
    }

    /// Read a quoted literal as a string value.
    pub fn parse_string_value(&mut self) -> (r: Result<Value, ParseError>)
        requires
            old(self).wf(),
        ensures
            final(self).wf(),
            final(self).lines_model() == old(self).lines_model(),
            final(self).line_num() >= old(self).line_num(),
            old(self).norm() ==> final(self).norm(),
            final(self).stream().len() <= old(self).stream().len(),
            r matches Err(e) ==> e.line_number == final(self).line_num(),
            r matches Ok(v) ==> crate::ast::wf_value(v@) && v@ is Str,
            ({
                let s0 = old(self).stream();
                let body = s0.skip(1);
                let q = first_idx(body, '"');
                &&& (old(self).norm() && s0.len() > 0 && s0[0] == '"' && q < body.len() ==> (
                r matches Ok(v) && v@ == SpecValue::Str(body.take(q)) && final(self).stream()
                    == body.skip(q + 1) && final(self).norm() && final(self).stream().len()
                    < s0.len()))
                &&& (old(self).norm() && s0.len() > 0 && s0[0] == '"' && q >= body.len() ==> (
                r matches Err(e) && e.message@ == m_expected('"') && final(self).stream().len()
                    == 0))
                &&& (!(old(self).norm() && s0.len() > 0 && s0[0] == '"') ==> (r is Err && *final(self) == *old(self)))
                &&& (old(self).norm() && s0.len() == 0 ==> (r matches Err(e) && e.message@
                    == m_expected('"')))
                &&& (old(self).norm() && s0.len() > 0 && s0[0] != '"' ==> (r matches Err(e)
                    && e.message@ == m_expected_found('"', s0[0])))
            }),
            old(self).norm() ==> ({
                let o = spec_parse_string(old(self).stream());
                &&& (o matches Outcome::Found(m, rest) ==> r matches Ok(v) && v@ == m && final(self).stream() == rest)
                &&& (o matches Outcome::Failed(msg, rest) ==> r matches Err(e) && e.message@
                    == msg && final(self).stream() == rest)
            }),
    {
        let ghost s0 = old(self).stream();
        proof {
            crate::text::lemma_first_idx_b(s0.skip(1), '"');
            lemma_first_idx(s0.skip(1), '"');
        }
        let r = match self.parse_inner_string() {
            Err(e) => Err(e),
            Ok(s) => Ok(Value::String(s)),
        };
        proof {
            let q = first_idx(s0.skip(1), '"');
            if old(self).norm() && s0.len() > 0 && s0[0] == '"' && q >= s0.skip(1).len() {
                assert(self.stream() =~= s0.skip(1).skip(q));
            }
        }
        r
    }

    /// Read a quoted literal as an object key.
    pub fn parse_string_key(&mut self) -> (r: Result<Key, ParseError>)
        requires
            old(self).wf(),
        ensures
            final(self).wf(),
            final(self).lines_model() == old(self).lines_model(),
            final(self).line_num() >= old(self).line_num(),
            old(self).norm() ==> final(self).norm(),
            final(self).stream().len() <= old(self).stream().len(),
            r matches Err(e) ==> e.line_number == final(self).line_num(),
            r matches Ok(k) ==> crate::ast::wf_text(k@),
            ({
                let s0 = old(self).stream();
                let body = s0.skip(1);
                let q = first_idx(body, '"');
                &&& (old(self).norm() && s0.len() > 0 && s0[0] == '"' && q < body.len() ==> (
                r matches Ok(k) && k@ == body.take(q) && final(self).stream() == body.skip(q + 1)
                    && final(self).norm() && final(self).stream().len() < s0.len()))
                &&& (old(self).norm() && s0.len() > 0 && s0[0] == '"' && q >= body.len() ==> (
                r matches Err(e) && e.message@ == m_expected('"') && final(self).stream().len()
                    == 0))
                &&& (!(old(self).norm() && s0.len() > 0 && s0[0] == '"') ==> (r is Err && *final(self) == *old(self)))
                &&& (old(self).norm() && s0.len() == 0 ==> (r matches Err(e) && e.message@
                    == m_expected('"')))
                &&& (old(self).norm() && s0.len() > 0 && s0[0] != '"' ==> (r matches Err(e)
                    && e.message@ == m_expected_found('"', s0[0])))
            }),
            old(self).norm() ==> ({
                let o = spec_parse_string(old(self).stream());
                &&& (o matches Outcome::Found(m, rest) ==> r matches Ok(k) && m == SpecValue::Str(
                    k@,
                ) && final(self).stream() == rest)
                &&& (o matches Outcome::Failed(msg, rest) ==> r matches Err(e) && e.message@
                    == msg && final(self).stream() == rest)
            }),
    {
        let ghost s0 = old(self).stream();
        proof {
            crate::text::lemma_first_idx_b(s0.skip(1), '"');
            lemma_first_idx(s0.skip(1), '"');
        }
        let r = match self.parse_inner_string() {
            Err(e) => Err(e),
            Ok(s) => Ok(Key(s)),
        };
        proof {
            let q = first_idx(s0.skip(1), '"');
            if old(self).norm() && s0.len() > 0 && s0[0] == '"' && q >= s0.skip(1).len() {
                assert(self.stream() =~= s0.skip(1).skip(q));
            }
        }
        r
    }

    /// Read a number literal: an optional leading minus, then the maximal
    /// run of digits and dots. Never fails; an absent run yields the empty
    /// or minus-only literal, and trailing non-number text is left
    /// unconsumed.
    pub fn parse_number(&mut self) -> (r: Result<Value, ParseError>)
        requires
            old(self).wf(),
            old(self).norm(),
        ensures
            final(self).wf(),
            final(self).norm(),
            final(self).lines_model() == old(self).lines_model(),
            final(self).line_num() >= old(self).line_num(),
            r matches Ok(v) && v@ == SpecValue::Num(num_tok(old(self).stream())) && final(self).stream() == old(self).stream().skip(num_tok_len(old(self).stream())),
    {
        let ghost s0 = old(self).stream();
        proof {
            lemma_run_len(s0);
            lemma_run_len(s0.skip(1));
            self.lemma_cur();
        }
        let mut buf: Vec<char> = Vec::new();
        let ghost base: int = 0;
        match self.get_cur_char() {
            Some(ch) => {
                if ch == '-' {
                    buf.push(ch);
                    proof {
                        base = 1;
                        assert(buf@ =~= s0.take(1));
                    }
                    self.succ();
                    proof {
                        assert(s0.drop_first() =~= s0.skip(1));
                    }
                }
            },
            None => {},
        }
        loop
            invariant
                old(self).wf(),
                s0 == old(self).stream(),
                self.wf(),
                self.lines_model() == old(self).lines_model(),
                self.li >= old(self).li,
                self.norm(),
                old(self).norm(),
                base == if s0.len() > 0 && s0[0] == '-' {
                    1int
                } else {
                    0int
                },
                base <= buf@.len() <= s0.len(),
                buf@ == s0.take(buf@.len() as int),
                forall|j: int| base <= j < buf@.len() ==> is_num_char(#[trigger] s0[j]),
                self.stream() == s0.skip(buf@.len() as int),
            ensures
                self.wf(),
                self.lines_model() == old(self).lines_model(),
                self.li >= old(self).li,
                self.norm(),
                buf@ == s0.take(buf@.len() as int),
                self.stream() == s0.skip(buf@.len() as int),
                buf@.len() == num_tok_len(s0),
            decreases self.stream().len(),
        {
            match self.get_cur_char() {
                Some(ch) => {
                    proof {
                        self.lemma_cur();
                        assert(s0.skip(buf@.len() as int)[0] == s0[buf@.len() as int]);
                    }
                    if crate::text::num_char(ch) {
                        buf.push(ch);
                        proof {
                            assert(buf@ =~= s0.take(buf@.len() as int));
                            assert(s0.skip(buf@.len() - 1).drop_first() =~= s0.skip(
                                buf@.len() as int,
                            ));
                        }
                        self.succ();
                    } else {
                        proof {
                            lemma_num_stop(s0, base, buf@.len() as int);
                        }
                        break ;
                    }
                },
                None => {
                    proof {
                        self.lemma_cur();
                        lemma_num_stop(s0, base, buf@.len() as int);
                    }
                    break ;
                },
            }
        }
        Ok(Value::Number(chars_to_string(&buf)))
    }

    /// Read one value: skip leading whitespace, then dispatch on the first
    /// character (`{` object, `[` array, `"` string, minus or digit
    /// number); any other character, or the end of the input, is a
    /// failure. On a stream carrying whitespace and then a canonical
    /// rendering, returns exactly the rendered tree and consumes exactly
    /// the whitespace and the rendering.
    #[verifier::rlimit(100)]
    pub fn parse_value(&mut self) -> (r: Result<Value, ParseError>)
        requires
            old(self).wf(),
        ensures
            final(self).wf(),
            final(self).lines_model() == old(self).lines_model(),
            final(self).line_num() >= old(self).line_num(),
            old(self).norm() ==> final(self).norm(),
            final(self).stream().len() <= old(self).stream().len(),
            r matches Ok(v) ==> final(self).stream().len() < old(self).stream().len(),
            r matches Ok(v) ==> wf_value(v@),
            r matches Ok(v) ==> height_value(v@) <= old(self).stream().len() - final(self).stream().len(),
            r matches Err(e) ==> e.line_number == final(self).line_num(),
            !old(self).norm() ==> r is Err && *final(self) == *old(self),
            old(self).norm() && old(self).stream().skip(ws_len(old(self).stream())).len() == 0
                ==> r is Err,
            old(self).norm() && old(self).stream().skip(ws_len(old(self).stream())).len() > 0
                && !starts_value(old(self).stream().skip(ws_len(old(self).stream()))[0])
                ==> r is Err,
            forall|w: Seq<char>, m: SpecValue, d: nat, rest: Seq<char>|
                old(self).norm() && #[trigger] value_at(old(self).stream(), w, m, d, rest) ==> (
                r matches Ok(v) && v@ == m && final(self).stream() == rest),
            forall|w1: Seq<char>, w2: Seq<char>, rest: Seq<char>|
                old(self).norm() && #[trigger] value_empty_at(
                    old(self).stream(),
                    w1,
                    w2,
                    '{',
                    '}',
                    rest,
                ) ==> (r matches Ok(v) && v@ == SpecValue::Obj(Seq::empty()) && final(self).stream() == rest),
            forall|w1: Seq<char>, w2: Seq<char>, rest: Seq<char>|
                old(self).norm() && #[trigger] value_empty_at(
                    old(self).stream(),
                    w1,
                    w2,
                    '[',
                    ']',
                    rest,
                ) ==> (r matches Ok(v) && v@ == SpecValue::Arr(Seq::empty()) && final(self).stream() == rest),
            old(self).norm() ==> ({
                let o = spec_parse_value(old(self).stream());
                &&& (o matches Outcome::Found(m, rest) ==> r matches Ok(v) && v@ == m && final(self).stream() == rest)
                &&& (o matches Outcome::Failed(msg, rest) ==> r matches Err(e) && e.message@
                    == msg && final(self).stream() == rest)
            }),
        decreases old(self).stream().len(), 1int,
    {
        let ghost s0 = old(self).stream();
        proof {
            reveal(crate::grammar::spec_parse_value);
            lemma_ws_len(s0);
            if old(self).norm() {
                self.lemma_cur();
            }
        }
        self.skip_whitespace();
        let ghost s1 = s0.skip(ws_len(s0));
        proof {
            if old(self).norm() {
                self.lemma_cur();
                value_at_open(s0, s1);
                value_empty_open(s0, s1);
                crate::text::lemma_ws_len_b(s0);
                reveal(crate::grammar::spec_parse_value);
                assert(s1.len() == s0.len() - ws_len(s0));
                assert(self.stream().len() <= s0.len());
            }
        }
        let r = match self.get_cur_char() {
            None => {
                proof {
                    if old(self).norm() {
                        reveal(crate::grammar::spec_parse_value);
                        assert(s1.len() == 0);
                        assert(spec_parse_value(s0) == Outcome::Failed(m_no_token(), s1));
                    }
                }
                Err(ParseError::new(msg_no_token(), self.line_number()))
            },
            Some(c) => {
                proof {
                    assert(self.norm());
                    assert(old(self).norm());
                    assert(self.stream() == s1);
                    assert(c == s1[0]);
                }
                if c == '{' {
                    proof {
                        reveal(crate::grammar::spec_parse_value);
                        reveal(crate::grammar::spec_parse_object);
                        assert(spec_parse_value(s0) == spec_parse_object(s1));
                    }
                    let res = self.parse_object();
                    res
                } else if c == '[' {
                    proof {
                        reveal(crate::grammar::spec_parse_value);
                        reveal(crate::grammar::spec_parse_array);
                        assert(spec_parse_value(s0) == spec_parse_array(s1));
                    }
                    let res = self.parse_array();
                    res
                } else if c == '"' {
                    let res = self.parse_string_value();
                    proof {
                        reveal(crate::grammar::spec_parse_value);
                        assert(spec_parse_value(s0) == spec_parse_string(s1));
                        assert(forall|mm: SpecValue| mm is Str ==> #[trigger] height_value(mm)
                            == 0);
                        assert forall|w: Seq<char>, m: SpecValue, d: nat, rest: Seq<char>|
                            #[trigger] value_at(s0, w, m, d, rest) implies (res matches Ok(v) && v@
                            == m && self.stream() == rest) by {
                            match m {
                                SpecValue::Str(content) => {
                                    let body = s1.skip(1);
                                    assert(s1 == (seq!['"'] + content + seq!['"']) + rest);
                                    assert(s1 =~= seq!['"'] + (content + seq!['"'] + rest));
                                    assert(body =~= content + seq!['"'] + rest);
                                    lemma_first_idx_concat(body, content, '"', rest);
                                    assert(body.take(content.len() as int) =~= content);
                                    assert(body.skip(content.len() + 1int) =~= rest);
                                },
                                _ => {
                                    assert(false);
                                },
                            }
                        }
                    }
                    proof {
                        if old(self).norm() {
                            let o = spec_parse_value(s0);
                            assert(o matches Outcome::Found(m, rest) ==> res matches Ok(v) && v@
                                == m && self.stream() == rest);
                            assert(o matches Outcome::Failed(msg, rest) ==> res matches Err(e)
                                && e.message@ == msg && self.stream() == rest);
                        }
                    }
                    res
                } else if c == '-' || crate::text::digit_char(c) {
                    let res = self.parse_number();
                    proof {
                        reveal(crate::grammar::spec_parse_value);
                        crate::text::lemma_num_tok_len_b(s1);
                        assert(spec_parse_value(s0) == Outcome::Found(
                            SpecValue::Num(num_tok(s1)),
                            s1.skip(num_tok_len_b(s1)),
                        ));
                        assert(forall|mm: SpecValue| mm is Num ==> #[trigger] height_value(mm)
                            == 0);
                        crate::text::lemma_num_tok(s1);
                        lemma_wf_num_tok(s1);
                        assert(self.stream() == s1.skip(num_tok_len(s1)));
                        assert(self.stream().len() < s1.len());
                        assert forall|w: Seq<char>, m: SpecValue, d: nat, rest: Seq<char>|
                            #[trigger] value_at(s0, w, m, d, rest) implies (res matches Ok(v) && v@
                            == m && self.stream() == rest) by {
                            match m {
                                SpecValue::Num(num) => {
                                    assert(s1 == num + rest);
                                    lemma_num_tok_concat(num, rest);
                                    assert(s1.skip(num.len() as int) =~= rest);
                                },
                                _ => {
                                    assert(false);
                                },
                            }
                        }
                    }
                    proof {
                        if old(self).norm() {
                            let o = spec_parse_value(s0);
                            assert(o matches Outcome::Found(m, rest) ==> res matches Ok(v) && v@
                                == m && self.stream() == rest);
                            assert(o matches Outcome::Failed(msg, rest) ==> res matches Err(e)
                                && e.message@ == msg && self.stream() == rest);
                        }
                    }
                    res
                } else {
                    Err(ParseError::new(msg_invalid_token(c), self.line_number()))
                }
            },
        };
        proof {
            if old(self).norm() {
                let o = spec_parse_value(s0);
                assert(o matches Outcome::Found(m, rest) ==> r matches Ok(v) && v@ == m
                    && self.stream() == rest);
                assert(o matches Outcome::Failed(msg, rest) ==> r matches Err(e) && e.message@
                    == msg && self.stream() == rest);
            }
        }
        r
    }

    /// Read an object: `{`, an optional member list separated by commas,
    /// `}`. Any amount of whitespace between `{` and `}` yields the empty
    /// object; on a stream carrying a canonical object rendering, returns
    /// exactly that object and consumes exactly the rendering.
    #[verifier::rlimit(100)]
    pub fn parse_object(&mut self) -> (r: Result<Value, ParseError>)
        requires
            old(self).wf(),
        ensures
            final(self).wf(),
            final(self).lines_model() == old(self).lines_model(),
            final(self).line_num() >= old(self).line_num(),
            old(self).norm() ==> final(self).norm(),
            final(self).stream().len() <= old(self).stream().len(),
            r matches Ok(v) ==> final(self).stream().len() < old(self).stream().len(),
            r matches Ok(v) ==> wf_value(v@) && v@ is Obj,
            r matches Ok(v) ==> height_value(v@) <= old(self).stream().len() - final(self).stream().len(),
            r matches Err(e) ==> e.line_number == final(self).line_num(),
            forall|w: Seq<char>, rest: Seq<char>|
                old(self).norm() && #[trigger] obj_empty_at(old(self).stream(), w, rest) ==> (
                r matches Ok(v) && v@ == SpecValue::Obj(Seq::empty()) && final(self).stream()
                    == rest),
            forall|ps: Seq<(Seq<char>, SpecValue)>, d: nat, rest: Seq<char>|
                old(self).norm() && #[trigger] obj_at(old(self).stream(), ps, d, rest) ==> (
                r matches Ok(v) && v@ == SpecValue::Obj(ps) && final(self).stream() == rest),
            old(self).norm() ==> ({
                let o = spec_parse_object(old(self).stream());
                &&& (o matches Outcome::Found(m, rest) ==> r matches Ok(v) && v@ == m && final(self).stream() == rest)
                &&& (o matches Outcome::Failed(msg, rest) ==> r matches Err(e) && e.message@
                    == msg && final(self).stream() == rest)
            }),
        decreases old(self).stream().len(), 0int,
    {
        let ghost s0 = old(self).stream();
        proof {
            reveal(crate::grammar::spec_parse_object);
            if old(self).norm() {
                self.lemma_cur();
            }
        }
        match self.expect_char('{') {
            Err(e) => {
                proof {
                    obj_premises_open(s0);
                    if old(self).norm() {
                        if s0.len() == 0 {
                            assert(spec_parse_object(s0) == Outcome::Failed(m_expected('{'), s0));
                        } else {
                            assert(s0[0] != '{');
                            assert(spec_parse_object(s0) == Outcome::Failed(
                                m_expected_found('{', s0[0]),
                                s0,
                            ));
                        }
                    }
                }
                return Err(e);
            },
            Ok(()) => {},
        }
        proof {
            obj_premises_open(s0);
            assert(old(self).norm());
        }
        self.succ();
        let ghost s_in = s0.drop_first();
        proof {
            lemma_ws_len(s_in);
        }
        self.skip_whitespace();
        let ghost s2 = s_in.skip(ws_len(s_in));
        proof {
            self.lemma_cur();
            assert(s0.drop_first() =~= s0.skip(1));
            crate::text::lemma_ws_len_b(s_in);
            crate::text::lemma_ws_skip_idem(s_in);
        }
        if self.cur_char_is('}') {
            proof {
                self.lemma_cur();
            }
            self.succ();
            proof {
                assert forall|w: Seq<char>, rest: Seq<char>| #[trigger] obj_empty_at(
                    s0,
                    w,
                    rest,
                ) implies self.stream() == rest by {
                    assert(s_in =~= w + (seq!['}'] + rest));
                    assert((seq!['}'] + rest)[0] == '}');
                    lemma_ws_len_concat(s_in, w, seq!['}'] + rest);
                    assert(s2 =~= seq!['}'] + rest);
                    assert(s2.drop_first() =~= rest);
                }
                assert forall|ps: Seq<(Seq<char>, SpecValue)>, d: nat, rest: Seq<char>| #[trigger]
                obj_at(s0, ps, d, rest) implies ps == Seq::<(Seq<char>, SpecValue)>::empty()
                    && self.stream() == rest by {
                    if ps.len() == 0 {
                        assert(ps =~= Seq::<(Seq<char>, SpecValue)>::empty());
                        assert(s0 =~= seq!['{'] + (seq!['}'] + rest));
                        assert(s_in =~= seq!['}'] + rest);
                        lemma_ws_len_concat(s_in, Seq::empty(), seq!['}'] + rest);
                        assert(Seq::<char>::empty() + (seq!['}'] + rest) =~= seq!['}'] + rest);
                        assert(s2 =~= seq!['}'] + rest);
                        assert(s2.drop_first() =~= rest);
                    } else {
                        lemma_obj_unfold(ps, 0, d, rest);
                        assert(ps.skip(0) =~= ps);
                        assert(s_in =~= indent_seq((d + 1) as nat) + key_form(ps, 0, d, rest));
                        assert(key_form(ps, 0, d, rest)[0] == '"');
                        lemma_ws_len_concat(s_in, indent_seq((d + 1) as nat), key_form(
                            ps,
                            0,
                            d,
                            rest,
                        ));
                        assert(s2 == key_form(ps, 0, d, rest));
                        assert(s2[0] == '"');
                    }
                }
                assert(view_pairs(Seq::<Pair>::empty()) =~= Seq::<(Seq<char>, SpecValue)>::empty());
                assert(s2.len() > 0 && s2[0] == '}');
                assert(spec_parse_object(s0) == Outcome::Found(
                    SpecValue::Obj(Seq::empty()),
                    s2.skip(1),
                ));
                assert(self.stream() =~= s2.skip(1));
            }
            return Ok(Value::Object(Vec::new()));
        }
        proof {
            assert forall|w: Seq<char>, rest: Seq<char>| #[trigger] obj_empty_at(
                s0,
                w,
                rest,
            ) implies false by {
                assert(s_in =~= w + (seq!['}'] + rest));
                assert((seq!['}'] + rest)[0] == '}');
                lemma_ws_len_concat(s_in, w, seq!['}'] + rest);
                assert(s2 =~= seq!['}'] + rest);
            }
            assert forall|ps: Seq<(Seq<char>, SpecValue)>, d: nat, rest: Seq<char>| #[trigger]
            obj_at(s0, ps, d, rest) implies ps.len() > 0 && s2 == key_form(ps, 0, d, rest) by {
                if ps.len() == 0 {
                    assert(s0 =~= seq!['{'] + (seq!['}'] + rest));
                    assert(s_in =~= seq!['}'] + rest);
                    lemma_ws_len_concat(s_in, Seq::empty(), seq!['}'] + rest);
                    assert(Seq::<char>::empty() + (seq!['}'] + rest) =~= seq!['}'] + rest);
                    assert(s2 =~= seq!['}'] + rest);
                } else {
                    lemma_obj_unfold(ps, 0, d, rest);
                    assert(ps.skip(0) =~= ps);
                    assert(s_in =~= indent_seq((d + 1) as nat) + key_form(ps, 0, d, rest));
                    assert(key_form(ps, 0, d, rest)[0] == '"');
                    lemma_ws_len_concat(s_in, indent_seq((d + 1) as nat), key_form(ps, 0, d, rest));
                }
            }
            assert(view_pairs(Seq::<Pair>::empty()) =~= Seq::<(Seq<char>, SpecValue)>::empty());
        }
        proof {
            assert(!(s2.len() > 0 && s2[0] == '}'));
            assert(spec_parse_object(s0) == spec_parse_members(s_in, Seq::empty()));
            assert(s2.skip(0) =~= s2);
            assert(self.stream().skip(ws_len(self.stream())) == s_in.skip(ws_len(s_in)));
        }
        let ghost mut tk = s_in;
        let mut pairs: Vec<Pair> = Vec::new();
        loop
            invariant
                old(self).wf(),
                old(self).norm(),
                s0 == old(self).stream(),
                self.wf(),
                self.norm(),
                self.lines_model() == old(self).lines_model(),
                self.line_num() >= old(self).line_num(),
                self.stream().len() < s0.len(),
                wf_pairs(view_pairs(pairs@)),
                view_pairs(pairs@).len() == pairs@.len(),
                height_pairs(view_pairs(pairs@)) + 1 <= s0.len() - self.stream().len(),
                spec_parse_object(s0) == spec_parse_members(tk, view_pairs(pairs@)),
                tk.skip(ws_len(tk)) == self.stream().skip(ws_len(self.stream())),
                self.stream().len() <= tk.len(),
                forall|w: Seq<char>, rest: Seq<char>| #[trigger] obj_empty_at(s0, w, rest)
                    ==> false,
                forall|ps: Seq<(Seq<char>, SpecValue)>, d: nat, rest: Seq<char>| #[trigger] obj_at(
                    s0,
                    ps,
                    d,
                    rest,
                ) ==> {
                    &&& pairs@.len() < ps.len()
                    &&& view_pairs(pairs@) == ps.take(pairs@.len() as int)
                    &&& self.stream().skip(ws_len(self.stream())) == key_form(
                        ps,
                        pairs@.len() as int,
                        d,
                        rest,
                    )
                },
            decreases self.stream().len(),
        {
            let ghost st_top = self.stream();
            proof {
                lemma_ws_len(st_top);
            }
            self.skip_whitespace();
            let ghost st_key = st_top.skip(ws_len(st_top));
            proof {
                crate::text::lemma_ws_len_b(tk);
                assert(st_key == tk.skip(ws_len_b(tk)));
                crate::text::lemma_first_idx_b(st_key.skip(1), '"');
                lemma_first_idx(st_key.skip(1), '"');
                lemma_members_unfold(tk, view_pairs(pairs@));
            }
            let key = match self.parse_string_key() {
                Ok(k) => k,
                Err(e) => {
                    proof {
                        obj_key_ok(s0, st_key, pairs@.len() as int);
                        let body_g = st_key.skip(1);
                        if st_key.len() == 0 {
                            assert(spec_parse_members(tk, view_pairs(pairs@)) == Outcome::Failed(
                                m_expected('"'),
                                st_key,
                            ));
                        } else if st_key[0] != '"' {
                            assert(spec_parse_members(tk, view_pairs(pairs@)) == Outcome::Failed(
                                m_expected_found('"', st_key[0]),
                                st_key,
                            ));
                        } else {
                            assert(first_idx(body_g, '"') >= body_g.len());
                            assert(body_g.skip(crate::text::first_idx_b(body_g, '"'))
                                =~= self.stream());
                            assert(spec_parse_members(tk, view_pairs(pairs@)) == Outcome::Failed(
                                m_expected('"'),
                                body_g.skip(crate::text::first_idx_b(body_g, '"')),
                            ));
                        }
                    }
                    return Err(e);
                },
            };
            let ghost k = pairs@.len() as int;
            proof {
                obj_key_ok(s0, st_key, k);
            }
            let ghost st_colon = st_key.skip(1).skip(first_idx(st_key.skip(1), '"') + 1);
            proof {
                lemma_ws_len(st_colon);
                assert(first_idx(st_key.skip(1), '"') < st_key.skip(1).len());
                assert(self.stream() == st_colon);
                crate::text::lemma_ws_len_b(st_colon);
                assert forall|ps: Seq<(Seq<char>, SpecValue)>, d: nat, rest: Seq<char>| #[trigger]
                obj_at(s0, ps, d, rest) implies ws_len(st_colon) == 0 && st_colon[0] == ':' by {
                    assert(st_colon == seq![':'] + (seq![' '] + flat_value(ps[k].1, (d + 1) as nat)
                        + obj_tail(ps, k, d, rest)));
                    assert(st_colon[0] == ':');
                    lemma_ws_len_is(st_colon, 0);
                }
            }
            self.skip_whitespace();
            match self.consume_char(':') {
                Ok(()) => {},
                Err(e) => {
                    proof {
                        self.lemma_cur();
                        assert forall|ps: Seq<(Seq<char>, SpecValue)>, d: nat, rest: Seq<char>|
                            #[trigger] obj_at(s0, ps, d, rest) implies false by {
                            self.lemma_cur();
                        }
                        let v0 = st_colon.skip(ws_len_b(st_colon));
                        assert(v0 == self.stream());
                        if v0.len() == 0 {
                            assert(spec_parse_members(tk, view_pairs(pairs@)) == Outcome::Failed(
                                m_expected(':'),
                                v0,
                            ));
                        } else {
                            assert(v0[0] != ':');
                            assert(spec_parse_members(tk, view_pairs(pairs@)) == Outcome::Failed(
                                m_expected_found(':', v0[0]),
                                v0,
                            ));
                        }
                    }
                    return Err(e);
                },
            }
            let ghost st_val = st_colon.drop_first();
            proof {
                assert forall|ps: Seq<(Seq<char>, SpecValue)>, d: nat, rest: Seq<char>| #[trigger]
                obj_at(s0, ps, d, rest) implies value_at(
                    st_val,
                    seq![' '],
                    ps[k].1,
                    (d + 1) as nat,
                    obj_tail(ps, k, d, rest),
                ) && self.stream() == st_val by {
                    assert(st_colon.skip(0) =~= st_colon);
                    assert(st_colon == seq![':'] + (seq![' '] + flat_value(ps[k].1, (d + 1) as nat)
                        + obj_tail(ps, k, d, rest)));
                    assert(st_val =~= seq![' '] + flat_value(ps[k].1, (d + 1) as nat) + obj_tail(
                        ps,
                        k,
                        d,
                        rest,
                    ));
                    assert(all_ws(seq![' ']));
                    assert(wf_pairs(ps.skip(k))) by {
                        obj_wf_skip(ps, k);
                    }
                    assert(ps.skip(k)[0] == ps[k]);
                    assert(wf_value(ps[k].1));
                    assert(delim_ok(ps[k].1, obj_tail(ps, k, d, rest))) by {
                        obj_tail_head(ps, k, d, rest);
                    }
                }
            }
            let ghost st_w = self.stream();
            let ghost len_bc = self.stream().len();
            proof {
                assert(st_colon.skip(ws_len_b(st_colon)).skip(1) =~= st_w);
            }
            let value = match self.parse_value() {
                Ok(v) => v,
                Err(e) => {
                    proof {
                        assert forall|ps: Seq<(Seq<char>, SpecValue)>, d: nat, rest: Seq<char>|
                            #[trigger] obj_at(s0, ps, d, rest) implies false by {
                            assert(value_at(st_val, seq![' '], ps[k].1, (d + 1) as nat, obj_tail(
                                ps,
                                k,
                                d,
                                rest,
                            )));
                        }
                        assert(spec_parse_value(st_w) matches Outcome::Failed(msg, rest)
                            && e.message@ == msg && self.stream() == rest);
                        assert(spec_parse_members(tk, view_pairs(pairs@)) == Outcome::Failed(
                            e.message@,
                            self.stream(),
                        ));
                    }
                    return Err(e);
                },
            };
            let ghost st_tail = self.stream();
            proof {
                lemma_ws_len(st_tail);
                crate::text::lemma_ws_len_b(st_tail);
                assert(spec_parse_value(st_w) == Outcome::Found(view_value(value), st_tail));
            }
            self.skip_whitespace();
            let ghost st_sep = self.stream();
            proof {
                assert(st_sep == st_tail.skip(ws_len_b(st_tail)));
                assert forall|ps: Seq<(Seq<char>, SpecValue)>, d: nat, rest: Seq<char>| #[trigger]
                obj_at(s0, ps, d, rest) implies {
                    &&& st_tail == obj_tail(ps, k, d, rest)
                    &&& (k + 1 < ps.len() ==> self.stream() == st_tail && st_tail[0] == ',')
                    &&& (k + 1 == ps.len() ==> self.stream() == seq!['}'] + rest)
                } by {
                    assert(st_tail == obj_tail(ps, k, d, rest));
                    if k + 1 < ps.len() {
                        assert(st_tail[0] == ',');
                        lemma_ws_len_is(st_tail, 0);
                        assert(st_tail.skip(0) =~= st_tail);
                    } else {
                        assert(st_tail =~= indent_seq(d) + (seq!['}'] + rest));
                        assert((seq!['}'] + rest)[0] == '}');
                        lemma_ws_len_concat(st_tail, indent_seq(d), seq!['}'] + rest);
                        assert(st_tail.skip(indent_seq(d).len() as int) =~= seq!['}'] + rest);
                    }
                }
            }
            let ghost old_pairs = pairs@;
            pairs.push(Pair::new(key, value));
            proof {
                let p_new = pairs@[pairs@.len() - 1];
                lemma_view_pairs_push(old_pairs, p_new);
                assert(pairs@ =~= old_pairs.push(p_new));
                lemma_wf_pairs_push(view_pairs(old_pairs), view_pair(p_new));
                assert(view_pairs(old_pairs).push(view_pair(p_new)) =~= view_pairs(old_pairs)
                    + seq![view_pair(p_new)]);
                assert(wf_pairs(view_pairs(pairs@)));
                assert(view_pairs(pairs@).len() == pairs@.len());
                lemma_height_pairs_push(view_pairs(old_pairs), view_pair(p_new));
                assert(view_pair(p_new).1 == view_value(value));
                assert(height_value(view_value(value)) + 1 <= s0.len() - self.stream().len());
                assert(height_pairs(view_pairs(pairs@)) + 1 <= s0.len() - self.stream().len());
                assert(view_pair(p_new) == (
                    st_key.skip(1).take(first_idx(st_key.skip(1), '"')),
                    view_value(value),
                ));
                assert(view_pairs(pairs@) == view_pairs(old_pairs).push(view_pair(p_new)));
                assert forall|ps: Seq<(Seq<char>, SpecValue)>, d: nat, rest: Seq<char>| #[trigger]
                obj_at(s0, ps, d, rest) implies view_pairs(pairs@) == ps.take(k + 1) by {
                    assert(value_at(st_val, seq![' '], ps[k].1, (d + 1) as nat, obj_tail(
                        ps,
                        k,
                        d,
                        rest,
                    )));
                    assert(view_pair(p_new) == ps[k]) by {
                        assert(p_new.key == key && p_new.value == value);
                        assert(key@ == ps[k].0);
                        assert(view_value(value) == ps[k].1);
                        assert((ps[k].0, ps[k].1) == ps[k]);
                    }
                    assert(ps.take(k + 1) =~= ps.take(k).push(ps[k]));
                    assert(view_pairs(old_pairs).push(ps[k]) =~= view_pairs(old_pairs) + seq![
                        ps[k],
                    ]);
                }
            }
            match self.get_cur_char() {
                Some(c) => {
                    proof {
                        self.lemma_cur();
                    }
                    if c == ',' {
                        self.succ();
                        proof {
                            assert forall|
                                ps: Seq<(Seq<char>, SpecValue)>,
                                d: nat,
                                rest: Seq<char>,
                            | #[trigger]
                            obj_at(s0, ps, d, rest) implies {
                                &&& k + 1 < ps.len()
                                &&& self.stream().skip(ws_len(self.stream())) == key_form(
                                    ps,
                                    k + 1,
                                    d,
                                    rest,
                                )
                            } by {
                                assert(k + 1 < ps.len());
                                assert(st_tail.drop_first() =~= flat_pairs(
                                    ps.skip(k + 1),
                                    (d + 1) as nat,
                                ) + indent_seq(d) + seq!['}'] + rest);
                                lemma_obj_unfold(ps, k + 1, d, rest);
                                assert(self.stream() =~= indent_seq((d + 1) as nat) + key_form(
                                    ps,
                                    k + 1,
                                    d,
                                    rest,
                                ));
                                assert(key_form(ps, k + 1, d, rest)[0] == '"');
                                lemma_ws_len_concat(self.stream(), indent_seq((d + 1) as nat),
                                    key_form(ps, k + 1, d, rest));
                                assert(self.stream().skip(ws_len(self.stream())) =~= key_form(
                                    ps,
                                    k + 1,
                                    d,
                                    rest,
                                ));
                            }
                            assert(st_sep.len() > 0 && st_sep[0] == ',');
                            assert(st_sep.skip(1).len() < tk.len());
                            assert(spec_parse_members(tk, view_pairs(old_pairs))
                                == spec_parse_members(st_sep.skip(1), view_pairs(pairs@)));
                            assert(self.stream() =~= st_sep.skip(1));
                            tk = st_sep.skip(1);
                        }
                    } else if c == '}' {
                        self.succ();
                        proof {
                            assert forall|
                                ps: Seq<(Seq<char>, SpecValue)>,
                                d: nat,
                                rest: Seq<char>,
                            | #[trigger]
                            obj_at(s0, ps, d, rest) implies view_pairs(pairs@) == ps
                                && self.stream() == rest by {
                                assert(k + 1 == ps.len());
                                assert(ps.take(k + 1) =~= ps);
                                assert((seq!['}'] + rest).drop_first() =~= rest);
                            }
                            assert(st_sep.len() > 0 && st_sep[0] == '}');
                            assert(spec_parse_members(tk, view_pairs(old_pairs))
                                == Outcome::Found(SpecValue::Obj(view_pairs(pairs@)), st_sep.skip(
                                1,
                            )));
                            assert(self.stream() =~= st_sep.skip(1));
                        }
                        return Ok(Value::Object(pairs));
                    } else {
                        proof {
                            assert forall|
                                ps: Seq<(Seq<char>, SpecValue)>,
                                d: nat,
                                rest: Seq<char>,
                            | #[trigger]
                            obj_at(s0, ps, d, rest) implies false by {}
                            assert(st_sep.len() > 0 && st_sep[0] == c && c != ',' && c != '}');
                            assert(spec_parse_members(tk, view_pairs(old_pairs))
                                == Outcome::Failed(m_obj_sep_found(c), st_sep));
                        }
                        return Err(ParseError::new(msg_obj_sep_found(c), self.line_number()));
                    }
                },
                None => {
                    proof {
                        self.lemma_cur();
                        assert forall|ps: Seq<(Seq<char>, SpecValue)>, d: nat, rest: Seq<char>|
                            #[trigger] obj_at(s0, ps, d, rest) implies false by {}
                        assert(st_sep.len() == 0);
                        assert(spec_parse_members(tk, view_pairs(old_pairs)) == Outcome::Failed(
                            m_obj_sep(),
                            st_sep,
                        ));
                    }
                    return Err(ParseError::new(msg_obj_sep(), self.line_number()));
                },
            }
        }
    }

    /// Read an array: `[`, an optional element list separated by commas,
    /// `]`. Any amount of whitespace between `[` and `]` yields the empty
    /// array; on a stream carrying a canonical array rendering, returns
    /// exactly that array and consumes exactly the rendering.
    #[verifier::rlimit(100)]
    pub fn parse_array(&mut self) -> (r: Result<Value, ParseError>)
        requires
            old(self).wf(),
        ensures
            final(self).wf(),
            final(self).lines_model() == old(self).lines_model(),
            final(self).line_num() >= old(self).line_num(),
            old(self).norm() ==> final(self).norm(),
            final(self).stream().len() <= old(self).stream().len(),
            r matches Ok(v) ==> final(self).stream().len() < old(self).stream().len(),
            r matches Ok(v) ==> wf_value(v@) && v@ is Arr,
            r matches Ok(v) ==> height_value(v@) <= old(self).stream().len() - final(self).stream().len(),
            r matches Err(e) ==> e.line_number == final(self).line_num(),
            forall|w: Seq<char>, rest: Seq<char>|
                old(self).norm() && #[trigger] arr_empty_at(old(self).stream(), w, rest) ==> (
                r matches Ok(v) && v@ == SpecValue::Arr(Seq::empty()) && final(self).stream()
                    == rest),
            forall|vs: Seq<SpecValue>, d: nat, rest: Seq<char>|
                old(self).norm() && #[trigger] arr_at(old(self).stream(), vs, d, rest) ==> (
                r matches Ok(v) && v@ == SpecValue::Arr(vs) && final(self).stream() == rest),
            old(self).norm() ==> ({
                let o = spec_parse_array(old(self).stream());
                &&& (o matches Outcome::Found(m, rest) ==> r matches Ok(v) && v@ == m
                    && final(self).stream() == rest)
                &&& (o matches Outcome::Failed(msg, rest) ==> r matches Err(e) && e.message@
                    == msg && final(self).stream() == rest)
            }),
        decreases old(self).stream().len(), 0int,
    {
        let ghost s0 = old(self).stream();
        proof {
            reveal(crate::grammar::spec_parse_array);
            if old(self).norm() {
                self.lemma_cur();
            }
        }
        match self.consume_char('[') {
            Err(e) => {
                proof {
                    arr_premises_open(s0);
                    if old(self).norm() {
                        if s0.len() == 0 {
                            assert(spec_parse_array(s0) == Outcome::Failed(m_expected('['), s0));
                        } else {
                            assert(s0[0] != '[');
                            assert(spec_parse_array(s0) == Outcome::Failed(
                                m_expected_found('[', s0[0]),
                                s0,
                            ));
                        }
                    }
                }
                return Err(e);
            },
            Ok(()) => {},
        }
        proof {
            arr_premises_open(s0);
            assert(old(self).norm());
        }
        let ghost s_in = s0.drop_first();
        proof {
            lemma_ws_len(s_in);
        }
        self.skip_whitespace();
        let ghost s2 = s_in.skip(ws_len(s_in));
        proof {
            self.lemma_cur();
            assert(s0.drop_first() =~= s0.skip(1));
            crate::text::lemma_ws_len_b(s_in);
            crate::text::lemma_ws_skip_idem(s_in);
        }
        if self.cur_char_is(']') {
            proof {
                self.lemma_cur();
            }
            self.succ();
            proof {
                assert forall|w: Seq<char>, rest: Seq<char>| #[trigger] arr_empty_at(
                    s0,
                    w,
                    rest,
                ) implies self.stream() == rest by {
                    assert(s_in =~= w + (seq![']'] + rest));
                    assert((seq![']'] + rest)[0] == ']');
                    lemma_ws_len_concat(s_in, w, seq![']'] + rest);
                    assert(s2 =~= seq![']'] + rest);
                    assert(s2.drop_first() =~= rest);
                }
                assert forall|vs: Seq<SpecValue>, d: nat, rest: Seq<char>| #[trigger] arr_at(
                    s0,
                    vs,
                    d,
                    rest,
                ) implies vs == Seq::<SpecValue>::empty() && self.stream() == rest by {
                    if vs.len() == 0 {
                        assert(vs =~= Seq::<SpecValue>::empty());
                        assert(s0 =~= seq!['['] + (seq![']'] + rest));
                        assert(s_in =~= seq![']'] + rest);
                        lemma_ws_len_concat(s_in, Seq::empty(), seq![']'] + rest);
                        assert(Seq::<char>::empty() + (seq![']'] + rest) =~= seq![']'] + rest);
                        assert(s2 =~= seq![']'] + rest);
                        assert(s2.drop_first() =~= rest);
                    } else {
                        lemma_arr_unfold(vs, 0, d, rest);
                        assert(vs.skip(0) =~= vs);
                        assert(s_in =~= indent_seq((d + 1) as nat) + elem_form(vs, 0, d, rest));
                        arr_elem_head(vs, 0, d, rest);
                        lemma_ws_len_concat(s_in, indent_seq((d + 1) as nat), elem_form(
                            vs,
                            0,
                            d,
                            rest,
                        ));
                        assert(s2 == elem_form(vs, 0, d, rest));
                    }
                }
                assert(view_values(Seq::<Value>::empty()) =~= Seq::<SpecValue>::empty());
                assert(s2.len() > 0 && s2[0] == ']');
                assert(spec_parse_array(s0) == Outcome::Found(
                    SpecValue::Arr(Seq::empty()),
                    s2.skip(1),
                ));
                assert(self.stream() =~= s2.skip(1));
            }
            return Ok(Value::Array(Vec::new()));
        }
        proof {
            assert forall|w: Seq<char>, rest: Seq<char>| #[trigger] arr_empty_at(
                s0,
                w,
                rest,
            ) implies false by {
                assert(s_in =~= w + (seq![']'] + rest));
                assert((seq![']'] + rest)[0] == ']');
                lemma_ws_len_concat(s_in, w, seq![']'] + rest);
                assert(s2 =~= seq![']'] + rest);
            }
            assert forall|vs: Seq<SpecValue>, d: nat, rest: Seq<char>| #[trigger] arr_at(
                s0,
                vs,
                d,
                rest,
            ) implies vs.len() > 0 && s2 == elem_form(vs, 0, d, rest) by {
                if vs.len() == 0 {
                    assert(s0 =~= seq!['['] + (seq![']'] + rest));
                    assert(s_in =~= seq![']'] + rest);
                    lemma_ws_len_concat(s_in, Seq::empty(), seq![']'] + rest);
                    assert(Seq::<char>::empty() + (seq![']'] + rest) =~= seq![']'] + rest);
                    assert(s2 =~= seq![']'] + rest);
                } else {
                    lemma_arr_unfold(vs, 0, d, rest);
                    assert(vs.skip(0) =~= vs);
                    assert(s_in =~= indent_seq((d + 1) as nat) + elem_form(vs, 0, d, rest));
                    arr_elem_head(vs, 0, d, rest);
                    lemma_ws_len_concat(s_in, indent_seq((d + 1) as nat), elem_form(vs, 0, d, rest));
                }
            }
            assert(view_values(Seq::<Value>::empty()) =~= Seq::<SpecValue>::empty());
        }
        proof {
            assert(!(s2.len() > 0 && s2[0] == ']'));
            assert(spec_parse_array(s0) == spec_parse_elems(s_in, Seq::empty()));
            assert(s2.skip(0) =~= s2);
            assert(self.stream().skip(ws_len(self.stream())) == s_in.skip(ws_len(s_in)));
        }
        let ghost mut tk = s_in;
        let mut vals: Vec<Value> = Vec::new();
        loop
            invariant
                old(self).wf(),
                old(self).norm(),
                s0 == old(self).stream(),
                self.wf(),
                self.norm(),
                self.lines_model() == old(self).lines_model(),
                self.line_num() >= old(self).line_num(),
                self.stream().len() < s0.len(),
                wf_values(view_values(vals@)),
                view_values(vals@).len() == vals@.len(),
                height_values(view_values(vals@)) + 1 <= s0.len() - self.stream().len(),
                spec_parse_array(s0) == spec_parse_elems(tk, view_values(vals@)),
                tk.skip(ws_len(tk)) == self.stream().skip(ws_len(self.stream())),
                self.stream().len() <= tk.len(),
                forall|w: Seq<char>, rest: Seq<char>| #[trigger] arr_empty_at(s0, w, rest)
                    ==> false,
                forall|vs: Seq<SpecValue>, d: nat, rest: Seq<char>| #[trigger] arr_at(
                    s0,
                    vs,
                    d,
                    rest,
                ) ==> {
                    &&& vals@.len() < vs.len()
                    &&& view_values(vals@) == vs.take(vals@.len() as int)
                    &&& self.stream().skip(ws_len(self.stream())) == elem_form(
                        vs,
                        vals@.len() as int,
                        d,
                        rest,
                    )
                },
            decreases self.stream().len(),
        {
            let ghost st_top = self.stream();
            let ghost k = vals@.len() as int;
            proof {
                lemma_ws_len(st_top);
                crate::text::lemma_ws_len_b(tk);
                crate::grammar::lemma_value_ws_invariant(tk);
                crate::grammar::lemma_value_ws_invariant(st_top);
                assert(spec_parse_value(tk) == spec_parse_value(st_top));
                lemma_elems_unfold(tk, view_values(vals@));
                assert forall|vs: Seq<SpecValue>, d: nat, rest: Seq<char>| #[trigger] arr_at(
                    s0,
                    vs,
                    d,
                    rest,
                ) implies value_at(
                    st_top,
                    st_top.take(ws_len(st_top)),
                    vs[k],
                    (d + 1) as nat,
                    arr_tail(vs, k, d, rest),
                ) by {
                    assert(st_top =~= st_top.take(ws_len(st_top)) + st_top.skip(ws_len(st_top)));
                    assert(all_ws(st_top.take(ws_len(st_top)))) by {
                        assert(forall|j: int|
                            0 <= j < ws_len(st_top) ==> is_ws_char(
                                #[trigger] st_top.take(ws_len(st_top))[j],
                            ) == is_ws_char(st_top[j]));
                    }
                    assert(wf_values(vs.skip(k))) by {
                        arr_wf_skip(vs, k);
                    }
                    assert(vs.skip(k)[0] == vs[k]);
                    assert(wf_value(vs[k]));
                    assert(delim_ok(vs[k], arr_tail(vs, k, d, rest))) by {
                        arr_tail_head(vs, k, d, rest);
                    }
                    assert(st_top =~= st_top.take(ws_len(st_top)) + flat_value(
                        vs[k],
                        (d + 1) as nat,
                    ) + arr_tail(vs, k, d, rest));
                }
            }
            let ghost len_bc = self.stream().len();
            let value = match self.parse_value() {
                Ok(v) => v,
                Err(e) => {
                    proof {
                        assert forall|vs: Seq<SpecValue>, d: nat, rest: Seq<char>| #[trigger]
                        arr_at(s0, vs, d, rest) implies false by {
                            assert(value_at(st_top, st_top.take(ws_len(st_top)), vs[k], (d
                                + 1) as nat, arr_tail(vs, k, d, rest)));
                        }
                        assert(spec_parse_value(st_top) matches Outcome::Failed(msg, rest)
                            && e.message@ == msg && self.stream() == rest);
                        assert(spec_parse_elems(tk, view_values(vals@)) == Outcome::Failed(
                            e.message@,
                            self.stream(),
                        ));
                    }
                    return Err(e);
                },
            };
            let ghost st_tail = self.stream();
            proof {
                lemma_ws_len(st_tail);
                crate::text::lemma_ws_len_b(st_tail);
                assert(spec_parse_value(st_top) == Outcome::Found(view_value(value), st_tail));
            }
            self.skip_whitespace();
            let ghost st_sep = self.stream();
            proof {
                assert(st_sep == st_tail.skip(ws_len_b(st_tail)));
                assert forall|vs: Seq<SpecValue>, d: nat, rest: Seq<char>| #[trigger] arr_at(
                    s0,
                    vs,
                    d,
                    rest,
                ) implies {
                    &&& st_tail == arr_tail(vs, k, d, rest)
                    &&& (k + 1 < vs.len() ==> self.stream() == st_tail && st_tail[0] == ',')
                    &&& (k + 1 == vs.len() ==> self.stream() == seq![']'] + rest)
                } by {
                    assert(st_tail == arr_tail(vs, k, d, rest));
                    if k + 1 < vs.len() {
                        assert(st_tail[0] == ',');
                        lemma_ws_len_is(st_tail, 0);
                        assert(st_tail.skip(0) =~= st_tail);
                    } else {
                        assert(st_tail =~= indent_seq(d) + (seq![']'] + rest));
                        assert((seq![']'] + rest)[0] == ']');
                        lemma_ws_len_concat(st_tail, indent_seq(d), seq![']'] + rest);
                        assert(st_tail.skip(indent_seq(d).len() as int) =~= seq![']'] + rest);
                    }
                }
            }
            let ghost old_vals = vals@;
            vals.push(value);
            proof {
                let v_new = vals@[vals@.len() - 1];
                lemma_view_values_push(old_vals, v_new);
                assert(vals@ =~= old_vals.push(v_new));
                lemma_wf_values_push(view_values(old_vals), view_value(v_new));
                assert(view_values(old_vals).push(view_value(v_new)) =~= view_values(old_vals)
                    + seq![view_value(v_new)]);
                assert(wf_values(view_values(vals@)));
                assert(view_values(vals@).len() == vals@.len());
                lemma_height_values_push(view_values(old_vals), view_value(v_new));
                assert(height_value(view_value(value)) + 1 <= s0.len() - self.stream().len());
                assert(height_values(view_values(vals@)) + 1 <= s0.len() - self.stream().len());
                assert(view_values(vals@) == view_values(old_vals).push(view_value(value)));
                assert forall|vs: Seq<SpecValue>, d: nat, rest: Seq<char>| #[trigger] arr_at(
                    s0,
                    vs,
                    d,
                    rest,
                ) implies view_values(vals@) == vs.take(k + 1) by {
                    assert(value_at(st_top, st_top.take(ws_len(st_top)), vs[k], (d + 1) as nat,
                        arr_tail(vs, k, d, rest)));
                    assert(view_value(v_new) == vs[k]) by {
                        assert(v_new == value);
                    }
                    assert(vs.take(k + 1) =~= vs.take(k).push(vs[k]));
                    assert(view_values(old_vals).push(vs[k]) =~= view_values(old_vals) + seq![
                        vs[k],
                    ]);
                }
            }
            match self.get_cur_char() {
                Some(c) => {
                    proof {
                        self.lemma_cur();
                    }
                    if c == ',' {
                        self.succ();
                        proof {
                            assert forall|vs: Seq<SpecValue>, d: nat, rest: Seq<char>| #[trigger]
                            arr_at(s0, vs, d, rest) implies {
                                &&& k + 1 < vs.len()
                                &&& self.stream().skip(ws_len(self.stream())) == elem_form(
                                    vs,
                                    k + 1,
                                    d,
                                    rest,
                                )
                            } by {
                                assert(k + 1 < vs.len());
                                assert(st_tail.drop_first() =~= flat_elems(
                                    vs.skip(k + 1),
                                    (d + 1) as nat,
                                ) + indent_seq(d) + seq![']'] + rest);
                                lemma_arr_unfold(vs, k + 1, d, rest);
                                assert(self.stream() =~= indent_seq((d + 1) as nat) + elem_form(
                                    vs,
                                    k + 1,
                                    d,
                                    rest,
                                ));
                                arr_elem_head(vs, k + 1, d, rest);
                                lemma_ws_len_concat(self.stream(), indent_seq((d + 1) as nat),
                                    elem_form(vs, k + 1, d, rest));
                                assert(self.stream().skip(ws_len(self.stream())) =~= elem_form(
                                    vs,
                                    k + 1,
                                    d,
                                    rest,
                                ));
                            }
                            assert(st_sep.len() > 0 && st_sep[0] == ',');
                            assert(st_sep.skip(1).len() < tk.len());
                            assert(spec_parse_elems(tk, view_values(old_vals))
                                == spec_parse_elems(st_sep.skip(1), view_values(vals@)));
                            assert(self.stream() =~= st_sep.skip(1));
                            tk = st_sep.skip(1);
                        }
                    } else if c == ']' {
                        self.succ();
                        proof {
                            assert forall|vs: Seq<SpecValue>, d: nat, rest: Seq<char>| #[trigger]
                            arr_at(s0, vs, d, rest) implies view_values(vals@) == vs
                                && self.stream() == rest by {
                                assert(k + 1 == vs.len());
                                assert(vs.take(k + 1) =~= vs);
                                assert((seq![']'] + rest).drop_first() =~= rest);
                            }
                            assert(st_sep.len() > 0 && st_sep[0] == ']');
                            assert(spec_parse_elems(tk, view_values(old_vals)) == Outcome::Found(
                                SpecValue::Arr(view_values(vals@)),
                                st_sep.skip(1),
                            ));
                            assert(self.stream() =~= st_sep.skip(1));
                        }
                        return Ok(Value::Array(vals));
                    } else {
                        proof {
                            assert forall|vs: Seq<SpecValue>, d: nat, rest: Seq<char>| #[trigger]
                            arr_at(s0, vs, d, rest) implies false by {}
                            assert(st_sep.len() > 0 && st_sep[0] == c && c != ',' && c != ']');
                            assert(spec_parse_elems(tk, view_values(old_vals)) == Outcome::Failed(
                                m_arr_sep_found(c),
                                st_sep,
                            ));
                        }
                        return Err(ParseError::new(msg_arr_sep_found(c), self.line_number()));
                    }
                },
                None => {
                    proof {
                        self.lemma_cur();
                        assert forall|vs: Seq<SpecValue>, d: nat, rest: Seq<char>| #[trigger]
                        arr_at(s0, vs, d, rest) implies false by {}
                        assert(st_sep.len() == 0);
                        assert(spec_parse_elems(tk, view_values(old_vals)) == Outcome::Failed(
                            m_arr_sep(),
                            st_sep,
                        ));
                    }
                    return Err(ParseError::new(msg_arr_sep(), self.line_number()));
                },
            }
        }
    }

}

/// At the end of a consumed digit-and-dot run that cannot be extended, the
/// run is exactly the number token of the stream.
proof fn lemma_num_stop(s0: Seq<char>, base: int, k: int)
    requires
        base == if s0.len() > 0 && s0[0] == '-' {
            1int
        } else {
            0int
        },
        base <= k <= s0.len(),
        forall|j: int| base <= j < k ==> is_num_char(#[trigger] s0[j]),
        k < s0.len() ==> !is_num_char(s0[k]),
    ensures
        num_tok_len(s0) == k,
{
    if base == 1 {
        let tail = s0.subrange(1, s0.len() as int);
        assert forall|j: int| 0 <= j < k - 1 implies is_num_char(#[trigger] tail[j]) by {
            assert(tail[j] == s0[j + 1]);
        }
        if k - 1 < tail.len() {
            assert(tail[k - 1] == s0[k]);
        }
        lemma_run_len_is(tail, k - 1);
    } else {
        lemma_run_len_is(s0, k);
    }
}

/// What a stream that carries leading whitespace and a canonical value
/// looks like once the whitespace run is skipped.
proof fn value_at_open(s0: Seq<char>, s1: Seq<char>)
    requires
        s1 == s0.skip(ws_len(s0)),
    ensures
        forall|w: Seq<char>, m: SpecValue, d: nat, rest: Seq<char>| #[trigger] value_at(
            s0,
            w,
            m,
            d,
            rest,
        ) ==> {
            &&& s1 == flat_value(m, d) + rest
            &&& s1.len() > 0
            &&& flat_value(m, d).len() > 0
            &&& s1[0] == flat_value(m, d)[0]
            &&& starts_value(s1[0])
            &&& (m is Obj ==> s1[0] == '{' && obj_at(s1, m->Obj_0, d, rest))
            &&& (m is Arr ==> s1[0] == '[' && arr_at(s1, m->Arr_0, d, rest))
            &&& (m is Str ==> s1[0] == '"')
            &&& (m is Num ==> (s1[0] == '-' || crate::text::is_digit_char(s1[0])))
        },
{
    assert forall|w: Seq<char>, m: SpecValue, d: nat, rest: Seq<char>| #[trigger] value_at(
        s0,
        w,
        m,
        d,
        rest,
    ) implies {
        &&& s1 == flat_value(m, d) + rest
        &&& s1.len() > 0
        &&& flat_value(m, d).len() > 0
        &&& s1[0] == flat_value(m, d)[0]
        &&& starts_value(s1[0])
        &&& (m is Obj ==> s1[0] == '{' && obj_at(s1, m->Obj_0, d, rest))
        &&& (m is Arr ==> s1[0] == '[' && arr_at(s1, m->Arr_0, d, rest))
        &&& (m is Str ==> s1[0] == '"')
        &&& (m is Num ==> (s1[0] == '-' || crate::text::is_digit_char(s1[0])))
    } by {
        lemma_shape_value(m, d);
        assert(s0 == (w + flat_value(m, d)) + rest);
        assert(s0 =~= w + (flat_value(m, d) + rest));
        assert((flat_value(m, d) + rest)[0] == flat_value(m, d)[0]);
        lemma_ws_len_concat(s0, w, flat_value(m, d) + rest);
        assert(s1 =~= flat_value(m, d) + rest);
    }
}

/// What a stream that carries leading whitespace and an empty composite
/// looks like once the whitespace run is skipped.
proof fn value_empty_open(s0: Seq<char>, s1: Seq<char>)
    requires
        s1 == s0.skip(ws_len(s0)),
    ensures
        forall|w1: Seq<char>, w2: Seq<char>, rest: Seq<char>| #[trigger] value_empty_at(
            s0,
            w1,
            w2,
            '{',
            '}',
            rest,
        ) ==> s1.len() > 0 && s1[0] == '{' && obj_empty_at(s1, w2, rest),
        forall|w1: Seq<char>, w2: Seq<char>, rest: Seq<char>| #[trigger] value_empty_at(
            s0,
            w1,
            w2,
            '[',
            ']',
            rest,
        ) ==> s1.len() > 0 && s1[0] == '[' && arr_empty_at(s1, w2, rest),
{
    assert forall|w1: Seq<char>, w2: Seq<char>, rest: Seq<char>| #[trigger] value_empty_at(
        s0,
        w1,
        w2,
        '{',
        '}',
        rest,
    ) implies s1.len() > 0 && s1[0] == '{' && obj_empty_at(s1, w2, rest) by {
        let t = seq!['{'] + w2 + seq!['}'] + rest;
        assert(s0 == ((w1 + seq!['{']) + w2 + seq!['}']) + rest);
        assert(s0 =~= w1 + (seq!['{'] + w2 + seq!['}'] + rest));
        assert(t[0] == '{');
        lemma_ws_len_concat(s0, w1, t);
        assert(s1 =~= t);
    }
    assert forall|w1: Seq<char>, w2: Seq<char>, rest: Seq<char>| #[trigger] value_empty_at(
        s0,
        w1,
        w2,
        '[',
        ']',
        rest,
    ) implies s1.len() > 0 && s1[0] == '[' && arr_empty_at(s1, w2, rest) by {
        let t = seq!['['] + w2 + seq![']'] + rest;
        assert(s0 == ((w1 + seq!['[']) + w2 + seq![']']) + rest);
        assert(s0 =~= w1 + (seq!['['] + w2 + seq![']'] + rest));
        assert(t[0] == '[');
        lemma_ws_len_concat(s0, w1, t);
        assert(s1 =~= t);
    }
}


/// The definition of `spec_parse_members`, unfolded one step, so that a
/// single instantiation gives a loop body every branch of the grammar at
/// its current position.
proof fn lemma_members_unfold(tk: Seq<char>, acc: Seq<(Seq<char>, SpecValue)>)
    ensures
        ({
            let u = tk.skip(ws_len_b(tk));
            let body = u.skip(1);
            let q = first_idx_b(body, '"');
            &&& (u.len() == 0 ==> spec_parse_members(tk, acc) == Outcome::Failed(
                m_expected('"'),
                u,
            ))
            &&& (u.len() > 0 && u[0] != '"' ==> spec_parse_members(tk, acc) == Outcome::Failed(
                m_expected_found('"', u[0]),
                u,
            ))
            &&& (u.len() > 0 && u[0] == '"' && q >= body.len() ==> spec_parse_members(tk, acc)
                == Outcome::Failed(m_expected('"'), body.skip(q)))
            &&& (u.len() > 0 && u[0] == '"' && q < body.len() ==> {
                let key = body.take(q);
                let after_key = body.skip(q + 1);
                let v0 = after_key.skip(ws_len_b(after_key));
                &&& (v0.len() == 0 ==> spec_parse_members(tk, acc) == Outcome::Failed(
                    m_expected(':'),
                    v0,
                ))
                &&& (v0.len() > 0 && v0[0] != ':' ==> spec_parse_members(tk, acc)
                    == Outcome::Failed(m_expected_found(':', v0[0]), v0))
                &&& (v0.len() > 0 && v0[0] == ':' ==> {
                    let o = spec_parse_value(v0.skip(1));
                    &&& (o matches Outcome::Failed(msg, rest) ==> spec_parse_members(tk, acc)
                        == Outcome::Failed(msg, rest))
                    &&& (o matches Outcome::Found(val, rest0) ==> {
                        let rest = rest0.skip(ws_len_b(rest0));
                        let acc2 = acc.push((key, val));
                        &&& (rest.len() == 0 ==> spec_parse_members(tk, acc) == Outcome::Failed(
                            m_obj_sep(),
                            rest,
                        ))
                        &&& (rest.len() > 0 && rest[0] == ',' && rest.skip(1).len() < tk.len()
                            ==> spec_parse_members(tk, acc) == spec_parse_members(
                            rest.skip(1),
                            acc2,
                        ))
                        &&& (rest.len() > 0 && rest[0] == '}' ==> spec_parse_members(tk, acc)
                            == Outcome::Found(SpecValue::Obj(acc2), rest.skip(1)))
                        &&& (rest.len() > 0 && rest[0] != ',' && rest[0] != '}'
                            ==> spec_parse_members(tk, acc) == Outcome::Failed(
                            m_obj_sep_found(rest[0]),
                            rest,
                        ))
                    })
                })
            })
        }),
{
    reveal_with_fuel(spec_parse_members, 2);
    reveal_with_fuel(crate::grammar::spec_parse_value, 2);
    let u = tk.skip(ws_len_b(tk));
    if u.len() > 0 && u[0] == '"' {
        let body = u.skip(1);
        let q = first_idx_b(body, '"');
        if q < body.len() {
            let key = body.take(q);
            let after_key = body.skip(q + 1);
            let v0 = after_key.skip(ws_len_b(after_key));
            if v0.len() > 0 && v0[0] == ':' {
                let o = spec_parse_value(v0.skip(1));
                if o is Failed {
                    assert(spec_parse_members(tk, acc) == o);
                }
            }
        }
    }
}

/// The definition of `spec_parse_elems`, unfolded one step.
proof fn lemma_elems_unfold(tk: Seq<char>, acc: Seq<SpecValue>)
    ensures
        ({
            let o = spec_parse_value(tk);
            &&& (o matches Outcome::Failed(msg, rest) ==> spec_parse_elems(tk, acc)
                == Outcome::Failed(msg, rest))
            &&& (o matches Outcome::Found(val, rest0) ==> {
                let rest = rest0.skip(ws_len_b(rest0));
                let acc2 = acc.push(val);
                &&& (rest.len() == 0 ==> spec_parse_elems(tk, acc) == Outcome::Failed(
                    m_arr_sep(),
                    rest,
                ))
                &&& (rest.len() > 0 && rest[0] == ',' && rest.skip(1).len() < tk.len()
                    ==> spec_parse_elems(tk, acc) == spec_parse_elems(rest.skip(1), acc2))
                &&& (rest.len() > 0 && rest[0] == ']' ==> spec_parse_elems(tk, acc)
                    == Outcome::Found(SpecValue::Arr(acc2), rest.skip(1)))
                &&& (rest.len() > 0 && rest[0] != ',' && rest[0] != ']' ==> spec_parse_elems(
                    tk,
                    acc,
                ) == Outcome::Failed(m_arr_sep_found(rest[0]), rest))
            })
        }),
{
    reveal_with_fuel(spec_parse_elems, 2);
    reveal_with_fuel(crate::grammar::spec_parse_value, 2);
}

/// Any stream carrying an object opens with `{`.
proof fn obj_premises_open(s0: Seq<char>)
    ensures
        forall|w: Seq<char>, rest: Seq<char>| #[trigger] obj_empty_at(s0, w, rest) ==> s0.len() > 0
            && s0[0] == '{',
        forall|ps: Seq<(Seq<char>, SpecValue)>, d: nat, rest: Seq<char>| #[trigger] obj_at(
            s0,
            ps,
            d,
            rest,
        ) ==> s0.len() > 0 && s0[0] == '{',
{
    assert forall|w: Seq<char>, rest: Seq<char>| #[trigger] obj_empty_at(s0, w, rest) implies
        s0.len() > 0 && s0[0] == '{' by {
        assert(s0 =~= seq!['{'] + (w + seq!['}'] + rest));
    }
    assert forall|ps: Seq<(Seq<char>, SpecValue)>, d: nat, rest: Seq<char>| #[trigger] obj_at(
        s0,
        ps,
        d,
        rest,
    ) implies s0.len() > 0 && s0[0] == '{' by {
        let f = flat_value(SpecValue::Obj(ps), d);
        if ps.len() == 0 {
            assert(f == seq!['{', '}']);
        } else {
            lemma_shape_value(SpecValue::Obj(ps), d);
        }
        assert(s0[0] == f[0]);
    }
}

/// Any stream carrying an array opens with `[`.
proof fn arr_premises_open(s0: Seq<char>)
    ensures
        forall|w: Seq<char>, rest: Seq<char>| #[trigger] arr_empty_at(s0, w, rest) ==> s0.len() > 0
            && s0[0] == '[',
        forall|vs: Seq<SpecValue>, d: nat, rest: Seq<char>| #[trigger] arr_at(s0, vs, d, rest)
            ==> s0.len() > 0 && s0[0] == '[',
{
    assert forall|w: Seq<char>, rest: Seq<char>| #[trigger] arr_empty_at(s0, w, rest) implies
        s0.len() > 0 && s0[0] == '[' by {
        assert(s0 =~= seq!['['] + (w + seq![']'] + rest));
    }
    assert forall|vs: Seq<SpecValue>, d: nat, rest: Seq<char>| #[trigger] arr_at(
        s0,
        vs,
        d,
        rest,
    ) implies s0.len() > 0 && s0[0] == '[' by {
        let f = flat_value(SpecValue::Arr(vs), d);
        if vs.len() == 0 {
            assert(f == seq!['[', ']']);
        } else {
            lemma_shape_value(SpecValue::Arr(vs), d);
        }
        assert(s0[0] == f[0]);
    }
}

/// A well-formed member list stays well-formed from any member on.
proof fn obj_wf_skip(ps: Seq<(Seq<char>, SpecValue)>, k: int)
    requires
        0 <= k <= ps.len(),
        wf_pairs(ps),
    ensures
        wf_pairs(ps.skip(k)),
    decreases k,
{
    if k == 0 {
        assert(ps.skip(0) =~= ps);
    } else {
        assert(ps.subrange(1, ps.len() as int) =~= ps.skip(1));
        obj_wf_skip(ps.skip(1), k - 1);
        assert(ps.skip(1).skip(k - 1) =~= ps.skip(k));
    }
}

/// A well-formed element list stays well-formed from any element on.
proof fn arr_wf_skip(vs: Seq<SpecValue>, k: int)
    requires
        0 <= k <= vs.len(),
        wf_values(vs),
    ensures
        wf_values(vs.skip(k)),
    decreases k,
{
    if k == 0 {
        assert(vs.skip(0) =~= vs);
    } else {
        assert(vs.subrange(1, vs.len() as int) =~= vs.skip(1));
        arr_wf_skip(vs.skip(1), k - 1);
        assert(vs.skip(1).skip(k - 1) =~= vs.skip(k));
    }
}

/// The tail after an object member is nonempty and opens with a comma,
/// a space, or the closing brace: nothing a number token could take.
proof fn obj_tail_head(ps: Seq<(Seq<char>, SpecValue)>, k: int, d: nat, rest: Seq<char>)
    requires
        0 <= k < ps.len(),
    ensures
        obj_tail(ps, k, d, rest).len() > 0,
        !is_num_char(obj_tail(ps, k, d, rest)[0]),
        !is_ws_char(obj_tail(ps, k, d, rest)[0]) || obj_tail(ps, k, d, rest)[0] == ' ',
{
    let t = obj_tail(ps, k, d, rest);
    if k + 1 < ps.len() {
        assert(t[0] == ',');
    } else {
        if d > 0 {
            assert(indent_seq(d).len() == 4 * d);
            assert(t[0] == indent_seq(d)[0]);
            assert(indent_seq(d)[0] == ' ');
        } else {
            assert(indent_seq(d).len() == 0);
            assert(t =~= indent_seq(d) + (seq!['}'] + rest));
            assert(t[0] == (seq!['}'] + rest)[0]);
        }
    }
}

/// The tail after an array element is nonempty and opens with a comma, a
/// space, or the closing bracket.
proof fn arr_tail_head(vs: Seq<SpecValue>, k: int, d: nat, rest: Seq<char>)
    requires
        0 <= k < vs.len(),
    ensures
        arr_tail(vs, k, d, rest).len() > 0,
        !is_num_char(arr_tail(vs, k, d, rest)[0]),
{
    let t = arr_tail(vs, k, d, rest);
    if k + 1 < vs.len() {
        assert(t[0] == ',');
    } else {
        if d > 0 {
            assert(indent_seq(d).len() == 4 * d);
            assert(t[0] == indent_seq(d)[0]);
            assert(indent_seq(d)[0] == ' ');
        } else {
            assert(indent_seq(d).len() == 0);
            assert(t =~= indent_seq(d) + (seq![']'] + rest));
            assert(t[0] == (seq![']'] + rest)[0]);
        }
    }
}

/// A canonical element line opens with the element's first character,
/// which is not whitespace.
proof fn arr_elem_head(vs: Seq<SpecValue>, k: int, d: nat, rest: Seq<char>)
    requires
        0 <= k < vs.len(),
        wf_value(SpecValue::Arr(vs)),
    ensures
        elem_form(vs, k, d, rest).len() > 0,
        !is_ws_char(elem_form(vs, k, d, rest)[0]),
        starts_value(elem_form(vs, k, d, rest)[0]),
{
    arr_wf_skip(vs, k);
    assert(vs.skip(k)[0] == vs[k]);
    assert(wf_value(vs[k]));
    lemma_shape_value(vs[k], (d + 1) as nat);
    assert(elem_form(vs, k, d, rest)[0] == flat_value(vs[k], (d + 1) as nat)[0]);
}

/// On a stream positioned at a canonical member line, reading the quoted
/// key finds exactly the member's key and stops right before the colon.
proof fn obj_key_ok(s0: Seq<char>, st_key: Seq<char>, k: int)
    ensures
        forall|ps: Seq<(Seq<char>, SpecValue)>, d: nat, rest: Seq<char>|
            #[trigger] obj_at(s0, ps, d, rest) && 0 <= k < ps.len() && st_key == key_form(
                ps,
                k,
                d,
                rest,
            ) ==> {
                &&& st_key.len() > 0 && st_key[0] == '"'
                &&& first_idx(st_key.skip(1), '"') == ps[k].0.len()
                &&& first_idx(st_key.skip(1), '"') < st_key.skip(1).len()
                &&& st_key.skip(1).take(ps[k].0.len() as int) == ps[k].0
                &&& st_key.skip(1).skip(ps[k].0.len() + 1int) == seq![':'] + (seq![' '] + flat_value(
                    ps[k].1,
                    (d + 1) as nat,
                ) + obj_tail(ps, k, d, rest))
            },
{
    assert forall|ps: Seq<(Seq<char>, SpecValue)>, d: nat, rest: Seq<char>|
        #[trigger] obj_at(s0, ps, d, rest) && 0 <= k < ps.len() && st_key == key_form(
            ps,
            k,
            d,
            rest,
        ) implies {
        &&& st_key.len() > 0 && st_key[0] == '"'
        &&& first_idx(st_key.skip(1), '"') == ps[k].0.len()
        &&& first_idx(st_key.skip(1), '"') < st_key.skip(1).len()
        &&& st_key.skip(1).take(ps[k].0.len() as int) == ps[k].0
        &&& st_key.skip(1).skip(ps[k].0.len() + 1int) == seq![':'] + (seq![' '] + flat_value(
            ps[k].1,
            (d + 1) as nat,
        ) + obj_tail(ps, k, d, rest))
    } by {
        let key = ps[k].0;
        let after = seq![':'] + (seq![' '] + flat_value(ps[k].1, (d + 1) as nat) + obj_tail(
            ps,
            k,
            d,
            rest,
        ));
        assert(st_key =~= seq!['"'] + (key + seq!['"'] + after));
        let body = st_key.skip(1);
        assert(body =~= key + seq!['"'] + after);
        crate::ast::lemma_wf_pairs_iff(ps);
        assert(wf_text(key));
        lemma_first_idx_concat(body, key, '"', after);
        assert(body.take(key.len() as int) =~= key);
        assert(body.skip(key.len() + 1int) =~= after);
    }
}

/// "expected `c`"
fn msg_expected(c: char) -> (s: String)
    ensures
        s@ == m_expected(c),
{
    let mut v: Vec<char> = Vec::new();
    v.push(c);
    let s = String::from_str("expected `").concat(chars_to_string(&v).as_str()).concat("`");
    proof {
        assert(v@ =~= seq![c]);
        assert(s@ =~= m_expected(c));
    }
    s
}

/// "expected: `e`, found: `a`"
fn msg_expected_found(e: char, a: char) -> (s: String)
    ensures
        s@ == m_expected_found(e, a),
{
    let mut ve: Vec<char> = Vec::new();
    ve.push(e);
    let mut va: Vec<char> = Vec::new();
    va.push(a);
    let s = String::from_str("expected: `").concat(chars_to_string(&ve).as_str()).concat(
        "`, found: `",
    ).concat(chars_to_string(&va).as_str()).concat("`");
    proof {
        assert(ve@ =~= seq![e]);
        assert(va@ =~= seq![a]);
        assert(s@ =~= m_expected_found(e, a));
    }
    s
}

/// "invalid token: `c`"
fn msg_invalid_token(c: char) -> (s: String)
    ensures
        s@ == m_invalid_token(c),
{
    let mut v: Vec<char> = Vec::new();
    v.push(c);
    let s = String::from_str("invalid token: `").concat(chars_to_string(&v).as_str()).concat("`");
    proof {
        assert(v@ =~= seq![c]);
        assert(s@ =~= m_invalid_token(c));
    }
    s
}

/// "no token found"
fn msg_no_token() -> (s: String)
    ensures
        s@ == m_no_token(),
{
    String::from_str("no token found")
}

/// "expected: `,` or `}`, found: `c`"
fn msg_obj_sep_found(c: char) -> (s: String)
    ensures
        s@ == m_obj_sep_found(c),
{
    let mut v: Vec<char> = Vec::new();
    v.push(c);
    let s = String::from_str("expected: `,` or `}`, found: `").concat(
        chars_to_string(&v).as_str(),
    ).concat("`");
    proof {
        assert(v@ =~= seq![c]);
        assert(s@ =~= m_obj_sep_found(c));
    }
    s
}

/// "expected `,` or `}}`"
fn msg_obj_sep() -> (s: String)
    ensures
        s@ == m_obj_sep(),
{
    String::from_str("expected `,` or `}}`")
}

/// "expected: `,` or `]`, found: c"
fn msg_arr_sep_found(c: char) -> (s: String)
    ensures
        s@ == m_arr_sep_found(c),
{
    let mut v: Vec<char> = Vec::new();
    v.push(c);
    let s = String::from_str("expected: `,` or `]`, found: ").concat(chars_to_string(&v).as_str());
    proof {
        assert(v@ =~= seq![c]);
        assert(s@ =~= m_arr_sep_found(c));
    }
    s
}

/// "expected `,` or `]`"
fn msg_arr_sep() -> (s: String)
    ensures
        s@ == m_arr_sep(),
{
    String::from_str("expected `,` or `]`")
}

} // verus!
