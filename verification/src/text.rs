//! Character classes and the line model of the input text.
//!
//! The parser consumes a line-oriented character stream: the input text is
//! split at newlines (a carriage return directly before a newline is dropped
//! with it), and the resulting lines are read as one contiguous character
//! sequence with the line breaks elided. The helpers here define that
//! splitting, the whitespace and digit classes, and the token shapes
//! (maximal whitespace runs, number tokens) that the parser contracts are
//! stated over.

use vstd::prelude::*;

verus! {

/// The characters treated as whitespace: the Unicode `White_Space` set, as
/// documented for `char::is_whitespace`.
pub open spec fn is_ws_char(c: char) -> bool {
    let u = c as u32;
    u == 0x09 || u == 0x0A || u == 0x0B || u == 0x0C || u == 0x0D || u == 0x20 || u == 0x85
        || u == 0xA0 || u == 0x1680 || (0x2000 <= u && u <= 0x200A) || u == 0x2028 || u == 0x2029
        || u == 0x202F || u == 0x205F || u == 0x3000
}

pub open spec fn is_digit_char(c: char) -> bool {
    0x30 <= c as u32 && c as u32 <= 0x39
}

/// A character the number rule consumes after the optional leading minus.
pub open spec fn is_num_char(c: char) -> bool {
    is_digit_char(c) || c == '.'
}

pub fn ws_char(c: char) -> (r: bool)
    ensures
        r == is_ws_char(c),
{
    let u = c as u32;
    u == 0x09 || u == 0x0A || u == 0x0B || u == 0x0C || u == 0x0D || u == 0x20 || u == 0x85
        || u == 0xA0 || u == 0x1680 || (0x2000 <= u && u <= 0x200A) || u == 0x2028 || u == 0x2029
        || u == 0x202F || u == 0x205F || u == 0x3000
}

pub fn digit_char(c: char) -> (r: bool)
    ensures
        r == is_digit_char(c),
{
    let u = c as u32;
    0x30 <= u && u <= 0x39
}

pub fn num_char(c: char) -> (r: bool)
    ensures
        r == is_num_char(c),
{
    digit_char(c) || c == '.'
}

pub open spec fn all_ws(s: Seq<char>) -> bool {
    forall|i: int| 0 <= i < s.len() ==> is_ws_char(#[trigger] s[i])
}

pub open spec fn nl_free(s: Seq<char>) -> bool {
    forall|i: int| 0 <= i < s.len() ==> (#[trigger] s[i]) != '\n'
}

/// No carriage return directly before a newline: on such text, splitting
/// into lines drops exactly the newline characters and nothing else.
pub open spec fn no_crlf(s: Seq<char>) -> bool {
    forall|i: int| 0 <= i && i + 1 < s.len() ==> !((#[trigger] s[i]) == '\r' && s[i + 1] == '\n')
}

/// The index of the first occurrence of `c` in `s`, or `s.len()` if absent.
pub open spec fn first_idx(s: Seq<char>, c: char) -> int
    decreases s.len(),
{
    if s.len() == 0 {
        0
    } else if s[0] == c {
        0
    } else {
        1 + first_idx(s.subrange(1, s.len() as int), c)
    }
}

pub proof fn lemma_first_idx(s: Seq<char>, c: char)
    ensures
        0 <= first_idx(s, c) <= s.len(),
        forall|i: int| 0 <= i < first_idx(s, c) ==> (#[trigger] s[i]) != c,
        first_idx(s, c) < s.len() ==> s[first_idx(s, c)] == c,
    decreases s.len(),
{
    if s.len() > 0 && s[0] != c {
        let t = s.subrange(1, s.len() as int);
        lemma_first_idx(t, c);
        assert forall|i: int| 0 <= i < first_idx(s, c) implies (#[trigger] s[i]) != c by {
            if i > 0 {
                assert(t[i - 1] == s[i]);
            }
        }
    }
}

pub proof fn lemma_first_idx_is(s: Seq<char>, c: char, k: int)
    requires
        0 <= k <= s.len(),
        forall|i: int| 0 <= i < k ==> (#[trigger] s[i]) != c,
        k < s.len() ==> s[k] == c,
    ensures
        first_idx(s, c) == k,
    decreases s.len(),
{
    if s.len() > 0 && s[0] != c {
        let tail = s.subrange(1, s.len() as int);
        lemma_first_idx_is(tail, c, k - 1);
    }
}

/// The length of the maximal leading whitespace run of `s`.
pub open spec fn ws_len(s: Seq<char>) -> int
    decreases s.len(),
{
    if s.len() > 0 && is_ws_char(s[0]) {
        1 + ws_len(s.subrange(1, s.len() as int))
    } else {
        0
    }
}

pub proof fn lemma_ws_len(s: Seq<char>)
    ensures
        0 <= ws_len(s) <= s.len(),
        forall|i: int| 0 <= i < ws_len(s) ==> is_ws_char(#[trigger] s[i]),
        ws_len(s) < s.len() ==> !is_ws_char(s[ws_len(s)]),
    decreases s.len(),
{
    if s.len() > 0 && is_ws_char(s[0]) {
        let t = s.subrange(1, s.len() as int);
        lemma_ws_len(t);
        assert forall|i: int| 0 <= i < ws_len(s) implies is_ws_char(#[trigger] s[i]) by {
            if i > 0 {
                assert(t[i - 1] == s[i]);
            }
        }
    }
}

pub proof fn lemma_ws_len_is(s: Seq<char>, k: int)
    requires
        0 <= k <= s.len(),
        forall|i: int| 0 <= i < k ==> is_ws_char(#[trigger] s[i]),
        k < s.len() ==> !is_ws_char(s[k]),
    ensures
        ws_len(s) == k,
    decreases s.len(),
{
    if s.len() > 0 && is_ws_char(s[0]) {
        lemma_ws_len_is(s.subrange(1, s.len() as int), k - 1);
    }
}

/// The length of the maximal leading run of digits and dots of `s`.
pub open spec fn run_len(s: Seq<char>) -> int
    decreases s.len(),
{
    if s.len() > 0 && is_num_char(s[0]) {
        1 + run_len(s.subrange(1, s.len() as int))
    } else {
        0
    }
}

pub proof fn lemma_run_len(s: Seq<char>)
    ensures
        0 <= run_len(s) <= s.len(),
        forall|i: int| 0 <= i < run_len(s) ==> is_num_char(#[trigger] s[i]),
        run_len(s) < s.len() ==> !is_num_char(s[run_len(s)]),
    decreases s.len(),
{
    if s.len() > 0 && is_num_char(s[0]) {
        let t = s.subrange(1, s.len() as int);
        lemma_run_len(t);
        assert forall|i: int| 0 <= i < run_len(s) implies is_num_char(#[trigger] s[i]) by {
            if i > 0 {
                assert(t[i - 1] == s[i]);
            }
        }
    }
}

pub proof fn lemma_run_len_is(s: Seq<char>, k: int)
    requires
        0 <= k <= s.len(),
        forall|i: int| 0 <= i < k ==> is_num_char(#[trigger] s[i]),
        k < s.len() ==> !is_num_char(s[k]),
    ensures
        run_len(s) == k,
    decreases s.len(),
{
    if s.len() > 0 && is_num_char(s[0]) {
        lemma_run_len_is(s.subrange(1, s.len() as int), k - 1);
    }
}

/// `ws_len`, with its bounds visible definitionally (for use in recursive
/// definitions whose termination leans on them).
pub open spec fn ws_len_b(s: Seq<char>) -> int {
    if 0 <= ws_len(s) <= s.len() {
        ws_len(s)
    } else {
        0
    }
}

pub proof fn lemma_ws_len_b(s: Seq<char>)
    ensures
        ws_len_b(s) == ws_len(s),
{
    lemma_ws_len(s);
}

/// `first_idx`, with its bounds visible definitionally.
pub open spec fn first_idx_b(s: Seq<char>, c: char) -> int {
    if 0 <= first_idx(s, c) <= s.len() {
        first_idx(s, c)
    } else {
        0
    }
}

pub proof fn lemma_first_idx_b(s: Seq<char>, c: char)
    ensures
        first_idx_b(s, c) == first_idx(s, c),
{
    lemma_first_idx(s, c);
}

/// Skipping the whitespace run leaves nothing more to skip.
pub proof fn lemma_ws_skip_idem(s: Seq<char>)
    ensures
        ws_len(s.skip(ws_len(s))) == 0,
{
    lemma_ws_len(s);
    let u = s.skip(ws_len(s));
    if u.len() > 0 {
        assert(u[0] == s[ws_len(s)]);
    }
}

/// The number token the parser reads at the head of `s`: an optional minus,
/// then the maximal run of digits and dots.
pub open spec fn num_tok_len(s: Seq<char>) -> int {
    if s.len() > 0 && s[0] == '-' {
        1 + run_len(s.subrange(1, s.len() as int))
    } else {
        run_len(s)
    }
}

pub open spec fn num_tok(s: Seq<char>) -> Seq<char> {
    s.take(num_tok_len(s))
}

pub proof fn lemma_num_tok(s: Seq<char>)
    ensures
        0 <= num_tok_len(s) <= s.len(),
        num_tok(s).len() == num_tok_len(s),
{
    if s.len() > 0 && s[0] == '-' {
        lemma_run_len(s.subrange(1, s.len() as int));
    } else {
        lemma_run_len(s);
    }
}

/// The whitespace run at the head of `w + t` is exactly `w` when `t` does
/// not begin with whitespace.
pub proof fn lemma_ws_len_concat(s: Seq<char>, w: Seq<char>, t: Seq<char>)
    requires
        s == w + t,
        all_ws(w),
        t.len() > 0 ==> !is_ws_char(t[0]),
    ensures
        ws_len(s) == w.len(),
{
    assert forall|i: int| 0 <= i < w.len() implies is_ws_char(#[trigger] s[i]) by {
        assert(s[i] == w[i]);
    }
    if t.len() > 0 {
        assert(s[w.len() as int] == t[0]);
    }
    lemma_ws_len_is(s, w.len() as int);
}

/// The first occurrence of `c` in `a + [c] + t` is right after `a` when `a`
/// does not hold `c`.
pub proof fn lemma_first_idx_concat(s: Seq<char>, a: Seq<char>, c: char, t: Seq<char>)
    requires
        s == a + seq![c] + t,
        forall|i: int| 0 <= i < a.len() ==> (#[trigger] a[i]) != c,
    ensures
        first_idx(s, c) == a.len(),
{
    assert forall|i: int| 0 <= i < a.len() implies (#[trigger] s[i]) != c by {
        assert(s[i] == a[i]);
    }
    assert(s[a.len() as int] == c);
    lemma_first_idx_is(s, c, a.len() as int);
}

/// `s` with every newline character removed.
pub open spec fn strip_nl(s: Seq<char>) -> Seq<char>
    decreases s.len(),
{
    if s.len() == 0 {
        Seq::empty()
    } else if s[0] == '\n' {
        strip_nl(s.subrange(1, s.len() as int))
    } else {
        seq![s[0]] + strip_nl(s.subrange(1, s.len() as int))
    }
}

pub proof fn lemma_strip_nl_concat(a: Seq<char>, b: Seq<char>)
    ensures
        strip_nl(a + b) == strip_nl(a) + strip_nl(b),
    decreases a.len(),
{
    if a.len() == 0 {
        assert(a + b =~= b);
        assert(strip_nl(a) + strip_nl(b) =~= strip_nl(b));
    } else {
        let t = a.subrange(1, a.len() as int);
        assert((a + b).subrange(1, (a + b).len() as int) =~= t + b);
        lemma_strip_nl_concat(t, b);
        if a[0] != '\n' {
            assert(seq![a[0]] + (strip_nl(t) + strip_nl(b)) =~= (seq![a[0]] + strip_nl(t))
                + strip_nl(b));
        }
    }
}

pub proof fn lemma_strip_nl_free(s: Seq<char>)
    requires
        nl_free(s),
    ensures
        strip_nl(s) == s,
    decreases s.len(),
{
    if s.len() > 0 {
        let t = s.subrange(1, s.len() as int);
        lemma_strip_nl_free(t);
        assert(seq![s[0]] + t =~= s);
    }
}

pub proof fn lemma_no_crlf_concat(a: Seq<char>, b: Seq<char>)
    requires
        no_crlf(a),
        no_crlf(b),
        a.len() > 0 && b.len() > 0 ==> !(a[a.len() - 1] == '\r' && b[0] == '\n'),
    ensures
        no_crlf(a + b),
{
    let s = a + b;
    assert forall|i: int| 0 <= i && i + 1 < s.len() implies !((#[trigger] s[i]) == '\r' && s[i + 1]
        == '\n') by {
        if i + 1 < a.len() {
            assert(s[i] == a[i] && s[i + 1] == a[i + 1]);
        } else if i < a.len() {
            assert(s[i] == a[i] && s[i + 1] == b[0]);
        } else {
            assert(s[i] == b[i - a.len()] && s[i + 1] == b[i + 1 - a.len()]);
        }
    }
}

/// A line-terminating piece with a trailing carriage return dropped.
pub open spec fn strip_tail_cr(p: Seq<char>) -> Seq<char> {
    if p.len() > 0 && p[p.len() - 1] == '\r' {
        p.take(p.len() - 1)
    } else {
        p
    }
}

/// The lines of `s`: pieces between newlines, each newline-terminated piece
/// with a carriage return directly before the newline dropped; a final piece
/// at end of input is kept as it stands, and empty input has no lines.
pub open spec fn split_lines_spec(s: Seq<char>) -> Seq<Seq<char>>
    decreases s.len(),
{
    if s.len() == 0 {
        Seq::empty()
    } else {
        let j = first_idx_v(s);
        if j == s.len() {
            seq![s]
        } else {
            seq![strip_tail_cr(s.take(j))] + split_lines_spec(s.subrange(j + 1, s.len() as int))
        }
    }
}

/// `first_idx` for newlines, with its bounds visible to the definition of
/// `split_lines_spec` so that the recursion is seen to shrink.
pub open spec fn first_idx_v(s: Seq<char>) -> int {
    if 0 <= first_idx(s, '\n') <= s.len() {
        first_idx(s, '\n')
    } else {
        0
    }
}

pub proof fn lemma_first_idx_v(s: Seq<char>)
    ensures
        first_idx_v(s) == first_idx(s, '\n'),
        0 <= first_idx_v(s) <= s.len(),
        forall|i: int| 0 <= i < first_idx_v(s) ==> (#[trigger] s[i]) != '\n',
        first_idx_v(s) < s.len() ==> s[first_idx_v(s)] == '\n',
{
    lemma_first_idx(s, '\n');
}

/// All the lines, read in order as one contiguous character sequence.
pub open spec fn concat_lines(ls: Seq<Seq<char>>) -> Seq<char>
    decreases ls.len(),
{
    if ls.len() == 0 {
        Seq::empty()
    } else {
        ls[0] + concat_lines(ls.subrange(1, ls.len() as int))
    }
}

/// `num_tok_len`, with its bounds visible definitionally.
pub open spec fn num_tok_len_b(s: Seq<char>) -> int {
    if 0 <= num_tok_len(s) <= s.len() {
        num_tok_len(s)
    } else {
        0
    }
}

pub proof fn lemma_num_tok_len_b(s: Seq<char>)
    ensures
        num_tok_len_b(s) == num_tok_len(s),
{
    lemma_num_tok(s);
}

/// No line holds a newline character.
pub open spec fn lines_nl_free(ls: Seq<Seq<char>>) -> bool {
    forall|i: int| 0 <= i < ls.len() ==> nl_free(#[trigger] ls[i])
}

pub proof fn lemma_split_lines_nl_free(s: Seq<char>)
    ensures
        lines_nl_free(split_lines_spec(s)),
    decreases s.len(),
{
    if s.len() > 0 {
        lemma_first_idx_v(s);
        let j = first_idx_v(s);
        if j == s.len() {
            assert(nl_free(s));
        } else {
            lemma_split_lines_nl_free(s.subrange(j + 1, s.len() as int));
            assert(nl_free(strip_tail_cr(s.take(j))));
            let ls = split_lines_spec(s);
            assert forall|i: int| 0 <= i < ls.len() implies nl_free(#[trigger] ls[i]) by {
                if i > 0 {
                    assert(ls[i] == split_lines_spec(s.subrange(j + 1, s.len() as int))[i - 1]);
                }
            }
        }
    }
}

/// Splitting and then reading the lines contiguously drops exactly the
/// newline characters, provided no carriage return sat directly before a
/// newline.
pub proof fn lemma_split_lines_concat(s: Seq<char>)
    requires
        no_crlf(s),
    ensures
        concat_lines(split_lines_spec(s)) == strip_nl(s),
    decreases s.len(),
{
    if s.len() > 0 {
        lemma_first_idx_v(s);
        let j = first_idx_v(s);
        if j == s.len() {
            assert(nl_free(s));
            lemma_strip_nl_free(s);
            let ls = split_lines_spec(s);
            assert(ls[0] == s);
            assert(ls.subrange(1, 1) =~= Seq::<Seq<char>>::empty());
            assert(concat_lines(ls) == s + concat_lines(Seq::<Seq<char>>::empty()));
            assert(concat_lines(ls) =~= s);
        } else {
            let head = s.take(j);
            let rest = s.subrange(j + 1, s.len() as int);
            assert(no_crlf(rest)) by {
                assert forall|i: int| 0 <= i && i + 1 < rest.len() implies !((#[trigger] rest[i])
                    == '\r' && rest[i + 1] == '\n') by {
                    assert(rest[i] == s[j + 1 + i] && rest[i + 1] == s[j + 2 + i]);
                }
            }
            lemma_split_lines_concat(rest);
            // the newline-terminated piece keeps all its characters
            if j > 0 {
                assert(s[j - 1] == head[j - 1]);
                assert(!(s[j - 1] == '\r' && s[j] == '\n'));
            }
            assert(strip_tail_cr(head) == head);
            // strip_nl(s) peels the head piece, the newline, then the rest
            assert(s =~= head + seq!['\n'] + rest);
            lemma_strip_nl_concat(head + seq!['\n'], rest);
            lemma_strip_nl_concat(head, seq!['\n']);
            assert(nl_free(head));
            lemma_strip_nl_free(head);
            assert(seq!['\n'].subrange(1, 1) =~= Seq::<char>::empty());
            assert(strip_nl(Seq::<char>::empty()) =~= Seq::<char>::empty());
            assert(strip_nl(seq!['\n']) =~= Seq::<char>::empty());
            assert(strip_nl(s) == (head + Seq::<char>::empty()) + strip_nl(rest));
            assert((head + Seq::<char>::empty()) =~= head);
            // concat of the split peels the same pieces
            let ls = split_lines_spec(s);
            assert(ls[0] == head);
            assert(ls.subrange(1, ls.len() as int) =~= split_lines_spec(rest));
            assert(concat_lines(ls) == head + strip_nl(rest));
            assert(strip_nl(s) == head + strip_nl(rest));
        }
    }
}

/// Reading the lines of a split contiguously never yields more characters
/// than the text that was split.
pub proof fn lemma_split_lines_concat_len(s: Seq<char>)
    ensures
        concat_lines(split_lines_spec(s)).len() <= s.len(),
    decreases s.len(),
{
    if s.len() > 0 {
        lemma_first_idx_v(s);
        let j = first_idx_v(s);
        if j == s.len() {
            let ls = split_lines_spec(s);
            assert(ls.subrange(1, 1) =~= Seq::<Seq<char>>::empty());
            assert(concat_lines(ls) == s + concat_lines(Seq::<Seq<char>>::empty()));
        } else {
            let rest = s.subrange(j + 1, s.len() as int);
            lemma_split_lines_concat_len(rest);
            let ls = split_lines_spec(s);
            assert(ls.subrange(1, ls.len() as int) =~= split_lines_spec(rest));
            assert(concat_lines(ls) == strip_tail_cr(s.take(j)) + concat_lines(
                split_lines_spec(rest),
            ));
            assert(strip_tail_cr(s.take(j)).len() <= j);
        }
    }
}

/// How many lines a text splits into: never more than its characters.
pub proof fn lemma_split_lines_count(s: Seq<char>)
    ensures
        split_lines_spec(s).len() <= s.len(),
    decreases s.len(),
{
    if s.len() > 0 {
        lemma_first_idx_v(s);
        let j = first_idx_v(s);
        if j < s.len() {
            lemma_split_lines_count(s.subrange(j + 1, s.len() as int));
        }
    }
}

/// Reading nonempty, newline-free lines contiguously gives a newline-free
/// text.
pub proof fn lemma_concat_lines_nl_free(ls: Seq<Seq<char>>)
    requires
        lines_nl_free(ls),
    ensures
        nl_free(concat_lines(ls)),
    decreases ls.len(),
{
    if ls.len() > 0 {
        let t = ls.subrange(1, ls.len() as int);
        assert(lines_nl_free(t)) by {
            assert(forall|i: int| 0 <= i < t.len() ==> #[trigger] t[i] == ls[i + 1]);
        }
        lemma_concat_lines_nl_free(t);
        let c = concat_lines(ls);
        assert forall|i: int| 0 <= i < c.len() implies (#[trigger] c[i]) != '\n' by {
            if i < ls[0].len() {
                assert(c[i] == ls[0][i]);
            } else {
                assert(c[i] == concat_lines(t)[i - ls[0].len()]);
            }
        }
    }
}

/// The sequences the lines of a vector of lines hold.
pub open spec fn lines_views(ls: Seq<Vec<char>>) -> Seq<Seq<char>> {
    Seq::new(ls.len(), |i: int| ls[i]@)
}

/// Relies on `String: FromIterator<char>`: collecting characters yields the
/// string of exactly those characters, in order.
#[verifier::external_body]
pub fn chars_to_string(v: &Vec<char>) -> (s: String)
    ensures
        s@ == v@,
{
    v.iter().collect()
}

/// The characters of a string, in order, as a vector.
pub fn str_to_chars(s: &str) -> (v: Vec<char>)
    ensures
        v@ == s@,
{
    let mut v: Vec<char> = Vec::new();
    let mut it = s.chars();
    loop
        invariant
            v@ + vstd::std_specs::iter::IteratorSpec::remaining(&it) == s@,
            vstd::std_specs::iter::IteratorSpec::decrease(&it) is Some,
        ensures
            v@ == s@,
        decreases vstd::std_specs::iter::IteratorSpec::decrease(&it)->0,
    {
        match it.next() {
            Some(c) => {
                v.push(c);
                proof {
                    assert(v@ + vstd::std_specs::iter::IteratorSpec::remaining(&it) =~= s@);
                }
            },
            None => {
                proof {
                    assert(v@ + vstd::std_specs::iter::IteratorSpec::remaining(&it) =~= v@);
                }
                break ;
            },
        }
    }
    v
}

/// The index of the first newline at or after `start`, or the length if
/// there is none.
fn scan_nl(input: &Vec<char>, start: usize) -> (j: usize)
    requires
        start <= input@.len(),
    ensures
        start <= j <= input@.len(),
        forall|k: int| start <= k < j ==> input@[k] != '\n',
        j < input@.len() ==> input@[j as int] == '\n',
{
    let mut j = start;
    while j < input.len() && *input.get(j).unwrap() != '\n'
        invariant
            start <= j <= input@.len(),
            forall|k: int| start <= k < j ==> input@[k] != '\n',
        decreases input@.len() - j,
    {
        j = j + 1;
    }
    j
}

/// A copy of `input[start..end]`.
fn copy_range(input: &Vec<char>, start: usize, end: usize) -> (p: Vec<char>)
    requires
        start <= end <= input@.len(),
    ensures
        p@ == input@.subrange(start as int, end as int),
{
    let mut p: Vec<char> = Vec::new();
    let mut k = start;
    while k < end
        invariant
            start <= k <= end <= input@.len(),
            p@ == input@.subrange(start as int, k as int),
        decreases end - k,
    {
        p.push(*input.get(k).unwrap());
        proof {
            assert(p@ =~= input@.subrange(start as int, k + 1));
        }
        k = k + 1;
    }
    p
}

/// Split a text into its lines, exactly as `split_lines_spec` describes.
pub fn split_lines(input: &Vec<char>) -> (r: Vec<Vec<char>>)
    ensures
        lines_views(r@) == split_lines_spec(input@),
{
    let n = input.len();
    let mut out: Vec<Vec<char>> = Vec::new();
    let mut start: usize = 0;
    proof {
        assert(input@.subrange(0, n as int) =~= input@);
        assert(out@ =~= Seq::<Vec<char>>::empty());
        assert(lines_views(out@) =~= Seq::<Seq<char>>::empty());
        assert(lines_views(out@) + split_lines_spec(input@) =~= split_lines_spec(input@));
    }
    loop
        invariant
            start <= n,
            n == input@.len(),
            split_lines_spec(input@) == lines_views(out@) + split_lines_spec(
                input@.subrange(start as int, n as int),
            ),
        ensures
            split_lines_spec(input@) == lines_views(out@),
        decreases n - start,
    {
        if start >= n {
            proof {
                assert(input@.subrange(start as int, n as int) =~= Seq::<char>::empty());
                assert(split_lines_spec(Seq::<char>::empty()) =~= Seq::<Seq<char>>::empty());
                assert(lines_views(out@) + Seq::<Seq<char>>::empty() =~= lines_views(out@));
            }
            break ;
        }
        let j = scan_nl(input, start);
        let ghost rem = input@.subrange(start as int, n as int);
        proof {
            lemma_first_idx_v(rem);
            assert forall|k: int| 0 <= k < j - start implies (#[trigger] rem[k]) != '\n' by {
                assert(rem[k] == input@[start + k]);
            }
            lemma_first_idx_is(rem, '\n', j - start);
            assert(first_idx_v(rem) == j - start);
        }
        if j < n {
            let end = if j > start && *input.get(j - 1).unwrap() == '\r' {
                j - 1
            } else {
                j
            };
            let piece = copy_range(input, start, end);
            let ghost old_out = out@;
            out.push(piece);
            proof {
                let jj = j - start;
                let head = rem.take(jj);
                assert(head =~= input@.subrange(start as int, j as int));
                if j > start && input@[j - 1] == '\r' {
                    assert(head[head.len() - 1] == '\r');
                    assert(piece@ =~= head.take(head.len() - 1));
                    assert(piece@ == strip_tail_cr(head));
                } else {
                    if head.len() > 0 {
                        assert(head[head.len() - 1] == input@[j - 1]);
                        assert(head[head.len() - 1] != '\r');
                    }
                    assert(piece@ =~= head);
                    assert(piece@ == strip_tail_cr(head));
                }
                assert(rem.subrange(jj + 1, rem.len() as int) =~= input@.subrange(
                    j + 1,
                    n as int,
                ));
                assert(split_lines_spec(rem) == seq![piece@] + split_lines_spec(
                    input@.subrange(j + 1, n as int),
                ));
                assert(lines_views(out@) =~= lines_views(old_out) + seq![piece@]);
                assert((lines_views(old_out) + seq![piece@]) + split_lines_spec(
                    input@.subrange(j + 1, n as int),
                ) =~= lines_views(old_out) + (seq![piece@] + split_lines_spec(
                    input@.subrange(j + 1, n as int),
                )));
            }
            start = j + 1;
        } else {
            let piece = copy_range(input, start, n);
            let ghost old_out = out@;
            out.push(piece);
            proof {
                assert(piece@ =~= rem);
                assert(split_lines_spec(rem) == seq![rem]);
                assert(lines_views(out@) =~= lines_views(old_out) + seq![rem]);
            }
            start = n;
            proof {
                assert(input@.subrange(n as int, n as int) =~= Seq::<char>::empty());
                assert(split_lines_spec(Seq::<char>::empty()) =~= Seq::<Seq<char>>::empty());
                assert(lines_views(out@) + Seq::<Seq<char>>::empty() =~= lines_views(out@));
            }
            break ;
        }
    }
    out
}

} // verus!
