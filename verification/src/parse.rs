//! Splitting a command line into tokens, honouring single quotes, double
//! quotes, backslash escapes, pipes and the `&`-forms of redirection.

use vstd::prelude::*;

use crate::text::{chars_of, lemma_views_push, is_ascii_space, spec_is_ascii_space, string_of, views};

verus! {

/// The state of the tokenizer between two steps.
pub struct LexState {
    /// Inside a single-quoted span.
    pub in_sq: bool,
    /// Inside a double-quoted span.
    pub in_dq: bool,
    /// The token being built.
    pub buf: Seq<char>,
    /// The tokens emitted so far.
    pub out: Seq<Seq<char>>,
}

/// The state before the first character.
pub open spec fn lex_start() -> LexState {
    LexState { in_sq: false, in_dq: false, buf: Seq::empty(), out: Seq::empty() }
}

/// Appends a character to the token being built.
pub open spec fn with_char(st: LexState, c: char) -> LexState {
    LexState { buf: st.buf.push(c), ..st }
}

/// Ends the token being built, if it holds anything.
pub open spec fn flush(st: LexState) -> LexState {
    if st.buf.len() > 0 {
        LexState { buf: Seq::empty(), out: st.out.push(st.buf), ..st }
    } else {
        st
    }
}

/// Ends the token being built and emits `tok` after it.
pub open spec fn flush_emit(st: LexState, tok: Seq<char>) -> LexState {
    let f = flush(st);
    LexState { out: f.out.push(tok), ..f }
}

/// Whether a backslash inside double quotes escapes `c`.
pub open spec fn dq_escapable(c: char) -> bool {
    c == '"' || c == '\\' || c == '$' || c == '`' || c == '\n'
}

/// One step of the tokenizer at position `i` of `s`: the position of the
/// next step, and the new state.  The character after the current one is
/// taken to be a space at the end of the input.
pub open spec fn lex_step(s: Seq<char>, i: int, st: LexState) -> (int, LexState) {
    let cc = s[i];
    let end = i + 1 >= s.len();
    let cn = if end { ' ' } else { s[i + 1] };
    let plain = !st.in_sq && !st.in_dq;
    if cc == '\\' && plain {
        if end { (i + 1, st) } else { (i + 2, with_char(st, cn)) }
    } else if cc == '\\' && st.in_dq && end {
        (i + 1, st)
    } else if cc == '\\' && st.in_dq && dq_escapable(cn) {
        (i + 2, with_char(st, cn))
    } else if !st.in_dq && cc == '\'' && cn == '\'' {
        (i + 2, st)
    } else if !st.in_dq && cc == '\'' {
        (i + 1, LexState { in_sq: !st.in_sq, ..st })
    } else if !st.in_sq && cc == '"' && cn == '"' {
        (i + 2, st)
    } else if !st.in_sq && cc == '"' {
        (i + 1, LexState { in_dq: !st.in_dq, ..st })
    } else if plain && spec_is_ascii_space(cc) {
        (i + 1, flush(st))
    } else if plain && cc == '|' {
        (i + 1, flush_emit(st, seq!['|']))
    } else if plain && cc == '&' {
        if st.buf.len() > 0 && st.buf.last() == '>' {
            (i + 1, with_char(st, '&'))
        } else if cn == '>' {
            if i + 2 < s.len() && s[i + 2] == '>' {
                (i + 3, flush_emit(st, seq!['&', '>', '>']))
            } else {
                (i + 2, flush_emit(st, seq!['&', '>']))
            }
        } else {
            (i + 1, flush_emit(st, seq!['&']))
        }
    } else {
        (i + 1, with_char(st, cc))
    }
}

/// The state after running the tokenizer from position `i` to the end.
pub open spec fn lex_from(s: Seq<char>, i: int, st: LexState) -> LexState
    decreases s.len() - i,
{
    if i < 0 || i >= s.len() {
        st
    } else {
        let (j, next) = lex_step(s, i, st);
        if j <= i {
            st
        } else {
            lex_from(s, j, next)
        }
    }
}

/// The tokens of a command line.
pub open spec fn tokens_of(s: Seq<char>) -> Seq<Seq<char>> {
    flush(lex_from(s, 0, lex_start())).out
}

/// Splits a command line into its tokens.
///
/// Outside quotes, ASCII whitespace separates tokens and a backslash takes
/// the next character literally.  Single quotes keep everything up to the
/// closing quote; inside double quotes a backslash only escapes `"`, `\`,
/// `$`, `` ` `` and a newline.  Adjacent quoted and unquoted pieces join
/// into one token, and an empty pair of quotes is dropped.  An unquoted `|`
/// and `&` are tokens of their own, as are `&>` and `&>>`, while `&` right
/// after `>` stays in its token (as in `2>&1`).
pub fn parse_cmd(line: &str) -> (res: Vec<String>)
    ensures
        views(res@) == tokens_of(line@),
{
    let s = chars_of(line);
    let n = s.len();
    let mut in_sq = false;
    let mut in_dq = false;
    let mut buf: Vec<char> = Vec::new();
    let mut out: Vec<String> = Vec::new();
    let mut i: usize = 0;
    assert(views(out@) =~= Seq::<Seq<char>>::empty());
    assert(buf@ =~= Seq::<char>::empty());
    while i < n
        invariant
            n == s@.len(),
            s@ == line@,
            i <= n,
            flush(lex_from(s@, i as int, LexState { in_sq, in_dq, buf: buf@, out: views(out@) }))
                == flush(lex_from(s@, 0, lex_start())),
        decreases n - i,
    {
        let ghost st = LexState { in_sq, in_dq, buf: buf@, out: views(out@) };
        let ghost stepped = lex_step(s@, i as int, st);
        let cc = s[i];
        let end = i + 1 >= n;
        let cn = if end { ' ' } else { s[i + 1] };
        let plain = !in_sq && !in_dq;
        let mut j: usize = i + 1;
        if cc == '\\' && plain {
            if !end {
                buf.push(cn);
                j = i + 2;
            }
        } else if cc == '\\' && in_dq && end {
        } else if cc == '\\' && in_dq && (cn == '"' || cn == '\\' || cn == '$' || cn == '`'
            || cn == '\n') {
            buf.push(cn);
            j = i + 2;
        } else if !in_dq && cc == '\'' && cn == '\'' {
            j = i + 2;
        } else if !in_dq && cc == '\'' {
            in_sq = !in_sq;
        } else if !in_sq && cc == '"' && cn == '"' {
            j = i + 2;
        } else if !in_sq && cc == '"' {
            in_dq = !in_dq;
        } else if plain && is_ascii_space(cc) {
            flush_buf(&mut buf, &mut out);
        } else if plain && cc == '|' {
            flush_buf(&mut buf, &mut out);
            let t = vec!['|'];
            assert(t@ =~= seq!['|']);
            push_token(&mut out, t);
        } else if plain && cc == '&' {
            if buf.len() > 0 && buf[buf.len() - 1] == '>' {
                buf.push('&');
            } else if cn == '>' {
                flush_buf(&mut buf, &mut out);
                if i + 2 < n && s[i + 2] == '>' {
                    let t = vec!['&', '>', '>'];
                    assert(t@ =~= seq!['&', '>', '>']);
                    push_token(&mut out, t);
                    j = i + 3;
                } else {
                    let t = vec!['&', '>'];
                    assert(t@ =~= seq!['&', '>']);
                    push_token(&mut out, t);
                    j = i + 2;
                }
            } else {
                flush_buf(&mut buf, &mut out);
                let t = vec!['&'];
                assert(t@ =~= seq!['&']);
                push_token(&mut out, t);
            }
        } else {
            buf.push(cc);
        }
        proof {
            let st2 = LexState { in_sq, in_dq, buf: buf@, out: views(out@) };
            assert(stepped == (j as int, st2));
            assert(lex_from(s@, i as int, st) == lex_from(s@, j as int, st2));
        }
        i = j;
    }
    flush_buf(&mut buf, &mut out);
    out
}

/// Adds a token made of `cs` at the end of `out`.
fn push_token(out: &mut Vec<String>, cs: Vec<char>)
    ensures
        views(final(out)@) == views(old(out)@).push(cs@),
{
    let t = string_of(&cs);
    proof {
        lemma_views_push(out@, t);
    }
    out.push(t);
}

/// Moves the characters in `buf`, if any, to a new token at the end of `out`.
fn flush_buf(buf: &mut Vec<char>, out: &mut Vec<String>)
    ensures
        ({
            let st = LexState { in_sq: false, in_dq: false, buf: old(buf)@, out: views(old(out)@) };
            let f = flush(st);
            final(buf)@ == f.buf && views(final(out)@) == f.out
        }),
{
    if buf.len() > 0 {
        let tok = string_of(buf);
        out.push(tok);
        proof {
            lemma_views_push(old(out)@, tok);
        }
        *buf = Vec::new();
    }
}

} // verus!

verus! {

/// Every token of the state is non-empty.
pub open spec fn all_non_empty(out: Seq<Seq<char>>) -> bool {
    forall|k: int| 0 <= k < out.len() ==> (#[trigger] out[k]).len() > 0
}

/// A step of the tokenizer emits only non-empty tokens.
proof fn lemma_step_non_empty(s: Seq<char>, i: int, st: LexState)
    requires
        0 <= i < s.len(),
        all_non_empty(st.out),
    ensures
        all_non_empty(lex_step(s, i, st).1.out),
{
    let f = flush(st);
    assert(all_non_empty(f.out));
    assert(all_non_empty(f.out.push(seq!['|'])));
    assert(all_non_empty(f.out.push(seq!['&'])));
    assert(all_non_empty(f.out.push(seq!['&', '>'])));
    assert(all_non_empty(f.out.push(seq!['&', '>', '>'])));
}

/// Running the tokenizer emits only non-empty tokens.
proof fn lemma_lex_non_empty(s: Seq<char>, i: int, st: LexState)
    requires
        all_non_empty(st.out),
    ensures
        all_non_empty(lex_from(s, i, st).out),
    decreases s.len() - i,
{
    if 0 <= i < s.len() {
        lemma_step_non_empty(s, i, st);
        let (j, next) = lex_step(s, i, st);
        if j > i {
            lemma_lex_non_empty(s, j, next);
        }
    }
}

/// No token of a command line is empty.
pub proof fn lemma_tokens_non_empty(s: Seq<char>)
    ensures
        all_non_empty(tokens_of(s)),
{
    lemma_lex_non_empty(s, 0, lex_start());
    assert(all_non_empty(flush(lex_from(s, 0, lex_start())).out));
}

/// Inside single quotes, every character up to the closing quote is added
/// to the token as it is.
proof fn lemma_single_quoted_body(q: Seq<char>, i: int, end: int, buf: Seq<char>)
    requires
        1 <= i <= end < q.len(),
        forall|j: int| i <= j < end ==> q[j] != '\'',
    ensures
        lex_from(q, i, LexState { in_sq: true, in_dq: false, buf, out: Seq::empty() })
            == lex_from(
            q,
            end,
            LexState { in_sq: true, in_dq: false, buf: buf + q.subrange(i, end), out: Seq::empty() },
        ),
    decreases end - i,
{
    if i < end {
        let st = LexState { in_sq: true, in_dq: false, buf, out: Seq::empty() };
        assert(lex_step(q, i, st) == (i + 1, with_char(st, q[i])));
        lemma_single_quoted_body(q, i + 1, end, buf.push(q[i]));
        assert(buf.push(q[i]) + q.subrange(i + 1, end) =~= buf + q.subrange(i, end));
    } else {
        assert(buf + q.subrange(i, end) =~= buf);
    }
}

/// A non-empty text without single quotes, put in single quotes, is one
/// token holding the text exactly: spaces, backslashes, double quotes,
/// pipes and ampersands included.
pub proof fn lemma_single_quoted(s: Seq<char>)
    requires
        s.len() > 0,
        forall|j: int| 0 <= j < s.len() ==> s[j] != '\'',
    ensures
        tokens_of(seq!['\''] + s + seq!['\'']) == seq![s],
{
    let q = seq!['\''] + s + seq!['\''];
    let n = s.len() as int;
    assert(q[0] == '\'');
    assert(q[1] == s[0]);
    assert(q[n + 1] == '\'');
    let st1 = LexState { in_sq: true, in_dq: false, buf: Seq::empty(), out: Seq::empty() };
    assert(lex_step(q, 0, lex_start()) == (1int, st1));
    assert forall|j: int| 1 <= j < n + 1 implies q[j] != '\'' by {
        assert(q[j] == s[j - 1]);
    }
    lemma_single_quoted_body(q, 1, n + 1, Seq::empty());
    assert(Seq::<char>::empty() + q.subrange(1, n + 1) =~= s);
    let st2 = LexState { in_sq: true, in_dq: false, buf: s, out: Seq::empty() };
    let st3 = LexState { in_sq: false, in_dq: false, buf: s, out: Seq::empty() };
    assert(lex_step(q, n + 1, st2) == (n + 2, st3));
    assert(lex_from(q, n + 2, st3) == st3);
    assert(flush(st3).out =~= seq![s]);
}

/// Inside double quotes, every character that is neither a double quote
/// nor a backslash is added to the token as it is.
proof fn lemma_double_quoted_body(q: Seq<char>, i: int, end: int, buf: Seq<char>)
    requires
        1 <= i <= end < q.len(),
        forall|j: int| i <= j < end ==> q[j] != '"' && q[j] != '\\',
    ensures
        lex_from(q, i, LexState { in_sq: false, in_dq: true, buf, out: Seq::empty() })
            == lex_from(
            q,
            end,
            LexState { in_sq: false, in_dq: true, buf: buf + q.subrange(i, end), out: Seq::empty() },
        ),
    decreases end - i,
{
    if i < end {
        let st = LexState { in_sq: false, in_dq: true, buf, out: Seq::empty() };
        assert(lex_step(q, i, st) == (i + 1, with_char(st, q[i])));
        lemma_double_quoted_body(q, i + 1, end, buf.push(q[i]));
        assert(buf.push(q[i]) + q.subrange(i + 1, end) =~= buf + q.subrange(i, end));
    } else {
        assert(buf + q.subrange(i, end) =~= buf);
    }
}

/// A non-empty text without double quotes and backslashes, put in double
/// quotes, is one token holding the text exactly: spaces, single quotes,
/// pipes and ampersands included.
pub proof fn lemma_double_quoted(s: Seq<char>)
    requires
        s.len() > 0,
        forall|j: int| 0 <= j < s.len() ==> s[j] != '"' && s[j] != '\\',
    ensures
        tokens_of(seq!['"'] + s + seq!['"']) == seq![s],
{
    let q = seq!['"'] + s + seq!['"'];
    let n = s.len() as int;
    assert(q[0] == '"');
    assert(q[1] == s[0]);
    assert(q[n + 1] == '"');
    let st1 = LexState { in_sq: false, in_dq: true, buf: Seq::empty(), out: Seq::empty() };
    assert(lex_step(q, 0, lex_start()) == (1int, st1));
    assert forall|j: int| 1 <= j < n + 1 implies q[j] != '"' && q[j] != '\\' by {
        assert(q[j] == s[j - 1]);
    }
    lemma_double_quoted_body(q, 1, n + 1, Seq::empty());
    assert(Seq::<char>::empty() + q.subrange(1, n + 1) =~= s);
    let st2 = LexState { in_sq: false, in_dq: true, buf: s, out: Seq::empty() };
    let st3 = LexState { in_sq: false, in_dq: false, buf: s, out: Seq::empty() };
    assert(lex_step(q, n + 1, st2) == (n + 2, st3));
    assert(lex_from(q, n + 2, st3) == st3);
    assert(flush(st3).out =~= seq![s]);
}

/// Inside double quotes, characters other than a double quote are added to
/// the token as they are, a backslash included when the character after it
/// is none of `"`, `\`, `$`, `` ` `` and newline.
proof fn lemma_dq_literal_body(q: Seq<char>, i: int, end: int, buf: Seq<char>)
    requires
        1 <= i <= end < q.len(),
        forall|j: int| i <= j < end ==> q[j] != '"',
        forall|j: int|
            i <= j < end && #[trigger] q[j] == '\\' ==> j + 1 < end && q[j + 1] != '"' && q[j + 1] != '\\'
                && q[j + 1] != '$' && q[j + 1] != '`' && q[j + 1] != '\n',
    ensures
        lex_from(q, i, LexState { in_sq: false, in_dq: true, buf, out: Seq::empty() })
            == lex_from(
            q,
            end,
            LexState { in_sq: false, in_dq: true, buf: buf + q.subrange(i, end), out: Seq::empty() },
        ),
    decreases end - i,
{
    if i < end {
        let st = LexState { in_sq: false, in_dq: true, buf, out: Seq::empty() };
        assert(q[i] != '"');
        if q[i] == '\\' {
            assert(i + 1 < end);
            assert(!dq_escapable(q[i + 1]));
        }
        assert(lex_step(q, i, st) == (i + 1, with_char(st, q[i])));
        lemma_dq_literal_body(q, i + 1, end, buf.push(q[i]));
        assert(buf.push(q[i]) + q.subrange(i + 1, end) =~= buf + q.subrange(i, end));
    } else {
        assert(buf + q.subrange(i, end) =~= buf);
    }
}

/// A non-empty text without double quotes, put in double quotes, is one
/// token holding the text exactly, backslashes included, when each
/// backslash is followed by a character it does not escape (anything but
/// `"`, `\`, `$`, `` ` `` and newline).
pub proof fn lemma_double_quoted_backslashes(s: Seq<char>)
    requires
        s.len() > 0,
        forall|j: int| 0 <= j < s.len() ==> s[j] != '"',
        forall|j: int|
            0 <= j < s.len() && #[trigger] s[j] == '\\' ==> j + 1 < s.len() && s[j + 1] != '"' && s[j + 1]
                != '\\' && s[j + 1] != '$' && s[j + 1] != '`' && s[j + 1] != '\n',
    ensures
        tokens_of(seq!['"'] + s + seq!['"']) == seq![s],
{
    let q = seq!['"'] + s + seq!['"'];
    let n = s.len() as int;
    assert(q[0] == '"');
    assert(q[1] == s[0]);
    assert(q[n + 1] == '"');
    let st1 = LexState { in_sq: false, in_dq: true, buf: Seq::empty(), out: Seq::empty() };
    assert(lex_step(q, 0, lex_start()) == (1int, st1));
    assert forall|j: int| 1 <= j < n + 1 implies q[j] != '"' by {
        assert(q[j] == s[j - 1]);
    }
    assert forall|j: int|
        1 <= j < n + 1 && #[trigger] q[j] == '\\' implies j + 1 < n + 1 && q[j + 1] != '"' && q[j + 1] != '\\'
            && q[j + 1] != '$' && q[j + 1] != '`' && q[j + 1] != '\n' by {
        assert(q[j] == s[j - 1]);
        assert(q[j + 1] == s[j]);
    }
    lemma_dq_literal_body(q, 1, n + 1, Seq::empty());
    assert(Seq::<char>::empty() + q.subrange(1, n + 1) =~= s);
    let st2 = LexState { in_sq: false, in_dq: true, buf: s, out: Seq::empty() };
    let st3 = LexState { in_sq: false, in_dq: false, buf: s, out: Seq::empty() };
    assert(lex_step(q, n + 1, st2) == (n + 2, st3));
    assert(lex_from(q, n + 2, st3) == st3);
    assert(flush(st3).out =~= seq![s]);
}

/// Inside double quotes, a backslash before `"`, `\`, `$`, `` ` `` or a
/// newline is dropped and the character kept.
pub proof fn lemma_double_quoted_escape(c: char)
    requires
        c == '"' || c == '\\' || c == '$' || c == '`' || c == '\n',
    ensures
        tokens_of(seq!['"', '\\', c, '"']) == seq![seq![c]],
{
    let q = seq!['"', '\\', c, '"'];
    let st1 = LexState { in_sq: false, in_dq: true, buf: Seq::empty(), out: Seq::empty() };
    let st2 = LexState { in_sq: false, in_dq: true, buf: seq![c], out: Seq::empty() };
    let st3 = LexState { in_sq: false, in_dq: false, buf: seq![c], out: Seq::empty() };
    assert(lex_step(q, 0, lex_start()) == (1int, st1));
    assert(lex_step(q, 1, st1).1.buf =~= seq![c]);
    assert(lex_step(q, 1, st1) == (3int, st2));
    assert(lex_step(q, 3, st2) == (4int, st3));
    assert(lex_from(q, 4, st3) == st3);
    assert(lex_from(q, 3, st2) == st3);
    assert(lex_from(q, 1, st1) == st3);
    assert(lex_from(q, 0, lex_start()) == st3);
    assert(flush(st3).out =~= seq![seq![c]]);
}

/// Outside quotes, a backslash makes the next character, whatever it is,
/// part of a token.
pub proof fn lemma_escaped_char(c: char)
    ensures
        tokens_of(seq!['\\', c]) == seq![seq![c]],
{
    let q = seq!['\\', c];
    let st = LexState { in_sq: false, in_dq: false, buf: seq![c], out: Seq::empty() };
    assert(lex_step(q, 0, lex_start()).1.buf =~= seq![c]);
    assert(lex_step(q, 0, lex_start()) == (2int, st));
    assert(lex_from(q, 2, st) == st);
    assert(flush(st).out =~= seq![seq![c]]);
}

/// Whether `c` means something to the tokenizer besides whitespace.
pub open spec fn is_special(c: char) -> bool {
    c == '\'' || c == '"' || c == '\\' || c == '|' || c == '&'
}

/// The whitespace-separated words of `s` from position `i` on, given the
/// word read so far and the words before it.
pub open spec fn words_scan(s: Seq<char>, i: int, cur: Seq<char>, out: Seq<Seq<char>>) -> Seq<
    Seq<char>,
>
    decreases s.len() - i,
{
    if i < 0 || i >= s.len() {
        if cur.len() > 0 {
            out.push(cur)
        } else {
            out
        }
    } else if spec_is_ascii_space(s[i]) {
        words_scan(s, i + 1, Seq::empty(), if cur.len() > 0 { out.push(cur) } else { out })
    } else {
        words_scan(s, i + 1, cur.push(s[i]), out)
    }
}

/// The maximal runs of non-whitespace characters of `s`, in order.
pub open spec fn words(s: Seq<char>) -> Seq<Seq<char>> {
    words_scan(s, 0, Seq::empty(), Seq::empty())
}

/// On text without quotes, backslashes, pipes and ampersands, the
/// tokenizer and word splitting agree from any position on.
proof fn lemma_plain_scan(s: Seq<char>, i: int, buf: Seq<char>, out: Seq<Seq<char>>)
    requires
        0 <= i <= s.len(),
        forall|j: int| 0 <= j < s.len() ==> !is_special(#[trigger] s[j]),
    ensures
        flush(lex_from(s, i, LexState { in_sq: false, in_dq: false, buf, out })).out
            == words_scan(s, i, buf, out),
    decreases s.len() - i,
{
    if i < s.len() {
        let st = LexState { in_sq: false, in_dq: false, buf, out };
        let c = s[i];
        assert(!is_special(c));
        if spec_is_ascii_space(c) {
            let next = flush(st);
            if buf.len() == 0 {
                assert(buf =~= Seq::<char>::empty());
            }
            assert(lex_step(s, i, st) == (i + 1, next));
            assert(lex_from(s, i, st) == lex_from(s, i + 1, next));
            lemma_plain_scan(s, i + 1, next.buf, next.out);
            assert(next == LexState { in_sq: false, in_dq: false, buf: next.buf, out: next.out });
            assert(words_scan(s, i, buf, out) == words_scan(s, i + 1, next.buf, next.out));
        } else {
            assert(lex_step(s, i, st) == (i + 1, with_char(st, c)));
            assert(lex_from(s, i, st) == lex_from(s, i + 1, with_char(st, c)));
            lemma_plain_scan(s, i + 1, buf.push(c), out);
            assert(words_scan(s, i, buf, out) == words_scan(s, i + 1, buf.push(c), out));
        }
    } else {
        let st = LexState { in_sq: false, in_dq: false, buf, out };
        assert(lex_from(s, i, st) == st);
    }
}

/// Text without quotes, backslashes, pipes and ampersands splits into its
/// whitespace-separated words.
pub proof fn lemma_plain_words(s: Seq<char>)
    requires
        forall|j: int| 0 <= j < s.len() ==> !is_special(#[trigger] s[j]),
    ensures
        tokens_of(s) == words(s),
{
    lemma_plain_scan(s, 0, Seq::empty(), Seq::empty());
}

} // verus!

verus! {

/// Whether `c` can stand in an unquoted word: it is neither whitespace nor
/// a quote, a backslash, a pipe or an ampersand.
pub open spec fn is_word_char(c: char) -> bool {
    !is_special(c) && !spec_is_ascii_space(c)
}

/// The tokenizer state outside quotes.
pub open spec fn plain_state(buf: Seq<char>, out: Seq<Seq<char>>) -> LexState {
    LexState { in_sq: false, in_dq: false, buf, out }
}

/// Outside quotes, a run of word characters is added to the token.
proof fn lemma_word_run(q: Seq<char>, i: int, end: int, buf: Seq<char>, out: Seq<Seq<char>>)
    requires
        0 <= i <= end <= q.len(),
        forall|j: int| i <= j < end ==> is_word_char(#[trigger] q[j]),
    ensures
        lex_from(q, i, plain_state(buf, out)) == lex_from(q, end, plain_state(buf + q.subrange(i, end), out)),
    decreases end - i,
{
    if i < end {
        assert(is_word_char(q[i]));
        assert(lex_step(q, i, plain_state(buf, out)) == (i + 1, plain_state(buf.push(q[i]), out)));
        lemma_word_run(q, i + 1, end, buf.push(q[i]), out);
        assert(buf.push(q[i]) + q.subrange(i + 1, end) =~= buf + q.subrange(i, end));
    } else {
        assert(buf + q.subrange(i, end) =~= buf);
    }
}

/// The tokenizer at the end of the input.
proof fn lemma_lex_end(q: Seq<char>, st: LexState)
    ensures
        lex_from(q, q.len() as int, st) == st,
{
}

/// An unquoted pipe between two words is a token of its own.
pub proof fn lemma_pipe_token(a: Seq<char>, b: Seq<char>)
    requires
        a.len() > 0,
        b.len() > 0,
        forall|j: int| 0 <= j < a.len() ==> is_word_char(#[trigger] a[j]),
        forall|j: int| 0 <= j < b.len() ==> is_word_char(#[trigger] b[j]),
    ensures
        tokens_of(a + seq!['|'] + b) == seq![a, seq!['|'], b],
{
    let q = a + seq!['|'] + b;
    let n = a.len() as int;
    let e = Seq::<Seq<char>>::empty();
    assert forall|j: int| 0 <= j < n implies is_word_char(#[trigger] q[j]) by {
        assert(q[j] == a[j]);
    }
    assert forall|j: int| n + 1 <= j < q.len() implies is_word_char(#[trigger] q[j]) by {
        assert(q[j] == b[j - n - 1]);
    }
    lemma_word_run(q, 0, n, Seq::empty(), e);
    assert(Seq::<char>::empty() + q.subrange(0, n) =~= a);
    assert(q[n] == '|');
    let mid = plain_state(Seq::empty(), seq![a, seq!['|']]);
    assert(flush_emit(plain_state(a, e), seq!['|']).out =~= seq![a, seq!['|']]);
    assert(lex_step(q, n, plain_state(a, e)) == (n + 1, mid));
    lemma_word_run(q, n + 1, q.len() as int, Seq::empty(), seq![a, seq!['|']]);
    assert(Seq::<char>::empty() + q.subrange(n + 1, q.len() as int) =~= b);
    lemma_lex_end(q, plain_state(b, seq![a, seq!['|']]));
    assert(lex_from(q, 0, lex_start()) == plain_state(b, seq![a, seq!['|']]));
    assert(flush(plain_state(b, seq![a, seq!['|']])).out =~= seq![a, seq!['|'], b]);
}

/// An unquoted ampersand between two words, not touching a `>`, is a
/// token of its own.
pub proof fn lemma_ampersand_token(a: Seq<char>, b: Seq<char>)
    requires
        a.len() > 0,
        b.len() > 0,
        a.last() != '>',
        b[0] != '>',
        forall|j: int| 0 <= j < a.len() ==> is_word_char(#[trigger] a[j]),
        forall|j: int| 0 <= j < b.len() ==> is_word_char(#[trigger] b[j]),
    ensures
        tokens_of(a + seq!['&'] + b) == seq![a, seq!['&'], b],
{
    let q = a + seq!['&'] + b;
    let n = a.len() as int;
    let e = Seq::<Seq<char>>::empty();
    assert forall|j: int| 0 <= j < n implies is_word_char(#[trigger] q[j]) by {
        assert(q[j] == a[j]);
    }
    assert forall|j: int| n + 1 <= j < q.len() implies is_word_char(#[trigger] q[j]) by {
        assert(q[j] == b[j - n - 1]);
    }
    lemma_word_run(q, 0, n, Seq::empty(), e);
    assert(Seq::<char>::empty() + q.subrange(0, n) =~= a);
    assert(q[n] == '&');
    assert(q[n + 1] == b[0]);
    let mid = plain_state(Seq::empty(), seq![a, seq!['&']]);
    assert(flush_emit(plain_state(a, e), seq!['&']).out =~= seq![a, seq!['&']]);
    assert(lex_step(q, n, plain_state(a, e)) == (n + 1, mid));
    lemma_word_run(q, n + 1, q.len() as int, Seq::empty(), seq![a, seq!['&']]);
    assert(Seq::<char>::empty() + q.subrange(n + 1, q.len() as int) =~= b);
    lemma_lex_end(q, plain_state(b, seq![a, seq!['&']]));
    assert(lex_from(q, 0, lex_start()) == plain_state(b, seq![a, seq!['&']]));
    assert(flush(plain_state(b, seq![a, seq!['&']])).out =~= seq![a, seq!['&'], b]);
}

/// An unquoted `&>` or `&>>` before a word is a token of its own, and the
/// word follows it.
pub proof fn lemma_both_redirect_tokens(p: Seq<char>)
    requires
        p.len() > 0,
        p[0] != '>',
        forall|j: int| 0 <= j < p.len() ==> is_word_char(#[trigger] p[j]),
    ensures
        tokens_of(seq!['&', '>'] + p) == seq![seq!['&', '>'], p],
        tokens_of(seq!['&', '>', '>'] + p) == seq![seq!['&', '>', '>'], p],
{
    let e = Seq::<Seq<char>>::empty();
    let q = seq!['&', '>'] + p;
    assert(q[0] == '&' && q[1] == '>' && q[2] == p[0]);
    assert forall|j: int| 2 <= j < q.len() implies is_word_char(#[trigger] q[j]) by {
        assert(q[j] == p[j - 2]);
    }
    let st = plain_state(Seq::empty(), seq![seq!['&', '>']]);
    assert(lex_step(q, 0, lex_start()) == (2int, st));
    lemma_word_run(q, 2, q.len() as int, Seq::empty(), seq![seq!['&', '>']]);
    assert(Seq::<char>::empty() + q.subrange(2, q.len() as int) =~= p);
    lemma_lex_end(q, plain_state(p, seq![seq!['&', '>']]));
    assert(lex_from(q, 0, lex_start()) == plain_state(p, seq![seq!['&', '>']]));
    assert(flush(plain_state(p, seq![seq!['&', '>']])).out =~= seq![seq!['&', '>'], p]);

    let r = seq!['&', '>', '>'] + p;
    assert(r[0] == '&' && r[1] == '>' && r[2] == '>');
    assert forall|j: int| 3 <= j < r.len() implies is_word_char(#[trigger] r[j]) by {
        assert(r[j] == p[j - 3]);
    }
    let st2 = plain_state(Seq::empty(), seq![seq!['&', '>', '>']]);
    assert(lex_step(r, 0, lex_start()) == (3int, st2));
    lemma_word_run(r, 3, r.len() as int, Seq::empty(), seq![seq!['&', '>', '>']]);
    assert(Seq::<char>::empty() + r.subrange(3, r.len() as int) =~= p);
    lemma_lex_end(r, plain_state(p, seq![seq!['&', '>', '>']]));
    assert(lex_from(r, 0, lex_start()) == plain_state(p, seq![seq!['&', '>', '>']]));
    assert(flush(plain_state(p, seq![seq!['&', '>', '>']])).out =~= seq![seq!['&', '>', '>'], p]);
}

/// An ampersand right after `>` stays in its token, so `2>&1` and `>&2`
/// are single tokens: a word, `>&` and a word make one token.
pub proof fn lemma_joined_redirect_token(w: Seq<char>, v: Seq<char>)
    requires
        forall|j: int| 0 <= j < w.len() ==> is_word_char(#[trigger] w[j]),
        forall|j: int| 0 <= j < v.len() ==> is_word_char(#[trigger] v[j]),
    ensures
        tokens_of(w + seq!['>', '&'] + v) == seq![w + seq!['>', '&'] + v],
{
    let q = w + seq!['>', '&'] + v;
    let n = w.len() as int;
    let e = Seq::<Seq<char>>::empty();
    assert forall|j: int| 0 <= j < n + 1 implies is_word_char(#[trigger] q[j]) by {
        if j < n {
            assert(q[j] == w[j]);
        } else {
            assert(q[j] == '>');
        }
    }
    assert forall|j: int| n + 2 <= j < q.len() implies is_word_char(#[trigger] q[j]) by {
        assert(q[j] == v[j - n - 2]);
    }
    lemma_word_run(q, 0, n + 1, Seq::empty(), e);
    let b1 = Seq::<char>::empty() + q.subrange(0, n + 1);
    assert(b1 =~= w.push('>'));
    assert(q[n + 1] == '&');
    assert(lex_step(q, n + 1, plain_state(b1, e)) == (n + 2, plain_state(b1.push('&'), e)));
    lemma_word_run(q, n + 2, q.len() as int, b1.push('&'), e);
    let b2 = b1.push('&') + q.subrange(n + 2, q.len() as int);
    assert(b2 =~= w + seq!['>', '&'] + v);
    lemma_lex_end(q, plain_state(b2, e));
    assert(lex_from(q, 0, lex_start()) == plain_state(b2, e));
    assert(flush(plain_state(b2, e)).out =~= seq![w + seq!['>', '&'] + v]);
}

} // verus!
