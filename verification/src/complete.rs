//! Tab completion: where the word under the cursor starts, which command
//! names to offer, and how file and external candidates are presented.

use vstd::prelude::*;
use vstd::string::StringSliceAdditionalSpecFns;

use crate::builtins::{builtin_list, builtin_name, builtins};
use crate::text::{chars_of, contains_string, push_char, starts_with, string_of, views};

verus! {

/// One completion offered to the user.
#[derive(Debug)]
pub struct Candidate {
    /// What the user sees in the list.
    pub display: String,
    /// What replaces the word being completed.
    pub replacement: String,
}

impl View for Candidate {
    type V = (Seq<char>, Seq<char>);

    open spec fn view(&self) -> (Seq<char>, Seq<char>) {
        (self.display@, self.replacement@)
    }
}

/// The views of a list of candidates.
pub open spec fn candidate_views(v: Seq<Candidate>) -> Seq<(Seq<char>, Seq<char>)> {
    v.map_values(|c: Candidate| c@)
}

/// The candidate for a name: the name, and the name followed by a space.
pub open spec fn name_candidate(n: Seq<char>) -> (Seq<char>, Seq<char>) {
    (n, n.push(' '))
}

/// The candidate for `name`.
fn candidate_for(name: &String) -> (c: Candidate)
    ensures
        c@ == name_candidate(name@),
{
    let mut replacement = name.clone();
    push_char(&mut replacement, ' ');
    Candidate { display: name.clone(), replacement }
}

/// The names of the builtins among `bs` that begin with `prefix`, in order.
pub open spec fn builtin_matches(prefix: Seq<char>, bs: Seq<crate::builtins::Builtin>) -> Seq<
    Seq<char>,
>
    decreases bs.len(),
{
    if bs.len() == 0 {
        Seq::empty()
    } else {
        builtin_matches(prefix, bs.drop_last()) + if prefix.is_prefix_of(builtin_name(bs.last())) {
            seq![builtin_name(bs.last())]
        } else {
            Seq::empty()
        }
    }
}

/// The names of `names` that are not in `seen`, each only the first time.
pub open spec fn fresh_names(names: Seq<Seq<char>>, seen: Seq<Seq<char>>) -> Seq<Seq<char>>
    decreases names.len(),
{
    if names.len() == 0 {
        Seq::empty()
    } else if seen.contains(names[0]) {
        fresh_names(names.drop_first(), seen)
    } else {
        seq![names[0]] + fresh_names(names.drop_first(), seen.push(names[0]))
    }
}

/// The command names offered for `prefix`: the builtins that begin with it,
/// then the executables found for it that are not builtins, without repeats.
pub open spec fn command_names(prefix: Seq<char>, executables: Seq<Seq<char>>) -> Seq<Seq<char>> {
    let b = builtin_matches(prefix, builtin_list());
    b + fresh_names(executables, b)
}

/// The candidates for completing a command name that begins with `prefix`,
/// where `executables` are the executables on the search path that begin
/// with it.
pub fn command_candidates(prefix: &str, executables: &Vec<String>) -> (res: Vec<Candidate>)
    ensures
        candidate_views(res@) == command_names(prefix@, views(executables@)).map_values(
            |n: Seq<char>| name_candidate(n),
        ),
        distinct(command_names(prefix@, views(executables@))),
        forall|n: Seq<char>|
            #[trigger] command_names(prefix@, views(executables@)).contains(n) <==> ((
            crate::builtins::builtin_of(n) is Some && prefix@.is_prefix_of(n)) || views(
                executables@,
            ).contains(n)),
{
    proof {
        lemma_command_names(prefix@, views(executables@));
    }
    let list = builtins();
    let mut seen: Vec<String> = Vec::new();
    let mut res: Vec<Candidate> = Vec::new();
    let mut i: usize = 0;
    assert(views(seen@) =~= builtin_matches(prefix@, builtin_list().take(0)));
    assert(candidate_views(res@) =~= views(seen@).map_values(|n: Seq<char>| name_candidate(n)));
    while i < list.len()
        invariant
            list@ == builtin_list(),
            i <= list.len(),
            views(seen@) == builtin_matches(prefix@, builtin_list().take(i as int)),
            candidate_views(res@) == views(seen@).map_values(|n: Seq<char>| name_candidate(n)),
        decreases list.len() - i,
    {
        assert(builtin_list().take(i + 1).drop_last() =~= builtin_list().take(i as int));
        let name = list[i].name();
        if starts_with(name.as_str(), prefix) {
            let c = candidate_for(&name);
            let ghost s0 = seen@;
            let ghost r0 = res@;
            res.push(c);
            seen.push(name);
            assert(views(seen@) =~= views(s0).push(name@));
            assert(candidate_views(res@) =~= candidate_views(r0).push(c@));
            assert(candidate_views(res@) =~= views(seen@).map_values(|n: Seq<char>| name_candidate(n)));
        }
        i += 1;
    }
    assert(builtin_list().take(list.len() as int) =~= builtin_list());
    let ghost names = views(executables@);
    let ghost full = command_names(prefix@, names);
    assert(names.skip(0) =~= names);
    let mut j: usize = 0;
    while j < executables.len()
        invariant
            names == views(executables@),
            full == command_names(prefix@, names),
            j <= executables.len(),
            views(seen@) + fresh_names(names.skip(j as int), views(seen@)) == full,
            candidate_views(res@) == views(seen@).map_values(|n: Seq<char>| name_candidate(n)),
        decreases executables.len() - j,
    {
        assert(names.skip(j as int).drop_first() =~= names.skip(j + 1));
        assert(names.skip(j as int)[0] == executables@[j as int]@);
        let name = &executables[j];
        if !contains_string(&seen, name) {
            let c = candidate_for(name);
            let ghost s0 = seen@;
            let ghost r0 = res@;
            res.push(c);
            seen.push(name.clone());
            assert(views(seen@) =~= views(s0).push(name@));
            assert(views(s0) + fresh_names(names.skip(j as int), views(s0)) =~= views(seen@)
                + fresh_names(names.skip(j + 1), views(seen@)));
            assert(candidate_views(res@) =~= candidate_views(r0).push(c@));
            assert(candidate_views(res@) =~= views(seen@).map_values(|n: Seq<char>| name_candidate(n)));
        }
        j += 1;
    }
    assert(fresh_names(names.skip(executables.len() as int), views(seen@)) =~= Seq::empty());
    assert(views(seen@) =~= full);
    res
}

/// How a candidate from the file-name completer is shown: a directory
/// (its replacement ends in `/`) shows the slash too; any other candidate
/// gets a space after its replacement unless it has one already.
pub open spec fn finish_file(c: (Seq<char>, Seq<char>)) -> (Seq<char>, Seq<char>) {
    if c.1.len() > 0 && c.1.last() == '/' {
        (c.0.push('/'), c.1)
    } else if c.1.len() > 0 && c.1.last() == ' ' {
        c
    } else {
        (c.0, c.1.push(' '))
    }
}

/// The last character of `s`, if any.
fn last_char(s: &String) -> (res: Option<char>)
    ensures
        res == (if s@.len() > 0 { Some(s@.last()) } else { None::<char> }),
{
    let cs = chars_of(s.as_str());
    if cs.len() > 0 {
        Some(cs[cs.len() - 1])
    } else {
        None
    }
}

/// Adjusts the candidates of the file-name completer for display.
pub fn finish_file_candidates(cands: Vec<Candidate>) -> (res: Vec<Candidate>)
    ensures
        candidate_views(res@) == candidate_views(cands@).map_values(
            |c: (Seq<char>, Seq<char>)| finish_file(c),
        ),
{
    let mut res: Vec<Candidate> = Vec::new();
    let mut i: usize = 0;
    while i < cands.len()
        invariant
            i <= cands.len(),
            candidate_views(res@) == candidate_views(cands@).take(i as int).map_values(
                |c: (Seq<char>, Seq<char>)| finish_file(c),
            ),
        decreases cands.len() - i,
    {
        let c = &cands[i];
        let mut display = c.display.clone();
        let mut replacement = c.replacement.clone();
        let last = last_char(&replacement);
        if last == Some('/') {
            push_char(&mut display, '/');
        } else if last != Some(' ') {
            push_char(&mut replacement, ' ');
        }
        let d = Candidate { display, replacement };
        assert(d@ == finish_file(c@));
        let ghost r0 = res@;
        res.push(d);
        assert(candidate_views(res@) =~= candidate_views(r0).push(d@));
        assert(candidate_views(cands@).take(i + 1) =~= candidate_views(cands@).take(i as int).push(
            c@,
        ));
        assert(candidate_views(res@) =~= candidate_views(cands@).take(i + 1).map_values(
            |c: (Seq<char>, Seq<char>)| finish_file(c),
        ));
        i += 1;
    }
    assert(candidate_views(cands@).take(cands.len() as int) =~= candidate_views(cands@));
    res
}

/// `l` without one carriage return at its end.
pub open spec fn strip_cr(l: Seq<char>) -> Seq<char> {
    if l.len() > 0 && l.last() == '\r' {
        l.drop_last()
    } else {
        l
    }
}

/// The lines of `s` from position `i` on, given the part of the current
/// line read so far and the lines before it.  A line ends at a line feed,
/// which is dropped together with a carriage return just before it; the
/// last line needs no line feed, and nothing after the last line feed is
/// no line.
pub open spec fn lines_scan(s: Seq<char>, i: int, cur: Seq<char>, out: Seq<Seq<char>>) -> Seq<
    Seq<char>,
>
    decreases s.len() - i,
{
    if i < 0 || i >= s.len() {
        if cur.len() > 0 {
            out.push(cur)
        } else {
            out
        }
    } else if s[i] == '\n' {
        lines_scan(s, i + 1, Seq::empty(), out.push(strip_cr(cur)))
    } else {
        lines_scan(s, i + 1, cur.push(s[i]), out)
    }
}

/// The lines of `s`, as `str::lines` gives them.
pub open spec fn lines_of(s: Seq<char>) -> Seq<Seq<char>> {
    lines_scan(s, 0, Seq::empty(), Seq::empty())
}

/// The candidates printed by an external completion command, one per line.
pub fn candidates_from_output(text: &str) -> (res: Vec<Candidate>)
    ensures
        candidate_views(res@) == lines_of(text@).map_values(|n: Seq<char>| name_candidate(n)),
{
    let s = chars_of(text);
    let mut cur: Vec<char> = Vec::new();
    let mut lines: Vec<String> = Vec::new();
    let mut i: usize = 0;
    assert(views(lines@) =~= Seq::<Seq<char>>::empty());
    assert(cur@ =~= Seq::<char>::empty());
    while i < s.len()
        invariant
            s@ == text@,
            i <= s.len(),
            lines_scan(s@, i as int, cur@, views(lines@)) == lines_of(text@),
        decreases s.len() - i,
    {
        if s[i] == '\n' {
            let ghost c0 = cur@;
            let n = cur.len();
            if n > 0 && cur[n - 1] == '\r' {
                cur.pop();
                assert(cur@ =~= c0.drop_last());
            }
            assert(cur@ == strip_cr(c0));
            let ghost l0 = lines@;
            let line = string_of(&cur);
            lines.push(line);
            assert(views(lines@) =~= views(l0).push(line@));
            cur = Vec::new();
            assert(cur@ =~= Seq::<char>::empty());
        } else {
            cur.push(s[i]);
        }
        i += 1;
    }
    if cur.len() > 0 {
        let ghost l0 = lines@;
        let line = string_of(&cur);
        lines.push(line);
        assert(views(lines@) =~= views(l0).push(line@));
    }
    let mut res: Vec<Candidate> = Vec::new();
    let mut k: usize = 0;
    while k < lines.len()
        invariant
            k <= lines.len(),
            candidate_views(res@) == views(lines@).take(k as int).map_values(
                |n: Seq<char>| name_candidate(n),
            ),
        decreases lines.len() - k,
    {
        let c = candidate_for(&lines[k]);
        let ghost r0 = res@;
        res.push(c);
        assert(candidate_views(res@) =~= candidate_views(r0).push(c@));
        assert(views(lines@).take(k + 1) =~= views(lines@).take(k as int).push(lines@[k as int]@));
        assert(candidate_views(res@) =~= views(lines@).take(k + 1).map_values(
            |n: Seq<char>| name_candidate(n),
        ));
        k += 1;
    }
    assert(views(lines@).take(lines.len() as int) =~= views(lines@));
    res
}

/// Whether a byte is ASCII whitespace (space, tab, line feed, form feed or
/// carriage return).  Such bytes never occur inside a multi-byte UTF-8
/// character, so positions found this way are character boundaries.
pub open spec fn is_space_byte(b: u8) -> bool {
    b == 32 || b == 9 || b == 10 || b == 12 || b == 13
}

/// The start of the word that ends at byte `pos`: just after the last
/// whitespace byte before `pos`, or 0 when there is none.
pub open spec fn word_start_of(b: Seq<u8>, pos: int) -> int
    decreases pos,
{
    if pos <= 0 {
        0
    } else if is_space_byte(b[pos - 1]) {
        pos
    } else {
        word_start_of(b, pos - 1)
    }
}

/// The first position at or after `i` that is not whitespace, or the end.
pub open spec fn skip_spaces(b: Seq<u8>, i: int) -> int
    decreases b.len() - i,
{
    if i < 0 || i >= b.len() {
        b.len() as int
    } else if is_space_byte(b[i]) {
        skip_spaces(b, i + 1)
    } else {
        i
    }
}

/// The first position at or after `i` that is whitespace, or the end.
pub open spec fn word_end(b: Seq<u8>, i: int) -> int
    decreases b.len() - i,
{
    if i < 0 || i >= b.len() {
        b.len() as int
    } else if is_space_byte(b[i]) {
        i
    } else {
        word_end(b, i + 1)
    }
}

/// Byte ranges of the words around the cursor.
#[derive(Debug)]
pub struct CompletionContext {
    /// Where the word under the cursor starts.
    pub word_start: usize,
    /// The first word of the line (the command's name).
    pub cmd_start: usize,
    pub cmd_end: usize,
    /// The word before the one under the cursor.
    pub prev_start: usize,
    pub prev_end: usize,
}

/// The start of the word that ends at `pos`.
fn find_word_start(b: &[u8], pos: usize) -> (r: usize)
    requires
        pos <= b@.len(),
    ensures
        r == word_start_of(b@, pos as int),
        r <= pos,
{
    let mut p = pos;
    while p > 0 && !is_space_u8(b[p - 1])
        invariant
            p <= pos,
            pos <= b@.len(),
            word_start_of(b@, p as int) == word_start_of(b@, pos as int),
        decreases p,
    {
        p -= 1;
    }
    p
}

/// Tests a byte for ASCII whitespace.
fn is_space_u8(c: u8) -> (res: bool)
    ensures
        res == is_space_byte(c),
{
    c == 32 || c == 9 || c == 10 || c == 12 || c == 13
}

/// The words of `line` around the cursor at byte `pos`: the word being
/// completed runs from `word_start` to `pos`; the word before it ends at
/// the whitespace byte just before `word_start` and starts after the
/// whitespace before that; the command name is the line's first word.
pub fn completion_context(line: &str, pos: usize) -> (ctx: CompletionContext)
    requires
        pos <= line.spec_bytes().len(),
    ensures
        ctx.word_start == word_start_of(line.spec_bytes(), pos as int),
        ctx.prev_end == (if ctx.word_start == 0 { 0 } else { ctx.word_start - 1 }),
        ctx.prev_start == word_start_of(line.spec_bytes(), ctx.prev_end as int),
        ctx.cmd_start == skip_spaces(line.spec_bytes(), 0),
        ctx.cmd_end == word_end(line.spec_bytes(), ctx.cmd_start as int),
{
    let b = line.as_bytes();
    let word_start = find_word_start(b, pos);
    let prev_end = if word_start == 0 { 0 } else { word_start - 1 };
    let prev_start = find_word_start(b, prev_end);
    let mut cmd_start: usize = 0;
    while cmd_start < b.len() && is_space_u8(b[cmd_start])
        invariant
            cmd_start <= b@.len(),
            skip_spaces(b@, cmd_start as int) == skip_spaces(b@, 0),
        decreases b@.len() - cmd_start,
    {
        cmd_start += 1;
    }
    let mut cmd_end = cmd_start;
    while cmd_end < b.len() && !is_space_u8(b[cmd_end])
        invariant
            cmd_start <= cmd_end <= b@.len(),
            word_end(b@, cmd_end as int) == word_end(b@, cmd_start as int),
        decreases b@.len() - cmd_end,
    {
        cmd_end += 1;
    }
    CompletionContext { word_start, cmd_start, cmd_end, prev_start, prev_end }
}

} // verus!

verus! {

/// No string occurs twice in `s`.
pub open spec fn distinct(s: Seq<Seq<char>>) -> bool {
    forall|i: int, j: int| 0 <= i < j < s.len() ==> s[i] != s[j]
}

/// The fresh names are the names not seen before, each once.
proof fn lemma_fresh_names(names: Seq<Seq<char>>, seen: Seq<Seq<char>>)
    ensures
        distinct(fresh_names(names, seen)),
        forall|n: Seq<char>|
            #[trigger] fresh_names(names, seen).contains(n) <==> (names.contains(n) && !seen.contains(n)),
    decreases names.len(),
{
    if names.len() > 0 {
        let x = names[0];
        let rest = names.drop_first();
        assert(forall|n: Seq<char>| names.contains(n) <==> (n == x || rest.contains(n))) by {
            assert forall|n: Seq<char>| names.contains(n) implies (n == x || rest.contains(n)) by {
                let k = choose|k: int| 0 <= k < names.len() && names[k] == n;
                if k > 0 {
                    assert(rest[k - 1] == n);
                }
            }
            assert forall|n: Seq<char>| rest.contains(n) implies names.contains(n) by {
                let k = choose|k: int| 0 <= k < rest.len() && rest[k] == n;
                assert(names[k + 1] == n);
            }
            assert(names[0] == x);
        }
        if seen.contains(x) {
            lemma_fresh_names(rest, seen);
        } else {
            let seen2 = seen.push(x);
            lemma_fresh_names(rest, seen2);
            assert(seen2.contains(x)) by {
                assert(seen2[seen.len() as int] == x);
            }
            assert(forall|n: Seq<char>| seen2.contains(n) <==> (seen.contains(n) || n == x)) by {
                assert forall|n: Seq<char>| seen2.contains(n) implies (seen.contains(n) || n == x) by {
                    let k = choose|k: int| 0 <= k < seen2.len() && seen2[k] == n;
                    if k < seen.len() {
                        assert(seen[k] == n);
                    }
                }
                assert forall|n: Seq<char>| seen.contains(n) implies seen2.contains(n) by {
                    let k = choose|k: int| 0 <= k < seen.len() && seen[k] == n;
                    assert(seen2[k] == n);
                }
            }
            let tail = fresh_names(rest, seen2);
            let all = seq![x] + tail;
            assert(fresh_names(names, seen) == all);
            assert forall|n: Seq<char>| all.contains(n) <==> (n == x || tail.contains(n)) by {
                if all.contains(n) {
                    let k = choose|k: int| 0 <= k < all.len() && all[k] == n;
                    if k > 0 {
                        assert(tail[k - 1] == n);
                    }
                }
                if tail.contains(n) {
                    let k = choose|k: int| 0 <= k < tail.len() && tail[k] == n;
                    assert(all[k + 1] == n);
                }
                assert(all[0] == x);
            }
            assert forall|i: int, j: int| 0 <= i < j < all.len() implies all[i] != all[j] by {
                if i == 0 {
                    assert(all[j] == tail[j - 1]);
                    assert(tail.contains(tail[j - 1]));
                } else {
                    assert(all[i] == tail[i - 1]);
                    assert(all[j] == tail[j - 1]);
                }
            }
        }
    } else {
        assert(fresh_names(names, seen) =~= Seq::<Seq<char>>::empty());
    }
}

/// The builtins of `bs` whose names begin with `prefix`, with their names
/// in order: a name is there exactly when some builtin of `bs` has it and
/// it begins with `prefix`; with distinct names in `bs`, none is repeated.
proof fn lemma_matches(prefix: Seq<char>, bs: Seq<crate::builtins::Builtin>)
    ensures
        forall|n: Seq<char>|
            #[trigger] builtin_matches(prefix, bs).contains(n) <==> ((exists|k: int|
                0 <= k < bs.len() && builtin_name(#[trigger] bs[k]) == n) && prefix.is_prefix_of(n)),
        (forall|i: int, j: int| 0 <= i < j < bs.len() ==> builtin_name(bs[i]) != builtin_name(bs[j]))
            ==> distinct(builtin_matches(prefix, bs)),
    decreases bs.len(),
{
    if bs.len() > 0 {
        let d = bs.drop_last();
        lemma_matches(prefix, d);
        let prev = builtin_matches(prefix, d);
        let last = builtin_name(bs.last());
        let tail = if prefix.is_prefix_of(last) { seq![last] } else { Seq::<Seq<char>>::empty() };
        let m = prev + tail;
        assert(builtin_matches(prefix, bs) == m);
        assert forall|n: Seq<char>| m.contains(n) <==> (prev.contains(n) || tail.contains(n)) by {
            if m.contains(n) {
                let k = choose|k: int| 0 <= k < m.len() && m[k] == n;
                if k < prev.len() {
                    assert(prev[k] == n);
                } else {
                    assert(tail[k - prev.len()] == n);
                }
            }
            if prev.contains(n) {
                let k = choose|k: int| 0 <= k < prev.len() && prev[k] == n;
                assert(m[k] == n);
            }
            if tail.contains(n) {
                assert(m[prev.len() as int] == n);
            }
        }
        assert forall|n: Seq<char>| m.contains(n) implies ((exists|k: int|
            0 <= k < bs.len() && builtin_name(#[trigger] bs[k]) == n) && prefix.is_prefix_of(n)) by {
            if prev.contains(n) {
                assert((exists|k: int| 0 <= k < d.len() && builtin_name(#[trigger] d[k]) == n) && prefix.is_prefix_of(n));
                let k = choose|k: int| 0 <= k < d.len() && builtin_name(#[trigger] d[k]) == n;
                assert(builtin_name(bs[k]) == n);
            } else {
                assert(tail.contains(n));
                assert(prefix.is_prefix_of(last));
                assert(tail[0] == last);
                assert(tail.len() == 1);
                assert(n == last);
                assert(builtin_name(bs[bs.len() - 1]) == n);
            }
        }
        assert forall|n: Seq<char>| ((exists|k: int|
            0 <= k < bs.len() && builtin_name(#[trigger] bs[k]) == n) && prefix.is_prefix_of(n)) implies m.contains(n) by {
            let k = choose|k: int| 0 <= k < bs.len() && builtin_name(#[trigger] bs[k]) == n;
            if k < d.len() {
                assert(builtin_name(d[k]) == n);
                assert(prev.contains(n));
            } else {
                assert(n == last);
                assert(tail[0] == n);
                assert(tail.contains(n));
            }
        }
        if forall|i: int, j: int| 0 <= i < j < bs.len() ==> builtin_name(bs[i]) != builtin_name(bs[j]) {
            assert forall|i: int, j: int| 0 <= i < j < d.len() implies builtin_name(d[i]) != builtin_name(d[j]) by {
                assert(d[i] == bs[i] && d[j] == bs[j]);
            }
            assert forall|i: int, j: int| 0 <= i < j < m.len() implies m[i] != m[j] by {
                if j >= prev.len() {
                    assert(m[j] == last);
                    assert(prev.contains(m[i]));
                    if m[i] == last {
                        let k = choose|k: int| 0 <= k < d.len() && builtin_name(#[trigger] d[k]) == last;
                        assert(builtin_name(bs[k]) == builtin_name(bs[bs.len() - 1]));
                    }
                } else {
                    assert(m[i] == prev[i] && m[j] == prev[j]);
                }
            }
        }
    } else {
        assert(builtin_matches(prefix, bs) =~= Seq::<Seq<char>>::empty());
    }
}

/// The builtins whose names begin with `prefix`, in list order, are
/// distinct and are exactly those builtins.
proof fn lemma_builtin_matches(prefix: Seq<char>)
    ensures
        distinct(builtin_matches(prefix, builtin_list())),
        forall|n: Seq<char>|
            #[trigger] builtin_matches(prefix, builtin_list()).contains(n) <==> (
            crate::builtins::builtin_of(n) is Some && prefix.is_prefix_of(n)),
{
    let l = builtin_list();
    let e = builtin_name(crate::builtins::Builtin::Echo);
    let x = builtin_name(crate::builtins::Builtin::Exit);
    let t = builtin_name(crate::builtins::Builtin::Type);
    let p = builtin_name(crate::builtins::Builtin::Pwd);
    let c = builtin_name(crate::builtins::Builtin::Cd);
    assert(e != x && e != t && e != p && e != c && x != t && x != p && x != c && t != p && t != c
        && p != c) by {
        assert(e[1] != x[1]);
        assert(e[0] != t[0]);
        assert(e.len() != p.len());
        assert(e.len() != c.len());
        assert(x[0] != t[0]);
        assert(x.len() != p.len());
        assert(x.len() != c.len());
        assert(t.len() != p.len());
        assert(t.len() != c.len());
        assert(p.len() != c.len());
    }
    assert(l[0] == crate::builtins::Builtin::Echo);
    assert(l[1] == crate::builtins::Builtin::Exit);
    assert(l[2] == crate::builtins::Builtin::Type);
    assert(l[3] == crate::builtins::Builtin::Pwd);
    assert(l[4] == crate::builtins::Builtin::Cd);
    lemma_matches(prefix, l);
    assert forall|n: Seq<char>| (exists|k: int| 0 <= k < l.len() && builtin_name(#[trigger] l[k]) == n)
        <==> crate::builtins::builtin_of(n) is Some by {
        if crate::builtins::builtin_of(n) is Some {
            if n == e {
                assert(builtin_name(l[0]) == n);
            } else if n == x {
                assert(builtin_name(l[1]) == n);
            } else if n == t {
                assert(builtin_name(l[2]) == n);
            } else if n == p {
                assert(builtin_name(l[3]) == n);
            } else {
                assert(builtin_name(l[4]) == n);
            }
        }
    }
}

/// The command names offered for a prefix are the builtins that begin
/// with it and the executables found for it, each exactly once.
pub proof fn lemma_command_names(prefix: Seq<char>, executables: Seq<Seq<char>>)
    ensures
        distinct(command_names(prefix, executables)),
        forall|n: Seq<char>|
            #[trigger] command_names(prefix, executables).contains(n) <==> ((
            crate::builtins::builtin_of(n) is Some && prefix.is_prefix_of(n)) || executables.contains(
                n,
            )),
{
    let b = builtin_matches(prefix, builtin_list());
    lemma_builtin_matches(prefix);
    lemma_fresh_names(executables, b);
    let f = fresh_names(executables, b);
    let all = b + f;
    assert forall|n: Seq<char>| all.contains(n) <==> (b.contains(n) || f.contains(n)) by {
        if all.contains(n) {
            let k = choose|k: int| 0 <= k < all.len() && all[k] == n;
            if k < b.len() {
                assert(b[k] == n);
            } else {
                assert(f[k - b.len()] == n);
            }
        }
        if b.contains(n) {
            let k = choose|k: int| 0 <= k < b.len() && b[k] == n;
            assert(all[k] == n);
        }
        if f.contains(n) {
            let k = choose|k: int| 0 <= k < f.len() && f[k] == n;
            assert(all[k + b.len()] == n);
        }
    }
    assert forall|i: int, j: int| 0 <= i < j < all.len() implies all[i] != all[j] by {
        if j < b.len() {
        } else if i >= b.len() {
            assert(all[i] == f[i - b.len()]);
            assert(all[j] == f[j - b.len()]);
        } else {
            assert(all[j] == f[j - b.len()]);
            assert(f.contains(f[j - b.len()]));
            assert(b.contains(all[i]));
        }
    }
}

} // verus!

verus! {

/// Where the candidates for the word at the cursor come from.
#[derive(Debug, Clone, Copy, PartialEq, Eq, Structural)]
pub enum CandidateSource {
    /// Builtins and executables: the word is the command's name.
    CommandNames,
    /// The completion command registered for the command.
    External,
    /// File names.
    Files,
}

/// The next source of candidates for the word that starts at
/// `word_start`: command names for the first word; otherwise the command's
/// registered completion, if it has one that has not yet come back empty,
/// and file names after that.
pub fn next_source(word_start: usize, registered: bool, external_empty: bool) -> (s: CandidateSource)
    ensures
        s == (if word_start == 0 {
            CandidateSource::CommandNames
        } else if registered && !external_empty {
            CandidateSource::External
        } else {
            CandidateSource::Files
        }),
{
    if word_start == 0 {
        CandidateSource::CommandNames
    } else if registered && !external_empty {
        CandidateSource::External
    } else {
        CandidateSource::Files
    }
}

} // verus!

verus! {

/// Whether a byte is a space, tab, line feed, form feed or carriage return.
pub open spec fn blank_byte(b: u8) -> bool {
    b == 32u8 || b == 9u8 || b == 10u8 || b == 12u8 || b == 13u8
}

/// The word under the cursor reaches back to just after the last
/// whitespace byte: it holds no whitespace, and what comes before it is
/// whitespace or the start of the line.
pub proof fn lemma_word_start(b: Seq<u8>, pos: int)
    requires
        0 <= pos <= b.len(),
    ensures
        0 <= word_start_of(b, pos) <= pos,
        forall|j: int| word_start_of(b, pos) <= j < pos ==> !blank_byte(#[trigger] b[j]),
        word_start_of(b, pos) == 0 || blank_byte(b[word_start_of(b, pos) - 1]),
    decreases pos,
{
    if pos > 0 && !is_space_byte(b[pos - 1]) {
        lemma_word_start(b, pos - 1);
    }
}

/// The command's name is the line's first word: whitespace before it, no
/// whitespace in it, and whitespace or the end of the line after it.
pub proof fn lemma_first_word(b: Seq<u8>)
    ensures
        0 <= skip_spaces(b, 0) <= word_end(b, skip_spaces(b, 0)) <= b.len(),
        forall|j: int| 0 <= j < skip_spaces(b, 0) ==> blank_byte(#[trigger] b[j]),
        forall|j: int|
            skip_spaces(b, 0) <= j < word_end(b, skip_spaces(b, 0)) ==> !blank_byte(#[trigger] b[j]),
        word_end(b, skip_spaces(b, 0)) == b.len() || blank_byte(b[word_end(b, skip_spaces(b, 0))]),
{
    lemma_skip_spaces(b, 0);
    lemma_word_end(b, skip_spaces(b, 0));
}

proof fn lemma_skip_spaces(b: Seq<u8>, i: int)
    requires
        0 <= i <= b.len(),
        forall|j: int| 0 <= j < i ==> blank_byte(#[trigger] b[j]),
    ensures
        i <= skip_spaces(b, i) <= b.len(),
        forall|j: int| 0 <= j < skip_spaces(b, i) ==> blank_byte(#[trigger] b[j]),
        skip_spaces(b, i) == b.len() || !blank_byte(b[skip_spaces(b, i)]),
    decreases b.len() - i,
{
    if i < b.len() && is_space_byte(b[i]) {
        lemma_skip_spaces(b, i + 1);
    }
}

proof fn lemma_word_end(b: Seq<u8>, i: int)
    requires
        0 <= i <= b.len(),
    ensures
        i <= word_end(b, i) <= b.len(),
        forall|j: int| i <= j < word_end(b, i) ==> !blank_byte(#[trigger] b[j]),
        word_end(b, i) == b.len() || blank_byte(b[word_end(b, i)]),
    decreases b.len() - i,
{
    if i < b.len() && !is_space_byte(b[i]) {
        lemma_word_end(b, i + 1);
    }
}

/// A directory candidate shows its slash; any other candidate's
/// replacement ends in a space; nothing else changes.
pub proof fn lemma_finish_file(c: (Seq<char>, Seq<char>))
    ensures
        c.1.len() > 0 && c.1.last() == '/' ==> finish_file(c) == (c.0 + seq!['/'], c.1),
        !(c.1.len() > 0 && c.1.last() == '/') ==> finish_file(c).0 == c.0 && finish_file(c).1.len()
            > 0 && finish_file(c).1.last() == ' ' && finish_file(c).1.subrange(0, c.1.len() as int)
            == c.1 && finish_file(c).1.len() <= c.1.len() + 1,
{
    if c.1.len() > 0 && c.1.last() == '/' {
        assert(c.0.push('/') =~= c.0 + seq!['/']);
    } else if c.1.len() > 0 && c.1.last() == ' ' {
        assert(c.1.subrange(0, c.1.len() as int) =~= c.1);
    } else {
        assert(c.1.push(' ').subrange(0, c.1.len() as int) =~= c.1);
    }
}

/// Lines that hold no line feed and do not end in a carriage return,
/// each written with a line feed after it, read back as the same lines.
pub open spec fn with_newlines(ls: Seq<Seq<char>>) -> Seq<char>
    decreases ls.len(),
{
    if ls.len() == 0 {
        Seq::empty()
    } else {
        with_newlines(ls.drop_last()) + ls.last() + seq!['\n']
    }
}

/// Reading a line feed-free text from `i` adds it to the current line.
proof fn lemma_lines_run(
    s: Seq<char>,
    i: int,
    end: int,
    cur: Seq<char>,
    out: Seq<Seq<char>>,
)
    requires
        0 <= i <= end <= s.len(),
        forall|j: int| i <= j < end ==> #[trigger] s[j] != '\n',
    ensures
        lines_scan(s, i, cur, out) == lines_scan(s, end, cur + s.subrange(i, end), out),
    decreases end - i,
{
    if i < end {
        lemma_lines_run(s, i + 1, end, cur.push(s[i]), out);
        assert(cur.push(s[i]) + s.subrange(i + 1, end) =~= cur + s.subrange(i, end));
    } else {
        assert(cur + s.subrange(i, end) =~= cur);
    }
}

/// Lines written one per line, each ended by a line feed, are read back
/// as they were, as long as none holds a line feed or ends in a carriage
/// return.
pub proof fn lemma_lines_round_trip(ls: Seq<Seq<char>>, rest: Seq<char>)
    requires
        forall|k: int|
            0 <= k < ls.len() ==> !(#[trigger] ls[k]).contains('\n') && !(ls[k].len() > 0
                && ls[k].last() == '\r'),
    ensures
        lines_scan(with_newlines(ls) + rest, 0, Seq::empty(), Seq::empty()) == lines_scan(
            with_newlines(ls) + rest,
            with_newlines(ls).len() as int,
            Seq::empty(),
            ls,
        ),
    decreases ls.len(),
{
    let w = with_newlines(ls);
    let s = w + rest;
    if ls.len() > 0 {
        let d = ls.drop_last();
        let l = ls.last();
        let wd = with_newlines(d);
        assert forall|k: int| 0 <= k < d.len() implies !(#[trigger] d[k]).contains('\n') && !(d[k].len()
            > 0 && d[k].last() == '\r') by {
            assert(d[k] == ls[k]);
        }
        let rest2 = l + seq!['\n'] + rest;
        assert(wd + rest2 =~= s);
        lemma_lines_round_trip(d, rest2);
        let a = wd.len() as int;
        assert forall|j: int| a <= j < a + l.len() implies #[trigger] s[j] != '\n' by {
            assert(s[j] == l[j - a]);
            assert(ls[ls.len() - 1] == l);
            if l[j - a] == '\n' {
                assert(l.contains('\n'));
            }
        }
        lemma_lines_run(s, a, a + l.len(), Seq::empty(), d);
        assert(Seq::<char>::empty() + s.subrange(a, a + l.len()) =~= l);
        assert(s[a + l.len()] == '\n');
        assert(ls[ls.len() - 1] == l);
        assert(strip_cr(l) == l);
        assert(d.push(l) =~= ls);
        assert(w.len() == a + l.len() + 1);
        assert(lines_scan(s, a + l.len(), l, d) == lines_scan(s, a + l.len() + 1, Seq::empty(), d.push(strip_cr(l))));
    } else {
        assert(ls =~= Seq::<Seq<char>>::empty());
        assert(w.len() == 0);
    }
}

/// The lines of a text written one per line come back as they were.
pub proof fn lemma_lines_of_written(ls: Seq<Seq<char>>)
    requires
        forall|k: int|
            0 <= k < ls.len() ==> !(#[trigger] ls[k]).contains('\n') && !(ls[k].len() > 0
                && ls[k].last() == '\r'),
    ensures
        lines_of(with_newlines(ls)) == ls,
{
    lemma_lines_round_trip(ls, Seq::empty());
    assert(with_newlines(ls) + Seq::<char>::empty() =~= with_newlines(ls));
}

} // verus!
