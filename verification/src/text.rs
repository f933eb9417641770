//! Character-level helpers shared by the other modules.

use vstd::prelude::*;

verus! {

/// Appends one character to a string with `String::push`; the contract
/// claims that the string's characters gain `c` at the end.
#[verifier::external_body]
pub(crate) fn push_char(s: &mut String, c: char)
    ensures
        final(s)@ == old(s)@.push(c),
{
    s.push(c);
}

/// The characters of a string slice, in order.
pub fn chars_of(s: &str) -> (res: Vec<char>)
    ensures
        res@ == s@,
{
    broadcast use vstd::string::group_string_axioms;
    let mut res: Vec<char> = Vec::new();
    for c in it: s.chars()
        invariant
            it.seq() == s@,
            res@ == it.seq().take(it.index() as int),
    {
        res.push(c);
    }
    res
}

} // verus!

verus! {

/// A string holding exactly the given characters.
pub fn string_of(cs: &Vec<char>) -> (res: String)
    ensures
        res@ == cs@,
{
    let mut res = String::new();
    let mut i: usize = 0;
    while i < cs.len()
        invariant
            i <= cs.len(),
            res@ == cs@.take(i as int),
        decreases cs.len() - i,
    {
        push_char(&mut res, cs[i]);
        i += 1;
        assert(cs@.take(i as int) == cs@.take(i - 1).push(cs@[i - 1]));
    }
    assert(cs@.take(cs.len() as int) == cs@);
    res
}

/// The views of a sequence of strings.
pub open spec fn views(v: Seq<String>) -> Seq<Seq<char>> {
    v.map_values(|t: String| t@)
}

/// Whether `c` is one of the ASCII whitespace characters: space, tab,
/// line feed, form feed and carriage return.
pub open spec fn spec_is_ascii_space(c: char) -> bool {
    c == ' ' || c == '\t' || c == '\n' || c == '\x0C' || c == '\r'
}

/// Tests for ASCII whitespace, as `char::is_ascii_whitespace` does.
#[verifier::when_used_as_spec(spec_is_ascii_space)]
pub fn is_ascii_space(c: char) -> (res: bool)
    ensures
        res == spec_is_ascii_space(c),
{
    c == ' ' || c == '\t' || c == '\n' || c == '\x0C' || c == '\r'
}

} // verus!

verus! {

/// Pushing a string pushes its view.
pub proof fn lemma_views_push(v: Seq<String>, t: String)
    ensures
        views(v.push(t)) == views(v).push(t@),
{
    assert(views(v.push(t)) =~= views(v).push(t@));
}

} // verus!

verus! {

/// Whether `s` begins with `prefix`, as `str::starts_with` does.
pub fn starts_with(s: &str, prefix: &str) -> (res: bool)
    ensures
        res == prefix@.is_prefix_of(s@),
{
    let a = chars_of(s);
    let p = chars_of(prefix);
    if p.len() > a.len() {
        return false;
    }
    let mut i: usize = 0;
    while i < p.len()
        invariant
            p.len() <= a.len(),
            p@ == prefix@,
            a@ == s@,
            i <= p.len(),
            forall|k: int| 0 <= k < i ==> p@[k] == a@[k],
        decreases p.len() - i,
    {
        if p[i] != a[i] {
            assert(a@.subrange(0, p@.len() as int)[i as int] == a@[i as int]);
            assert(!(p@ =~= a@.subrange(0, p@.len() as int)));
            return false;
        }
        i += 1;
    }
    assert(p@ =~= a@.subrange(0, p@.len() as int));
    true
}

/// Whether `v` holds a string equal to `s`.
pub fn contains_string(v: &Vec<String>, s: &String) -> (res: bool)
    ensures
        res == views(v@).contains(s@),
{
    let mut i: usize = 0;
    while i < v.len()
        invariant
            i <= v.len(),
            forall|k: int| 0 <= k < i ==> v@[k]@ != s@,
        decreases v.len() - i,
    {
        if v[i] == *s {
            assert(views(v@)[i as int] == s@);
            return true;
        }
        i += 1;
    }
    assert forall|k: int| 0 <= k < views(v@).len() implies views(v@)[k] != s@ by {
        assert(views(v@)[k] == v@[k]@);
    }
    false
}

} // verus!

verus! {

/// Whether two character vectors are equal.
pub fn chars_eq(a: &Vec<char>, b: &Vec<char>) -> (res: bool)
    ensures
        res == (a@ == b@),
{
    if a.len() != b.len() {
        return false;
    }
    let mut i: usize = 0;
    while i < a.len()
        invariant
            a.len() == b.len(),
            i <= a.len(),
            forall|k: int| 0 <= k < i ==> a@[k] == b@[k],
        decreases a.len() - i,
    {
        if a[i] != b[i] {
            return false;
        }
        i += 1;
    }
    assert(a@ =~= b@);
    true
}

/// The views of a list of string slices.
pub open spec fn str_views(v: Seq<&str>) -> Seq<Seq<char>> {
    v.map_values(|s: &str| s@)
}

/// The strings of `s` with `sep` between neighbours.
pub open spec fn join_with(s: Seq<Seq<char>>, sep: Seq<char>) -> Seq<char>
    decreases s.len(),
{
    if s.len() == 0 {
        Seq::empty()
    } else if s.len() == 1 {
        s[0]
    } else {
        join_with(s.drop_last(), sep) + sep + s.last()
    }
}

/// `s` with every `c` replaced by `with`.
pub open spec fn replace_char(s: Seq<char>, c: char, with: Seq<char>) -> Seq<char>
    decreases s.len(),
{
    if s.len() == 0 {
        Seq::empty()
    } else {
        replace_char(s.drop_last(), c, with) + if s.last() == c {
            with
        } else {
            seq![s.last()]
        }
    }
}

/// Replacing a character leaves a text without it unchanged, and leaves
/// no occurrence of it when the replacement has none.
pub proof fn lemma_replace_char(s: Seq<char>, c: char, with: Seq<char>)
    ensures
        !s.contains(c) ==> replace_char(s, c, with) == s,
        !with.contains(c) ==> !replace_char(s, c, with).contains(c),
        replace_char(s, c, seq![c]) == s,
    decreases s.len(),
{
    if s.len() > 0 {
        let d = s.drop_last();
        lemma_replace_char(d, c, with);
        if !s.contains(c) {
            assert forall|j: int| 0 <= j < d.len() implies d[j] != c by {
                assert(d[j] == s[j]);
            }
            assert(s.last() == s[s.len() - 1]);
            assert(replace_char(s, c, with) =~= s);
        }
        if !with.contains(c) {
            let r = replace_char(s, c, with);
            let rd = replace_char(d, c, with);
            let tail = if s.last() == c { with } else { seq![s.last()] };
            assert(r == rd + tail);
            assert forall|j: int| 0 <= j < r.len() implies r[j] != c by {
                if j < rd.len() {
                    assert(r[j] == rd[j]);
                    assert(!rd.contains(c));
                } else {
                    assert(r[j] == tail[j - rd.len()]);
                    if s.last() == c {
                        assert(!with.contains(c));
                    }
                }
            }
        }
        assert(d.push(s.last()) =~= s);
        assert(replace_char(s, c, seq![c]) =~= s);
    } else {
        assert(replace_char(s, c, with) =~= s);
    }
}

/// Replaces every `c` in `s` by `with`, as `str::replace` does with a
/// one-character pattern.
pub fn replace_all_char(s: &str, c: char, with: &str) -> (res: String)
    ensures
        res@ == replace_char(s@, c, with@),
{
    let cs = chars_of(s);
    let mut res = String::new();
    let mut i: usize = 0;
    while i < cs.len()
        invariant
            cs@ == s@,
            i <= cs.len(),
            res@ == replace_char(cs@.take(i as int), c, with@),
        decreases cs.len() - i,
    {
        assert(cs@.take(i + 1).drop_last() =~= cs@.take(i as int));
        if cs[i] == c {
            res.append(with);
        } else {
            push_char(&mut res, cs[i]);
            assert(res@ =~= replace_char(cs@.take(i as int), c, with@) + seq![cs@[i as int]]);
        }
        i += 1;
    }
    assert(cs@.take(cs.len() as int) =~= cs@);
    res
}

/// Joins `words` with single spaces, as `[&str]::join(" ")` does.
pub fn join_words(words: &[&str]) -> (res: String)
    ensures
        res@ == join_with(str_views(words@), seq![' ']),
{
    let ghost w = str_views(words@);
    let mut res = String::new();
    let mut i: usize = 0;
    while i < words.len()
        invariant
            w == str_views(words@),
            i <= words.len(),
            res@ == join_with(w.take(i as int), seq![' ']),
        decreases words.len() - i,
    {
        assert(w.take(i + 1).drop_last() =~= w.take(i as int));
        assert(w.take(i + 1).last() == words@[i as int]@);
        if i > 0 {
            push_char(&mut res, ' ');
        }
        res.append(words[i]);
        proof {
            if i == 0 {
                assert(res@ =~= join_with(w.take(1), seq![' ']));
            }
        }
        i += 1;
    }
    assert(w.take(words.len() as int) =~= w);
    res
}

} // verus!

verus! {

/// Whether `c` has the Unicode White_Space property, which is what
/// `char::is_whitespace` tests.
pub open spec fn spec_is_whitespace(c: char) -> bool {
    (9 <= c as int <= 13) || c as int == 0x20 || c as int == 0x85 || c as int == 0xA0 || c as int
        == 0x1680 || (0x2000 <= c as int <= 0x200A) || c as int == 0x2028 || c as int == 0x2029
        || c as int == 0x202F || c as int == 0x205F || c as int == 0x3000
}

/// Tests for Unicode whitespace.
#[verifier::when_used_as_spec(spec_is_whitespace)]
pub fn is_whitespace(c: char) -> (res: bool)
    ensures
        res == spec_is_whitespace(c),
{
    (c >= '\t' && c <= '\r') || c == ' ' || c == '\u{85}' || c == '\u{A0}' || c == '\u{1680}' || (c
        >= '\u{2000}' && c <= '\u{200A}') || c == '\u{2028}' || c == '\u{2029}' || c == '\u{202F}'
        || c == '\u{205F}' || c == '\u{3000}'
}

/// `s` without its leading whitespace.
pub open spec fn trim_start(s: Seq<char>) -> Seq<char>
    decreases s.len(),
{
    if s.len() > 0 && spec_is_whitespace(s[0]) {
        trim_start(s.drop_first())
    } else {
        s
    }
}

/// `s` without its trailing whitespace.
pub open spec fn trim_end(s: Seq<char>) -> Seq<char>
    decreases s.len(),
{
    if s.len() > 0 && spec_is_whitespace(s.last()) {
        trim_end(s.drop_last())
    } else {
        s
    }
}

/// `s` without leading and trailing whitespace, as `str::trim` gives it.
pub fn trim(s: &str) -> (res: &str)
    ensures
        res@ == trim_end(trim_start(s@)),
{
    let cs = chars_of(s);
    let n = cs.len();
    let mut a: usize = 0;
    assert(cs@.skip(0) =~= cs@);
    while a < n && is_whitespace(cs[a])
        invariant
            cs@ == s@,
            n == cs@.len(),
            a <= n,
            trim_start(cs@) == trim_start(cs@.skip(a as int)),
        decreases n - a,
    {
        assert(cs@.skip(a as int).drop_first() =~= cs@.skip(a + 1));
        a += 1;
    }
    let ghost rest = cs@.skip(a as int);
    assert(trim_start(rest) == rest);
    let mut b: usize = n;
    assert(rest.subrange(0, (n - a) as int) =~= rest);
    while b > a && is_whitespace(cs[b - 1])
        invariant
            cs@ == s@,
            n == cs@.len(),
            a <= b <= n,
            rest == cs@.skip(a as int),
            trim_end(rest) == trim_end(cs@.subrange(a as int, b as int)),
        decreases b,
    {
        assert(cs@.subrange(a as int, b as int).drop_last() =~= cs@.subrange(a as int, b - 1));
        b -= 1;
    }
    let res = s.substring_char(a, b);
    assert(s@.subrange(a as int, b as int) =~= cs@.subrange(a as int, b as int));
    res
}

} // verus!

verus! {

/// What trimming removes is whitespace at the two ends, and what it keeps
/// starts and ends with a non-whitespace character.
pub proof fn lemma_trim(s: Seq<char>)
    ensures
        exists|a: int, b: int|
            0 <= a <= b <= s.len() && trim_end(trim_start(s)) == s.subrange(a, b) && (forall|j: int|
                0 <= j < a ==> spec_is_whitespace(#[trigger] s[j])) && (forall|j: int|
                b <= j < s.len() ==> spec_is_whitespace(#[trigger] s[j])) && (a < b ==> (
            !spec_is_whitespace(s[a]) && !spec_is_whitespace(s[b - 1]))),
{
    let (a, t) = lemma_trim_start(s);
    let b = lemma_trim_end(t);
    assert(trim_end(trim_start(s)) == s.subrange(a, a + b));
    assert forall|j: int| a + b <= j < s.len() implies spec_is_whitespace(#[trigger] s[j]) by {
        assert(s[j] == t[j - a]);
    }
    if b > 0 {
        assert(s[a] == t[0]);
        assert(s[a + b - 1] == t[b - 1]);
    }
}

proof fn lemma_trim_start(s: Seq<char>) -> (r: (int, Seq<char>))
    ensures
        0 <= r.0 <= s.len(),
        r.1 == trim_start(s),
        r.1 == s.subrange(r.0, s.len() as int),
        forall|j: int| 0 <= j < r.0 ==> spec_is_whitespace(#[trigger] s[j]),
        r.1.len() > 0 ==> !spec_is_whitespace(r.1[0]),
    decreases s.len(),
{
    if s.len() > 0 && spec_is_whitespace(s[0]) {
        let (a, t) = lemma_trim_start(s.drop_first());
        assert(s.drop_first().subrange(a, s.drop_first().len() as int) =~= s.subrange(a + 1, s.len() as int));
        assert forall|j: int| 0 <= j < a + 1 implies spec_is_whitespace(#[trigger] s[j]) by {
            if j > 0 {
                assert(s[j] == s.drop_first()[j - 1]);
            }
        }
        (a + 1, t)
    } else {
        assert(s.subrange(0, s.len() as int) =~= s);
        (0, s)
    }
}

proof fn lemma_trim_end(t: Seq<char>) -> (b: int)
    ensures
        0 <= b <= t.len(),
        trim_end(t) == t.subrange(0, b),
        forall|j: int| b <= j < t.len() ==> spec_is_whitespace(#[trigger] t[j]),
        b > 0 ==> !spec_is_whitespace(t[b - 1]),
    decreases t.len(),
{
    if t.len() > 0 && spec_is_whitespace(t.last()) {
        let b = lemma_trim_end(t.drop_last());
        assert(t.drop_last().subrange(0, b) =~= t.subrange(0, b));
        assert forall|j: int| b <= j < t.len() implies spec_is_whitespace(#[trigger] t[j]) by {
            if j < t.len() - 1 {
                assert(t[j] == t.drop_last()[j]);
            }
        }
        if b > 0 {
            assert(t[b - 1] == t.drop_last()[b - 1]);
        }
        b
    } else {
        assert(t.subrange(0, t.len() as int) =~= t);
        t.len() as int
    }
}

/// ASCII whitespace is whitespace; among ASCII characters only it and the
/// vertical tab are.
pub proof fn lemma_whitespace_ascii(c: char)
    ensures
        spec_is_ascii_space(c) ==> spec_is_whitespace(c),
        (c as int) < 0x80 ==> (spec_is_whitespace(c) <==> (spec_is_ascii_space(c) || c == '\x0B')),
{
}

} // verus!
