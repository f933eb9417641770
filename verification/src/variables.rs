//! Expanding `$NAME` and `${NAME}` in tokens from a table of declared
//! variables.

use vstd::prelude::*;
use vstd::string::StringSliceAdditionalSpecFns;
use vstd::utf8::{decode_utf8, encode_scalar, encode_utf8, has_width_1_encoding, is_char_boundary};

use crate::text::{lemma_views_push, views};

verus! {

/// The pattern of a variable reference: `$NAME` or `${NAME}`, where the
/// name is a run of word characters.
pub const VAR_PATTERN: &'static str = r"\$(\w+)|\$\{(\w+)\}";

/// A table of declared variables.  A later declaration of a name hides an
/// earlier one.
#[derive(Debug)]
pub struct VarDecls {
    entries: Vec<(String, String)>,
}

/// The table that a list of declarations makes.
pub open spec fn decl_map(entries: Seq<(String, String)>) -> Map<Seq<char>, Seq<char>>
    decreases entries.len(),
{
    if entries.len() == 0 {
        Map::empty()
    } else {
        decl_map(entries.drop_last()).insert(entries.last().0@, entries.last().1@)
    }
}

impl View for VarDecls {
    type V = Map<Seq<char>, Seq<char>>;

    closed spec fn view(&self) -> Map<Seq<char>, Seq<char>> {
        decl_map(self.entries@)
    }
}

/// Declarations after position `i` that do not name `k` leave its entry
/// as it was.
proof fn lemma_decl_map_tail(entries: Seq<(String, String)>, i: int, k: Seq<char>)
    requires
        0 <= i <= entries.len(),
        forall|j: int| i <= j < entries.len() ==> (#[trigger] entries[j]).0@ != k,
    ensures
        decl_map(entries).contains_key(k) == decl_map(entries.take(i)).contains_key(k),
        decl_map(entries).contains_key(k) ==> decl_map(entries)[k] == decl_map(entries.take(i))[k],
    decreases entries.len() - i,
{
    if i < entries.len() {
        let d = entries.drop_last();
        assert(d.take(i) =~= entries.take(i));
        lemma_decl_map_tail(d, i, k);
    } else {
        assert(entries.take(i) =~= entries);
    }
}

impl VarDecls {
    /// An empty table.
    pub fn new() -> (d: Self)
        ensures
            d@ == Map::<Seq<char>, Seq<char>>::empty(),
    {
        VarDecls { entries: Vec::new() }
    }

    /// Declares `name` with `value`, replacing an earlier declaration.
    pub fn insert(&mut self, name: String, value: String)
        ensures
            final(self)@ == old(self)@.insert(name@, value@),
    {
        let ghost before = self.entries@;
        self.entries.push((name, value));
        assert(self.entries@.drop_last() =~= before);
    }

    /// The value of `name`, if it is declared.
    pub fn get(&self, name: &str) -> (r: Option<&String>)
        ensures
            r is Some <==> self@.contains_key(name@),
            r is Some ==> r.unwrap()@ == self@[name@],
    {
        let key = String::from_str(name);
        let mut i = self.entries.len();
        while i > 0
            invariant
                i <= self.entries.len(),
                key@ == name@,
                forall|j: int| i <= j < self.entries@.len() ==> (#[trigger] self.entries@[j]).0@ != key@,
            decreases i,
        {
            if self.entries[i - 1].0 == key {
                proof {
                    lemma_decl_map_tail(self.entries@, i as int, key@);
                    let t = self.entries@.take(i as int);
                    assert(t.drop_last() =~= self.entries@.take(i - 1));
                    assert(t.last() == self.entries@[i - 1]);
                }
                return Some(&self.entries[i - 1].1);
            }
            i -= 1;
        }
        proof {
            lemma_decl_map_tail(self.entries@, 0, key@);
            assert(self.entries@.take(0) =~= Seq::<(String, String)>::empty());
        }
        None
    }
}

/// The value that replaces a variable reference, given its two capture
/// groups (`$NAME`, `${NAME}`): the declared value of the first group that
/// matched, or the empty string when that name is not declared.
pub open spec fn replacement_of(
    decls: Map<Seq<char>, Seq<char>>,
    g1: Option<Seq<char>>,
    g2: Option<Seq<char>>,
) -> Seq<char> {
    let name = match g1 {
        Some(n) => n,
        None => match g2 {
            Some(n) => n,
            None => Seq::empty(),
        },
    };
    if decls.contains_key(name) {
        decls[name]
    } else {
        Seq::empty()
    }
}

/// The views of an optional string slice.
pub open spec fn opt_str_view(o: Option<&str>) -> Option<Seq<char>> {
    match o {
        Some(s) => Some(s@),
        None => None,
    }
}

/// The text that replaces one variable reference.
pub fn var_replacement(decls: &VarDecls, g1: Option<&str>, g2: Option<&str>) -> (res: String)
    ensures
        res@ == replacement_of(decls@, opt_str_view(g1), opt_str_view(g2)),
{
    let name = match g1 {
        Some(n) => n,
        None => match g2 {
            Some(n) => n,
            None => "",
        },
    };
    proof {
        reveal_strlit("");
        assert(""@ =~= Seq::<char>::empty());
    }
    match decls.get(name) {
        Some(v) => v.clone(),
        None => String::new(),
    }
}

/// Whether `regex::Regex::new` accepts a pattern.  Which patterns it
/// accepts depends on the pattern alone (its syntax, and the size of the
/// compiled program against the default limit).
pub uninterp spec fn pattern_compiles(pattern: Seq<char>) -> bool;

/// One match of a variable reference: the byte range it covers in the
/// text, and the text of its first two capture groups, where they took part.
#[derive(Debug)]
pub struct VarMatch {
    pub start: usize,
    pub end: usize,
    pub group1: Option<String>,
    pub group2: Option<String>,
}

/// The mathematical value of a [`VarMatch`].
pub type MatchView = (usize, usize, Option<Seq<char>>, Option<Seq<char>>);

/// The view of an optional string.
pub open spec fn opt_string_view(o: Option<String>) -> Option<Seq<char>> {
    match o {
        Some(s) => Some(s@),
        None => None,
    }
}

impl View for VarMatch {
    type V = MatchView;

    open spec fn view(&self) -> MatchView {
        (self.start, self.end, opt_string_view(self.group1), opt_string_view(self.group2))
    }
}

/// The views of a list of matches.
pub open spec fn match_views(v: Seq<VarMatch>) -> Seq<MatchView> {
    v.map_values(|m: VarMatch| m@)
}

/// The successive non-overlapping matches, with their capture groups, that
/// `regex::Regex::captures_iter` finds for the regex compiled from
/// `pattern` in `text`.
pub uninterp spec fn var_matches(pattern: Seq<char>, text: Seq<char>) -> Seq<MatchView>;

/// The matches lie in order inside the text, do not overlap, and begin and
/// end on character boundaries.
pub open spec fn well_placed(bytes: Seq<u8>, ms: Seq<MatchView>) -> bool {
    &&& forall|k: int|
        0 <= k < ms.len() ==> (#[trigger] ms[k]).0 <= ms[k].1 <= bytes.len()
            && is_char_boundary(bytes, ms[k].0 as int) && is_char_boundary(bytes, ms[k].1 as int)
    &&& forall|k: int| 0 <= k < ms.len() - 1 ==> (#[trigger] ms[k]).1 <= ms[k + 1].0
}

/// The pattern was rejected by the regex compiler.
#[derive(Debug)]
pub struct PatternError;

/// The placement facts of one list of matches, and, for the variable
/// pattern, that each match begins with the byte of `$`.
pub open spec fn placed_matches(pattern: Seq<char>, bytes: Seq<u8>, ms: Seq<VarMatch>) -> bool {
    &&& well_placed(bytes, match_views(ms))
    &&& pattern == VAR_PATTERN@ ==> forall|k: int|
        0 <= k < ms.len() ==> (#[trigger] ms[k]).start < bytes.len() && bytes[ms[k].start as int]
            == 36u8
}

/// Compiles `pattern` with `regex::Regex::new` and, when it compiles, finds
/// the variable references in each of `texts` with
/// `regex::Regex::captures_iter`, keeping of each match its byte range
/// (group 0, which the crate documents to be always present) and its first
/// two capture groups.  The contract claims: the compilation succeeds
/// exactly for the patterns the crate accepts; the matches of each text
/// are the named result for the pattern and that text, and, as the crate
/// documents, they are successive and non-overlapping and their offsets
/// fall on character boundaries of the text.  For the variable pattern it
/// adds what the pattern syntax documents: both of its alternatives begin
/// with the escaped literal `\$`, so every match begins with `$`.
#[verifier::external_body]
fn find_matches(pattern: &str, texts: &Vec<String>) -> (res: Option<Vec<Vec<VarMatch>>>)
    ensures
        res is Some <==> pattern_compiles(pattern@),
        res matches Some(all) ==> all@.len() == texts@.len() && forall|i: int|
            0 <= i < texts@.len() ==> match_views((#[trigger] all@[i])@) == var_matches(
                pattern@,
                texts@[i]@,
            ) && placed_matches(pattern@, encode_utf8(texts@[i]@), all@[i]@),
{
    let re = regex::Regex::new(pattern).ok()?;
    Some(texts.iter().map(|t| re.captures_iter(t).map(|c| {
        let whole = c.get(0).unwrap();
        VarMatch {
            start: whole.start(),
            end: whole.end(),
            group1: c.get(1).map(|g| g.as_str().to_string()),
            group2: c.get(2).map(|g| g.as_str().to_string()),
        }
    }).collect()).collect())
}

/// The part of `s` between byte offsets `a` and `b`, which lie inside `s`
/// on character boundaries.
fn byte_slice(s: &str, a: usize, b: usize) -> (res: &str)
    requires
        a <= b <= s.spec_bytes().len(),
        is_char_boundary(s.spec_bytes(), a as int),
        is_char_boundary(s.spec_bytes(), b as int),
    ensures
        res.spec_bytes() == s.spec_bytes().subrange(a as int, b as int),
{
    let ghost bytes = s.spec_bytes();
    proof {
        vstd::utf8::encode_utf8_valid_utf8(s@);
        vstd::utf8::valid_utf8_split(bytes, b as int);
        let sub = bytes.subrange(0, b as int);
        if a < b {
            vstd::utf8::is_char_boundary_iff_not_is_continuation_byte(bytes, a as int);
            vstd::utf8::is_char_boundary_iff_not_is_continuation_byte(sub, a as int);
            assert(sub[a as int] == bytes[a as int]);
        } else {
            vstd::utf8::is_char_boundary_start_end_of_seq(sub);
        }
    }
    let (left, _) = s.split_at(b);
    assert(left.spec_bytes() =~= bytes.subrange(0, b as int));
    let (_, mid) = left.split_at(a);
    assert(mid.spec_bytes() =~= bytes.subrange(a as int, b as int));
    mid
}

/// The text that `bytes` encode, with the matches from the `k`-th on
/// replaced, the text before them starting at byte `from`: the text up to
/// each match, then its replacement, then the text after the last one.
pub open spec fn splice(
    bytes: Seq<u8>,
    ms: Seq<MatchView>,
    decls: Map<Seq<char>, Seq<char>>,
    from: int,
    k: int,
) -> Seq<char>
    decreases ms.len() - k,
{
    if k < 0 || k >= ms.len() {
        decode_utf8(bytes.subrange(from, bytes.len() as int))
    } else {
        decode_utf8(bytes.subrange(from, ms[k].0 as int)) + replacement_of(decls, ms[k].2, ms[k].3)
            + splice(bytes, ms, decls, ms[k].1 as int, k + 1)
    }
}

/// `text` with every variable reference that the regex compiled from
/// `pattern` finds in it replaced by its value.
pub open spec fn expand_text(pattern: Seq<char>, text: Seq<char>, decls: Map<Seq<char>, Seq<char>>) -> Seq<char> {
    splice(encode_utf8(text), var_matches(pattern, text), decls, 0, 0)
}

/// Replaces each of the matches `ms` in `text` by the declared value of
/// its name, or by nothing when the name is not declared, and keeps the
/// text around them.
pub fn splice_matches(text: &str, ms: &Vec<VarMatch>, decls: &VarDecls) -> (res: String)
    requires
        well_placed(text.spec_bytes(), match_views(ms@)),
    ensures
        res@ == splice(text.spec_bytes(), match_views(ms@), decls@, 0, 0),
{
    let ghost bytes = text.spec_bytes();
    let ghost mv = match_views(ms@);
    let mut out = String::new();
    let mut last: usize = 0;
    let mut k: usize = 0;
    proof {
        vstd::utf8::encode_utf8_valid_utf8(text@);
        vstd::utf8::is_char_boundary_start_end_of_seq(bytes);
    }
    while k < ms.len()
        invariant
            bytes == text.spec_bytes(),
            vstd::utf8::valid_utf8(bytes),
            is_char_boundary(bytes, bytes.len() as int),
            mv == match_views(ms@),
            well_placed(bytes, mv),
            k <= ms.len(),
            k == 0 ==> last == 0,
            k > 0 ==> last == mv[k - 1].1,
            last <= bytes.len(),
            is_char_boundary(bytes, last as int),
            out@ + splice(bytes, mv, decls@, last as int, k as int) == splice(bytes, mv, decls@, 0, 0),
        decreases ms.len() - k,
    {
        let mk = &ms[k];
        assert(mv[k as int] == mk@);
        proof {
            if k > 0 {
                assert(mv[k - 1].1 <= mv[k - 1 + 1].0);
            }
        }
        let piece = byte_slice(text, last, mk.start);
        let rep = var_replacement(decls, opt_as_str(&mk.group1), opt_as_str(&mk.group2));
        let ghost before = out@;
        out.append(piece);
        out.append(rep.as_str());
        proof {
            vstd::utf8::encode_utf8_decode_utf8(piece@);
            let p = decode_utf8(bytes.subrange(last as int, mv[k as int].0 as int));
            let r = replacement_of(decls@, mv[k as int].2, mv[k as int].3);
            assert(out@ == before + p + r);
            lemma_splice_step(bytes, mv, decls@, last as int, k as int);
            assert(out@ + splice(bytes, mv, decls@, mv[k as int].1 as int, k + 1) =~= before + splice(
                bytes,
                mv,
                decls@,
                last as int,
                k as int,
            ));
        }
        last = mk.end;
        k += 1;
    }
    let total = text.as_bytes().len();
    let piece = byte_slice(text, last, total);
    proof {
        vstd::utf8::encode_utf8_decode_utf8(piece@);
    }
    out.append(piece);
    out
}

/// One step of the splice: the text up to the match, its replacement, and
/// the rest.
proof fn lemma_splice_step(
    bytes: Seq<u8>,
    ms: Seq<MatchView>,
    decls: Map<Seq<char>, Seq<char>>,
    from: int,
    k: int,
)
    requires
        0 <= k < ms.len(),
    ensures
        splice(bytes, ms, decls, from, k) == decode_utf8(bytes.subrange(from, ms[k].0 as int))
            + replacement_of(decls, ms[k].2, ms[k].3) + splice(bytes, ms, decls, ms[k].1 as int, k + 1),
{
}

/// The text of an optional string.
fn opt_as_str(o: &Option<String>) -> (r: Option<&str>)
    ensures
        opt_str_view(r) == opt_string_view(*o),
{
    match o {
        Some(s) => Some(s.as_str()),
        None => None,
    }
}

/// The UTF-8 encoding of a character holds the byte of `$` only when the
/// character is `$`: every byte of a longer encoding has its high bit set.
proof fn lemma_scalar_dollar(c: char, j: int)
    requires
        0 <= j < encode_scalar(c as u32).len(),
        encode_scalar(c as u32)[j] == 36u8,
    ensures
        c == '$',
{
    let u = c as u32;
    vstd::utf8::char_is_scalar(c);
    assert(forall|x: u8| #![auto] (0xC0u8 | x) != 36u8 && (0xE0u8 | x) != 36u8 && (0xF0u8 | x) != 36u8
        && (0x80u8 | x) != 36u8) by (bit_vector);
    if has_width_1_encoding(u) {
        assert(u <= 0x7F && ((u & 0x7F) as u8) == 36u8 ==> u == 36u32) by (bit_vector);
        vstd::utf8::char_u32_cast(c, u);
        vstd::utf8::char_u32_cast('$', '$' as u32);
    }
}

/// The UTF-8 encoding of a text holds the byte of `$` only when the text
/// holds `$`.
proof fn lemma_encoded_dollar(s: Seq<char>, i: int)
    requires
        0 <= i < encode_utf8(s).len(),
        encode_utf8(s)[i] == 36u8,
    ensures
        s.contains('$'),
    decreases s.len(),
{
    if s.len() > 0 {
        let first = encode_scalar(s[0] as u32);
        let rest = s.drop_first();
        assert(encode_utf8(s) == first + encode_utf8(rest));
        if i < first.len() {
            lemma_scalar_dollar(s[0], i);
            assert(s[0] == '$');
        } else {
            lemma_encoded_dollar(rest, i - first.len());
            let k = choose|k: int| 0 <= k < rest.len() && rest[k] == '$';
            assert(s[k + 1] == '$');
        }
    }
}

/// Without matches, the text is kept as it is.
pub proof fn lemma_no_matches(pattern: Seq<char>, text: Seq<char>, decls: Map<Seq<char>, Seq<char>>)
    requires
        var_matches(pattern, text).len() == 0,
    ensures
        expand_text(pattern, text, decls) == text,
{
    broadcast use vstd::utf8::group_utf8_lib;
    let b = encode_utf8(text);
    assert(b.subrange(0, b.len() as int) =~= b);
}

/// The non-empty strings of `s`, in order.
pub open spec fn non_empty(s: Seq<Seq<char>>) -> Seq<Seq<char>>
    decreases s.len(),
{
    if s.len() == 0 {
        Seq::empty()
    } else {
        non_empty(s.drop_last()) + if s.last().len() > 0 {
            seq![s.last()]
        } else {
            Seq::empty()
        }
    }
}

/// After dropping, no token is empty; and when none was empty, nothing is
/// dropped.
pub proof fn lemma_non_empty(s: Seq<Seq<char>>)
    ensures
        forall|k: int| 0 <= k < non_empty(s).len() ==> (#[trigger] non_empty(s)[k]).len() > 0,
        (forall|k: int| 0 <= k < s.len() ==> (#[trigger] s[k]).len() > 0) ==> non_empty(s) == s,
        non_empty(s).len() <= s.len(),
    decreases s.len(),
{
    if s.len() > 0 {
        let d = s.drop_last();
        lemma_non_empty(d);
        let prev = non_empty(d);
        let m = non_empty(s);
        assert forall|k: int| 0 <= k < m.len() implies (#[trigger] m[k]).len() > 0 by {
            if k < prev.len() {
                assert(m[k] == prev[k]);
            }
        }
        if forall|k: int| 0 <= k < s.len() ==> (#[trigger] s[k]).len() > 0 {
            assert(s.last() == s[s.len() - 1]);
            assert forall|k: int| 0 <= k < d.len() implies (#[trigger] d[k]).len() > 0 by {
                assert(d[k] == s[k]);
            }
            assert(d.push(s.last()) =~= s);
        }
    } else {
        assert(non_empty(s) =~= s);
    }
}

/// Drops the empty tokens, keeping the order of the others.
pub fn drop_empty(tokens: Vec<String>) -> (res: Vec<String>)
    ensures
        views(res@) == non_empty(views(tokens@)),
{
    let ghost t = views(tokens@);
    let mut res: Vec<String> = Vec::new();
    let mut i: usize = 0;
    assert(views(res@) =~= non_empty(t.take(0)));
    while i < tokens.len()
        invariant
            t == views(tokens@),
            i <= tokens.len(),
            views(res@) == non_empty(t.take(i as int)),
        decreases tokens.len() - i,
    {
        assert(t.take(i + 1).drop_last() =~= t.take(i as int));
        assert(t.take(i + 1).last() == tokens@[i as int]@);
        let tok = &tokens[i];
        if tok.as_str().unicode_len() > 0 {
            proof {
                lemma_views_push(res@, *tok);
            }
            res.push(tok.clone());
        } else {
            assert(views(res@) =~= non_empty(t.take(i + 1)));
        }
        i += 1;
    }
    assert(t.take(tokens.len() as int) =~= t);
    res
}

/// The tokens after expansion with the matcher for `pattern`: each token
/// with its variable references replaced, then the empty ones dropped.
pub open spec fn expanded(
    pattern: Seq<char>,
    decls: Map<Seq<char>, Seq<char>>,
    tokens: Seq<Seq<char>>,
) -> Seq<Seq<char>> {
    non_empty(tokens.map_values(|t: Seq<char>| expand_text(pattern, t, decls)))
}

/// Each token with its matches replaced, as `splice_matches` does.
pub open spec fn spliced_all(
    tokens: Seq<String>,
    found: Seq<Vec<VarMatch>>,
    decls: Map<Seq<char>, Seq<char>>,
) -> Seq<Seq<char>> {
    Seq::new(
        tokens.len(),
        |i: int| splice(encode_utf8(tokens[i]@), match_views(found[i]@), decls, 0, 0),
    )
}

/// Replaces, in every token, the matches found for it, and drops the
/// tokens that become empty.
pub fn expand_all(tokens: &Vec<String>, found: &Vec<Vec<VarMatch>>, decls: &VarDecls) -> (res: Vec<String>)
    requires
        found@.len() == tokens@.len(),
        forall|i: int|
            0 <= i < tokens@.len() ==> well_placed(
                encode_utf8(tokens@[i]@),
                match_views((#[trigger] found@[i])@),
            ),
    ensures
        views(res@) == non_empty(spliced_all(tokens@, found@, decls@)),
{
    let ghost all = spliced_all(tokens@, found@, decls@);
    let mut replaced: Vec<String> = Vec::new();
    let mut i: usize = 0;
    while i < tokens.len()
        invariant
            found@.len() == tokens@.len(),
            forall|i: int|
                0 <= i < tokens@.len() ==> well_placed(
                    encode_utf8(tokens@[i]@),
                    match_views((#[trigger] found@[i])@),
                ),
            all == spliced_all(tokens@, found@, decls@),
            i <= tokens.len(),
            views(replaced@) == all.take(i as int),
        decreases tokens.len() - i,
    {
        let t = tokens[i].as_str();
        assert(found@[i as int] == found[i as int]);
        let r = splice_matches(t, &found[i], decls);
        proof {
            lemma_views_push(replaced@, r);
        }
        replaced.push(r);
        assert(views(replaced@) =~= all.take(i + 1));
        i += 1;
    }
    assert(all.take(tokens.len() as int) =~= all);
    drop_empty(replaced)
}

/// A text without `$` holds no reference, so it is kept as it is.
proof fn lemma_no_dollar(text: Seq<char>, ms: Seq<VarMatch>, decls: Map<Seq<char>, Seq<char>>)
    requires
        match_views(ms) == var_matches(VAR_PATTERN@, text),
        placed_matches(VAR_PATTERN@, encode_utf8(text), ms),
        !text.contains('$'),
    ensures
        expand_text(VAR_PATTERN@, text, decls) == text,
{
    if ms.len() > 0 {
        assert(ms[0].start < encode_utf8(text).len() && encode_utf8(text)[ms[0].start as int] == 36u8);
        lemma_encoded_dollar(text, ms[0].start as int);
    }
    assert(var_matches(VAR_PATTERN@, text).len() == 0);
    lemma_no_matches(VAR_PATTERN@, text, decls);
}

/// Expands `$NAME` and `${NAME}` in every token from `decls`; a name that
/// is not declared expands to nothing, and a token that becomes empty is
/// dropped.  Fails, leaving the tokens as they are, when the regex
/// compiler rejects the variable pattern.
pub fn expand_vars(decls: &VarDecls, tokens: &mut Vec<String>) -> (r: Result<(), PatternError>)
    ensures
        r is Ok <==> pattern_compiles(VAR_PATTERN@),
        r is Ok ==> views(final(tokens)@) == expanded(VAR_PATTERN@, decls@, views(old(tokens)@)),
        r is Err ==> final(tokens)@ == old(tokens)@,
        r is Ok ==> final(tokens)@.len() <= old(tokens)@.len(),
        r is Ok ==> forall|k: int|
            0 <= k < old(tokens)@.len() && !(#[trigger] old(tokens)@[k])@.contains('$')
                ==> expand_text(VAR_PATTERN@, old(tokens)@[k]@, decls@) == old(tokens)@[k]@,
        r is Ok && (forall|k: int|
            0 <= k < old(tokens)@.len() ==> !(#[trigger] old(tokens)@[k])@.contains('$')
                && old(tokens)@[k]@.len() > 0) ==> views(final(tokens)@) == views(old(tokens)@),
{
    let found = match find_matches(VAR_PATTERN, tokens) {
        Some(f) => f,
        None => return Err(PatternError),
    };
    let ghost old_tokens = tokens@;
    let ghost before = views(tokens@);
    let ghost mapped = before.map_values(|t: Seq<char>| expand_text(VAR_PATTERN@, t, decls@));
    proof {
        assert forall|i: int| 0 <= i < tokens@.len() implies well_placed(
            encode_utf8(tokens@[i]@),
            match_views((#[trigger] found@[i])@),
        ) by {
            assert(placed_matches(VAR_PATTERN@, encode_utf8(tokens@[i]@), found@[i]@));
            assert(match_views(found@[i]@) == var_matches(VAR_PATTERN@, tokens@[i]@));
        }
        assert(spliced_all(tokens@, found@, decls@) =~= mapped) by {
            assert forall|i: int| 0 <= i < mapped.len() implies spliced_all(tokens@, found@, decls@)[i]
                == mapped[i] by {
                assert(placed_matches(VAR_PATTERN@, encode_utf8(tokens@[i]@), found@[i]@));
            assert(match_views(found@[i]@) == var_matches(VAR_PATTERN@, tokens@[i]@));
                assert(before[i] == tokens@[i]@);
            }
        }
        assert forall|k: int|
            0 <= k < old_tokens.len() && !(#[trigger] old_tokens[k])@.contains('$')
                implies expand_text(VAR_PATTERN@, old_tokens[k]@, decls@) == old_tokens[k]@ by {
            assert(placed_matches(VAR_PATTERN@, encode_utf8(old_tokens[k]@), found@[k]@));
            assert(match_views(found@[k]@) == var_matches(VAR_PATTERN@, old_tokens[k]@));
            lemma_no_dollar(old_tokens[k]@, found@[k]@, decls@);
        }
        lemma_non_empty(mapped);
        if forall|k: int|
            0 <= k < old_tokens.len() ==> !(#[trigger] old_tokens[k])@.contains('$')
                && old_tokens[k]@.len() > 0 {
            assert(mapped =~= before) by {
                assert forall|k: int| 0 <= k < before.len() implies mapped[k] == before[k] by {
                    assert(before[k] == old_tokens[k]@);
                    assert(!old_tokens[k]@.contains('$'));
                }
            }
            assert forall|k: int| 0 <= k < mapped.len() implies (#[trigger] mapped[k]).len() > 0 by {
                assert(before[k] == old_tokens[k]@);
                assert(old_tokens[k]@.len() > 0);
            }
        }
    }
    *tokens = expand_all(tokens, &found, decls);
    assert(views(tokens@).len() == tokens@.len());
    Ok(())
}

} // verus!
