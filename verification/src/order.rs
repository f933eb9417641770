//! Lexicographic order on strings, and sorted sets of strings.

use vstd::prelude::*;

use crate::text::{chars_of, views};

verus! {

/// `a` sorts strictly before `b`: code point by code point, a proper
/// prefix first.  This is the order of `String`'s `Ord`, since UTF-8
/// preserves the order of code points.
pub open spec fn lex_lt(a: Seq<char>, b: Seq<char>) -> bool
    decreases a.len(),
{
    if a.len() == 0 {
        b.len() > 0
    } else if b.len() == 0 {
        false
    } else if a[0] != b[0] {
        (a[0] as int) < (b[0] as int)
    } else {
        lex_lt(a.drop_first(), b.drop_first())
    }
}

/// Nothing sorts before itself.
pub proof fn lemma_lex_irreflexive(a: Seq<char>)
    ensures
        !lex_lt(a, a),
    decreases a.len(),
{
    if a.len() > 0 {
        lemma_lex_irreflexive(a.drop_first());
    }
}

/// The order is transitive.
pub proof fn lemma_lex_transitive(a: Seq<char>, b: Seq<char>, c: Seq<char>)
    requires
        lex_lt(a, b),
        lex_lt(b, c),
    ensures
        lex_lt(a, c),
    decreases a.len(),
{
    if a.len() > 0 && b.len() > 0 && c.len() > 0 && a[0] == b[0] && b[0] == c[0] {
        lemma_lex_transitive(a.drop_first(), b.drop_first(), c.drop_first());
    }
}

/// Of two different strings, one sorts before the other.
pub proof fn lemma_lex_total(a: Seq<char>, b: Seq<char>)
    ensures
        a == b || lex_lt(a, b) || lex_lt(b, a),
    decreases a.len(),
{
    if a.len() > 0 && b.len() > 0 && a[0] == b[0] {
        lemma_lex_total(a.drop_first(), b.drop_first());
        if a.drop_first() == b.drop_first() {
            assert forall|i: int| 0 <= i < a.len() implies a[i] == b[i] by {
                if i > 0 {
                    assert(a[i] == a.drop_first()[i - 1]);
                    assert(b[i] == b.drop_first()[i - 1]);
                }
            }
            assert(a =~= b);
        }
    } else if a.len() == 0 && b.len() == 0 {
        assert(a =~= b);
    } else if a.len() > 0 && b.len() > 0 {
        assert((a[0] as int) != (b[0] as int));
    }
}

/// The strings of `s` are in strictly increasing order, hence distinct.
pub open spec fn strictly_sorted(s: Seq<Seq<char>>) -> bool {
    forall|i: int, j: int| 0 <= i < j < s.len() ==> lex_lt(#[trigger] s[i], #[trigger] s[j])
}

/// Whether `a` sorts strictly before `b`.
pub fn string_lt(a: &String, b: &String) -> (res: bool)
    ensures
        res == lex_lt(a@, b@),
{
    let x = chars_of(a.as_str());
    let y = chars_of(b.as_str());
    let mut i: usize = 0;
    assert(x@.skip(0) =~= x@);
    assert(y@.skip(0) =~= y@);
    while i < x.len() && i < y.len() && x[i] == y[i]
        invariant
            i <= x.len(),
            i <= y.len(),
            x@ == a@,
            y@ == b@,
            lex_lt(x@, y@) == lex_lt(x@.skip(i as int), y@.skip(i as int)),
        decreases x.len() - i,
    {
        assert(x@.skip(i as int).drop_first() =~= x@.skip(i + 1));
        assert(y@.skip(i as int).drop_first() =~= y@.skip(i + 1));
        i += 1;
    }
    if i == x.len() {
        assert(x@.skip(i as int).len() == 0);
        i < y.len()
    } else if i == y.len() {
        false
    } else {
        assert(x@.skip(i as int)[0] == x@[i as int]);
        assert(y@.skip(i as int)[0] == y@[i as int]);
        let c: char = x[i];
        let d: char = y[i];
        c < d
    }
}

/// Adds `s` to the strictly sorted `set` unless it is there already.
pub fn insert_sorted(set: &mut Vec<String>, s: String)
    requires
        strictly_sorted(views(old(set)@)),
    ensures
        strictly_sorted(views(final(set)@)),
        views(final(set)@).to_set() == views(old(set)@).to_set().insert(s@),
{
    let ghost before = views(set@);
    let mut p: usize = 0;
    while p < set.len() && string_lt(&set[p], &s)
        invariant
            p <= set.len(),
            views(set@) == before,
            forall|k: int| 0 <= k < p ==> lex_lt(#[trigger] before[k], s@),
        decreases set.len() - p,
    {
        p += 1;
    }
    if p < set.len() && set[p] == s {
        assert(before[p as int] == s@);
        assert(views(set@).to_set() =~= before.to_set().insert(s@));
        return;
    }
    proof {
        if p < set.len() {
            assert(before[p as int] == set@[p as int]@);
            lemma_lex_total(before[p as int], s@);
        }
    }
    set.insert(p, s);
    let ghost after = views(set@);
    assert(after =~= before.insert(p as int, s@));
    assert forall|i: int, j: int| 0 <= i < j < after.len() implies lex_lt(
        #[trigger] after[i],
        #[trigger] after[j],
    ) by {
        if j < p {
        } else if j == p {
            assert(after[i] == before[i]);
        } else if i < p {
            assert(after[j] == before[j - 1]);
            if j - 1 == p {
            } else {
                lemma_lex_transitive(before[i], before[p as int], before[j - 1]);
            }
        } else if i == p {
            assert(after[j] == before[j - 1]);
            if j - 1 > p {
                lemma_lex_transitive(s@, before[p as int], before[j - 1]);
            }
        } else {
            assert(after[i] == before[i - 1]);
            assert(after[j] == before[j - 1]);
        }
    }
    assert(after.to_set() =~= before.to_set().insert(s@)) by {
        assert forall|x: Seq<char>| after.to_set().contains(x) <==> before.to_set().insert(
            s@,
        ).contains(x) by {
            if after.contains(x) {
                let k = choose|k: int| 0 <= k < after.len() && after[k] == x;
                if k < p {
                    assert(before[k] == x);
                } else if k > p {
                    assert(before[k - 1] == x);
                }
            }
            if before.contains(x) {
                let k = choose|k: int| 0 <= k < before.len() && before[k] == x;
                if k < p {
                    assert(after[k] == x);
                } else {
                    assert(after[k + 1] == x);
                }
            }
            if x == s@ {
                assert(after[p as int] == x);
            }
        }
    }
}

} // verus!

verus! {

/// A proper prefix sorts first.
pub proof fn lemma_lex_prefix(a: Seq<char>, b: Seq<char>)
    requires
        a.len() < b.len(),
        forall|j: int| 0 <= j < a.len() ==> a[j] == b[j],
    ensures
        lex_lt(a, b),
    decreases a.len(),
{
    if a.len() > 0 {
        assert forall|j: int| 0 <= j < a.drop_first().len() implies a.drop_first()[j]
            == b.drop_first()[j] by {
            assert(a[j + 1] == b[j + 1]);
        }
        assert(a[0] == b[0]);
        lemma_lex_prefix(a.drop_first(), b.drop_first());
    }
}

/// At the first position where two strings differ, the smaller character
/// sorts first.
pub proof fn lemma_lex_first_difference(a: Seq<char>, b: Seq<char>, k: int)
    requires
        0 <= k < a.len(),
        k < b.len(),
        forall|j: int| 0 <= j < k ==> a[j] == b[j],
        (a[k] as int) < (b[k] as int),
    ensures
        lex_lt(a, b),
    decreases k,
{
    if k > 0 {
        assert forall|j: int| 0 <= j < k - 1 implies a.drop_first()[j] == b.drop_first()[j] by {
            assert(a[j + 1] == b[j + 1]);
        }
        assert(a[0] == b[0]);
        lemma_lex_first_difference(a.drop_first(), b.drop_first(), k - 1);
    }
}

} // verus!
