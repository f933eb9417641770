//! Splitting a token list into the segments of a pipeline.

use vstd::prelude::*;

use crate::text::{lemma_views_push, views};

verus! {

/// The pipe token.
pub open spec fn pipe_token() -> Seq<char> {
    seq!['|']
}

/// The views of a list of token lists.
pub open spec fn segment_views(v: Seq<Vec<String>>) -> Seq<Seq<Seq<char>>> {
    v.map_values(|s: Vec<String>| views(s@))
}

/// The segments of `toks`: the runs of tokens between pipe tokens, in
/// order, one more than there are pipe tokens.
pub open spec fn segments_of(toks: Seq<Seq<char>>) -> Seq<Seq<Seq<char>>>
    decreases toks.len(),
{
    if toks.len() == 0 {
        seq![Seq::empty()]
    } else {
        let prev = segments_of(toks.drop_last());
        if toks.last() == pipe_token() {
            prev.push(Seq::empty())
        } else {
            prev.update(prev.len() - 1, prev.last().push(toks.last()))
        }
    }
}

/// The segments joined back together with a pipe token between neighbours.
pub open spec fn join_segments(segs: Seq<Seq<Seq<char>>>) -> Seq<Seq<char>>
    decreases segs.len(),
{
    if segs.len() <= 1 {
        if segs.len() == 1 { segs[0] } else { Seq::empty() }
    } else {
        join_segments(segs.drop_last()) + seq![pipe_token()] + segs.last()
    }
}

/// The number of pipe tokens in `toks`.
pub open spec fn pipe_count(toks: Seq<Seq<char>>) -> nat
    decreases toks.len(),
{
    if toks.len() == 0 {
        0
    } else {
        pipe_count(toks.drop_last()) + if toks.last() == pipe_token() { 1nat } else { 0nat }
    }
}

/// Splits `tokens` at each `|` token into the commands of a pipeline.
/// A pipe at either end, or two pipes in a row, give an empty segment.
pub fn split_pipeline(tokens: Vec<String>) -> (segs: Vec<Vec<String>>)
    ensures
        segment_views(segs@) == segments_of(views(tokens@)),
{
    let ghost toks = views(tokens@);
    let mut segs: Vec<Vec<String>> = Vec::new();
    let mut seg: Vec<String> = Vec::new();
    let mut i: usize = 0;
    assert(views(seg@) =~= Seq::<Seq<char>>::empty());
    assert(segment_views(segs@).push(views(seg@)) =~= segments_of(toks.take(0)));
    while i < tokens.len()
        invariant
            i <= tokens.len(),
            toks == views(tokens@),
            segment_views(segs@).push(views(seg@)) == segments_of(toks.take(i as int)),
        decreases tokens.len() - i,
    {
        let token = tokens[i].clone();
        let ghost prev = segments_of(toks.take(i as int));
        assert(toks.take(i + 1).drop_last() =~= toks.take(i as int));
        assert(toks.take(i + 1).last() == token@);
        if is_pipe(&token) {
            let done = seg;
            proof {
                assert(segment_views(segs@.push(done)) =~= segment_views(segs@).push(views(done@)));
            }
            segs.push(done);
            seg = Vec::new();
            assert(views(seg@) =~= Seq::<Seq<char>>::empty());
            assert(segment_views(segs@).push(views(seg@)) =~= prev.push(Seq::empty()));
        } else {
            proof {
                lemma_views_push(seg@, token);
            }
            let ghost old_seg = seg@;
            seg.push(token);
            assert(segment_views(segs@).push(views(seg@)) =~= prev.update(
                prev.len() - 1,
                prev.last().push(toks.take(i + 1).last()),
            ));
        }
        i += 1;
    }
    assert(toks.take(tokens.len() as int) =~= toks);
    let ghost before = segs@;
    segs.push(seg);
    assert(segment_views(segs@) =~= segment_views(before).push(views(seg@)));
    segs
}

/// Whether a token is the pipe token.
fn is_pipe(t: &String) -> (res: bool)
    ensures
        res == (t@ == pipe_token()),
{
    let s = t.as_str();
    if s.unicode_len() != 1 {
        return false;
    }
    let c = s.get_char(0);
    assert(c == '|' ==> t@ =~= pipe_token());
    c == '|'
}

/// Joining the segments of a pipeline with pipe tokens gives back the
/// tokens that were split.
pub proof fn lemma_split_join(toks: Seq<Seq<char>>)
    ensures
        join_segments(segments_of(toks)) == toks,
    decreases toks.len(),
{
    if toks.len() == 0 {
        assert(join_segments(segments_of(toks)) =~= toks);
    } else {
        let rest = toks.drop_last();
        lemma_split_join(rest);
        lemma_segments_nonempty(rest);
        let prev = segments_of(rest);
        if toks.last() == pipe_token() {
            assert(prev.push(Seq::empty()).drop_last() =~= prev);
            assert(join_segments(prev.push(Seq::empty())) =~= toks);
        } else {
            lemma_join_extend_last(prev, toks.last());
            assert(rest.push(toks.last()) =~= toks);
        }
    }
}

/// A pipeline always has at least one segment.
proof fn lemma_segments_nonempty(toks: Seq<Seq<char>>)
    ensures
        segments_of(toks).len() >= 1,
    decreases toks.len(),
{
    if toks.len() > 0 {
        lemma_segments_nonempty(toks.drop_last());
    }
}

/// Extending the last segment extends the join.
proof fn lemma_join_extend_last(segs: Seq<Seq<Seq<char>>>, t: Seq<char>)
    requires
        segs.len() >= 1,
    ensures
        join_segments(segs.update(segs.len() - 1, segs.last().push(t))) == join_segments(segs).push(t),
{
    let upd = segs.update(segs.len() - 1, segs.last().push(t));
    if segs.len() == 1 {
    } else {
        assert(upd.drop_last() =~= segs.drop_last());
        assert(join_segments(upd) =~= join_segments(segs).push(t));
    }
}

/// No segment of a pipeline holds a pipe token, and there is one segment
/// more than there are pipe tokens.
pub proof fn lemma_segments_pipe_free(toks: Seq<Seq<char>>)
    ensures
        segments_of(toks).len() == pipe_count(toks) + 1,
        forall|k: int, m: int|
            0 <= k < segments_of(toks).len() && 0 <= m < segments_of(toks)[k].len()
                ==> segments_of(toks)[k][m] != pipe_token(),
    decreases toks.len(),
{
    if toks.len() > 0 {
        lemma_segments_pipe_free(toks.drop_last());
    }
}

} // verus!
