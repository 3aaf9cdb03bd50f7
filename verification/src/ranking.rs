//! Ranking of scored candidates: a stable descending sort by exact
//! similarity (ties kept in embedding insertion order), the threshold
//! filter, and the top-k cut.

use vstd::prelude::*;
use vstd::multiset::Multiset;
use vstd::seq_lib::lemma_multiset_commutative;

use crate::similarity::{
    meets_threshold, similarity_ge, spec_meets_threshold, spec_similarity_ge,
    lemma_similarity_ge_total, lemma_similarity_ge_trans, lemma_threshold_above_one_rejects_all,
    SimilarityValue, SCALE, THRESHOLD_LIMIT,
};

verus! {

/// One search candidate: the position of its embedding in the stored
/// set, and its exact similarity to the query.
#[derive(Clone, Copy)]
pub struct Scored {
    pub embedding_index: usize,
    pub similarity: SimilarityValue,
}

/// `a` must come strictly before `b` in ranked output: its similarity
/// is strictly greater, or the similarities are equal and `a` was
/// stored earlier.
pub open spec fn scored_before(a: Scored, b: Scored) -> bool {
    (spec_similarity_ge(a.similarity, b.similarity) && !spec_similarity_ge(
        b.similarity,
        a.similarity,
    )) || (spec_similarity_ge(a.similarity, b.similarity) && spec_similarity_ge(
        b.similarity,
        a.similarity,
    ) && a.embedding_index < b.embedding_index)
}

/// `a` may stand at or before `b` in ranked output.
pub open spec fn scored_le(a: Scored, b: Scored) -> bool {
    !scored_before(b, a)
}

/// Every element's similarity was produced by the similarity
/// arithmetic.
pub open spec fn all_wf(s: Seq<Scored>) -> bool {
    forall|i: int| 0 <= i < s.len() ==> (#[trigger] s[i]).similarity.wf()
}

/// Every element points into a store of `n` embeddings.
pub open spec fn bounded_indices(s: Seq<Scored>, n: int) -> bool {
    forall|i: int| 0 <= i < s.len() ==> (#[trigger] s[i]).embedding_index < n
}

/// Ranked descending: earlier entries are at least as similar, ties in
/// stored order.
pub open spec fn sorted_desc(s: Seq<Scored>) -> bool {
    forall|i: int, j: int| 0 <= i < j < s.len() ==> scored_le(#[trigger] s[i], #[trigger] s[j])
}

pub proof fn lemma_scored_le_trans(a: Scored, b: Scored, c: Scored)
    requires
        a.similarity.wf(),
        b.similarity.wf(),
        c.similarity.wf(),
        scored_le(a, b),
        scored_le(b, c),
    ensures
        scored_le(a, c),
{
    lemma_similarity_ge_total(a.similarity, b.similarity);
    lemma_similarity_ge_total(b.similarity, c.similarity);
    lemma_similarity_ge_total(a.similarity, c.similarity);
    lemma_similarity_ge_trans(a.similarity, b.similarity, c.similarity);
    lemma_similarity_ge_trans(c.similarity, b.similarity, a.similarity);
    lemma_similarity_ge_trans(b.similarity, a.similarity, c.similarity);
    lemma_similarity_ge_trans(b.similarity, c.similarity, a.similarity);
    lemma_similarity_ge_trans(a.similarity, c.similarity, b.similarity);
    lemma_similarity_ge_trans(c.similarity, a.similarity, b.similarity);
}

/// Where a new candidate lands in an already ranked sequence: before
/// the first entry it must precede.
pub open spec fn insert_desc(x: Scored, s: Seq<Scored>) -> Seq<Scored>
    decreases s.len(),
{
    if s.len() == 0 {
        seq![x]
    } else if scored_before(x, s[0]) {
        seq![x] + s
    } else {
        seq![s[0]] + insert_desc(x, s.drop_first())
    }
}

/// The stable descending sort: candidates inserted in stored order.
pub open spec fn sort_desc(s: Seq<Scored>) -> Seq<Scored>
    decreases s.len(),
{
    if s.len() == 0 {
        Seq::empty()
    } else {
        insert_desc(s.last(), sort_desc(s.drop_last()))
    }
}

pub proof fn lemma_insert_desc(x: Scored, s: Seq<Scored>)
    requires
        x.similarity.wf(),
        all_wf(s),
        sorted_desc(s),
    ensures
        insert_desc(x, s).len() == s.len() + 1,
        insert_desc(x, s).to_multiset() == s.to_multiset().insert(x),
        sorted_desc(insert_desc(x, s)),
        all_wf(insert_desc(x, s)),
        forall|i: int|
            0 <= i < insert_desc(x, s).len() ==> (#[trigger] insert_desc(x, s)[i]) == x
                || s.contains(insert_desc(x, s)[i]),
    decreases s.len(),
{
    broadcast use vstd::seq_lib::group_to_multiset_ensures;

    let r = insert_desc(x, s);
    if s.len() == 0 {
        assert(seq![x] =~= Seq::<Scored>::empty().push(x));
        assert(r.to_multiset() =~= s.to_multiset().insert(x));
    } else if scored_before(x, s[0]) {
        lemma_multiset_commutative(seq![x], s);
        assert(seq![x].to_multiset() =~= Multiset::<Scored>::empty().insert(x));
        assert(r.to_multiset() =~= s.to_multiset().insert(x));
        assert forall|i: int, j: int| 0 <= i < j < r.len() implies scored_le(r[i], r[j]) by {
            if i == 0 {
                assert(r[0] == x);
                if j == 1 {
                    assert(r[j] == s[0]);
                } else {
                    assert(r[j] == s[j - 1]);
                    assert(scored_le(s[0], s[j - 1]));
                    lemma_scored_le_trans(x, s[0], s[j - 1]);
                }
            } else {
                assert(r[i] == s[i - 1] && r[j] == s[j - 1]);
            }
        }
    } else {
        let tail = s.drop_first();
        assert(all_wf(tail));
        assert(sorted_desc(tail)) by {
            assert forall|i: int, j: int| 0 <= i < j < tail.len() implies scored_le(
                tail[i],
                tail[j],
            ) by {
                assert(tail[i] == s[i + 1] && tail[j] == s[j + 1]);
            }
        }
        lemma_insert_desc(x, tail);
        let rt = insert_desc(x, tail);
        assert(r == seq![s[0]] + rt);
        lemma_multiset_commutative(seq![s[0]], rt);
        lemma_multiset_commutative(seq![s[0]], tail);
        assert(s =~= seq![s[0]] + tail);
        assert(seq![s[0]].to_multiset() =~= Multiset::<Scored>::empty().insert(s[0]));
        assert(r.to_multiset() =~= s.to_multiset().insert(x));
        assert forall|i: int|
            0 <= i < r.len() implies (#[trigger] r[i]) == x || s.contains(r[i]) by {
            if i == 0 {
                assert(s.contains(s[0]));
            } else {
                assert(r[i] == rt[i - 1]);
                if rt[i - 1] == x {
                } else {
                    assert(tail.contains(rt[i - 1]));
                    let w = choose|w: int| 0 <= w < tail.len() && tail[w] == rt[i - 1];
                    assert(s[w + 1] == tail[w]);
                }
            }
        }
        assert forall|i: int, j: int| 0 <= i < j < r.len() implies scored_le(r[i], r[j]) by {
            if i == 0 {
                assert(r[j] == rt[j - 1]);
                if rt[j - 1] == x {
                    assert(!scored_before(x, s[0]));
                    assert(scored_le(s[0], x));
                } else {
                    let w = choose|w: int| 0 <= w < tail.len() && tail[w] == rt[j - 1];
                    assert(scored_le(s[0], s[w + 1]));
                }
            } else {
                assert(r[i] == rt[i - 1] && r[j] == rt[j - 1]);
                assert(scored_le(rt[i - 1], rt[j - 1]));
            }
        }
    }
}

pub proof fn lemma_sort_desc(s: Seq<Scored>)
    requires
        all_wf(s),
    ensures
        sort_desc(s).len() == s.len(),
        sort_desc(s).to_multiset() == s.to_multiset(),
        sorted_desc(sort_desc(s)),
        all_wf(sort_desc(s)),
        forall|i: int|
            0 <= i < sort_desc(s).len() ==> s.contains(#[trigger] sort_desc(s)[i]),
    decreases s.len(),
{
    broadcast use vstd::seq_lib::group_to_multiset_ensures;

    if s.len() > 0 {
        let init = s.drop_last();
        assert(all_wf(init));
        lemma_sort_desc(init);
        lemma_insert_desc(s.last(), sort_desc(init));
        assert(s =~= init.push(s.last()));
        assert(s.to_multiset() =~= init.to_multiset().insert(s.last()));
        assert forall|i: int|
            0 <= i < sort_desc(s).len() implies s.contains(#[trigger] sort_desc(s)[i]) by {
            if sort_desc(s)[i] == s.last() {
                assert(s[s.len() - 1] == s.last());
            } else {
                assert(sort_desc(init).contains(sort_desc(s)[i]));
                let w = choose|w: int|
                    0 <= w < sort_desc(init).len() && sort_desc(init)[w] == sort_desc(s)[i];
                assert(init.contains(sort_desc(init)[w]));
                let v = choose|v: int| 0 <= v < init.len() && init[v] == sort_desc(init)[w];
                assert(s[v] == init[v]);
            }
        }
    }
}

/// If the new candidate is not to precede any of the first `p` entries
/// but precedes entry `p`, it lands exactly at position `p`.
proof fn lemma_insert_desc_at(x: Scored, s: Seq<Scored>, p: int)
    requires
        0 <= p <= s.len(),
        forall|m: int| 0 <= m < p ==> !scored_before(x, #[trigger] s[m]),
        p < s.len() ==> scored_before(x, s[p]),
    ensures
        insert_desc(x, s) == s.insert(p, x),
    decreases p,
{
    if s.len() == 0 {
        assert(insert_desc(x, s) =~= s.insert(0, x));
    } else if p == 0 {
        assert(insert_desc(x, s) =~= s.insert(0, x));
    } else {
        assert(!scored_before(x, s[0]));
        let tail = s.drop_first();
        assert forall|m: int| 0 <= m < p - 1 implies !scored_before(x, #[trigger] tail[m]) by {
            assert(tail[m] == s[m + 1]);
        }
        if p - 1 < tail.len() {
            assert(tail[p - 1] == s[p]);
        }
        lemma_insert_desc_at(x, tail, p - 1);
        assert(insert_desc(x, s) == seq![s[0]] + tail.insert(p - 1, x));
        assert(seq![s[0]] + tail.insert(p - 1, x) =~= s.insert(p, x));
    }
}

fn scored_before_exec(a: &Scored, b: &Scored) -> (r: bool)
    requires
        a.similarity.wf(),
        b.similarity.wf(),
    ensures
        r == scored_before(*a, *b),
{
    let ab = similarity_ge(&a.similarity, &b.similarity);
    let ba = similarity_ge(&b.similarity, &a.similarity);
    (ab && !ba) || (ab && ba && a.embedding_index < b.embedding_index)
}

fn insert_pos_continues(out: &Vec<Scored>, q: usize, x: &Scored) -> (r: bool)
    requires
        all_wf(out@),
        x.similarity.wf(),
        q <= out@.len(),
    ensures
        r == (q < out@.len() && !scored_before(*x, out@[q as int])),
{
    if q < out.len() {
        !scored_before_exec(x, &out[q])
    } else {
        false
    }
}

/// Sorts the candidates by similarity descending, ties in stored order
/// (a stable sort: equal-similarity candidates keep their insertion
/// order because the comparison falls back to the embedding position).
pub fn sort_scored(input: Vec<Scored>) -> (r: Vec<Scored>)
    requires
        all_wf(input@),
    ensures
        r@ == sort_desc(input@),
{
    let ghost iv = input@;
    let mut out: Vec<Scored> = Vec::new();
    let mut i: usize = 0;
    proof {
        assert(iv.take(0) =~= Seq::<Scored>::empty());
    }
    while i < input.len()
        invariant
            iv == input@,
            all_wf(iv),
            0 <= i <= iv.len(),
            out@ == sort_desc(iv.take(i as int)),
            all_wf(out@),
            sorted_desc(out@),
        decreases iv.len() - i,
    {
        let x = input[i];
        proof {
            assert(all_wf(iv.take(i as int)));
            lemma_sort_desc(iv.take(i as int));
        }
        let mut q: usize = 0;
        while insert_pos_continues(&out, q, &x)
            invariant
                all_wf(out@),
                x.similarity.wf(),
                0 <= q <= out@.len(),
                out@.len() <= usize::MAX,
                forall|m: int| 0 <= m < q ==> !scored_before(x, #[trigger] out@[m]),
            decreases out@.len() - q,
        {
            q = q + 1;
        }
        proof {
            lemma_insert_desc_at(x, out@, q as int);
            assert(iv.take(i + 1).drop_last() =~= iv.take(i as int));
            assert(iv.take(i + 1).last() == iv[i as int]);
            assert(all_wf(iv.take(i + 1)));
            lemma_insert_desc(x, out@);
        }
        out.insert(q, x);
        i = i + 1;
    }
    proof {
        assert(iv.take(iv.len() as int) =~= iv);
    }
    out
}

/// The candidates whose similarity reaches the threshold, in order.
pub open spec fn keep_meeting(s: Seq<Scored>, t: int) -> Seq<Scored>
    decreases s.len(),
{
    if s.len() == 0 {
        Seq::empty()
    } else {
        let rest = keep_meeting(s.drop_last(), t);
        if spec_meets_threshold(s.last().similarity, t) {
            rest.push(s.last())
        } else {
            rest
        }
    }
}

pub proof fn lemma_keep_meeting(s: Seq<Scored>, t: int)
    ensures
        keep_meeting(s, t).len() <= s.len(),
        forall|i: int|
            0 <= i < keep_meeting(s, t).len() ==> s.contains(#[trigger] keep_meeting(s, t)[i])
                && spec_meets_threshold(keep_meeting(s, t)[i].similarity, t),
    decreases s.len(),
{
    if s.len() > 0 {
        lemma_keep_meeting(s.drop_last(), t);
        let r = keep_meeting(s, t);
        assert forall|i: int|
            0 <= i < r.len() implies s.contains(#[trigger] r[i]) && spec_meets_threshold(
            r[i].similarity,
            t,
        ) by {
            if spec_meets_threshold(s.last().similarity, t) && i == r.len() - 1 {
                assert(r[i] == s.last());
                assert(s[s.len() - 1] == s.last());
            } else {
                assert(r[i] == keep_meeting(s.drop_last(), t)[i]);
                assert(s.drop_last().contains(r[i]));
                let w = choose|w: int|
                    0 <= w < s.drop_last().len() && s.drop_last()[w] == r[i];
                assert(s[w] == s.drop_last()[w]);
            }
        }
    }
}

/// A threshold at or below -1.0 keeps every candidate.
pub proof fn lemma_floor_threshold_keeps_all(s: Seq<Scored>, t: int)
    requires
        all_wf(s),
        t <= -SCALE,
    ensures
        keep_meeting(s, t) == s,
    decreases s.len(),
{
    if s.len() > 0 {
        assert(all_wf(s.drop_last()));
        lemma_floor_threshold_keeps_all(s.drop_last(), t);
        crate::similarity::lemma_floor_threshold_accepts_all(s.last().similarity, t);
        assert(keep_meeting(s, t) == s.drop_last().push(s.last()));
        assert(s.drop_last().push(s.last()) =~= s);
    }
}

/// A candidate that reaches the threshold is kept.
pub proof fn lemma_keep_meeting_complete(s: Seq<Scored>, t: int, x: Scored)
    requires
        s.contains(x),
        spec_meets_threshold(x.similarity, t),
    ensures
        keep_meeting(s, t).contains(x),
    decreases s.len(),
{
    if s.len() > 0 {
        let kept = keep_meeting(s, t);
        let ki = keep_meeting(s.drop_last(), t);
        if x == s.last() && spec_meets_threshold(s.last().similarity, t) {
            assert(kept[kept.len() - 1] == x);
        } else {
            let w = choose|w: int| 0 <= w < s.len() && s[w] == x;
            if w == s.len() - 1 {
                assert(kept[kept.len() - 1] == x);
            } else {
                assert(s.drop_last()[w] == x);
                assert(s.drop_last().contains(x));
                lemma_keep_meeting_complete(s.drop_last(), t, x);
                let v = choose|v: int| 0 <= v < ki.len() && ki[v] == x;
                assert(kept[v] == x);
            }
        }
    }
}

/// A threshold above 1.0 keeps nothing: no cosine similarity of
/// well-formed vectors reaches it.
pub proof fn lemma_high_threshold_keeps_nothing(s: Seq<Scored>, t: int)
    requires
        all_wf(s),
        t > SCALE,
    ensures
        keep_meeting(s, t) == Seq::<Scored>::empty(),
    decreases s.len(),
{
    if s.len() > 0 {
        assert(all_wf(s.drop_last()));
        lemma_high_threshold_keeps_nothing(s.drop_last(), t);
        lemma_threshold_above_one_rejects_all(s.last().similarity, t);
    }
}

/// Keeps the candidates that reach the threshold, in order.
pub fn filter_threshold(input: Vec<Scored>, t: i64) -> (r: Vec<Scored>)
    requires
        all_wf(input@),
        -THRESHOLD_LIMIT <= t <= THRESHOLD_LIMIT,
    ensures
        r@ == keep_meeting(input@, t as int),
{
    let ghost iv = input@;
    let mut out: Vec<Scored> = Vec::new();
    let mut i: usize = 0;
    proof {
        assert(iv.take(0) =~= Seq::<Scored>::empty());
    }
    while i < input.len()
        invariant
            iv == input@,
            all_wf(iv),
            -THRESHOLD_LIMIT <= t <= THRESHOLD_LIMIT,
            0 <= i <= iv.len(),
            out@ == keep_meeting(iv.take(i as int), t as int),
        decreases iv.len() - i,
    {
        let x = input[i];
        proof {
            assert(iv.take(i + 1).drop_last() =~= iv.take(i as int));
            assert(iv.take(i + 1).last() == iv[i as int]);
        }
        if meets_threshold(&x.similarity, t) {
            out.push(x);
        }
        i = i + 1;
    }
    proof {
        assert(iv.take(iv.len() as int) =~= iv);
    }
    out
}

} // verus!
