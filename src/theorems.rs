//! Laws of the batch search, proved from the contracts of the search.
use crate::automaton::{occurs, reported_as_seen, resume_at, hit_end};
use crate::pattern::{anchor_of, is_anchor, leading_wildcards, lemma_anchor_of, matches_at, stripped};
use crate::automaton::automaton_builds;
use crate::search::{
    kept, kept_anchors, accepts, all_anchors, anchor_bytes, anchor_pos, batch_hits, first_accepted, hit_accepted,
    lemma_first_known, slot_after,
};
use vstd::prelude::*;

verus! {

/// A pattern made of wildcards only (the empty pattern included) is never
/// found: its anchor is empty, and an empty anchor accepts no hit.
pub proof fn lemma_all_wildcards_never_found(
    hay: Seq<u8>,
    pats: Seq<Seq<Option<u8>>>,
    hits: Seq<(usize, usize)>,
    out: Seq<Option<usize>>,
    i: int,
)
    requires
        first_accepted(hay, pats, hits, out),
        0 <= i < pats.len(),
        forall|t: int| 0 <= t < pats[i].len() ==> (#[trigger] pats[i][t]) is None,
    ensures
        out[i] is None,
{
    let p = pats[i];
    lemma_wildcards_empty_anchor(p);
    assert(slot_after(hay, pats, hits, hits.len() as int, i, out[i]));
    if out[i] is Some {
        let k = out[i]->0;
        let j = choose|j: int|
            #![trigger hits[j]]
            0 <= j < hits.len() && hits[j].0 == i && hit_accepted(hay, pats, hits[j]) && k
                == hits[j].1 - anchor_pos(pats[i]) && forall|j2: int|
                0 <= j2 < j && (#[trigger] hits[j2]).0 == i ==> !hit_accepted(hay, pats, hits[j2]);
        assert(accepts(hay, p, hits[j].1 as int));
    }
}

/// A reported start counts the leading wildcards that were stripped: the
/// whole pattern matches there, and it lies before the anchor hit by the
/// number of leading wildcards plus the anchor's place in the stripped
/// pattern. For `?? 48 2E` with `48` at `k`, the start is `k - 1`.
pub proof fn lemma_reported_start(
    hay: Seq<u8>,
    pats: Seq<Seq<Option<u8>>>,
    hits: Seq<(usize, usize)>,
    out: Seq<Option<usize>>,
    i: int,
)
    requires
        first_accepted(hay, pats, hits, out),
        0 <= i < pats.len(),
        out[i] is Some,
    ensures
        matches_at(hay, pats[i], out[i]->0 as int),
        exists|j: int|
            0 <= j < hits.len() && (#[trigger] hits[j]).0 == i && hits[j].1 == out[i]->0
                + leading_wildcards(pats[i]) + anchor_of(stripped(pats[i])).0,
{
    assert(slot_after(hay, pats, hits, hits.len() as int, i, out[i]));
    let k = out[i]->0;
    let j = choose|j: int|
        #![trigger hits[j]]
        0 <= j < hits.len() && hits[j].0 == i && hit_accepted(hay, pats, hits[j]) && k == hits[j].1
            - anchor_pos(pats[i]) && forall|j2: int|
            0 <= j2 < j && (#[trigger] hits[j2]).0 == i ==> !hit_accepted(hay, pats, hits[j2]);
    assert(accepts(hay, pats[i], hits[j].1 as int));
}

/// For given hits there is one result: each slot is fixed by the first
/// accepted hit of its pattern.
pub proof fn lemma_first_accepted_unique(
    hay: Seq<u8>,
    pats: Seq<Seq<Option<u8>>>,
    hits: Seq<(usize, usize)>,
    out1: Seq<Option<usize>>,
    out2: Seq<Option<usize>>,
)
    requires
        first_accepted(hay, pats, hits, out1),
        first_accepted(hay, pats, hits, out2),
    ensures
        out1 == out2,
{
    assert forall|i: int| 0 <= i < out1.len() implies out1[i] == out2[i] by {
        assert(slot_after(hay, pats, hits, hits.len() as int, i, out1[i]));
        assert(slot_after(hay, pats, hits, hits.len() as int, i, out2[i]));
        if out1[i] is Some {
            let j1 = choose|j: int|
                #![trigger hits[j]]
                0 <= j < hits.len() && hits[j].0 == i && hit_accepted(hay, pats, hits[j])
                    && out1[i]->0 == hits[j].1 - anchor_pos(pats[i]) && forall|j2: int|
                    0 <= j2 < j && (#[trigger] hits[j2]).0 == i ==> !hit_accepted(
                        hay,
                        pats,
                        hits[j2],
                    );
            if out2[i] is Some {
                let j2 = choose|j: int|
                    #![trigger hits[j]]
                    0 <= j < hits.len() && hits[j].0 == i && hit_accepted(hay, pats, hits[j])
                        && out2[i]->0 == hits[j].1 - anchor_pos(pats[i]) && forall|j3: int|
                        0 <= j3 < j && (#[trigger] hits[j3]).0 == i ==> !hit_accepted(
                            hay,
                            pats,
                            hits[j3],
                        );
                assert(j1 == j2);
            } else {
                assert(hits[j1].0 == i);
            }
        } else if out2[i] is Some {
            let j2 = choose|j: int|
                #![trigger hits[j]]
                0 <= j < hits.len() && hits[j].0 == i && hit_accepted(hay, pats, hits[j])
                    && out2[i]->0 == hits[j].1 - anchor_pos(pats[i]) && forall|j3: int|
                    0 <= j3 < j && (#[trigger] hits[j3]).0 == i ==> !hit_accepted(
                        hay,
                        pats,
                        hits[j3],
                    );
            assert(hits[j2].0 == i);
        }
    }
    assert(out1 =~= out2);
}

/// Searching twice for the same patterns in the same haystack gives the same
/// result: every successful search's result is fixed by its inputs.
pub proof fn lemma_search_repeatable(
    hay: Seq<u8>,
    pats: Seq<Seq<Option<u8>>>,
    out1: Seq<Option<usize>>,
    out2: Seq<Option<usize>>,
)
    requires
        first_accepted(hay, pats, batch_hits(hay, pats), out1),
        first_accepted(hay, pats, batch_hits(hay, pats), out2),
    ensures
        out1 == out2,
{
    lemma_first_accepted_unique(hay, pats, batch_hits(hay, pats), out1, out2);
}

/// A pattern of known bytes only matches exactly where its bytes occur.
proof fn lemma_known_matches(hay: Seq<u8>, b: Seq<u8>, p: Seq<Option<u8>>, k: int)
    requires
        b.len() > 0,
        p == b.map_values(|x: u8| Some(x)),
    ensures
        matches_at(hay, p, k) <==> occurs(hay, b, k),
{
    if matches_at(hay, p, k) {
        assert forall|t: int| 0 <= t < b.len() implies hay.subrange(k, k + b.len())[t] == b[t] by {
            assert(p[t] == Some(b[t]));
        }
        assert(hay.subrange(k, k + b.len()) =~= b);
    }
    if occurs(hay, b, k) {
        assert forall|t: int| 0 <= t < p.len() && (#[trigger] p[t]) is Some implies p[t]->0 == hay[k
            + t] by {
            assert(hay.subrange(k, k + b.len())[t] == b[t]);
        }
    }
}

/// Searched for alone, a non-empty pattern of known bytes only is found
/// exactly where a plain substring search finds it first, and is not found
/// when its bytes do not occur.
pub proof fn lemma_known_pattern_first_occurrence(
    hay: Seq<u8>,
    b: Seq<u8>,
    hits: Seq<(usize, usize)>,
    out: Seq<Option<usize>>,
)
    requires
        b.len() > 0,
        reported_as_seen(all_anchors(seq![b.map_values(|x: u8| Some(x))]), hay, hits),
        first_accepted(hay, seq![b.map_values(|x: u8| Some(x))], hits, out),
    ensures
        out[0] matches Some(k) ==> occurs(hay, b, k as int) && forall|k2: int|
            k2 < k ==> !#[trigger] occurs(hay, b, k2),
        out[0] is None ==> forall|k2: int| !#[trigger] occurs(hay, b, k2),
{
    let p = b.map_values(|x: u8| Some(x));
    let pats = seq![p];
    assert(pats[0] == p);
    lemma_first_known(p, 0);
    assert(p[0] is Some);
    assert(leading_wildcards(p) == 0);
    assert(stripped(p) =~= p);
    assert(is_anchor(p, 0, p.len() as int));
    lemma_anchor_of(p, 0, p.len() as int);
    assert(anchor_bytes(p) =~= b);
    assert(anchor_pos(p) == 0);
    let anchors = all_anchors(pats);
    assert(anchors[0] == b);
    assert forall|k2: int| #[trigger] matches_at(hay, p, k2) <==> occurs(hay, b, k2) by {
        lemma_known_matches(hay, b, p, k2);
    }
    assert forall|j: int| 0 <= j < hits.len() implies #[trigger] hit_accepted(hay, pats, hits[j]) && hits[j].0 == 0 by {
        assert(hits[j].0 < anchors.len());
        assert(occurs(hay, anchors[hits[j].0 as int], hits[j].1 as int));
    }
    assert(slot_after(hay, pats, hits, hits.len() as int, 0, out[0]));
    if hits.len() > 0 {
        assert(hit_accepted(hay, pats, hits[0]));
        assert(hits[0].0 == 0);
        assert(out[0] is Some);
        let k = out[0]->0;
        let j = choose|j: int|
            #![trigger hits[j]]
            0 <= j < hits.len() && hits[j].0 == 0 && hit_accepted(hay, pats, hits[j]) && k
                == hits[j].1 - anchor_pos(pats[0]) && forall|j2: int|
                0 <= j2 < j && (#[trigger] hits[j2]).0 == 0 ==> !hit_accepted(hay, pats, hits[j2]);
        if j > 0 {
            assert(hits[0].0 == 0);
        }
        assert(j == 0);
        assert(occurs(hay, b, k as int));
        assert forall|k2: int| k2 < k implies !#[trigger] occurs(hay, b, k2) by {
            if occurs(hay, b, k2) {
                assert(resume_at(anchors, hits, 0) == 0);
                assert(k2 + anchors[0].len() >= hit_end(anchors, hits[0]));
            }
        }
    } else {
        assert forall|k2: int| !#[trigger] occurs(hay, b, k2) by {
            if occurs(hay, b, k2) {
                assert(resume_at(anchors, hits, 0) == 0);
                assert(!occurs(hay, anchors[0], k2));
            }
        }
    }
}

/// A pattern of wildcards only has an empty anchor.
pub proof fn lemma_wildcards_empty_anchor(p: Seq<Option<u8>>)
    requires
        forall|t: int| 0 <= t < p.len() ==> (#[trigger] p[t]) is None,
    ensures
        anchor_bytes(p).len() == 0,
{
    lemma_first_known(p, 0);
    assert(leading_wildcards(p) == p.len());
    assert(stripped(p) =~= Seq::<Option<u8>>::empty());
    assert(is_anchor(stripped(p), 0, 0));
    lemma_anchor_of(stripped(p), 0, 0);
}

proof fn lemma_nothing_kept(pats: Seq<Seq<Option<u8>>>)
    requires
        forall|i: int| 0 <= i < pats.len() ==> (#[trigger] anchor_bytes(pats[i])).len() == 0,
    ensures
        kept(pats).len() == 0,
    decreases pats.len(),
{
    if pats.len() > 0 {
        let prev = pats.drop_last();
        assert forall|i: int| 0 <= i < prev.len() implies (#[trigger] anchor_bytes(prev[i])).len() == 0 by {
            assert(prev[i] == pats[i]);
        }
        lemma_nothing_kept(prev);
        assert(anchor_bytes(pats[pats.len() - 1]).len() == 0);
    }
}

/// A batch of wildcard-only patterns (an empty batch included) hands the
/// automaton no anchor, so its search succeeds, and every slot is `None`.
pub proof fn lemma_wildcard_batch(
    hay: Seq<u8>,
    pats: Seq<Seq<Option<u8>>>,
    hits: Seq<(usize, usize)>,
    out: Seq<Option<usize>>,
)
    requires
        forall|i: int, t: int| 0 <= i < pats.len() && 0 <= t < pats[i].len() ==> (#[trigger] pats[i][t]) is None,
    ensures
        kept_anchors(pats).len() == 0,
        first_accepted(hay, pats, hits, out) ==> forall|i: int| 0 <= i < out.len() ==> (#[trigger] out[i]) is None,
{
    assert forall|i: int| 0 <= i < pats.len() implies (#[trigger] anchor_bytes(pats[i])).len() == 0 by {
        assert forall|t: int| 0 <= t < pats[i].len() implies (#[trigger] pats[i][t]) is None by {}
        lemma_wildcards_empty_anchor(pats[i]);
    }
    lemma_nothing_kept(pats);
    if first_accepted(hay, pats, hits, out) {
        assert forall|i: int| 0 <= i < out.len() implies (#[trigger] out[i]) is None by {
            assert forall|t: int| 0 <= t < pats[i].len() implies (#[trigger] pats[i][t]) is None by {}
            lemma_all_wildcards_never_found(hay, pats, hits, out, i);
        }
    }
}

/// In an empty haystack nothing is found.
pub proof fn lemma_empty_haystack(
    pats: Seq<Seq<Option<u8>>>,
    hits: Seq<(usize, usize)>,
    out: Seq<Option<usize>>,
)
    requires
        first_accepted(Seq::empty(), pats, hits, out),
    ensures
        forall|i: int| 0 <= i < out.len() ==> (#[trigger] out[i]) is None,
{
    assert forall|i: int| 0 <= i < out.len() implies (#[trigger] out[i]) is None by {
        assert(slot_after(Seq::empty(), pats, hits, hits.len() as int, i, out[i]));
        if out[i] is Some {
            let k = out[i]->0;
            let j = choose|j: int|
                #![trigger hits[j]]
                0 <= j < hits.len() && hits[j].0 == i && hit_accepted(Seq::empty(), pats, hits[j])
                    && k == hits[j].1 - anchor_pos(pats[i]) && forall|j2: int|
                    0 <= j2 < j && (#[trigger] hits[j2]).0 == i ==> !hit_accepted(
                        Seq::empty(),
                        pats,
                        hits[j2],
                    );
            let p = pats[i];
            assert(accepts(Seq::empty(), p, hits[j].1 as int));
            lemma_first_known(p, 0);
            if p.len() == 0 {
                lemma_wildcards_empty_anchor(p);
            }
        }
    }
}

/// Putting `w` wildcards in front of a pattern that starts with a known byte
/// hands the automaton the same anchor, so the two searches build alike,
/// and moves the reported start left by `w`: a pattern found at `s >= w`
/// without them is found at `s - w` with them, and one not found stays not
/// found.
pub proof fn lemma_leading_wildcards_shift(
    hay: Seq<u8>,
    p: Seq<Option<u8>>,
    q: Seq<Option<u8>>,
    w: nat,
    out_p: Seq<Option<usize>>,
    out_q: Seq<Option<usize>>,
)
    requires
        q.len() > 0,
        q[0] is Some,
        p == Seq::new(w, |t: int| None::<u8>) + q,
        first_accepted(hay, seq![p], batch_hits(hay, seq![p]), out_p),
        first_accepted(hay, seq![q], batch_hits(hay, seq![q]), out_q),
    ensures
        kept_anchors(seq![p]) == kept_anchors(seq![q]),
        automaton_builds(kept_anchors(seq![p])) == automaton_builds(kept_anchors(seq![q])),
        out_q[0] is None ==> out_p[0] is None,
        out_q[0] is Some && out_q[0]->0 >= w ==> out_p[0] == Some((out_q[0]->0 - w) as usize),
{
    lemma_first_known(q, 0);
    lemma_first_known(p, 0);
    assert(p[w as int] == q[0]);
    assert(leading_wildcards(q) == 0);
    assert(leading_wildcards(p) == w);
    assert(stripped(q) =~= q);
    assert(stripped(p) =~= q);
    assert(anchor_bytes(p) == anchor_bytes(q));
    assert(anchor_pos(p) == anchor_pos(q) + w);
    let ps = seq![p];
    let qs = seq![q];
    assert(ps.drop_last() =~= qs.drop_last());
    assert(ps.drop_last() =~= Seq::<Seq<Option<u8>>>::empty());
    assert(kept(ps.drop_last()) == Seq::<usize>::empty());
    assert(kept(ps) == kept(qs));
    assert(ps[0] == p && qs[0] == q);
    assert forall|k: int| 0 <= k < kept(ps).len() implies kept_anchors(ps)[k] == kept_anchors(qs)[k] by {
        assert(kept(ps)[k] == 0);
    }
    assert(kept_anchors(ps) =~= kept_anchors(qs));
    let hits = batch_hits(hay, ps);
    assert(hits == batch_hits(hay, qs));
    assert forall|k: int| #[trigger] matches_at(hay, p, k) <==> (k >= 0 && matches_at(hay, q, k + w)) by {
        if k >= 0 && matches_at(hay, q, k + w) {
            assert forall|t: int| 0 <= t < p.len() && (#[trigger] p[t]) is Some implies p[t]->0 == hay[k + t] by {
                assert(t >= w);
                assert(p[t] == q[t - w]);
            }
        }
        if matches_at(hay, p, k) {
            assert forall|t: int| 0 <= t < q.len() && (#[trigger] q[t]) is Some implies q[t]->0 == hay[k + w + t] by {
                assert(p[t + w] == q[t]);
            }
        }
    }
    assert forall|j: int| 0 <= j < hits.len() && #[trigger] hit_accepted(hay, ps, hits[j]) implies hit_accepted(hay, qs, hits[j])
        && hits[j].1 - anchor_pos(q) >= w by {
        assert(ps[0] == p);
        assert(qs[0] == q);
    }
    assert(slot_after(hay, ps, hits, hits.len() as int, 0, out_p[0]));
    assert(slot_after(hay, qs, hits, hits.len() as int, 0, out_q[0]));
    if out_p[0] is Some {
        let kp = out_p[0]->0;
        let jp = choose|j: int|
            #![trigger hits[j]]
            0 <= j < hits.len() && hits[j].0 == 0 && hit_accepted(hay, ps, hits[j]) && kp == hits[j].1
                - anchor_pos(ps[0]) && forall|j2: int|
                0 <= j2 < j && (#[trigger] hits[j2]).0 == 0 ==> !hit_accepted(hay, ps, hits[j2]);
        assert(hit_accepted(hay, qs, hits[jp]));
        assert(out_q[0] is Some);
    }
    if out_q[0] is Some {
        let s = out_q[0]->0;
        let jq = choose|j: int|
            #![trigger hits[j]]
            0 <= j < hits.len() && hits[j].0 == 0 && hit_accepted(hay, qs, hits[j]) && s == hits[j].1
                - anchor_pos(qs[0]) && forall|j2: int|
                0 <= j2 < j && (#[trigger] hits[j2]).0 == 0 ==> !hit_accepted(hay, qs, hits[j2]);
        if s >= w {
            assert(ps[0] == p);
            assert(qs[0] == q);
            assert(hit_accepted(hay, ps, hits[jq]));
            assert(out_p[0] is Some);
            let kp = out_p[0]->0;
            let jp = choose|j: int|
                #![trigger hits[j]]
                0 <= j < hits.len() && hits[j].0 == 0 && hit_accepted(hay, ps, hits[j]) && kp
                    == hits[j].1 - anchor_pos(ps[0]) && forall|j2: int|
                    0 <= j2 < j && (#[trigger] hits[j2]).0 == 0 ==> !hit_accepted(hay, ps, hits[j2]);
            assert(hit_accepted(hay, qs, hits[jp]));
            assert(jp == jq);
        }
    }
}

} // verus!
