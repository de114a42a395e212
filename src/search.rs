//! The scan: anchors found by the automaton, each hit checked against its
//! whole pattern, the first accepted hit of each pattern kept.
use crate::automaton::{
    automaton_builds, build_automaton, find_all, scanned, occurs, reported_as_seen, automaton_patterns, hit_end, resume_at,
};
use crate::error::Error;
use crate::pattern::{
    PatternBytes, anchor_of, first_known_from, is_anchor, known_bytes, known_run, leading_wildcards,
    mask_of, masked_equal, matches_at, stripped, template_of,
};
use aho_corasick::AhoCorasick;
use vstd::prelude::*;

verus! {

/// Where the anchor starts within the whole pattern, leading wildcards counted.
pub open spec fn anchor_pos(p: Seq<Option<u8>>) -> int {
    leading_wildcards(p) + anchor_of(stripped(p)).0
}

/// The bytes of the pattern's anchor.
pub open spec fn anchor_bytes(p: Seq<Option<u8>>) -> Seq<u8> {
    let s = stripped(p);
    known_bytes(s, anchor_of(s).0, anchor_of(s).0 + anchor_of(s).1)
}

/// A hit of the anchor at `o` is a match of the whole pattern. A pattern
/// without known bytes has an empty anchor and accepts no hit.
pub open spec fn accepts(hay: Seq<u8>, p: Seq<Option<u8>>, o: int) -> bool {
    &&& anchor_bytes(p).len() > 0
    &&& matches_at(hay, p, o - anchor_pos(p))
}

/// The hit `(pattern index, anchor start)` is accepted.
pub open spec fn hit_accepted(hay: Seq<u8>, pats: Seq<Seq<Option<u8>>>, h: (usize, usize)) -> bool {
    h.0 < pats.len() && accepts(hay, pats[h.0 as int], h.1 as int)
}

/// Slot `i`, after the first `m` hits: `None` if none of them for pattern `i`
/// was accepted, else the pattern's start for the first one that was.
pub open spec fn slot_after(
    hay: Seq<u8>,
    pats: Seq<Seq<Option<u8>>>,
    hits: Seq<(usize, usize)>,
    m: int,
    i: int,
    r: Option<usize>,
) -> bool {
    match r {
        None => forall|j: int|
            0 <= j < m && (#[trigger] hits[j]).0 == i ==> !hit_accepted(hay, pats, hits[j]),
        Some(k) => exists|j: int|
            #![trigger hits[j]]
            0 <= j < m && hits[j].0 == i && hit_accepted(hay, pats, hits[j]) && k == hits[j].1
                - anchor_pos(pats[i]) && forall|j2: int|
                0 <= j2 < j && (#[trigger] hits[j2]).0 == i ==> !hit_accepted(hay, pats, hits[j2]),
    }
}

/// `out` holds, for each pattern, the first accepted hit among `hits`.
pub open spec fn first_accepted(
    hay: Seq<u8>,
    pats: Seq<Seq<Option<u8>>>,
    hits: Seq<(usize, usize)>,
    out: Seq<Option<usize>>,
) -> bool {
    &&& out.len() == pats.len()
    &&& forall|i: int|
        0 <= i < out.len() ==> slot_after(hay, pats, hits, hits.len() as int, i, #[trigger] out[i])
}

/// What a pattern's anchor record holds: the anchor's bytes, its start in the
/// stripped pattern, the number of leading wildcards stripped, and the
/// stripped pattern's template and mask.
pub struct AnchorRecord {
    pub anchor: Vec<u8>,
    pub offset: usize,
    pub strip: usize,
    pub template: Vec<u8>,
    pub mask: Vec<bool>,
}

impl AnchorRecord {
    /// The record is the one derived from pattern `p`.
    pub open spec fn describes(&self, p: Seq<Option<u8>>) -> bool {
        &&& self.strip == leading_wildcards(p)
        &&& is_anchor(stripped(p), anchor_of(stripped(p)).0, anchor_of(stripped(p)).1)
        &&& self.offset == anchor_of(stripped(p)).0
        &&& self.anchor@ == anchor_bytes(p)
        &&& self.template@ == template_of(stripped(p))
        &&& self.mask@ == mask_of(stripped(p))
    }

    /// Derives the record of a pattern.
    pub fn new(p: &PatternBytes) -> (r: AnchorRecord)
        ensures
            r.describes(p@),
    {
        let (cells, strip) = p.strip_leading_wildcards();
        let (start, length) = cells.select_anchor();
        let mut anchor: Vec<u8> = Vec::new();
        let total = cells.0.len();
        assert(known_run(cells@, start as int, length as int));
        assert(start + length <= total);
        let end = start + length;
        let mut i: usize = start;
        while i < end
            invariant
                is_anchor(cells@, start as int, length as int),
                end == start + length,
                start <= i <= end,
                anchor@ == known_bytes(cells@, start as int, i as int),
            decreases end - i,
        {
            assert(cells@[i as int] is Some);
            let b = cells.0[i].unwrap();
            anchor.push(b);
            i = i + 1;
            assert(anchor@ =~= known_bytes(cells@, start as int, i as int));
        }
        let (template, mask) = cells.parse_pattern();
        AnchorRecord { anchor, offset: start, strip, template, mask }
    }
}

/// What the first non-wildcard cell's index says of the cells before it.
pub proof fn lemma_first_known(p: Seq<Option<u8>>, i: int)
    requires
        0 <= i <= p.len(),
    ensures
        i <= first_known_from(p, i) <= p.len(),
        forall|t: int| i <= t < first_known_from(p, i) ==> (#[trigger] p[t]) is None,
        first_known_from(p, i) < p.len() ==> p[first_known_from(p, i)] is Some,
    decreases p.len() - i,
{
    if i < p.len() && p[i] is None {
        lemma_first_known(p, i + 1);
    }
}

/// Checking the stripped pattern's window against its template is checking
/// the whole pattern at the start that the stripped cells stand for.
proof fn lemma_window(hay: Seq<u8>, p: Seq<Option<u8>>, k: int)
    requires
        0 <= k,
        k + p.len() <= hay.len(),
    ensures
        ({
            let w = k + leading_wildcards(p);
            let s = stripped(p);
            masked_equal(hay.subrange(w, w + s.len()), template_of(s), mask_of(s))
                <==> matches_at(hay, p, k)
        }),
{
    lemma_first_known(p, 0);
    let c = leading_wildcards(p);
    let w = k + c;
    let s = stripped(p);
    let buf = hay.subrange(w, w + s.len());
    if masked_equal(buf, template_of(s), mask_of(s)) {
        assert forall|t: int| 0 <= t < p.len() && (#[trigger] p[t]) is Some implies p[t]->0 == hay[k + t] by {
            assert(t >= c);
            assert(s[t - c] == p[t]);
            assert(mask_of(s)[t - c] == false);
        }
    }
    if matches_at(hay, p, k) {
        assert forall|t: int| 0 <= t < buf.len() && t < template_of(s).len() && t < mask_of(s).len() implies #[trigger] mask_of(s)[t]
            || buf[t] == template_of(s)[t] by {
            assert(s[t] == p[t + c]);
        }
    }
}

/// Keeps, for each pattern, the first of `hits` that its whole pattern
/// accepts. A hit `(i, o)` says that the anchor of pattern `i` was found at
/// `o`; the slot then gets the start of the whole pattern, leading wildcards
/// counted, provided that the pattern lies in the haystack there. Hits past
/// the last pattern, and hits whose window leaves the haystack, are ignored.
pub fn resolve_hits(
    haystack: &[u8],
    patterns: &Vec<PatternBytes>,
    records: &Vec<AnchorRecord>,
    hits: &Vec<(usize, usize)>,
) -> (r: Vec<Option<usize>>)
    requires
        records.len() == patterns.len(),
        forall|i: int| 0 <= i < patterns.len() ==> (#[trigger] records[i]).describes(patterns[i]@),
    ensures
        first_accepted(haystack@, patterns@.map_values(|p: PatternBytes| p@), hits@, r@),
{
    let ghost pats = patterns@.map_values(|p: PatternBytes| p@);
    let ghost hay = haystack@;
    let mut out: Vec<Option<usize>> = Vec::new();
    let mut i: usize = 0;
    while i < patterns.len()
        invariant
            i <= patterns.len(),
            out@.len() == i,
            forall|t: int| 0 <= t < i ==> out@[t] is None,
        decreases patterns.len() - i,
    {
        out.push(None);
        i = i + 1;
    }
    let mut m: usize = 0;
    while m < hits.len()
        invariant
            pats == patterns@.map_values(|p: PatternBytes| p@),
            hay == haystack@,
            records.len() == patterns.len(),
            forall|i: int| 0 <= i < patterns.len() ==> (#[trigger] records[i]).describes(patterns[i]@),
            m <= hits.len(),
            out@.len() == pats.len(),
            forall|t: int|
                0 <= t < out@.len() ==> slot_after(hay, pats, hits@, m as int, t, #[trigger] out@[t]),
        decreases hits.len() - m,
    {
        let (index, start) = hits[m];
        let mut accept = false;
        let mut found: usize = 0;
        if index < patterns.len() && out[index].is_none() {
            let rec = &records[index];
            let ghost p = pats[index as int];
            proof {
                assert(p == patterns[index as int]@);
                assert(rec.describes(p));
                lemma_first_known(p, 0);
            }
            if rec.anchor.len() > 0 && rec.strip <= start && rec.offset <= start - rec.strip {
                let k = start - rec.strip - rec.offset;
                let w = start - rec.offset;
                let n = rec.template.len();
                if w <= haystack.len() && n <= haystack.len() - w {
                    let window = vstd::slice::slice_subrange(haystack, w, w + n);
                    proof {
                        lemma_window(hay, p, k as int);
                    }
                    if PatternBytes::matches_pattern(window, rec.template.as_slice(), rec.mask.as_slice()) {
                        accept = true;
                        found = k;
                    }
                }
            }
            assert(accept == hit_accepted(hay, pats, hits@[m as int]));
            assert(accept ==> found == hits@[m as int].1 - anchor_pos(p));
        }
        let ghost before = out@;
        if accept {
            out.set(index, Some(found));
        }
        proof {
            assert forall|t: int| 0 <= t < out@.len() implies slot_after(
                hay,
                pats,
                hits@,
                m + 1,
                t,
                #[trigger] out@[t],
            ) by {
                assert(slot_after(hay, pats, hits@, m as int, t, before[t]));
                if accept && t == index {
                    assert(hits@[m as int].0 == t);
                } else {
                    assert(out@[t] == before[t]);
                    match before[t] {
                        None => {},
                        Some(k) => {
                            let j = choose|j: int|
                                #![trigger hits@[j]]
                                0 <= j < m && hits@[j].0 == t && hit_accepted(hay, pats, hits@[j])
                                    && k == hits@[j].1 - anchor_pos(pats[t]) && forall|j2: int|
                                    0 <= j2 < j && (#[trigger] hits@[j2]).0 == t ==> !hit_accepted(
                                        hay,
                                        pats,
                                        hits@[j2],
                                    );
                            assert(0 <= j < m + 1);
                        },
                    }
                }
            }
        }
        m = m + 1;
    }
    out
}

/// The views of a list of patterns.
pub open spec fn views(patterns: Seq<PatternBytes>) -> Seq<Seq<Option<u8>>> {
    patterns.map_values(|p: PatternBytes| p@)
}

/// The anchors of all patterns, by index.
pub open spec fn all_anchors(pats: Seq<Seq<Option<u8>>>) -> Seq<Seq<u8>> {
    pats.map_values(|p: Seq<Option<u8>>| anchor_bytes(p))
}

/// The indices of the patterns whose anchor is not empty, in order: only
/// those anchors are handed to the automaton.
pub open spec fn kept(pats: Seq<Seq<Option<u8>>>) -> Seq<usize>
    decreases pats.len(),
{
    if pats.len() == 0 {
        Seq::empty()
    } else {
        let prev = kept(pats.drop_last());
        if anchor_bytes(pats.last()).len() > 0 {
            prev.push((pats.len() - 1) as usize)
        } else {
            prev
        }
    }
}

/// The anchors handed to the automaton.
pub open spec fn kept_anchors(pats: Seq<Seq<Option<u8>>>) -> Seq<Seq<u8>> {
    kept(pats).map_values(|t: usize| anchor_bytes(pats[t as int]))
}

/// The automaton's hits over the haystack, with each pattern ID turned back
/// into the index of the pattern in the batch.
pub open spec fn batch_hits(hay: Seq<u8>, pats: Seq<Seq<Option<u8>>>) -> Seq<(usize, usize)> {
    scanned(kept_anchors(pats), hay).map_values(|h: (usize, usize)| (kept(pats)[h.0 as int], h.1))
}

/// Renumbering the automaton's hits keeps them the scan's hits.
proof fn lemma_renumber(
    hay: Seq<u8>,
    auto: Seq<Seq<u8>>,
    all: Seq<Seq<u8>>,
    slots: Seq<usize>,
    inv: Seq<int>,
    raw: Seq<(usize, usize)>,
    hits: Seq<(usize, usize)>,
)
    requires
        reported_as_seen(auto, hay, raw),
        slots.len() == auto.len(),
        forall|p: int| 0 <= p < slots.len() ==> (#[trigger] slots[p]) < all.len() && all[slots[p] as int] == auto[p],
        inv.len() == all.len(),
        forall|i: int|
            0 <= i < all.len() && all[i].len() > 0 ==> 0 <= #[trigger] inv[i] < slots.len()
                && slots[inv[i]] == i,
        hits == raw.map_values(|h: (usize, usize)| (slots[h.0 as int], h.1)),
    ensures
        reported_as_seen(all, hay, hits),
{
    assert forall|j: int| 0 <= j < hits.len() implies hit_end(all, #[trigger] hits[j]) == hit_end(auto, raw[j]) && (hits[j]).0 < all.len() && occurs(
            hay,
            all[hits[j].0 as int],
            hits[j].1 as int,
        ) by {
        assert(raw[j].0 < auto.len());
    }
    assert forall|j: int| 0 <= j <= hits.len() implies resume_at(all, hits, j) == resume_at(auto, raw, j) by {
        if j > 0 {
            assert(hit_end(all, hits[j - 1]) == hit_end(auto, raw[j - 1]));
        }
    }
    assert forall|j: int| 0 < j < hits.len() implies (#[trigger] hits[j]).1 >= hit_end(all, hits[j - 1]) by {
        assert(raw[j].1 >= hit_end(auto, raw[j - 1]));
        assert(hit_end(all, hits[j - 1]) == hit_end(auto, raw[j - 1]));
    }
    assert forall|j: int, i: int, s: int|
        #![trigger hits[j], occurs(hay, all[i], s)]
        0 <= j < hits.len() && 0 <= i < all.len() && s >= resume_at(all, hits, j) && occurs(
            hay,
            all[i],
            s,
        ) implies s + all[i].len() >= hit_end(all, hits[j]) by {
        let p = inv[i];
        assert(auto[p] == all[i]);
        assert(resume_at(all, hits, j) == resume_at(auto, raw, j));
        assert(hit_end(all, hits[j]) == hit_end(auto, raw[j]));
        assert(occurs(hay, auto[p], s));
    }
    assert forall|i: int, s: int|
        0 <= i < all.len() && s >= resume_at(all, hits, hits.len() as int) implies !#[trigger] occurs(
            hay,
            all[i],
            s,
        ) by {
        if occurs(hay, all[i], s) {
            let p = inv[i];
            assert(auto[p] == all[i]);
            assert(resume_at(all, hits, hits.len() as int) == resume_at(auto, raw, raw.len() as int));
            assert(occurs(hay, auto[p], s));
        }
    }
}

/// Searches a haystack for a batch of wildcard patterns at once.
pub trait AhoPattern {
    /// For each pattern, in order, where it first occurs in `haystack`
    /// (leading wildcards counted), or `None`. The automaton reports the
    /// anchors' occurrences as a left-to-right scan sees them; for each
    /// pattern the first of its hits at which the whole pattern matches
    /// gives its start. Fails exactly when the automaton cannot be built from
    /// the non-empty anchors; with none (an empty batch, or only wildcards)
    /// it succeeds.
    fn find_patterns(haystack: &[u8], patterns: Vec<PatternBytes>) -> (r: Result<
        Vec<Option<usize>>,
        Error,
    >)
        ensures
            r is Ok <==> automaton_builds(kept_anchors(views(patterns@))),
            kept_anchors(views(patterns@)).len() == 0 ==> r is Ok,
            r matches Ok(out) ==> first_accepted(
                haystack@,
                views(patterns@),
                batch_hits(haystack@, views(patterns@)),
                out@,
            ),
            r matches Ok(out) ==> reported_as_seen(
                all_anchors(views(patterns@)),
                haystack@,
                batch_hits(haystack@, views(patterns@)),
            ),
            r matches Err(e) ==> e is AhoCorasick,
    ;
}

impl AhoPattern for AhoCorasick {
    fn find_patterns(haystack: &[u8], patterns: Vec<PatternBytes>) -> (r: Result<
        Vec<Option<usize>>,
        Error,
    >) {
        let ghost pats = views(patterns@);
        let ghost all = all_anchors(pats);
        let mut records: Vec<AnchorRecord> = Vec::new();
        let mut anchors: Vec<Vec<u8>> = Vec::new();
        let mut slots: Vec<usize> = Vec::new();
        let ghost mut inv: Seq<int> = Seq::empty();
        let mut i: usize = 0;
        while i < patterns.len()
            invariant
                pats == views(patterns@),
                all == all_anchors(pats),
                i <= patterns.len(),
                records.len() == i,
                forall|t: int| 0 <= t < i ==> (#[trigger] records[t]).describes(patterns[t]@),
                slots@ == kept(pats.subrange(0, i as int)),
                anchors.len() == slots.len(),
                forall|p: int|
                    0 <= p < slots.len() ==> (#[trigger] slots@[p]) < i && all[slots@[p] as int]
                        == anchors@[p]@,
                forall|p: int| 0 <= p < anchors.len() ==> (#[trigger] anchors@[p])@.len() > 0,
                inv.len() == i,
                forall|t: int|
                    0 <= t < i && all[t].len() > 0 ==> 0 <= #[trigger] inv[t] < slots.len()
                        && slots@[inv[t]] == t,
            decreases patterns.len() - i,
        {
            let rec = AnchorRecord::new(&patterns[i]);
            proof {
                assert(pats.subrange(0, i + 1).drop_last() =~= pats.subrange(0, i as int));
                assert(pats[i as int] == patterns[i as int]@);
                assert(all[i as int] == anchor_bytes(pats[i as int]));
            }
            if rec.anchor.len() > 0 {
                proof {
                    inv = inv.push(slots.len() as int);
                }
                slots.push(i);
                let a = rec.anchor.clone();
                assert(a@ =~= rec.anchor@);
                anchors.push(a);
            } else {
                proof {
                    inv = inv.push(0);
                }
            }
            records.push(rec);
            i = i + 1;
        }
        proof {
            assert(pats.subrange(0, i as int) =~= pats);
            assert(anchors@.map_values(|v: Vec<u8>| v@) =~= kept_anchors(pats));
        }
        let ac = match build_automaton(&anchors) {
            Ok(a) => a,
            Err(e) => {
                return Err(Error::AhoCorasick(e));
            },
        };
        assert(forall|p: int|
            0 <= p < automaton_patterns(ac).len() ==> automaton_patterns(ac)[p] == anchors@[p]@);
        let raw = find_all(&ac, haystack);
        let mut hits: Vec<(usize, usize)> = Vec::new();
        let mut j: usize = 0;
        while j < raw.len()
            invariant
                reported_as_seen(automaton_patterns(ac), haystack@, raw@),
                automaton_patterns(ac) == anchors@.map_values(|v: Vec<u8>| v@),
                anchors.len() == slots.len(),
                j <= raw.len(),
                hits@ == raw@.subrange(0, j as int).map_values(
                    |h: (usize, usize)| (slots@[h.0 as int], h.1),
                ),
            decreases raw.len() - j,
        {
            let (p, s) = raw[j];
            assert(p < anchors.len());
            hits.push((slots[p], s));
            j = j + 1;
            assert(hits@ =~= raw@.subrange(0, j as int).map_values(
                |h: (usize, usize)| (slots@[h.0 as int], h.1),
            ));
        }
        proof {
            assert(raw@.subrange(0, j as int) =~= raw@);
            assert(hits@ =~= batch_hits(haystack@, pats));
            lemma_renumber(
                haystack@,
                automaton_patterns(ac),
                all,
                slots@,
                inv,
                raw@,
                hits@,
            );
        }
        let out = resolve_hits(haystack, &patterns, &records, &hits);
        Ok(out)
    }
}

} // verus!
