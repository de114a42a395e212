//! Wildcard patterns: their cells, leading wildcards, anchors and templates.
use vstd::prelude::*;

verus! {

/// A sequence of bytes where unknown values are represented as `None`.
///
/// For example, the byte pattern `48 ? 2E` is `[Some(0x48), None, Some(0x2E)]`.
#[derive(Debug, Clone)]
pub struct PatternBytes(pub Vec<Option<u8>>);

impl View for PatternBytes {
    type V = Seq<Option<u8>>;

    open spec fn view(&self) -> Seq<Option<u8>> {
        self.0@
    }
}

/// The index of the first known cell at or after `i` (or the length).
pub open spec fn first_known_from(p: Seq<Option<u8>>, i: int) -> int
    decreases p.len() - i,
{
    if 0 <= i < p.len() && p[i] is None {
        first_known_from(p, i + 1)
    } else {
        i
    }
}

/// How many wildcard cells the pattern starts with.
pub open spec fn leading_wildcards(p: Seq<Option<u8>>) -> int {
    first_known_from(p, 0)
}

/// The pattern without its leading wildcard cells.
pub open spec fn stripped(p: Seq<Option<u8>>) -> Seq<Option<u8>> {
    p.subrange(leading_wildcards(p), p.len() as int)
}

/// Cells `a .. a + n` lie in the pattern and are all known.
pub open spec fn known_run(p: Seq<Option<u8>>, a: int, n: int) -> bool {
    &&& 0 <= a
    &&& 0 <= n
    &&& a + n <= p.len()
    &&& forall|t: int| a <= t < a + n ==> (#[trigger] p[t]) is Some
}

/// `(st, ln)` is the leftmost of the longest runs of known cells.
pub open spec fn is_anchor(p: Seq<Option<u8>>, st: int, ln: int) -> bool {
    &&& known_run(p, st, ln)
    &&& forall|a: int| !#[trigger] known_run(p, a, ln + 1)
    &&& forall|a: int| 0 <= a < st ==> !#[trigger] known_run(p, a, ln)
}

/// Start and length of the anchor of a pattern.
pub open spec fn anchor_of(p: Seq<Option<u8>>) -> (int, int) {
    choose|st: int, ln: int| is_anchor(p, st, ln)
}

/// The known bytes of cells `a .. b`.
pub open spec fn known_bytes(p: Seq<Option<u8>>, a: int, b: int) -> Seq<u8> {
    Seq::new((b - a) as nat, |t: int| p[a + t]->0)
}

/// The byte template of a pattern: known bytes, zero at wildcards.
pub open spec fn template_of(p: Seq<Option<u8>>) -> Seq<u8> {
    Seq::new(p.len(), |t: int| if p[t] is Some { p[t]->0 } else { 0 })
}

/// The wildcard mask of a pattern.
pub open spec fn mask_of(p: Seq<Option<u8>>) -> Seq<bool> {
    Seq::new(p.len(), |t: int| p[t] is None)
}

/// The pattern lies in `hay` at `k` and every known cell equals the byte there.
pub open spec fn matches_at(hay: Seq<u8>, p: Seq<Option<u8>>, k: int) -> bool {
    &&& 0 <= k
    &&& k + p.len() <= hay.len()
    &&& forall|t: int| 0 <= t < p.len() && (#[trigger] p[t]) is Some ==> p[t]->0 == hay[k + t]
}

/// Each position up to the shortest length passes: masked, or equal bytes.
pub open spec fn masked_equal(buffer: Seq<u8>, pattern: Seq<u8>, mask: Seq<bool>) -> bool {
    forall|t: int|
        0 <= t < buffer.len() && t < pattern.len() && t < mask.len() ==> #[trigger] mask[t]
            || buffer[t] == pattern[t]
}

/// A known run lies inside every longer known run that holds it.
pub proof fn lemma_known_run_shrink(p: Seq<Option<u8>>, a: int, n: int, b: int, m: int)
    requires
        known_run(p, a, n),
        a <= b,
        0 <= m,
        b + m <= a + n,
    ensures
        known_run(p, b, m),
{
}

/// There is exactly one anchor.
pub proof fn lemma_anchor_unique(p: Seq<Option<u8>>, s1: int, l1: int, s2: int, l2: int)
    requires
        is_anchor(p, s1, l1),
        is_anchor(p, s2, l2),
    ensures
        s1 == s2,
        l1 == l2,
{
    if l1 > l2 {
        lemma_known_run_shrink(p, s1, l1, s1, l2 + 1);
    }
    if l2 > l1 {
        lemma_known_run_shrink(p, s2, l2, s2, l1 + 1);
    }
    if s1 < s2 {
        assert(known_run(p, s1, l2));
    }
    if s2 < s1 {
        assert(known_run(p, s2, l1));
    }
}

/// Whatever anchor is found is the one `anchor_of` names.
pub proof fn lemma_anchor_of(p: Seq<Option<u8>>, st: int, ln: int)
    requires
        is_anchor(p, st, ln),
    ensures
        anchor_of(p) == (st, ln),
{
    let (s2, l2) = anchor_of(p);
    lemma_anchor_unique(p, st, ln, s2, l2);
}

impl PatternBytes {
    /// Counts the leading wildcard cells.
    pub fn leading_wildcard_count(&self) -> (r: usize)
        ensures
            r as int == leading_wildcards(self@),
            r <= self@.len(),
            forall|t: int| 0 <= t < r ==> (#[trigger] self@[t]) is None,
            r < self@.len() ==> self@[r as int] is Some,
    {
        let mut i: usize = 0;
        while i < self.0.len() && self.0[i].is_none()
            invariant
                i <= self@.len(),
                first_known_from(self@, i as int) == leading_wildcards(self@),
                forall|t: int| 0 <= t < i ==> (#[trigger] self@[t]) is None,
            decreases self@.len() - i,
        {
            i = i + 1;
        }
        i
    }

    /// Splits off the leading wildcard cells: the rest of the pattern and
    /// how many were removed. Interior and trailing wildcards stay.
    pub fn strip_leading_wildcards(&self) -> (r: (PatternBytes, usize))
        ensures
            r.1 as int == leading_wildcards(self@),
            r.0@ == stripped(self@),
            r.0@ == self@.subrange(r.1 as int, self@.len() as int),
            forall|t: int| 0 <= t < r.1 ==> (#[trigger] self@[t]) is None,
            r.0@.len() > 0 ==> r.0@[0] is Some,
    {
        let count = self.leading_wildcard_count();
        let mut cells: Vec<Option<u8>> = Vec::new();
        let mut i: usize = count;
        while i < self.0.len()
            invariant
                count <= i <= self@.len(),
                cells@ == self@.subrange(count as int, i as int),
            decreases self@.len() - i,
        {
            cells.push(self.0[i]);
            i = i + 1;
        }
        (PatternBytes(cells), count)
    }
}


impl PatternBytes {
    /// Finds the anchor: the longest run of known cells, the leftmost one
    /// among runs of equal length. Returns its start and length; a pattern
    /// without known cells gives `(0, 0)`.
    pub fn select_anchor(&self) -> (r: (usize, usize))
        ensures
            is_anchor(self@, r.0 as int, r.1 as int),
            anchor_of(self@) == (r.0 as int, r.1 as int),
            r.1 == 0 ==> r.0 == 0,
    {
        let ghost p = self@;
        let mut best_start: usize = 0;
        let mut best_length: usize = 0;
        let mut current_start: usize = 0;
        let mut current_length: usize = 0;
        let mut i: usize = 0;
        while i < self.0.len()
            invariant
                p == self@,
                i <= p.len(),
                known_run(p, best_start as int, best_length as int),
                best_start + best_length <= i,
                best_length == 0 ==> best_start == 0,
                forall|a: int| a + best_length + 1 <= i ==> !#[trigger] known_run(p, a, best_length + 1),
                forall|a: int|
                    0 <= a < best_start && a + best_length <= i ==> !#[trigger] known_run(
                        p,
                        a,
                        best_length as int,
                    ),
                current_start + current_length == i,
                known_run(p, current_start as int, current_length as int),
                current_start == 0 || p[current_start - 1] is None,
                current_length <= best_length,
            decreases p.len() - i,
        {
            if self.0[i].is_some() {
                current_length = current_length + 1;
                assert(known_run(p, current_start as int, current_length as int));
                assert forall|a: int, n: int| a + n == i + 1 && n > 0 && #[trigger] known_run(p, a, n) implies a >= current_start by {
                    if a < current_start {
                        assert(p[current_start - 1] is Some);
                    }
                }
                if current_length > best_length {
                    assert forall|a: int| a + current_length + 1 <= i + 1 implies !#[trigger] known_run(p, a, current_length + 1) by {
                        if known_run(p, a, current_length + 1) {
                            lemma_known_run_shrink(p, a, current_length + 1, a, best_length + 1);
                        }
                    }
                    assert forall|a: int| 0 <= a < current_start && a + current_length <= i + 1 implies !#[trigger] known_run(p, a, current_length as int) by {
                        if known_run(p, a, current_length as int) && a + current_length <= i {
                            lemma_known_run_shrink(p, a, current_length as int, a, best_length + 1);
                        }
                    }
                    best_length = current_length;
                    best_start = current_start;
                } else {
                    assert forall|a: int| a + best_length + 1 <= i + 1 implies !#[trigger] known_run(p, a, best_length + 1) by {
                        if a + best_length + 1 == i + 1 && known_run(p, a, best_length + 1) {
                            assert(a >= current_start);
                        }
                    }
                }
            } else {
                assert forall|a: int, n: int| a + n == i + 1 && n > 0 implies !#[trigger] known_run(p, a, n) by {
                    if known_run(p, a, n) {
                        assert(p[i as int] is Some);
                    }
                }
                current_length = 0;
                current_start = i + 1;
            }
            i = i + 1;
        }
        proof {
            assert forall|a: int| !#[trigger] known_run(p, a, best_length + 1) by {
                if known_run(p, a, best_length + 1) {
                    assert(a + best_length + 1 <= i);
                }
            }
            assert forall|a: int| 0 <= a < best_start implies !#[trigger] known_run(p, a, best_length as int) by {
                if known_run(p, a, best_length as int) {
                    assert(a + best_length <= i);
                }
            }
            lemma_anchor_of(p, best_start as int, best_length as int);
        }
        (best_start, best_length)
    }

    /// The verification template: each cell's byte (zero at a wildcard) and,
    /// in parallel, whether the cell is a wildcard.
    pub fn parse_pattern(&self) -> (r: (Vec<u8>, Vec<bool>))
        ensures
            r.0@ == template_of(self@),
            r.1@ == mask_of(self@),
    {
        let mut bytes: Vec<u8> = Vec::new();
        let mut mask: Vec<bool> = Vec::new();
        let mut i: usize = 0;
        while i < self.0.len()
            invariant
                i <= self@.len(),
                bytes@ == template_of(self@).subrange(0, i as int),
                mask@ == mask_of(self@).subrange(0, i as int),
            decreases self@.len() - i,
        {
            match self.0[i] {
                Some(b) => {
                    bytes.push(b);
                    mask.push(false);
                },
                None => {
                    bytes.push(0);
                    mask.push(true);
                },
            }
            i = i + 1;
        }
        assert(bytes@ == template_of(self@));
        assert(mask@ == mask_of(self@));
        (bytes, mask)
    }

    /// Whether `buffer` passes the template: at each position up to the
    /// shortest of the three lengths, the mask is set or the bytes agree.
    pub fn matches_pattern(buffer: &[u8], pattern: &[u8], mask: &[bool]) -> (r: bool)
        ensures
            r == masked_equal(buffer@, pattern@, mask@),
    {
        let mut i: usize = 0;
        while i < buffer.len() && i < pattern.len() && i < mask.len()
            invariant
                i <= buffer@.len(),
                forall|t: int| 0 <= t < i ==> #[trigger] mask@[t] || buffer@[t] == pattern@[t],
            decreases buffer@.len() - i,
        {
            if !mask[i] && buffer[i] != pattern[i] {
                return false;
            }
            i = i + 1;
        }
        true
    }
}

} // verus!
