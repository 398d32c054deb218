//! The candidate search of the match engine: given a threshold, find the
//! single best unclaimed run of equal words between a source and a target
//! section.

use vstd::prelude::*;
use vstd::math::max;

use crate::section::Section;

verus! {

/// A claim that `size` source words starting at word offset `source_start`
/// equal the `size` target words starting at `target_start`.
#[derive(Clone, Copy, Debug, PartialEq, Eq, Structural)]
pub struct Match {
    pub source_start: u32,
    pub target_start: u32,
    pub size: u32,
}

impl Match {
    /// One past the last source word this match covers.
    pub fn source_end(&self) -> (r: u32)
        requires
            self.source_start + self.size <= u32::MAX,
        ensures
            r == self.source_start + self.size,
    {
        self.source_start + self.size
    }

    /// Whether the source word at `source_offset` lies inside this match.
    pub fn contains_source(&self, source_offset: u32) -> (r: bool)
        ensures
            r == spec_contains_source(*self, source_offset as int),
    {
        source_offset >= self.source_start && source_offset - self.source_start < self.size
    }

    /// Whether the target word at `target_offset` lies inside this match.
    pub fn contains_target(&self, target_offset: u32) -> (r: bool)
        ensures
            r == spec_contains_target(*self, target_offset as int),
    {
        target_offset >= self.target_start && target_offset - self.target_start < self.size
    }
}

pub open spec fn spec_contains_source(m: Match, p: int) -> bool {
    m.source_start <= p < m.source_start + m.size
}

pub open spec fn spec_contains_target(m: Match, p: int) -> bool {
    m.target_start <= p < m.target_start + m.size
}

/// Whether some accepted match already covers source position `p`.
pub open spec fn claimed_source(ms: Seq<Match>, p: int) -> bool {
    exists|k: int| 0 <= k < ms.len() && spec_contains_source(ms[k], p)
}

/// Whether some accepted match already covers target position `p`.
pub open spec fn claimed_target(ms: Seq<Match>, p: int) -> bool {
    exists|k: int| 0 <= k < ms.len() && spec_contains_target(ms[k], p)
}

/// Whether two matches claim disjoint source ranges and disjoint target
/// ranges.
pub open spec fn match_disjoint(a: Match, b: Match) -> bool {
    (a.source_start + a.size <= b.source_start || b.source_start + b.size <= a.source_start) && (
    a.target_start + a.size <= b.target_start || b.target_start + b.size <= a.target_start)
}

/// No two source ranges of the set intersect.
pub open spec fn source_ranges_disjoint(ms: Seq<Match>) -> bool {
    forall|i: int, j: int|
        0 <= i < j < ms.len() ==> ((#[trigger] ms[i]).source_start + ms[i].size
            <= (#[trigger] ms[j]).source_start || ms[j].source_start + ms[j].size
            <= ms[i].source_start)
}

/// No two target ranges of the set intersect.
pub open spec fn target_ranges_disjoint(ms: Seq<Match>) -> bool {
    forall|i: int, j: int|
        0 <= i < j < ms.len() ==> ((#[trigger] ms[i]).target_start + ms[i].size
            <= (#[trigger] ms[j]).target_start || ms[j].target_start + ms[j].size
            <= ms[i].target_start)
}

/// Every match of the set covers at least one word.
pub open spec fn all_nonempty(ms: Seq<Match>) -> bool {
    forall|i: int| 0 <= i < ms.len() ==> (#[trigger] ms[i]).size >= 1
}

pub open spec fn first_target_claim_from(ms: Seq<Match>, p: int, k: int) -> Option<Match>
    decreases ms.len() - k,
{
    if !(0 <= k < ms.len()) {
        None
    } else if spec_contains_target(ms[k], p) {
        Some(ms[k])
    } else {
        first_target_claim_from(ms, p, k + 1)
    }
}

/// The first accepted match that covers target position `p`, if any.
pub open spec fn first_target_claim(ms: Seq<Match>, p: int) -> Option<Match> {
    first_target_claim_from(ms, p, 0)
}

/// How far a run of equal words extends leftwards from just before source
/// position `so` / target position `to`: it stops at the first mismatch,
/// at either buffer's edge, and at the edge of any claimed range, so a
/// candidate never grows into the portions already matched.
pub open spec fn ext_left(s: Seq<u32>, t: Seq<u32>, ms: Seq<Match>, so: int, to: int) -> nat
    decreases so,
{
    if 1 <= so <= s.len() && 1 <= to <= t.len() && s[so - 1] == t[to - 1] && !claimed_source(
        ms,
        so - 1,
    ) && !claimed_target(ms, to - 1) {
        (1 + ext_left(s, t, ms, so - 1, to - 1)) as nat
    } else {
        0
    }
}

/// How far a run of equal words extends rightwards from source position `so`
/// / target position `to` (those positions included), stopping at the same
/// boundaries as the leftward extension.
pub open spec fn ext_right(s: Seq<u32>, t: Seq<u32>, ms: Seq<Match>, so: int, to: int) -> nat
    decreases s.len() - so,
{
    if 0 <= so < s.len() && 0 <= to < t.len() && s[so] == t[to] && !claimed_source(ms, so)
        && !claimed_target(ms, to) {
        (1 + ext_right(s, t, ms, so + 1, to + 1)) as nat
    } else {
        0
    }
}

/// The maximal unclaimed equal run through anchor `a` and target offset
/// `to`: extended left and right as far as the words agree and no accepted
/// match is touched.
pub open spec fn candidate_at(s: Seq<u32>, t: Seq<u32>, ms: Seq<Match>, a: int, to: int) -> Match {
    let l = ext_left(s, t, ms, a, to) as int;
    let r = ext_right(s, t, ms, a, to) as int;
    Match { source_start: (a - l) as u32, target_start: (to - l) as u32, size: (l + r) as u32 }
}

/// Keeps the better of the running best and a new candidate: a candidate
/// below the threshold never replaces, and a tie replaces (the most recently
/// found candidate wins a tie).
pub open spec fn update_best(best: Option<Match>, cand: Match, min_size: int) -> Option<Match> {
    match best {
        Some(b) => if cand.size >= min_size && b.size <= cand.size {
            Some(cand)
        } else {
            best
        },
        None => if cand.size >= min_size {
            Some(cand)
        } else {
            None
        },
    }
}

/// One scan of the whole target range for a fixed anchor `a`: a target
/// offset inside a claimed range is first moved past that range's end.
pub open spec fn scan_target(
    min_size: int,
    s: Seq<u32>,
    t: Seq<u32>,
    ms: Seq<Match>,
    a: int,
    to: int,
    best: Option<Match>,
) -> Option<Match>
    decreases max(t.len() - to, 0),
{
    if !(0 <= to < t.len()) {
        best
    } else {
        let to2 = match first_target_claim(ms, to) {
            Some(m) => to + m.size,
            None => to,
        };
        let best2 = update_best(best, candidate_at(s, t, ms, a, to2), min_size);
        scan_target(min_size, s, t, ms, a, to2 + 1, best2)
    }
}

/// The full pass over the anchors: they start at `min_size / 2` and step by
/// `min_size`; an anchor inside a claimed source range probes nothing.
pub open spec fn scan_anchors(
    min_size: int,
    s: Seq<u32>,
    t: Seq<u32>,
    ms: Seq<Match>,
    a: int,
    best: Option<Match>,
) -> Option<Match>
    decreases max(s.len() + min_size - a, 0),
{
    if min_size <= 0 || !(0 <= a < s.len()) {
        best
    } else {
        let best2 = if claimed_source(ms, a) {
            best
        } else {
            scan_target(min_size, s, t, ms, a, 0, best)
        };
        scan_anchors(min_size, s, t, ms, a + min_size, best2)
    }
}

/// The single best candidate of size at least `min_size` whose anchor and
/// probe offset are unclaimed, or nothing if no such candidate exists.
pub open spec fn spec_find_best(min_size: int, s: Seq<u32>, t: Seq<u32>, ms: Seq<Match>) -> Option<
    Match,
> {
    scan_anchors(min_size, s, t, ms, min_size / 2, None)
}

proof fn lemma_first_target_claim_covers(ms: Seq<Match>, p: int, k: int)
    requires
        0 <= k <= ms.len(),
        first_target_claim_from(ms, p, k) is Some,
    ensures
        spec_contains_target(first_target_claim_from(ms, p, k)->Some_0, p),
    decreases ms.len() - k,
{
    if k < ms.len() && !spec_contains_target(ms[k], p) {
        lemma_first_target_claim_covers(ms, p, k + 1);
    }
}

/// Whether some accepted match covers source position `p` (run-time check).
fn is_source_claimed(matches: &[Match], p: u32) -> (r: bool)
    ensures
        r == claimed_source(matches@, p as int),
{
    let mut k: usize = 0;
    let mut found = false;
    while k < matches.len()
        invariant
            k <= matches@.len(),
            found == exists|q: int| 0 <= q < k && spec_contains_source(matches@[q], p as int),
        decreases matches@.len() - k,
    {
        if matches[k].contains_source(p) {
            proof {
                assert(spec_contains_source(matches@[k as int], p as int));
            }
            found = true;
        }
        k = k + 1;
    }
    found
}

/// Whether some accepted match covers target position `p` (run-time check).
fn is_target_claimed(matches: &[Match], p: u32) -> (r: bool)
    ensures
        r == claimed_target(matches@, p as int),
{
    let mut k: usize = 0;
    let mut found = false;
    while k < matches.len()
        invariant
            k <= matches@.len(),
            found == exists|q: int| 0 <= q < k && spec_contains_target(matches@[q], p as int),
        decreases matches@.len() - k,
    {
        if matches[k].contains_target(p) {
            proof {
                assert(spec_contains_target(matches@[k as int], p as int));
            }
            found = true;
        }
        k = k + 1;
    }
    found
}

/// The first accepted match covering target position `p` (run-time search).
fn find_target_claim(matches: &[Match], p: u32) -> (r: Option<Match>)
    ensures
        r == first_target_claim(matches@, p as int),
{
    let mut k: usize = 0;
    while k < matches.len()
        invariant
            k <= matches@.len(),
            first_target_claim(matches@, p as int) == first_target_claim_from(
                matches@,
                p as int,
                k as int,
            ),
        decreases matches@.len() - k,
    {
        if matches[k].contains_target(p) {
            return Some(matches[k]);
        }
        k = k + 1;
    }
    None
}

/// Scans the whole source/target pair for the best unclaimed candidate match
/// of size at least `min_size`: anchors step across the source at `min_size`
/// intervals, and each anchor is probed against every unclaimed target
/// offset, extending left and right while the words agree and no accepted
/// match is touched. A found match therefore never overlaps the accepted
/// set in either coordinate space.
pub fn find_best_match(min_size: u32, source: &Section, target: &Section, matches: &[Match]) -> (r:
    Option<Match>)
    requires
        1 <= min_size,
        source.vals@.len() <= u32::MAX,
        target.vals@.len() <= u32::MAX,
    ensures
        r == spec_find_best(min_size as int, source.vals@, target.vals@, matches@),
        all_nonempty(matches@) ==> (r matches Some(m) ==> forall|k: int|
            0 <= k < matches@.len() ==> match_disjoint(m, #[trigger] matches@[k])),
{
    proof {
        if all_nonempty(matches@) {
            crate::laws::lemma_find_best_good(
                min_size as int,
                source.vals@,
                target.vals@,
                matches@,
            );
        }
    }
    let ghost s = source.vals@;
    let ghost t = target.vals@;
    let ghost ms = matches@;
    let slen: u64 = source.vals.len() as u64;
    let tlen: u64 = target.vals.len() as u64;
    let mut best: Option<Match> = None;
    let mut a: u64 = (min_size / 2) as u64;
    while a < slen
        invariant
            1 <= min_size,
            s == source.vals@,
            t == target.vals@,
            ms == matches@,
            slen == s.len(),
            tlen == t.len(),
            slen <= u32::MAX,
            tlen <= u32::MAX,
            spec_find_best(min_size as int, s, t, ms) == scan_anchors(
                min_size as int,
                s,
                t,
                ms,
                a as int,
                best,
            ),
        decreases slen + min_size - a,
    {
        let ghost obest = best;
        let claimed = is_source_claimed(matches, a as u32);
        if !claimed {
            let ghost best0 = best;
            let mut to: u64 = 0;
            while to < tlen
                invariant
                    1 <= min_size,
                    s == source.vals@,
                    t == target.vals@,
                    ms == matches@,
                    slen == s.len(),
                    tlen == t.len(),
                    slen <= u32::MAX,
                    tlen <= u32::MAX,
                    a < slen,
                    scan_target(min_size as int, s, t, ms, a as int, 0, best0) == scan_target(
                        min_size as int,
                        s,
                        t,
                        ms,
                        a as int,
                        to as int,
                        best,
                    ),
                decreases max(tlen - to, 0),
            {
                let ghost best_in = best;
                let claim = find_target_claim(matches, to as u32);
                proof {
                    if claim is Some {
                        lemma_first_target_claim_covers(ms, to as int, 0);
                    }
                }
                let to2: u64 = match claim {
                    Some(m) => to + m.size as u64,
                    None => to,
                };
                // extend the run leftwards from the anchor and probe point
                let mut left: u64 = 0;
                loop
                    invariant_except_break
                        s == source.vals@,
                        t == target.vals@,
                        ms == matches@,
                        slen == s.len(),
                        tlen == t.len(),
                        slen <= u32::MAX,
                        tlen <= u32::MAX,
                        a < slen,
                        to2 <= tlen + u32::MAX,
                        left <= a,
                        left <= to2,
                        ext_left(s, t, ms, a as int, to2 as int) == left + ext_left(
                            s,
                            t,
                            ms,
                            a - left,
                            to2 - left,
                        ),
                    ensures
                        left <= a,
                        left <= to2,
                        ext_left(s, t, ms, a as int, to2 as int) == left,
                    decreases a - left,
                {
                    if !(a >= left + 1 && to2 >= left + 1 && to2 - left <= tlen) {
                        proof {
                            assert(ext_left(s, t, ms, (a - left) as int, (to2 - left) as int) == 0);
                        }
                        break;
                    }
                    let si = (a - 1 - left) as usize;
                    let ti = (to2 - 1 - left) as usize;
                    proof {
                        assert(si == a - 1 - left);
                        assert(ti == to2 - 1 - left);
                    }
                    if source.vals[si] != target.vals[ti] {
                        proof {
                            assert(ext_left(s, t, ms, (a - left) as int, (to2 - left) as int) == 0);
                        }
                        break;
                    }
                    if is_source_claimed(matches, si as u32) || is_target_claimed(
                        matches,
                        ti as u32,
                    ) {
                        proof {
                            assert(ext_left(s, t, ms, (a - left) as int, (to2 - left) as int) == 0);
                        }
                        break;
                    }
                    left = left + 1;
                }
                // extend it rightwards
                let mut right: u64 = 0;
                loop
                    invariant_except_break
                        s == source.vals@,
                        t == target.vals@,
                        ms == matches@,
                        slen == s.len(),
                        tlen == t.len(),
                        slen <= u32::MAX,
                        tlen <= u32::MAX,
                        a < slen,
                        to2 <= tlen + u32::MAX,
                        right <= slen - a,
                        ext_right(s, t, ms, a as int, to2 as int) == right + ext_right(
                            s,
                            t,
                            ms,
                            a + right,
                            to2 + right,
                        ),
                    ensures
                        right <= slen - a,
                        ext_right(s, t, ms, a as int, to2 as int) == right,
                    decreases slen - a - right,
                {
                    if !(a + right < slen && to2 + right < tlen) {
                        proof {
                            assert(ext_right(s, t, ms, (a + right) as int, (to2 + right) as int)
                                == 0);
                        }
                        break;
                    }
                    let si = (a + right) as usize;
                    let ti = (to2 + right) as usize;
                    proof {
                        assert(si == a + right);
                        assert(ti == to2 + right);
                    }
                    if source.vals[si] != target.vals[ti] {
                        proof {
                            assert(ext_right(s, t, ms, (a + right) as int, (to2 + right) as int)
                                == 0);
                        }
                        break;
                    }
                    if is_source_claimed(matches, si as u32) || is_target_claimed(
                        matches,
                        ti as u32,
                    ) {
                        proof {
                            assert(ext_right(s, t, ms, (a + right) as int, (to2 + right) as int)
                                == 0);
                        }
                        break;
                    }
                    right = right + 1;
                }
                let size: u64 = left + right;
                let ghost cand = candidate_at(s, t, ms, a as int, to2 as int);
                proof {
                    assert(cand.size == size) by {
                        assert(ext_left(s, t, ms, a as int, to2 as int) == left);
                        assert(ext_right(s, t, ms, a as int, to2 as int) == right);
                    }
                }
                if size >= min_size as u64 {
                    let replace = match best {
                        Some(b) => b.size as u64 <= size,
                        None => true,
                    };
                    if replace {
                        proof {
                            if left > 0 {
                                assert(to2 <= tlen);
                            } else {
                                assert(right > 0);
                                assert(to2 < tlen);
                            }
                        }
                        best = Some(
                            Match {
                                source_start: (a - left) as u32,
                                target_start: (to2 - left) as u32,
                                size: size as u32,
                            },
                        );
                        proof {
                            assert(best == Some(cand));
                        }
                    }
                }
                proof {
                    assert(best == update_best(best_in, cand, min_size as int));
                    assert(scan_target(min_size as int, s, t, ms, a as int, to as int, best_in)
                        == scan_target(min_size as int, s, t, ms, a as int, to2 + 1, best));
                }
                to = to2 + 1;
            }
            proof {
                assert(scan_target(min_size as int, s, t, ms, a as int, to as int, best) == best);
            }
        }
        proof {
            assert(scan_anchors(min_size as int, s, t, ms, a as int, obest) == scan_anchors(
                min_size as int,
                s,
                t,
                ms,
                a + min_size,
                best,
            ));
        }
        a = a + min_size as u64;
    }
    best
}

} // verus!
