//! Properties of the match engine and the overlap resolver, proved once and
//! for all inputs: accepted matches stay inside both sections, relate only
//! equal words, and never overlap one another in either coordinate space;
//! earlier acceptances are never disturbed by later passes; and the
//! resolver only shrinks matches in place.

use vstd::prelude::*;

use crate::engine::{spec_pass, spec_process, spec_sweep, min3};
use crate::matching::{Match, all_nonempty, candidate_at, claimed_source, claimed_target, ext_left,
    ext_right, first_target_claim, match_disjoint, scan_anchors, scan_target, source_ranges_disjoint,
    spec_contains_source, spec_contains_target, spec_find_best, target_ranges_disjoint, update_best};
use crate::resolve::{fix_step, spec_find_ret, spec_fix_all, spec_fix_from};

verus! {

/// The match's ranges lie inside the two sections.
pub open spec fn match_within(m: Match, slen: int, tlen: int) -> bool {
    m.source_start + m.size <= slen && m.target_start + m.size <= tlen
}

/// The match only relates equal words.
pub open spec fn match_exact(m: Match, s: Seq<u32>, t: Seq<u32>) -> bool {
    forall|k: int|
        0 <= k < m.size ==> s[m.source_start + k] == #[trigger] t[m.target_start + k]
}

/// Every match of the set is non-empty, within bounds and word-exact.
pub open spec fn all_matches_good(ms: Seq<Match>, s: Seq<u32>, t: Seq<u32>) -> bool {
    forall|i: int|
        0 <= i < ms.len() ==> ((#[trigger] ms[i]).size >= 1 && match_within(
            ms[i],
            s.len() as int,
            t.len() as int,
        ) && match_exact(ms[i], s, t))
}

proof fn lemma_ext_left_facts(s: Seq<u32>, t: Seq<u32>, ms: Seq<Match>, so: int, to: int)
    requires
        0 <= so <= s.len(),
        0 <= to,
    ensures
        ext_left(s, t, ms, so, to) <= so,
        ext_left(s, t, ms, so, to) <= to,
        ext_left(s, t, ms, so, to) >= 1 ==> to <= t.len(),
        forall|j: int|
            0 <= j < ext_left(s, t, ms, so, to) ==> s[so - 1 - j] == #[trigger] t[to - 1 - j],
        forall|j: int|
            0 <= j < ext_left(s, t, ms, so, to) ==> !(#[trigger] claimed_source(ms, so - 1 - j))
                && !claimed_target(ms, to - 1 - j),
    decreases so,
{
    if 1 <= so <= s.len() && 1 <= to <= t.len() && s[so - 1] == t[to - 1] && !claimed_source(
        ms,
        so - 1,
    ) && !claimed_target(ms, to - 1) {
        lemma_ext_left_facts(s, t, ms, so - 1, to - 1);
        let l = ext_left(s, t, ms, so, to);
        assert forall|j: int| 0 <= j < l implies s[so - 1 - j] == #[trigger] t[to - 1 - j] by {
            if j >= 1 {
                assert(s[(so - 1) - 1 - (j - 1)] == t[(to - 1) - 1 - (j - 1)]);
            }
        }
        assert forall|j: int| 0 <= j < l implies !(#[trigger] claimed_source(ms, so - 1 - j))
            && !claimed_target(ms, to - 1 - j) by {
            if j >= 1 {
                assert(!claimed_source(ms, (so - 1) - 1 - (j - 1)));
                assert(!claimed_target(ms, (to - 1) - 1 - (j - 1)));
            }
        }
    }
}

proof fn lemma_ext_right_facts(s: Seq<u32>, t: Seq<u32>, ms: Seq<Match>, so: int, to: int)
    requires
        0 <= so,
        0 <= to,
    ensures
        ext_right(s, t, ms, so, to) <= s.len() - so || ext_right(s, t, ms, so, to) == 0,
        ext_right(s, t, ms, so, to) <= t.len() - to || ext_right(s, t, ms, so, to) == 0,
        ext_right(s, t, ms, so, to) >= 1 ==> so < s.len() && to < t.len(),
        forall|j: int|
            0 <= j < ext_right(s, t, ms, so, to) ==> s[so + j] == #[trigger] t[to + j],
        forall|j: int|
            0 <= j < ext_right(s, t, ms, so, to) ==> !(#[trigger] claimed_source(ms, so + j))
                && !claimed_target(ms, to + j),
    decreases s.len() - so,
{
    if 0 <= so < s.len() && 0 <= to < t.len() && s[so] == t[to] && !claimed_source(ms, so)
        && !claimed_target(ms, to) {
        lemma_ext_right_facts(s, t, ms, so + 1, to + 1);
        let r = ext_right(s, t, ms, so, to);
        assert forall|j: int| 0 <= j < r implies s[so + j] == #[trigger] t[to + j] by {
            if j >= 1 {
                assert(s[(so + 1) + (j - 1)] == t[(to + 1) + (j - 1)]);
            }
        }
        assert forall|j: int| 0 <= j < r implies !(#[trigger] claimed_source(ms, so + j))
            && !claimed_target(ms, to + j) by {
            if j >= 1 {
                assert(!claimed_source(ms, (so + 1) + (j - 1)));
                assert(!claimed_target(ms, (to + 1) + (j - 1)));
            }
        }
    }
}

/// A candidate of nonzero size is a sound match: within both sections,
/// word-exact, and disjoint from every already-accepted match, since its
/// extension stopped at the edges of their ranges.
proof fn lemma_candidate_good(s: Seq<u32>, t: Seq<u32>, ms: Seq<Match>, a: int, to: int)
    requires
        s.len() <= u32::MAX,
        t.len() <= u32::MAX,
        all_nonempty(ms),
        0 <= a < s.len(),
        0 <= to,
        candidate_at(s, t, ms, a, to).size >= 1,
    ensures
        match_within(candidate_at(s, t, ms, a, to), s.len() as int, t.len() as int),
        match_exact(candidate_at(s, t, ms, a, to), s, t),
        forall|k: int|
            0 <= k < ms.len() ==> match_disjoint(candidate_at(s, t, ms, a, to), #[trigger] ms[k]),
{
    let l = ext_left(s, t, ms, a, to) as int;
    let r = ext_right(s, t, ms, a, to) as int;
    lemma_ext_left_facts(s, t, ms, a, to);
    lemma_ext_right_facts(s, t, ms, a, to);
    let m = candidate_at(s, t, ms, a, to);
    assert(m.source_start == a - l);
    assert(to <= t.len()) by {
        if l >= 1 {
        } else {
            assert(r >= 1);
        }
    }
    assert(m.target_start == to - l);
    assert(m.size == l + r);
    assert forall|k: int| 0 <= k < m.size implies s[m.source_start + k] == #[trigger] t[
        m.target_start + k
    ] by {
        if k < l {
            assert(s[a - 1 - (l - 1 - k)] == t[to - 1 - (l - 1 - k)]);
        } else {
            assert(s[a + (k - l)] == t[to + (k - l)]);
        }
    }
    // no position of the candidate is claimed, in either coordinate space
    assert forall|p: int| m.source_start <= p < m.source_start + m.size implies !(
    #[trigger] claimed_source(ms, p)) by {
        if p < a {
            let j = a - 1 - p;
            assert(!claimed_source(ms, a - 1 - j));
        } else {
            let j = p - a;
            assert(!claimed_source(ms, a + j));
        }
    }
    assert forall|q: int| m.target_start <= q < m.target_start + m.size implies !(
    #[trigger] claimed_target(ms, q)) by {
        if q < to {
            let j = to - 1 - q;
            assert(0 <= j < ext_left(s, t, ms, a, to));
            assert(!claimed_source(ms, a - 1 - j));
            assert(!claimed_target(ms, to - 1 - j));
        } else {
            let j = q - to;
            assert(0 <= j < ext_right(s, t, ms, a, to));
            assert(!claimed_source(ms, a + j));
            assert(!claimed_target(ms, to + j));
        }
    }
    assert forall|k: int| 0 <= k < ms.len() implies match_disjoint(m, #[trigger] ms[k]) by {
        let b = ms[k];
        assert(b.size >= 1);
        if !(m.source_start + m.size <= b.source_start || b.source_start + b.size
            <= m.source_start) {
            let p: int = if m.source_start >= b.source_start {
                m.source_start as int
            } else {
                b.source_start as int
            };
            assert(m.source_start <= p < m.source_start + m.size);
            assert(spec_contains_source(ms[k], p));
            assert(claimed_source(ms, p));
        }
        if !(m.target_start + m.size <= b.target_start || b.target_start + b.size
            <= m.target_start) {
            let q: int = if m.target_start >= b.target_start {
                m.target_start as int
            } else {
                b.target_start as int
            };
            assert(m.target_start <= q < m.target_start + m.size);
            assert(spec_contains_target(ms[k], q));
            assert(claimed_target(ms, q));
        }
    }
}

spec fn best_good(
    best: Option<Match>,
    s: Seq<u32>,
    t: Seq<u32>,
    ms: Seq<Match>,
    min_size: int,
) -> bool {
    match best {
        Some(m) => m.size >= min_size && match_within(m, s.len() as int, t.len() as int)
            && match_exact(m, s, t) && (forall|k: int|
            0 <= k < ms.len() ==> match_disjoint(m, #[trigger] ms[k])),
        None => true,
    }
}

proof fn lemma_scan_target_good(
    min_size: int,
    s: Seq<u32>,
    t: Seq<u32>,
    ms: Seq<Match>,
    a: int,
    to: int,
    best: Option<Match>,
)
    requires
        s.len() <= u32::MAX,
        t.len() <= u32::MAX,
        all_nonempty(ms),
        1 <= min_size,
        0 <= a < s.len(),
        0 <= to,
        best_good(best, s, t, ms, min_size),
    ensures
        best_good(scan_target(min_size, s, t, ms, a, to, best), s, t, ms, min_size),
    decreases vstd::math::max(t.len() - to, 0),
{
    if 0 <= to < t.len() {
        let to2 = match first_target_claim(ms, to) {
            Some(m) => to + m.size,
            None => to,
        };
        let cand = candidate_at(s, t, ms, a, to2);
        let best2 = update_best(best, cand, min_size);
        assert(best_good(best2, s, t, ms, min_size)) by {
            if best2 == Some(cand) && cand.size >= min_size {
                lemma_candidate_good(s, t, ms, a, to2);
            }
        }
        lemma_scan_target_good(min_size, s, t, ms, a, to2 + 1, best2);
    }
}

proof fn lemma_scan_anchors_good(
    min_size: int,
    s: Seq<u32>,
    t: Seq<u32>,
    ms: Seq<Match>,
    a: int,
    best: Option<Match>,
)
    requires
        s.len() <= u32::MAX,
        t.len() <= u32::MAX,
        all_nonempty(ms),
        1 <= min_size,
        0 <= a,
        best_good(best, s, t, ms, min_size),
    ensures
        best_good(scan_anchors(min_size, s, t, ms, a, best), s, t, ms, min_size),
    decreases vstd::math::max(s.len() + min_size - a, 0),
{
    if 0 <= a < s.len() {
        let best2 = if claimed_source(ms, a) {
            best
        } else {
            scan_target(min_size, s, t, ms, a, 0, best)
        };
        assert(best_good(best2, s, t, ms, min_size)) by {
            if !claimed_source(ms, a) {
                lemma_scan_target_good(min_size, s, t, ms, a, 0, best);
            }
        }
        lemma_scan_anchors_good(min_size, s, t, ms, a + min_size, best2);
    }
}

/// Whatever the candidate search returns is a sound match of at least the
/// threshold size whose ranges are disjoint, in both coordinate spaces,
/// from every already-accepted match.
pub proof fn lemma_find_best_good(min_size: int, s: Seq<u32>, t: Seq<u32>, ms: Seq<Match>)
    requires
        s.len() <= u32::MAX,
        t.len() <= u32::MAX,
        all_nonempty(ms),
        1 <= min_size,
    ensures
        spec_find_best(min_size, s, t, ms) matches Some(m) ==> m.size >= min_size && match_within(
            m,
            s.len() as int,
            t.len() as int,
        ) && match_exact(m, s, t) && (forall|k: int|
            0 <= k < ms.len() ==> match_disjoint(m, #[trigger] ms[k])),
{
    lemma_scan_anchors_good(min_size, s, t, ms, min_size / 2, None);
}

/// One pass only appends sound matches: the incoming set is an unchanged
/// prefix of the outgoing one, and the non-overlap invariant is kept, since
/// each accepted candidate is disjoint from everything accepted before it.
pub proof fn lemma_pass_good(min_size: int, s: Seq<u32>, t: Seq<u32>, ms: Seq<Match>, fuel: nat)
    requires
        s.len() <= u32::MAX,
        t.len() <= u32::MAX,
        1 <= min_size,
        all_matches_good(ms, s, t),
        source_ranges_disjoint(ms),
        target_ranges_disjoint(ms),
    ensures
        all_matches_good(spec_pass(min_size, s, t, ms, fuel), s, t),
        source_ranges_disjoint(spec_pass(min_size, s, t, ms, fuel)),
        target_ranges_disjoint(spec_pass(min_size, s, t, ms, fuel)),
        spec_pass(min_size, s, t, ms, fuel).len() >= ms.len(),
        forall|i: int| 0 <= i < ms.len() ==> spec_pass(min_size, s, t, ms, fuel)[i] == ms[i],
    decreases fuel,
{
    if fuel > 0 {
        assert(all_nonempty(ms)) by {
            assert forall|i: int| 0 <= i < ms.len() implies (#[trigger] ms[i]).size >= 1 by {
                assert(ms[i].size >= 1 && match_within(ms[i], s.len() as int, t.len() as int)
                    && match_exact(ms[i], s, t));
            }
        }
        match spec_find_best(min_size, s, t, ms) {
            Some(m) => {
                lemma_find_best_good(min_size, s, t, ms);
                assert(all_matches_good(ms.push(m), s, t)) by {
                    assert forall|i: int| 0 <= i < ms.push(m).len() implies ((#[trigger] ms.push(
                        m,
                    )[i]).size >= 1 && match_within(ms.push(m)[i], s.len() as int, t.len() as int)
                        && match_exact(ms.push(m)[i], s, t)) by {
                        if i < ms.len() {
                            assert(ms.push(m)[i] == ms[i]);
                        } else {
                            assert(ms.push(m)[i] == m);
                        }
                    }
                }
                assert(source_ranges_disjoint(ms.push(m)) && target_ranges_disjoint(
                    ms.push(m),
                )) by {
                    assert forall|i: int, j: int| 0 <= i < j < ms.push(m).len() implies ((
                    #[trigger] ms.push(m)[i]).source_start + ms.push(m)[i].size <= (
                    #[trigger] ms.push(m)[j]).source_start || ms.push(m)[j].source_start + ms.push(
                        m,
                    )[j].size <= ms.push(m)[i].source_start) && (ms.push(m)[i].target_start
                        + ms.push(m)[i].size <= ms.push(m)[j].target_start || ms.push(
                        m,
                    )[j].target_start + ms.push(m)[j].size <= ms.push(m)[i].target_start) by {
                        assert(ms.push(m)[i] == ms[i]);
                        if j < ms.len() {
                            assert(ms.push(m)[j] == ms[j]);
                        } else {
                            assert(ms.push(m)[j] == m);
                            assert(match_disjoint(m, ms[i]));
                        }
                    }
                }
                lemma_pass_good(min_size, s, t, ms.push(m), (fuel - 1) as nat);
                assert forall|i: int| 0 <= i < ms.len() implies spec_pass(
                    min_size,
                    s,
                    t,
                    ms,
                    fuel,
                )[i] == ms[i] by {
                    assert(ms.push(m)[i] == ms[i]);
                }
            },
            None => {},
        }
    }
}

/// The sweep likewise: matches accepted at a larger threshold stand
/// unchanged, at their positions, in the result of every later pass at a
/// smaller threshold, and the whole accepted set stays non-overlapping.
pub proof fn lemma_sweep_good(min_size: int, lower: int, s: Seq<u32>, t: Seq<u32>, ms: Seq<Match>)
    requires
        s.len() <= u32::MAX,
        t.len() <= u32::MAX,
        all_matches_good(ms, s, t),
        source_ranges_disjoint(ms),
        target_ranges_disjoint(ms),
    ensures
        all_matches_good(spec_sweep(min_size, lower, s, t, ms), s, t),
        source_ranges_disjoint(spec_sweep(min_size, lower, s, t, ms)),
        target_ranges_disjoint(spec_sweep(min_size, lower, s, t, ms)),
        spec_sweep(min_size, lower, s, t, ms).len() >= ms.len(),
        forall|i: int| 0 <= i < ms.len() ==> spec_sweep(min_size, lower, s, t, ms)[i] == ms[i],
    decreases min_size,
{
    if !(lower <= 0 || min_size < lower) {
        lemma_pass_good(min_size, s, t, ms, s.len());
        lemma_sweep_good(min_size / 2, lower, s, t, spec_pass(min_size, s, t, ms, s.len()));
    }
}

/// The engine's non-overlap invariant: everything it returns is a
/// non-empty, in-bounds, word-exact match, and no two of its matches
/// overlap in source coordinates or in target coordinates.
pub proof fn lemma_process_good(s: Seq<u32>, t: Seq<u32>)
    requires
        s.len() <= u32::MAX,
        t.len() <= u32::MAX,
    ensures
        all_matches_good(spec_process(s, t), s, t),
        source_ranges_disjoint(spec_process(s, t)),
        target_ranges_disjoint(spec_process(s, t)),
{
    if s.len() != 0 && t.len() != 0 {
        let cap = min3(0x10000, s.len() as int, t.len() as int);
        let lower = min3(0x100, s.len() as int, t.len() as int);
        lemma_sweep_good(cap, lower, s, t, Seq::empty());
    }
}

/// A set whose matches each shrank within their old ranges keeps both
/// disjointness invariants.
pub proof fn lemma_shrink_preserves_disjoint(ms1: Seq<Match>, ms2: Seq<Match>)
    requires
        ms1.len() == ms2.len(),
        forall|i: int|
            0 <= i < ms1.len() ==> ((#[trigger] ms2[i]).source_start >= (
            #[trigger] ms1[i]).source_start && ms2[i].source_start + ms2[i].size
                <= ms1[i].source_start + ms1[i].size && ms2[i].target_start
                >= ms1[i].target_start && ms2[i].target_start + ms2[i].size <= ms1[i].target_start
                + ms1[i].size),
        source_ranges_disjoint(ms1),
        target_ranges_disjoint(ms1),
    ensures
        source_ranges_disjoint(ms2),
        target_ranges_disjoint(ms2),
{
    assert forall|i: int, j: int| 0 <= i < j < ms2.len() implies ((#[trigger] ms2[i]).source_start
        + ms2[i].size <= (#[trigger] ms2[j]).source_start || ms2[j].source_start + ms2[j].size
        <= ms2[i].source_start) by {
        assert(ms1[i].source_start + ms1[i].size <= ms1[j].source_start || ms1[j].source_start
            + ms1[j].size <= ms1[i].source_start);
    }
    assert forall|i: int, j: int| 0 <= i < j < ms2.len() implies ((#[trigger] ms2[i]).target_start
        + ms2[i].size <= (#[trigger] ms2[j]).target_start || ms2[j].target_start + ms2[j].size
        <= ms2[i].target_start) by {
        assert(ms1[i].target_start + ms1[i].size <= ms1[j].target_start || ms1[j].target_start
            + ms1[j].size <= ms1[i].target_start);
    }
}

/// End positions that every resolver step keeps meaningful: both range ends
/// fit in 32 bits, so the trims never wrap.
pub open spec fn ends_fit(ms: Seq<Match>) -> bool {
    forall|k: int|
        0 <= k < ms.len() ==> (#[trigger] ms[k]).source_start + ms[k].size <= u32::MAX && ms[
            k
        ].target_start + ms[k].size <= u32::MAX
}

/// Whether every match of `ms2` lies within the ranges of its counterpart
/// in `ms1`, in both coordinate spaces, without changing the offset between
/// its source and target positions.
pub open spec fn pointwise_shrunk(ms2: Seq<Match>, ms1: Seq<Match>) -> bool {
    ms2.len() == ms1.len() && forall|k: int|
        0 <= k < ms1.len() ==> ((#[trigger] ms2[k]).source_start >= (
        #[trigger] ms1[k]).source_start && ms2[k].source_start + ms2[k].size <= ms1[k].source_start
            + ms1[k].size && ms2[k].target_start >= ms1[k].target_start && ms2[k].target_start
            + ms2[k].size <= ms1[k].target_start + ms1[k].size && ms2[k].source_start - ms2[
            k
        ].target_start == ms1[k].source_start - ms1[k].target_start)
}

proof fn lemma_fix_step_shrinks(ms: Seq<Match>, src: Seq<u32>, i: int)
    requires
        ends_fit(ms),
        0 <= i,
        i + 1 < ms.len(),
    ensures
        pointwise_shrunk(fix_step(ms, src, i), ms),
        ends_fit(fix_step(ms, src, i)),
{
    let a = ms[i];
    let b = ms[i + 1];
    if a.source_start + a.size > b.source_start {
        let ov = a.source_start + a.size - b.source_start;
        crate::resolve::lemma_find_ret_range(src, b.source_start as int, ov);
    }
}

/// The resolver never grows or moves a match outside its old ranges: every
/// output match lies within its input counterpart, in source and in target
/// coordinates alike.
proof fn lemma_fix_from_shrinks(ms: Seq<Match>, src: Seq<u32>, i: int)
    requires
        ends_fit(ms),
        0 <= i,
    ensures
        pointwise_shrunk(spec_fix_from(ms, src, i), ms),
        ends_fit(spec_fix_from(ms, src, i)),
    decreases ms.len() - i,
{
    if i + 1 < ms.len() {
        lemma_fix_step_shrinks(ms, src, i);
        let ms1 = fix_step(ms, src, i);
        lemma_fix_from_shrinks(ms1, src, i + 1);
        let r = spec_fix_from(ms1, src, i + 1);
        assert forall|k: int| 0 <= k < ms.len() implies ((#[trigger] r[k]).source_start >= (
        #[trigger] ms[k]).source_start && r[k].source_start + r[k].size <= ms[k].source_start + ms[
            k
        ].size && r[k].target_start >= ms[k].target_start && r[k].target_start + r[k].size <= ms[
            k
        ].target_start + ms[k].size && r[k].source_start - r[k].target_start == ms[k].source_start
            - ms[k].target_start) by {
            assert(ms1[k].source_start >= ms[k].source_start && ms1[k].source_start + ms1[k].size
                <= ms[k].source_start + ms[k].size && ms1[k].target_start >= ms[k].target_start
                && ms1[k].target_start + ms1[k].size <= ms[k].target_start + ms[k].size && ms1[
                k
            ].source_start - ms1[k].target_start == ms[k].source_start - ms[k].target_start);
            assert(r[k].source_start >= ms1[k].source_start && r[k].source_start + r[k].size <= ms1[
                k
            ].source_start + ms1[k].size && r[k].target_start >= ms1[k].target_start && r[
                k
            ].target_start + r[k].size <= ms1[k].target_start + ms1[k].size && r[k].source_start
                - r[k].target_start == ms1[k].source_start - ms1[k].target_start);
        }
    }
}

/// The whole resolver only shrinks matches in place.
pub proof fn lemma_fix_all_shrinks(ms: Seq<Match>, src: Seq<u32>)
    requires
        ends_fit(ms),
    ensures
        pointwise_shrunk(spec_fix_all(ms, src), ms),
        ends_fit(spec_fix_all(ms, src)),
{
    lemma_fix_from_shrinks(ms, src, 0);
}

/// A permutation of a set of sound matches is itself sound.
pub proof fn lemma_perm_keeps_good(ms: Seq<Match>, u: Seq<Match>, s: Seq<u32>, t: Seq<u32>)
    requires
        u.to_multiset() == ms.to_multiset(),
        all_matches_good(ms, s, t),
    ensures
        all_matches_good(u, s, t),
{
    broadcast use vstd::seq_lib::group_to_multiset_ensures;

    assert forall|i: int| 0 <= i < u.len() implies ((#[trigger] u[i]).size >= 1 && match_within(
        u[i],
        s.len() as int,
        t.len() as int,
    ) && match_exact(u[i], s, t)) by {
        assert(u.contains(u[i]));
        assert(ms.to_multiset().count(u[i]) > 0);
        assert(ms.contains(u[i]));
        let q = choose|q: int| 0 <= q < ms.len() && ms[q] == u[i];
        assert(ms[q].size >= 1 && match_within(ms[q], s.len() as int, t.len() as int)
            && match_exact(ms[q], s, t));
    }
}

/// The single match that spans a whole section aligned with itself.
pub open spec fn full_match(s: Seq<u32>) -> Match {
    Match { source_start: 0, target_start: 0, size: s.len() as u32 }
}

proof fn lemma_ext_left_self(s: Seq<u32>, x: int)
    requires
        0 <= x <= s.len(),
    ensures
        ext_left(s, s, Seq::<Match>::empty(), x, x) == x,
    decreases x,
{
    if x > 0 {
        assert(!claimed_source(Seq::<Match>::empty(), x - 1));
        assert(!claimed_target(Seq::<Match>::empty(), x - 1));
        lemma_ext_left_self(s, x - 1);
    }
}

proof fn lemma_ext_right_self(s: Seq<u32>, x: int)
    requires
        0 <= x <= s.len(),
    ensures
        ext_right(s, s, Seq::<Match>::empty(), x, x) == s.len() - x,
    decreases s.len() - x,
{
    if x < s.len() {
        assert(!claimed_source(Seq::<Match>::empty(), x));
        assert(!claimed_target(Seq::<Match>::empty(), x));
        lemma_ext_right_self(s, x + 1);
    }
}

proof fn lemma_candidate_self(s: Seq<u32>, a: int, to: int)
    requires
        s.len() <= u32::MAX,
        0 <= a < s.len(),
        0 <= to,
    ensures
        to == a ==> candidate_at(s, s, Seq::<Match>::empty(), a, to) == full_match(s),
        to != a ==> candidate_at(s, s, Seq::<Match>::empty(), a, to).size < s.len(),
        candidate_at(s, s, Seq::<Match>::empty(), a, to).size <= s.len(),
{
    lemma_ext_left_facts(s, s, Seq::<Match>::empty(), a, to);
    lemma_ext_right_facts(s, s, Seq::<Match>::empty(), a, to);
    if to == a {
        lemma_ext_left_self(s, a);
        lemma_ext_right_self(s, a);
    }
}

proof fn lemma_scan_target_self(s: Seq<u32>, min_size: int, a: int, to: int, best: Option<Match>)
    requires
        1 <= min_size <= s.len(),
        s.len() <= u32::MAX,
        0 <= a < s.len(),
        0 <= to,
        best matches Some(b) ==> b.size <= s.len(),
        to > a ==> best == Some(full_match(s)),
    ensures
        scan_target(min_size, s, s, Seq::empty(), a, to, best) == (if to <= a {
            Some(full_match(s))
        } else {
            best
        }),
    decreases vstd::math::max(s.len() - to, 0),
{
    let ms = Seq::<Match>::empty();
    if 0 <= to < s.len() {
        let cand = candidate_at(s, s, ms, a, to);
        lemma_candidate_self(s, a, to);
        let best2 = update_best(best, cand, min_size);
        assert(first_target_claim(ms, to) is None);
        if to == a {
            assert(best2 == Some(full_match(s)));
        }
        lemma_scan_target_self(s, min_size, a, to + 1, best2);
    }
}

proof fn lemma_scan_anchors_self(s: Seq<u32>, min_size: int, a: int, best: Option<Match>)
    requires
        1 <= min_size <= s.len(),
        s.len() <= u32::MAX,
        0 <= a,
        best is None || best == Some(full_match(s)),
    ensures
        scan_anchors(min_size, s, s, Seq::empty(), a, best) == (if a < s.len() {
            Some(full_match(s))
        } else {
            best
        }),
    decreases vstd::math::max(s.len() + min_size - a, 0),
{
    let ms = Seq::<Match>::empty();
    if 0 <= a < s.len() {
        assert(!claimed_source(ms, a));
        lemma_scan_target_self(s, min_size, a, 0, best);
        let best2 = scan_target(min_size, s, s, ms, a, 0, best);
        assert(best2 == Some(full_match(s)));
        lemma_scan_anchors_self(s, min_size, a + min_size, best2);
    }
}

proof fn lemma_find_best_self(s: Seq<u32>, min_size: int)
    requires
        1 <= min_size <= s.len(),
        s.len() <= u32::MAX,
    ensures
        spec_find_best(min_size, s, s, Seq::empty()) == Some(full_match(s)),
{
    lemma_scan_anchors_self(s, min_size, min_size / 2, None);
}

proof fn lemma_scan_anchors_all_claimed(s: Seq<u32>, min_size: int, a: int)
    requires
        1 <= min_size,
        1 <= s.len() <= u32::MAX,
        0 <= a,
    ensures
        scan_anchors(min_size, s, s, seq![full_match(s)], a, None) is None,
    decreases vstd::math::max(s.len() + min_size - a, 0),
{
    let ms = seq![full_match(s)];
    if 0 <= a < s.len() {
        assert(claimed_source(ms, a)) by {
            assert(spec_contains_source(ms[0], a));
        }
        lemma_scan_anchors_all_claimed(s, min_size, a + min_size);
    }
}

proof fn lemma_pass_self(s: Seq<u32>, min_size: int, fuel: nat)
    requires
        1 <= min_size <= s.len(),
        s.len() <= u32::MAX,
        fuel >= 1,
    ensures
        spec_pass(min_size, s, s, Seq::empty(), fuel) == seq![full_match(s)],
{
    lemma_find_best_self(s, min_size);
    assert(Seq::<Match>::empty().push(full_match(s)) =~= seq![full_match(s)]);
    if fuel > 1 {
        lemma_scan_anchors_all_claimed(s, min_size, min_size / 2);
        assert(spec_find_best(min_size, s, s, seq![full_match(s)]) is None);
        assert(spec_pass(min_size, s, s, seq![full_match(s)], (fuel - 1) as nat) == seq![
            full_match(s),
        ]);
    }
    assert(spec_pass(min_size, s, s, Seq::empty(), fuel) == spec_pass(
        min_size,
        s,
        s,
        Seq::<Match>::empty().push(full_match(s)),
        (fuel - 1) as nat,
    ));
}

proof fn lemma_sweep_self_claimed(s: Seq<u32>, min_size: int, lower: int)
    requires
        1 <= lower,
        1 <= s.len() <= u32::MAX,
    ensures
        spec_sweep(min_size, lower, s, s, seq![full_match(s)]) == seq![full_match(s)],
    decreases min_size,
{
    if !(lower <= 0 || min_size < lower) {
        lemma_scan_anchors_all_claimed(s, min_size, min_size / 2);
        assert(spec_find_best(min_size, s, s, seq![full_match(s)]) is None);
        assert(spec_pass(min_size, s, s, seq![full_match(s)], s.len()) == seq![full_match(s)]);
        lemma_sweep_self_claimed(s, min_size / 2, lower);
    }
}

/// Aligning a non-empty code section with itself yields exactly one match:
/// the whole section, at offset zero on both sides; and the overlap resolver
/// leaves that single match untouched.
pub proof fn lemma_round_trip_identity(s: Seq<u32>)
    requires
        1 <= s.len() <= u32::MAX,
    ensures
        spec_process(s, s) == seq![full_match(s)],
        spec_fix_all(seq![full_match(s)], s) == seq![full_match(s)],
{
    let cap = min3(0x10000, s.len() as int, s.len() as int);
    let lower = min3(0x100, s.len() as int, s.len() as int);
    assert(1 <= lower <= cap <= s.len());
    lemma_pass_self(s, cap, s.len());
    lemma_sweep_self_claimed(s, cap / 2, lower);
    assert(spec_sweep(cap, lower, s, s, Seq::empty()) == seq![full_match(s)]);
}

/// Every match of the set is within bounds and word-exact (it may be
/// empty): the claim each reported correspondence makes.
pub open spec fn all_matches_sound(ms: Seq<Match>, s: Seq<u32>, t: Seq<u32>) -> bool {
    forall|i: int|
        0 <= i < ms.len() ==> (match_within(#[trigger] ms[i], s.len() as int, t.len() as int)
            && match_exact(ms[i], s, t))
}

/// A set that only shrank in place keeps making sound claims: each trimmed
/// match relates a sub-run of words its untrimmed form already related.
pub proof fn lemma_shrunk_keeps_sound(ms2: Seq<Match>, ms1: Seq<Match>, s: Seq<u32>, t: Seq<u32>)
    requires
        pointwise_shrunk(ms2, ms1),
        all_matches_sound(ms1, s, t),
    ensures
        all_matches_sound(ms2, s, t),
{
    assert forall|i: int| 0 <= i < ms2.len() implies (match_within(
        #[trigger] ms2[i],
        s.len() as int,
        t.len() as int,
    ) && match_exact(ms2[i], s, t)) by {
        let m1 = ms1[i];
        let m2 = ms2[i];
        assert(match_within(m1, s.len() as int, t.len() as int));
        assert(match_exact(m1, s, t));
        let off = m2.source_start - m1.source_start;
        assert forall|q: int| 0 <= q < m2.size implies s[m2.source_start + q] == #[trigger] t[
            m2.target_start + q
        ] by {
            assert(s[m1.source_start + (off + q)] == t[m1.target_start + (off + q)]);
        }
    }
}

/// A permutation of a set of sound matches is itself sound.
pub proof fn lemma_perm_keeps_sound(ms: Seq<Match>, u: Seq<Match>, s: Seq<u32>, t: Seq<u32>)
    requires
        u.to_multiset() == ms.to_multiset(),
        all_matches_sound(ms, s, t),
    ensures
        all_matches_sound(u, s, t),
{
    broadcast use vstd::seq_lib::group_to_multiset_ensures;

    assert forall|i: int| 0 <= i < u.len() implies (match_within(
        #[trigger] u[i],
        s.len() as int,
        t.len() as int,
    ) && match_exact(u[i], s, t)) by {
        assert(u.contains(u[i]));
        assert(ms.to_multiset().count(u[i]) > 0);
        assert(ms.contains(u[i]));
        let q = choose|q: int| 0 <= q < ms.len() && ms[q] == u[i];
        assert(match_within(ms[q], s.len() as int, t.len() as int) && match_exact(ms[q], s, t));
    }
}

/// A permutation of a set of non-empty, pairwise-disjoint matches is
/// itself pairwise disjoint: disjointness is a property of which ranges
/// are claimed, not of the order they are listed in.
pub proof fn lemma_perm_keeps_disjoint(ms: Seq<Match>, u: Seq<Match>)
    requires
        u.to_multiset() == ms.to_multiset(),
        all_nonempty(ms),
        source_ranges_disjoint(ms),
        target_ranges_disjoint(ms),
    ensures
        all_nonempty(u),
        source_ranges_disjoint(u),
        target_ranges_disjoint(u),
{
    broadcast use vstd::seq_lib::group_to_multiset_ensures;

    assert(all_nonempty(u)) by {
        assert forall|i: int| 0 <= i < u.len() implies (#[trigger] u[i]).size >= 1 by {
            assert(u.contains(u[i]));
            assert(ms.to_multiset().count(u[i]) > 0);
            assert(ms.contains(u[i]));
            let p = choose|p: int| 0 <= p < ms.len() && ms[p] == u[i];
            assert(ms[p].size >= 1);
        }
    }
    assert(ms.no_duplicates()) by {
        assert forall|p: int, q: int| 0 <= p < ms.len() && 0 <= q < ms.len() && p != q implies ms[p]
            != ms[q] by {
            let a = if p < q {
                p
            } else {
                q
            };
            let b = if p < q {
                q
            } else {
                p
            };
            assert(ms[a].source_start + ms[a].size <= ms[b].source_start || ms[b].source_start
                + ms[b].size <= ms[a].source_start);
            assert(ms[a].size >= 1 && ms[b].size >= 1);
        }
    }
    ms.lemma_multiset_has_no_duplicates();
    u.lemma_multiset_has_no_duplicates_conv();
    assert forall|i: int, j: int| 0 <= i < j < u.len() implies ((#[trigger] u[i]).source_start + u[
        i
    ].size <= (#[trigger] u[j]).source_start || u[j].source_start + u[j].size <= u[i].source_start)
        && (u[i].target_start + u[i].size <= u[j].target_start || u[j].target_start + u[j].size
        <= u[i].target_start) by {
        assert(u[i] != u[j]);
        assert(u.contains(u[i]));
        assert(ms.to_multiset().count(u[i]) > 0);
        assert(ms.contains(u[i]));
        assert(u.contains(u[j]));
        assert(ms.to_multiset().count(u[j]) > 0);
        assert(ms.contains(u[j]));
        let p = choose|p: int| 0 <= p < ms.len() && ms[p] == u[i];
        let q = choose|q: int| 0 <= q < ms.len() && ms[q] == u[j];
        assert(p != q);
        if p < q {
            assert(ms[p].source_start + ms[p].size <= ms[q].source_start || ms[q].source_start
                + ms[q].size <= ms[p].source_start);
            assert(ms[p].target_start + ms[p].size <= ms[q].target_start || ms[q].target_start
                + ms[q].size <= ms[p].target_start);
        } else {
            assert(ms[q].source_start + ms[q].size <= ms[p].source_start || ms[p].source_start
                + ms[p].size <= ms[q].source_start);
            assert(ms[q].target_start + ms[q].size <= ms[p].target_start || ms[p].target_start
                + ms[p].size <= ms[q].target_start);
        }
    }
}

/// Exchanging the coordinates of a non-empty, pairwise-disjoint set keeps
/// it pairwise disjoint, with the two coordinate spaces traded.
pub proof fn lemma_swap_keeps_disjoint(ms: Seq<Match>)
    requires
        all_nonempty(ms),
        source_ranges_disjoint(ms),
        target_ranges_disjoint(ms),
    ensures
        all_nonempty(crate::resolve::swap_all(ms)),
        source_ranges_disjoint(crate::resolve::swap_all(ms)),
        target_ranges_disjoint(crate::resolve::swap_all(ms)),
{
    let sw = crate::resolve::swap_all(ms);
    assert forall|i: int| 0 <= i < sw.len() implies (#[trigger] sw[i]).size >= 1 by {
        assert(sw[i] == crate::resolve::swap_match(ms[i]));
        assert(ms[i].size >= 1);
    }
    assert forall|i: int, j: int| 0 <= i < j < sw.len() implies ((#[trigger] sw[i]).source_start
        + sw[i].size <= (#[trigger] sw[j]).source_start || sw[j].source_start + sw[j].size <= sw[
        i
    ].source_start) && (sw[i].target_start + sw[i].size <= sw[j].target_start || sw[j].target_start
        + sw[j].size <= sw[i].target_start) by {
        assert(sw[i] == crate::resolve::swap_match(ms[i]));
        assert(sw[j] == crate::resolve::swap_match(ms[j]));
        assert(ms[i].source_start + ms[i].size <= ms[j].source_start || ms[j].source_start + ms[
            j
        ].size <= ms[i].source_start);
        assert(ms[i].target_start + ms[i].size <= ms[j].target_start || ms[j].target_start + ms[
            j
        ].size <= ms[i].target_start);
    }
}

/// Exchanging the coordinates of a sound set gives a set sound for the
/// sections in the other order.
pub proof fn lemma_swap_keeps_sound(ms: Seq<Match>, s: Seq<u32>, t: Seq<u32>)
    requires
        all_matches_sound(ms, s, t),
    ensures
        all_matches_sound(crate::resolve::swap_all(ms), t, s),
{
    let sw = crate::resolve::swap_all(ms);
    assert forall|i: int| 0 <= i < sw.len() implies (match_within(
        #[trigger] sw[i],
        t.len() as int,
        s.len() as int,
    ) && match_exact(sw[i], t, s)) by {
        assert(sw[i] == crate::resolve::swap_match(ms[i]));
        assert(match_within(ms[i], s.len() as int, t.len() as int));
        assert(match_exact(ms[i], s, t));
        assert forall|q: int| 0 <= q < sw[i].size implies t[sw[i].source_start + q] == #[trigger] s[
            sw[i].target_start + q
        ] by {
            assert(s[ms[i].source_start + q] == t[ms[i].target_start + q]);
        }
    }
}

/// The boundary split: when the overlap of an adjacent sorted pair holds a
/// return word and both trims fit, the resolver cuts exactly after the first
/// return word, leaving the two matches adjacent and non-overlapping, the
/// first shortened from the right and the second moved forward in both
/// coordinate spaces.
pub proof fn lemma_boundary_split(ms: Seq<Match>, src: Seq<u32>, i: int, j: int)
    requires
        0 <= i,
        i + 1 < ms.len(),
        ms[i].source_start + ms[i].size <= u32::MAX,
        ms[i + 1].source_start + ms[i + 1].size <= u32::MAX,
        ms[i + 1].target_start + ms[i + 1].size <= u32::MAX,
        ms[i].source_start + ms[i].size > ms[i + 1].source_start,
        spec_find_ret(
            src,
            ms[i + 1].source_start as int,
            ms[i].source_start + ms[i].size - ms[i + 1].source_start,
        ) == Some(j),
        0 <= j,
        j + 1 <= ms[i + 1].size,
        ms[i].source_start + ms[i].size - ms[i + 1].source_start - (j + 1) <= ms[i].size,
    ensures
        ({
            let r = fix_step(ms, src, i);
            let split = ms[i + 1].source_start + j + 1;
            r.len() == ms.len() && r[i].source_start == ms[i].source_start && r[i].source_start
                + r[i].size == split && r[i + 1].source_start == split && r[i + 1].source_start + r[
                i + 1
            ].size == ms[i + 1].source_start + ms[i + 1].size && r[i + 1].target_start == ms[i
                + 1].target_start + j + 1 && (forall|k: int|
                0 <= k < ms.len() && k != i && k != i + 1 ==> r[k] == ms[k])
        }),
{
}

} // verus!
