//! The overlap resolver: sort a match set by source position and correct
//! boundary collisions between adjacent matches, splitting just after a
//! subroutine-return word, the strongest hint of a true function boundary.

use vstd::prelude::*;

use crate::matching::{Match, all_nonempty, source_ranges_disjoint};
use crate::section::{Section, SectionKind};

verus! {

/// The fixed word that encodes an unconditional subroutine return.
pub const RETURN_WORD: u32 = 0x4e800020;

pub open spec fn sorted_by_source(ms: Seq<Match>) -> bool {
    forall|i: int, j: int|
        0 <= i <= j < ms.len() ==> ms[i].source_start <= ms[j].source_start
}

pub open spec fn sorted_by_target(ms: Seq<Match>) -> bool {
    forall|i: int, j: int|
        0 <= i <= j < ms.len() ==> ms[i].target_start <= ms[j].target_start
}

/// The sort key used by the resolver and the reporter.
pub open spec fn match_key(m: Match, by_target: bool) -> u32 {
    if by_target {
        m.target_start
    } else {
        m.source_start
    }
}

spec fn sorted_by_key(ms: Seq<Match>, by_target: bool) -> bool {
    forall|i: int, j: int|
        0 <= i <= j < ms.len() ==> match_key(ms[i], by_target) <= match_key(ms[j], by_target)
}

fn key_of(m: Match, by_target: bool) -> (k: u32)
    ensures
        k == match_key(m, by_target),
{
    if by_target {
        m.target_start
    } else {
        m.source_start
    }
}

/// Insertion sort on the chosen key; stable, and the identity on input
/// that is already sorted.
fn sort_matches_by(ms: &mut Vec<Match>, by_target: bool)
    ensures
        sorted_by_key(final(ms)@, by_target),
        final(ms)@.to_multiset() == old(ms)@.to_multiset(),
        final(ms)@.len() == old(ms)@.len(),
        sorted_by_key(old(ms)@, by_target) ==> final(ms)@ == old(ms)@,
{
    broadcast use vstd::seq_lib::group_to_multiset_ensures;

    let ghost input = ms@;
    let n = ms.len();
    let mut out: Vec<Match> = Vec::new();
    let mut idx: usize = 0;
    while idx < n
        invariant
            idx <= n,
            ms@ == input,
            n == input.len(),
            sorted_by_key(out@, by_target),
            out@.to_multiset() == input.subrange(0, idx as int).to_multiset(),
            out@.len() == idx,
            sorted_by_key(input, by_target) ==> out@ == input.subrange(0, idx as int),
        decreases n - idx,
    {
        let x = ms[idx];
        let key_x = key_of(x, by_target);
        let mut p: usize = 0;
        while p < out.len() && key_of(out[p], by_target) <= key_x
            invariant
                p <= out@.len(),
                key_x == match_key(x, by_target),
                sorted_by_key(out@, by_target),
                forall|q: int| 0 <= q < p ==> match_key(out@[q], by_target) <= match_key(
                    x,
                    by_target,
                ),
            decreases out@.len() - p,
        {
            p = p + 1;
        }
        let ghost pre = out@;
        out.insert(p, x);
        proof {
            if sorted_by_key(input, by_target) {
                assert(p == pre.len()) by {
                    if p < pre.len() {
                        assert(pre[p as int] == input.subrange(0, idx as int)[p as int]);
                        assert(match_key(input[p as int], by_target) <= match_key(
                            input[idx as int],
                            by_target,
                        ));
                    }
                }
                assert(out@ =~= input.subrange(0, idx as int + 1));
            }
            vstd::seq_lib::to_multiset_insert(pre, p as int, x);
            assert(input.subrange(0, idx as int + 1) =~= input.subrange(0, idx as int).push(
                input[idx as int],
            ));
            vstd::seq_lib::to_multiset_build(input.subrange(0, idx as int), x);
            assert(sorted_by_key(out@, by_target)) by {
                assert forall|i: int, j: int| 0 <= i <= j < out@.len() implies match_key(
                    out@[i],
                    by_target,
                ) <= match_key(out@[j], by_target) by {
                    if i < p && j >= p as int + 1 {
                        assert(out@[i] == pre[i]);
                        assert(out@[j] == pre[j - 1]);
                    }
                }
            }
        }
        idx = idx + 1;
    }
    proof {
        assert(input.subrange(0, n as int) =~= input);
    }
    *ms = out;
}

proof fn lemma_fix_from_noop(ms: Seq<Match>, src: Seq<u32>, i: int)
    requires
        sorted_by_source(ms),
        source_ranges_disjoint(ms),
        all_nonempty(ms),
        0 <= i,
    ensures
        spec_fix_from(ms, src, i) == ms,
    decreases ms.len() - i,
{
    if i + 1 < ms.len() {
        let a = ms[i];
        let b = ms[i + 1];
        assert(a.source_start <= b.source_start);
        assert(b.size >= 1);
        assert(a.source_start + a.size <= b.source_start || b.source_start + b.size
            <= a.source_start);
        assert(fix_step(ms, src, i) == ms);
        lemma_fix_from_noop(ms, src, i + 1);
    }
}

/// The non-overlap invariant holds after the resolver whenever it holds
/// before: on a sorted set of non-empty matches whose source ranges are
/// already disjoint, the resolver changes nothing, so disjointness in both
/// coordinate spaces is kept.
pub proof fn lemma_resolver_keeps_disjoint(ms: Seq<Match>, src: Seq<u32>)
    requires
        sorted_by_source(ms),
        source_ranges_disjoint(ms),
        all_nonempty(ms),
    ensures
        spec_fix_all(ms, src) == ms,
{
    lemma_fix_from_noop(ms, src, 0);
}

/// Sorts a match set by its source word offsets; a set already in that
/// order is left as it is.
pub fn sort_by_source_start(ms: &mut Vec<Match>)
    ensures
        sorted_by_source(final(ms)@),
        final(ms)@.to_multiset() == old(ms)@.to_multiset(),
        final(ms)@.len() == old(ms)@.len(),
        sorted_by_source(old(ms)@) ==> final(ms)@ == old(ms)@,
{
    proof {
        if sorted_by_source(ms@) {
            assert(sorted_by_key(ms@, false));
        }
    }
    sort_matches_by(ms, false);
}

/// Sorts a match set by its target word offsets; a set already in that
/// order is left as it is.
pub fn sort_by_target_start(ms: &mut Vec<Match>)
    ensures
        sorted_by_target(final(ms)@),
        final(ms)@.to_multiset() == old(ms)@.to_multiset(),
        final(ms)@.len() == old(ms)@.len(),
        sorted_by_target(old(ms)@) ==> final(ms)@ == old(ms)@,
{
    proof {
        if sorted_by_target(ms@) {
            assert(sorted_by_key(ms@, true));
        }
    }
    sort_matches_by(ms, true);
}

/// The first position within `count` words from `start` holding the return
/// word, if any.
pub open spec fn spec_find_ret(src: Seq<u32>, start: int, count: int) -> Option<int>
    decreases count,
{
    if count <= 0 {
        None
    } else if src[start] == RETURN_WORD {
        Some(0)
    } else {
        match spec_find_ret(src, start + 1, count - 1) {
            Some(j) => Some(j + 1),
            None => None,
        }
    }
}

proof fn lemma_find_ret_none(src: Seq<u32>, start: int, count: int)
    requires
        forall|q: int| 0 <= q < count ==> #[trigger] src[start + q] != RETURN_WORD,
    ensures
        spec_find_ret(src, start, count) is None,
    decreases count,
{
    if count > 0 {
        assert(src[start + 0] != RETURN_WORD);
        assert forall|q: int| 0 <= q < count - 1 implies #[trigger] src[(start + 1) + q]
            != RETURN_WORD by {
            assert(src[start + (q + 1)] != RETURN_WORD);
        }
        lemma_find_ret_none(src, start + 1, count - 1);
    }
}

proof fn lemma_find_ret_at(src: Seq<u32>, start: int, count: int, j: int)
    requires
        0 <= j < count,
        src[start + j] == RETURN_WORD,
        forall|q: int| 0 <= q < j ==> #[trigger] src[start + q] != RETURN_WORD,
    ensures
        spec_find_ret(src, start, count) == Some(j),
    decreases j,
{
    if j > 0 {
        assert(src[start + 0] != RETURN_WORD);
        assert forall|q: int| 0 <= q < j - 1 implies #[trigger] src[(start + 1) + q]
            != RETURN_WORD by {
            assert(src[start + (q + 1)] != RETURN_WORD);
        }
        lemma_find_ret_at(src, start + 1, count - 1, j - 1);
    }
}

/// A found position always lies inside the scanned window.
pub proof fn lemma_find_ret_range(src: Seq<u32>, start: int, count: int)
    ensures
        spec_find_ret(src, start, count) matches Some(j) ==> 0 <= j < count,
    decreases count,
{
    if count > 0 && src[start] != RETURN_WORD {
        lemma_find_ret_range(src, start + 1, count - 1);
    }
}

/// One adjacent pair of the sorted set: if the first match runs past the
/// start of the second, look for a return word inside the overlap; at the
/// first one, trim the first match back to just after it and move the second
/// match's starts forward to the same split point. Without a return word in
/// the overlap (or where a trim would not fit), the pair is left as it is.
pub open spec fn fix_step(ms: Seq<Match>, src: Seq<u32>, i: int) -> Seq<Match> {
    let a = ms[i];
    let b = ms[i + 1];
    if a.source_start + a.size > b.source_start {
        let ov = a.source_start + a.size - b.source_start;
        match spec_find_ret(src, b.source_start as int, ov) {
            Some(j) => if j + 1 <= b.size && ov - (j + 1) <= a.size {
                let a2 = Match {
                    source_start: a.source_start,
                    target_start: a.target_start,
                    size: (a.size - (ov - (j + 1))) as u32,
                };
                let b2 = Match {
                    source_start: (b.source_start + j + 1) as u32,
                    target_start: (b.target_start + j + 1) as u32,
                    size: (b.size - (j + 1)) as u32,
                };
                ms.update(i, a2).update(i + 1, b2)
            } else {
                ms
            },
            None => ms,
        }
    } else {
        ms
    }
}

/// The resolver's walk over all adjacent pairs, left to right.
pub open spec fn spec_fix_from(ms: Seq<Match>, src: Seq<u32>, i: int) -> Seq<Match>
    decreases ms.len() - i,
{
    if i < 0 || i + 1 >= ms.len() {
        ms
    } else {
        spec_fix_from(fix_step(ms, src, i), src, i + 1)
    }
}

/// What the resolver does to a sorted match set.
pub open spec fn spec_fix_all(ms: Seq<Match>, src: Seq<u32>) -> Seq<Match> {
    spec_fix_from(ms, src, 0)
}

/// Bounds that keep the resolver's arithmetic meaningful: every source range
/// ends within the section and every target range end fits in 32 bits.
pub open spec fn resolver_in_bounds(ms: Seq<Match>, slen: int) -> bool {
    forall|k: int|
        0 <= k < ms.len() ==> (#[trigger] ms[k]).source_start + ms[k].size <= slen
            && ms[k].target_start + ms[k].size <= u32::MAX
}

/// Corrects boundary collisions between adjacent accepted matches of a code
/// section, in source coordinates; for other section kinds it does nothing.
pub fn postprocess(source: &Section, matches: &mut Vec<Match>)
    requires
        source.kind == SectionKind::Text ==> source.vals@.len() <= u32::MAX
            && resolver_in_bounds(old(matches)@, source.vals@.len() as int),
    ensures
        source.kind != SectionKind::Text ==> final(matches)@ == old(matches)@,
        source.kind == SectionKind::Text ==> exists|u: Seq<Match>|
            sorted_by_source(u) && u.to_multiset() == old(matches)@.to_multiset()
                && final(matches)@ == spec_fix_all(u, source.vals@),
        final(matches)@.len() == old(matches)@.len(),
        source.kind == SectionKind::Text ==> resolver_in_bounds(
            final(matches)@,
            source.vals@.len() as int,
        ),
        source.kind == SectionKind::Text && sorted_by_source(old(matches)@)
            && source_ranges_disjoint(old(matches)@) && all_nonempty(old(matches)@)
            ==> final(matches)@ == old(matches)@,
{
    match source.kind {
        SectionKind::Text => {},
        _ => {
            return ;
        },
    }
    let ghost src = source.vals@;
    let slen = source.vals.len();
    sort_by_source_start(matches);
    let ghost sorted = matches@;
    proof {
        assert(resolver_in_bounds(sorted, slen as int)) by {
            broadcast use vstd::seq_lib::group_to_multiset_ensures;

            assert forall|k: int| 0 <= k < sorted.len() implies (#[trigger] sorted[k]).source_start
                + sorted[k].size <= slen && sorted[k].target_start + sorted[k].size
                <= u32::MAX by {
                assert(sorted.to_multiset().contains(sorted[k]));
                assert(old(matches)@.contains(sorted[k]));
                let q = choose|q: int|
                    0 <= q < old(matches)@.len() && old(matches)@[q] == sorted[k];
            }
        }
    }
    let n = matches.len();
    if n < 2 {
        proof {
            assert(matches@ == spec_fix_all(sorted, src));
        }
        return ;
    }
    let mut i: usize = 0;
    while i < n - 1
        invariant
            n == matches@.len(),
            2 <= n,
            i <= n - 1,
            src == source.vals@,
            slen == src.len(),
            slen <= u32::MAX,
            resolver_in_bounds(matches@, slen as int),
            spec_fix_all(sorted, src) == spec_fix_from(matches@, src, i as int),
        decreases n - i,
    {
        let ghost pre = matches@;
        let a = matches[i];
        let b = matches[i + 1];
        proof {
            assert(matches@[i as int].source_start + matches@[i as int].size <= slen);
            assert(matches@[i as int + 1].source_start + matches@[i as int + 1].size <= slen);
            assert(matches@[i as int + 1].target_start + matches@[i as int + 1].size <= u32::MAX);
        }
        let a_end = a.source_start + a.size;
        if a_end > b.source_start {
            let ov = a_end - b.source_start;
            // scan the overlap for the first return word
            let mut j: u32 = 0;
            let mut found = false;
            loop
                invariant_except_break
                    ov <= a_end <= slen <= u32::MAX,
                    b.source_start + ov <= slen,
                    src == source.vals@,
                    slen == src.len(),
                    j <= ov,
                    !found,
                    forall|q: int| 0 <= q < j ==> #[trigger] src[b.source_start + q] != RETURN_WORD,
                ensures
                    found ==> j < ov && src[b.source_start + j as int] == RETURN_WORD,
                    forall|q: int| 0 <= q < j ==> #[trigger] src[b.source_start + q] != RETURN_WORD,
                    !found ==> j == ov,
                decreases ov - j,
            {
                if j >= ov {
                    break ;
                }
                if source.vals[(b.source_start + j) as usize] == RETURN_WORD {
                    found = true;
                    break ;
                }
                j = j + 1;
            }
            proof {
                if found {
                    lemma_find_ret_at(src, b.source_start as int, ov as int, j as int);
                } else {
                    lemma_find_ret_none(src, b.source_start as int, ov as int);
                }
            }
            if found {
                if j + 1 <= b.size && ov - (j + 1) <= a.size {
                    let a2 = Match {
                        source_start: a.source_start,
                        target_start: a.target_start,
                        size: a.size - (ov - (j + 1)),
                    };
                    let b2 = Match {
                        source_start: b.source_start + (j + 1),
                        target_start: b.target_start + (j + 1),
                        size: b.size - (j + 1),
                    };
                    matches[i] = a2;
                    matches[i + 1] = b2;
                    proof {
                        assert(matches@ == fix_step(pre, src, i as int));
                    }
                } else {
                    proof {
                        assert(matches@ == fix_step(pre, src, i as int));
                    }
                }
            } else {
                proof {
                    assert(matches@ == fix_step(pre, src, i as int));
                }
            }
        } else {
            proof {
                assert(matches@ == fix_step(pre, src, i as int));
            }
        }
        i = i + 1;
    }
    proof {
        assert(spec_fix_from(matches@, src, i as int) == matches@);
        if sorted_by_source(old(matches)@) && source_ranges_disjoint(old(matches)@)
            && all_nonempty(old(matches)@) {
            lemma_resolver_keeps_disjoint(sorted, src);
        }
    }
}

/// A match with its source and target coordinates exchanged.
pub open spec fn swap_match(m: Match) -> Match {
    Match { source_start: m.target_start, target_start: m.source_start, size: m.size }
}

/// The whole set with coordinates exchanged.
pub open spec fn swap_all(ms: Seq<Match>) -> Seq<Match> {
    ms.map_values(|m: Match| swap_match(m))
}

/// Swaps the source and target coordinates of every match, so that one
/// resolver serves both coordinate spaces.
pub fn swap_coordinates(matches: &mut Vec<Match>)
    ensures
        final(matches)@ == swap_all(old(matches)@),
{
    let n = matches.len();
    let mut i: usize = 0;
    while i < n
        invariant
            n == matches@.len(),
            i <= n,
            old(matches)@.len() == n,
            forall|k: int|
                0 <= k < i ==> matches@[k] == (Match {
                    source_start: old(matches)@[k].target_start,
                    target_start: old(matches)@[k].source_start,
                    size: old(matches)@[k].size,
                }),
            forall|k: int| i <= k < n ==> matches@[k] == old(matches)@[k],
        decreases n - i,
    {
        let m = matches[i];
        matches[i] = Match {
            source_start: m.target_start,
            target_start: m.source_start,
            size: m.size,
        };
        i = i + 1;
    }
    proof {
        assert(final(matches)@ =~= swap_all(old(matches)@));
    }
}

} // verus!
