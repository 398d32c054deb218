//! The reporting side of the aligner: byte addresses for a match, the
//! compatibility check between two parsed images, and the full pipeline for
//! one pair of code sections.

use vstd::prelude::*;

use crate::engine::{process, spec_process};
use crate::laws::{all_matches_good, all_matches_sound, ends_fit, lemma_fix_all_shrinks,
    lemma_perm_keeps_disjoint, lemma_perm_keeps_good, lemma_perm_keeps_sound, lemma_process_good,
    lemma_shrunk_keeps_sound, lemma_swap_keeps_disjoint, lemma_swap_keeps_sound, pointwise_shrunk};
use crate::resolve::lemma_resolver_keeps_disjoint;
use crate::matching::{all_nonempty, source_ranges_disjoint, target_ranges_disjoint};
use crate::matching::Match;
use crate::resolve::{postprocess, sort_by_source_start, sort_by_target_start, sorted_by_source,
    sorted_by_target, spec_fix_all, swap_all, swap_coordinates};
use crate::section::{Section, SectionKind};

verus! {

/// The byte-address quadruple of one match: start and end of its source
/// range, then of its target range, each `address + word_offset * 4`.
pub fn match_addresses(source: &Section, target: &Section, m: &Match) -> (r: (u32, u32, u32, u32))
    requires
        source.address + (m.source_start + m.size) * 4 <= u32::MAX,
        target.address + (m.target_start + m.size) * 4 <= u32::MAX,
    ensures
        r.0 == source.address + m.source_start * 4,
        r.1 == source.address + m.source_start * 4 + m.size * 4,
        r.2 == target.address + m.target_start * 4,
        r.3 == target.address + m.target_start * 4 + m.size * 4,
{
    let source_start = source.address + m.source_start * 4;
    let target_start = target.address + m.target_start * 4;
    let source_end = source_start + m.size * 4;
    let target_end = target_start + m.size * 4;
    (source_start, source_end, target_start, target_end)
}

/// Whether two parsed images can be aligned at all: the same number of
/// sections, with the same kind at every position.
pub fn compatible_sections(a: &Vec<Section>, b: &Vec<Section>) -> (r: bool)
    ensures
        r == (a@.len() == b@.len() && (forall|i: int|
            0 <= i < a@.len() ==> (#[trigger] a@[i]).kind == b@[i].kind)),
{
    if a.len() != b.len() {
        return false;
    }
    let n = a.len();
    let mut i: usize = 0;
    while i < n
        invariant
            n == a@.len() == b@.len(),
            i <= n,
            forall|k: int| 0 <= k < i ==> (#[trigger] a@[k]).kind == b@[k].kind,
        decreases n - i,
    {
        let same = match (&a[i].kind, &b[i].kind) {
            (SectionKind::Text, SectionKind::Text) => true,
            (SectionKind::Data, SectionKind::Data) => true,
            (SectionKind::Bss, SectionKind::Bss) => true,
            _ => false,
        };
        if !same {
            return false;
        }
        i = i + 1;
    }
    true
}

fn copy_matches(v: &Vec<Match>) -> (r: Vec<Match>)
    ensures
        r@ == v@,
{
    let mut r: Vec<Match> = Vec::new();
    let mut i: usize = 0;
    while i < v.len()
        invariant
            i <= v@.len(),
            r@ == v@.subrange(0, i as int),
        decreases v@.len() - i,
    {
        r.push(v[i]);
        proof {
            assert(r@ =~= v@.subrange(0, i as int + 1));
        }
        i = i + 1;
    }
    proof {
        assert(v@.subrange(0, v@.len() as int) =~= v@);
    }
    r
}

/// Aligns one pair of code sections end to end: search for matches at
/// decreasing thresholds, resolve boundary collisions in source coordinates
/// and then in target coordinates, and return the resolved set twice, sorted
/// by source offsets and by target offsets. Every reported match is
/// in-bounds and word-exact, and no two of them overlap in either
/// coordinate space.
pub fn match_section_pair(source: &Section, target: &Section) -> (r: (Vec<Match>, Vec<Match>))
    requires
        source.kind == SectionKind::Text,
        target.kind == SectionKind::Text,
        source.vals@.len() <= u32::MAX,
        target.vals@.len() <= u32::MAX,
    ensures
        sorted_by_source(r.0@),
        sorted_by_target(r.1@),
        r.0@.to_multiset() == r.1@.to_multiset(),
        all_matches_sound(r.0@, source.vals@, target.vals@),
        all_matches_sound(r.1@, source.vals@, target.vals@),
        source_ranges_disjoint(r.0@) && target_ranges_disjoint(r.0@),
        source_ranges_disjoint(r.1@) && target_ranges_disjoint(r.1@),
        exists|u: Seq<Match>, w: Seq<Match>|
            sorted_by_source(u) && u.to_multiset() == spec_process(
                source.vals@,
                target.vals@,
            ).to_multiset() && sorted_by_source(w) && w.to_multiset() == swap_all(
                spec_fix_all(u, source.vals@),
            ).to_multiset() && r.0@.to_multiset() == swap_all(
                spec_fix_all(w, target.vals@),
            ).to_multiset(),
{
    let ghost s = source.vals@;
    let ghost t = target.vals@;
    let mut matches = process(source, target);
    proof {
        lemma_process_good(s, t);
    }
    let ghost ms1 = matches@;
    postprocess(source, &mut matches);
    let ghost u = choose|u: Seq<Match>|
        sorted_by_source(u) && u.to_multiset() == ms1.to_multiset() && matches@ == spec_fix_all(
            u,
            s,
        );
    proof {
        lemma_perm_keeps_good(ms1, u, s, t);
        assert(all_nonempty(ms1)) by {
            assert forall|k: int| 0 <= k < ms1.len() implies (#[trigger] ms1[k]).size >= 1 by {
                assert(ms1[k].size >= 1 && crate::laws::match_within(
                    ms1[k],
                    s.len() as int,
                    t.len() as int,
                ) && crate::laws::match_exact(ms1[k], s, t));
            }
        }
        lemma_perm_keeps_disjoint(ms1, u);
        lemma_resolver_keeps_disjoint(u, s);
        assert(spec_fix_all(u, s) == u);
        assert(all_matches_sound(ms1, s, t)) by {
            assert forall|k: int| 0 <= k < ms1.len() implies (crate::laws::match_within(
                #[trigger] ms1[k],
                s.len() as int,
                t.len() as int,
            ) && crate::laws::match_exact(ms1[k], s, t)) by {
                assert(ms1[k].size >= 1 && crate::laws::match_within(
                    ms1[k],
                    s.len() as int,
                    t.len() as int,
                ) && crate::laws::match_exact(ms1[k], s, t));
            }
        }
        lemma_perm_keeps_sound(ms1, u, s, t);
        assert(ends_fit(u));
        lemma_fix_all_shrinks(u, s);
        lemma_shrunk_keeps_sound(spec_fix_all(u, s), u, s, t);
        // target ends stay within the target section after the first pass
        assert forall|k: int| 0 <= k < matches@.len() implies (#[trigger] matches@[k]).target_start
            + matches@[k].size <= t.len() && matches@[k].source_start + matches@[k].size
            <= s.len() by {
            assert(u[k].size >= 1 && crate::laws::match_within(u[k], s.len() as int, t.len() as int)
                && crate::laws::match_exact(u[k], s, t));
        }
    }
    swap_coordinates(&mut matches);
    let ghost ms3 = matches@;
    proof {
        assert(ms3 =~= swap_all(spec_fix_all(u, s)));
        lemma_swap_keeps_sound(spec_fix_all(u, s), s, t);
        lemma_swap_keeps_disjoint(u);
        assert(all_nonempty(ms3) && source_ranges_disjoint(ms3) && target_ranges_disjoint(ms3));
        assert(all_matches_sound(ms3, t, s));
        assert forall|k: int| 0 <= k < ms3.len() implies (#[trigger] ms3[k]).source_start + ms3[
            k
        ].size <= t.len() && ms3[k].target_start + ms3[k].size <= u32::MAX by {
            assert(crate::laws::match_within(ms3[k], t.len() as int, s.len() as int));
        }
    }
    postprocess(target, &mut matches);
    let ghost w = choose|w: Seq<Match>|
        sorted_by_source(w) && w.to_multiset() == ms3.to_multiset() && matches@ == spec_fix_all(
            w,
            t,
        );
    proof {
        lemma_perm_keeps_sound(ms3, w, t, s);
        lemma_perm_keeps_disjoint(ms3, w);
        lemma_resolver_keeps_disjoint(w, t);
        assert(spec_fix_all(w, t) == w);
        assert(ends_fit(w)) by {
            assert forall|k: int| 0 <= k < w.len() implies (#[trigger] w[k]).source_start + w[
                k
            ].size <= u32::MAX && w[k].target_start + w[k].size <= u32::MAX by {
                assert(crate::laws::match_within(w[k], t.len() as int, s.len() as int));
            }
        }
        lemma_fix_all_shrinks(w, t);
        lemma_shrunk_keeps_sound(spec_fix_all(w, t), w, t, s);
    }
    swap_coordinates(&mut matches);
    let ghost resolved = matches@;
    proof {
        assert(resolved =~= swap_all(spec_fix_all(w, t)));
        lemma_swap_keeps_sound(spec_fix_all(w, t), t, s);
        lemma_swap_keeps_disjoint(w);
        assert(all_matches_sound(resolved, s, t));
        assert(all_nonempty(resolved) && source_ranges_disjoint(resolved)
            && target_ranges_disjoint(resolved));
    }
    sort_by_source_start(&mut matches);
    let by_source = copy_matches(&matches);
    proof {
        lemma_perm_keeps_sound(resolved, by_source@, s, t);
        lemma_perm_keeps_disjoint(resolved, by_source@);
    }
    sort_by_target_start(&mut matches);
    let r = (by_source, matches);
    proof {
        assert(r.0@.to_multiset() == swap_all(spec_fix_all(w, t)).to_multiset());
        lemma_perm_keeps_sound(resolved, r.1@, s, t);
        lemma_perm_keeps_disjoint(resolved, r.1@);
    }
    r
}

} // verus!
