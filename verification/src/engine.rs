//! The multi-resolution sweep of the match engine: accept the best candidate
//! at a coarse threshold until none is left, then halve the threshold, down
//! to a floor, accumulating a set of correspondences.

use vstd::prelude::*;

use crate::matching::{Match, find_best_match, source_ranges_disjoint, spec_find_best,
    target_ranges_disjoint};
use crate::section::Section;

verus! {

/// Accepting candidates at one threshold until none remains. The fuel bounds
/// the number of acceptances; one per source word always suffices, since an
/// accepted candidate covers only unclaimed source words and claims at
/// least one of them.
pub open spec fn spec_pass(
    min_size: int,
    s: Seq<u32>,
    t: Seq<u32>,
    ms: Seq<Match>,
    fuel: nat,
) -> Seq<Match>
    decreases fuel,
{
    if fuel == 0 {
        ms
    } else {
        match spec_find_best(min_size, s, t, ms) {
            Some(m) => spec_pass(min_size, s, t, ms.push(m), (fuel - 1) as nat),
            None => ms,
        }
    }
}

/// The sweep over thresholds: one pass at each threshold from `min_size`
/// down to `lower`, halving between passes.
pub open spec fn spec_sweep(
    min_size: int,
    lower: int,
    s: Seq<u32>,
    t: Seq<u32>,
    ms: Seq<Match>,
) -> Seq<Match>
    decreases min_size,
{
    if lower <= 0 || min_size < lower {
        ms
    } else {
        spec_sweep(min_size / 2, lower, s, t, spec_pass(min_size, s, t, ms, s.len()))
    }
}

/// The whole engine: thresholds start at `min(0x10000, lengths)` and stop at
/// `min(0x100, lengths)`; an empty section yields an empty match set.
pub open spec fn spec_process(s: Seq<u32>, t: Seq<u32>) -> Seq<Match> {
    if s.len() == 0 || t.len() == 0 {
        Seq::empty()
    } else {
        let cap = min3(0x10000, s.len() as int, t.len() as int);
        let lower = min3(0x100, s.len() as int, t.len() as int);
        spec_sweep(cap, lower, s, t, Seq::empty())
    }
}

pub open spec fn min3(a: int, b: int, c: int) -> int {
    if a <= b && a <= c {
        a
    } else if b <= c {
        b
    } else {
        c
    }
}

/// Runs the multi-resolution search over one pair of sections and returns
/// the accepted matches in acceptance order; no two of them overlap in
/// source coordinates or in target coordinates.
pub fn process(source: &Section, target: &Section) -> (r: Vec<Match>)
    requires
        source.vals@.len() <= u32::MAX,
        target.vals@.len() <= u32::MAX,
    ensures
        r@ == spec_process(source.vals@, target.vals@),
        source_ranges_disjoint(r@),
        target_ranges_disjoint(r@),
{
    proof {
        crate::laws::lemma_process_good(source.vals@, target.vals@);
    }
    let ghost s = source.vals@;
    let ghost t = target.vals@;
    let mut matches: Vec<Match> = Vec::new();
    if source.vals.len() == 0 || target.vals.len() == 0 {
        return matches;
    }
    let slen: u32 = source.vals.len() as u32;
    let tlen: u32 = target.vals.len() as u32;
    let mut min_size: u32 = if slen < 0x10000 {
        slen
    } else {
        0x10000
    };
    if tlen < min_size {
        min_size = tlen;
    }
    let mut lower: u32 = if slen < 0x100 {
        slen
    } else {
        0x100
    };
    if tlen < lower {
        lower = tlen;
    }
    proof {
        assert(min_size == min3(0x10000, s.len() as int, t.len() as int));
        assert(lower == min3(0x100, s.len() as int, t.len() as int));
        assert(lower >= 1);
    }
    while min_size >= lower
        invariant
            s == source.vals@,
            t == target.vals@,
            slen == s.len(),
            tlen == t.len(),
            slen <= u32::MAX,
            tlen <= u32::MAX,
            1 <= lower,
            spec_process(s, t) == spec_sweep(min_size as int, lower as int, s, t, matches@),
        decreases min_size,
    {
        let ghost pass_start = matches@;
        let mut fuel: usize = source.vals.len();
        loop
            invariant_except_break
                s == source.vals@,
                t == target.vals@,
                slen == s.len(),
                tlen == t.len(),
                slen <= u32::MAX,
                tlen <= u32::MAX,
                1 <= lower <= min_size,
                spec_pass(min_size as int, s, t, pass_start, s.len()) == spec_pass(
                    min_size as int,
                    s,
                    t,
                    matches@,
                    fuel as nat,
                ),
            ensures
                s == source.vals@,
                t == target.vals@,
                spec_pass(min_size as int, s, t, pass_start, s.len()) == matches@,
            decreases fuel,
        {
            if fuel == 0 {
                break;
            }
            match find_best_match(min_size, source, target, matches.as_slice()) {
                Some(m) => {
                    matches.push(m);
                    fuel = fuel - 1;
                },
                None => {
                    break;
                },
            }
        }
        min_size = min_size / 2;
    }
    matches
}

} // verus!
