//! The track search: filter the database entries whose names begin with the
//! query, rank them by edit distance to it, drop adjacent duplicates, group
//! them into at most five named tracks, and sort each track's versions.

use vstd::prelude::*;

use crate::shared::{TrackResponse, TrackResponseModel, responses_view};
use crate::track_database::{extract_version, spec_extract_version};
use crate::wrappers::Sha1;

verus! {

/// The search request.
#[derive(Debug)]
pub struct SearchParams {
    pub query: String,
}

/// The search answer: the ranked tracks.
#[derive(Debug, Default)]
pub struct SearchResponse {
    pub tracks: Vec<TrackResponse>,
}

/// One database entry offered to the search: a track version under its
/// digest.
#[derive(Debug)]
pub struct SearchEntry {
    pub hash: Sha1,
    pub is_battle: bool,
    pub name: String,
    pub version: String,
}

/// The mathematical content of a search entry.
#[verifier::ext_equal]
pub ghost struct SearchEntryModel {
    pub hash: Sha1,
    pub is_battle: bool,
    pub name: Seq<char>,
    pub version: Seq<char>,
}

impl View for SearchEntry {
    type V = SearchEntryModel;

    open spec fn view(&self) -> SearchEntryModel {
        SearchEntryModel {
            hash: self.hash,
            is_battle: self.is_battle,
            name: self.name@,
            version: self.version@,
        }
    }
}

pub open spec fn entries_view(es: Seq<SearchEntry>) -> Seq<SearchEntryModel> {
    es.map_values(|e: SearchEntry| e@)
}

proof fn lemma_entries_remove0(old_in: Seq<SearchEntry>, orig: Seq<SearchEntryModel>, i: int)
    requires
        old_in.len() > 0,
        0 <= i <= orig.len(),
        entries_view(old_in) == orig.subrange(i, orig.len() as int),
    ensures
        i < orig.len(),
        old_in[0]@ == orig[i],
        entries_view(old_in.remove(0)) == orig.subrange(i + 1, orig.len() as int),
{
    assert(entries_view(old_in).len() == old_in.len());
    assert(i < orig.len());
    assert(entries_view(old_in)[0] == old_in[0]@);
    assert(orig.subrange(i, orig.len() as int)[0] == orig[i]);
    assert forall|k: int| 0 <= k < old_in.remove(0).len() implies entries_view(old_in.remove(0))[k]
        == orig.subrange(i + 1, orig.len() as int)[k] by {
        assert(old_in.remove(0)[k] == old_in[k + 1]);
        assert(entries_view(old_in)[k + 1] == old_in[k + 1]@);
        assert(orig.subrange(i, orig.len() as int)[k + 1] == orig[i + 1 + k]);
    }
    assert(entries_view(old_in.remove(0)) =~= orig.subrange(i + 1, orig.len() as int));
}

proof fn lemma_responses_remove0(
    old_in: Seq<TrackResponse>,
    orig: Seq<TrackResponseModel>,
    i: int,
)
    requires
        old_in.len() > 0,
        0 <= i <= orig.len(),
        responses_view(old_in) == orig.subrange(i, orig.len() as int),
    ensures
        i < orig.len(),
        old_in[0]@ == orig[i],
        responses_view(old_in.remove(0)) == orig.subrange(i + 1, orig.len() as int),
{
    assert(responses_view(old_in).len() == old_in.len());
    assert(i < orig.len());
    assert(responses_view(old_in)[0] == old_in[0]@);
    assert(orig.subrange(i, orig.len() as int)[0] == orig[i]);
    assert forall|k: int| 0 <= k < old_in.remove(0).len() implies responses_view(
        old_in.remove(0),
    )[k] == orig.subrange(i + 1, orig.len() as int)[k] by {
        assert(old_in.remove(0)[k] == old_in[k + 1]);
        assert(responses_view(old_in)[k + 1] == old_in[k + 1]@);
        assert(orig.subrange(i, orig.len() as int)[k + 1] == orig[i + 1 + k]);
    }
    assert(responses_view(old_in.remove(0)) =~= orig.subrange(i + 1, orig.len() as int));
}

/// What str::to_lowercase returns for a character sequence: it depends on
/// the characters alone, so it only gets a name here.
pub uninterp spec fn lower_of(s: Seq<char>) -> Seq<char>;

/// Relies on str::to_lowercase: the lowercase form of the string, a function
/// of its characters alone; an empty string stays empty.
#[verifier::external_body]
fn to_lowercase_str(s: &str) -> (r: String)
    ensures
        r@ == lower_of(s@),
        s@.len() == 0 ==> r@.len() == 0,
{
    s.to_lowercase()
}

pub open spec fn spec_starts_with(s: Seq<char>, p: Seq<char>) -> bool {
    s.len() >= p.len() && s.subrange(0, p.len() as int) == p
}

/// Relies on str::starts_with: whether the characters of `prefix` begin `s`.
#[verifier::external_body]
fn str_starts_with(s: &str, prefix: &str) -> (r: bool)
    ensures
        r == spec_starts_with(s@, prefix@),
{
    s.starts_with(prefix)
}

pub open spec fn min3nat(a: nat, b: nat, c: nat) -> nat {
    if a <= b && a <= c {
        a
    } else if b <= c {
        b
    } else {
        c
    }
}

/// The Levenshtein edit distance between two character sequences: the least
/// number of single-character insertions, deletions and substitutions that
/// turns one into the other, by the standard recurrence on their last
/// characters.
pub open spec fn edit_distance_of(a: Seq<char>, b: Seq<char>) -> nat
    decreases a.len() + b.len(),
{
    if a.len() == 0 {
        b.len()
    } else if b.len() == 0 {
        a.len()
    } else {
        min3nat(
            edit_distance_of(a.drop_last(), b) + 1,
            edit_distance_of(a, b.drop_last()) + 1,
            edit_distance_of(a.drop_last(), b.drop_last()) + (if a.last() == b.last() {
                0nat
            } else {
                1nat
            }),
        )
    }
}

/// Relies on edit_distance::edit_distance: the Levenshtein distance between
/// the two strings over their characters, which the crate computes by the
/// dynamic program for the same recurrence.
#[verifier::external_body]
fn edit_distance_str(a: &str, b: &str) -> (r: usize)
    ensures
        r as nat == edit_distance_of(a@, b@),
{
    edit_distance::edit_distance(a, b)
}

/// The entries whose lowercased name begins with the lowercased query, in
/// their original order.
pub open spec fn spec_filter_entries(es: Seq<SearchEntryModel>, q: Seq<char>) -> Seq<
    SearchEntryModel,
>
    decreases es.len(),
{
    if es.len() == 0 {
        Seq::empty()
    } else {
        let rest = spec_filter_entries(es.drop_last(), q);
        if spec_starts_with(lower_of(es.last().name), lower_of(q)) {
            rest.push(es.last())
        } else {
            rest
        }
    }
}

fn filter_by_prefix(entries: Vec<SearchEntry>, query: &str) -> (r: Vec<SearchEntry>)
    ensures
        entries_view(r@) == spec_filter_entries(entries_view(entries@), query@),
{
    let ghost orig = entries_view(entries@);
    let query_lower = to_lowercase_str(query);
    let mut input = entries;
    let mut out: Vec<SearchEntry> = Vec::new();
    let ghost mut i: int = 0;
    proof {
        assert(orig.subrange(0, orig.len() as int) =~= orig);
    }
    while input.len() > 0
        invariant
            0 <= i <= orig.len(),
            query_lower@ == lower_of(query@),
            entries_view(input@) == orig.subrange(i, orig.len() as int),
            entries_view(out@) == spec_filter_entries(orig.subrange(0, i), query@),
        decreases input@.len(),
    {
        let ghost pre_out = out@;
        let ghost old_in = input@;
        let e = input.remove(0);
        proof {
            lemma_entries_remove0(old_in, orig, i);
            assert(e@ == orig[i]);
            let prefix2 = orig.subrange(0, i + 1);
            assert(prefix2.drop_last() =~= orig.subrange(0, i));
            assert(prefix2.last() == orig[i]);
        }
        let name_lower = to_lowercase_str(e.name.as_str());
        if str_starts_with(name_lower.as_str(), query_lower.as_str()) {
            out.push(e);
            proof {
                assert(entries_view(out@) =~= entries_view(pre_out).push(orig[i]));
            }
        }
        proof {
            i = i + 1;
        }
    }
    proof {
        assert(orig.subrange(0, orig.len() as int) =~= orig);
    }
    out
}

/// The ranking key: distance from the entry's name to the query.
pub open spec fn distance_key(e: SearchEntryModel, q: Seq<char>) -> nat {
    edit_distance_of(e.name, q)
}

pub open spec fn sorted_by_distance(es: Seq<SearchEntryModel>, q: Seq<char>) -> bool {
    forall|i: int, j: int|
        0 <= i <= j < es.len() ==> distance_key(es[i], q) <= distance_key(es[j], q)
}

fn sort_by_distance(entries: Vec<SearchEntry>, query: &str) -> (r: Vec<SearchEntry>)
    ensures
        sorted_by_distance(entries_view(r@), query@),
        entries_view(r@).to_multiset() == entries_view(entries@).to_multiset(),
{
    broadcast use vstd::seq_lib::group_to_multiset_ensures;

    let ghost orig = entries_view(entries@);
    let mut input = entries;
    let mut out: Vec<SearchEntry> = Vec::new();
    let ghost mut i: int = 0;
    proof {
        assert(orig.subrange(0, orig.len() as int) =~= orig);
    }
    while input.len() > 0
        invariant
            0 <= i <= orig.len(),
            entries_view(input@) == orig.subrange(i, orig.len() as int),
            sorted_by_distance(entries_view(out@), query@),
            entries_view(out@).to_multiset() == orig.subrange(0, i).to_multiset(),
        decreases input@.len(),
    {
        let ghost old_in = input@;
        let x = input.remove(0);
        proof {
            lemma_entries_remove0(old_in, orig, i);
            assert(x@ == orig[i]);
        }
        let key_x = edit_distance_str(x.name.as_str(), query);
        let mut p: usize = 0;
        while p < out.len() && edit_distance_str(out[p].name.as_str(), query) <= key_x
            invariant
                p <= out@.len(),
                key_x as nat == distance_key(x@, query@),
                forall|q: int|
                    0 <= q < p ==> distance_key(entries_view(out@)[q], query@) <= distance_key(
                        x@,
                        query@,
                    ),
            decreases out@.len() - p,
        {
            p = p + 1;
        }
        let ghost pre = out@;
        let ghost vpre = entries_view(pre);
        out.insert(p, x);
        proof {
            assert(entries_view(out@) =~= vpre.insert(p as int, orig[i]));
            vstd::seq_lib::to_multiset_insert(vpre, p as int, orig[i]);
            assert(orig.subrange(0, i + 1) =~= orig.subrange(0, i).push(orig[i]));
            vstd::seq_lib::to_multiset_build(orig.subrange(0, i), orig[i]);
            assert(sorted_by_distance(entries_view(out@), query@)) by {
                let v = entries_view(out@);
                assert forall|a: int, b: int| 0 <= a <= b < v.len() implies distance_key(
                    v[a],
                    query@,
                ) <= distance_key(v[b], query@) by {
                    if a < p && b >= p as int + 1 {
                        assert(v[a] == vpre[a]);
                        assert(v[b] == vpre[b - 1]);
                    } else if a == p && b >= p as int + 1 {
                        assert(v[b] == vpre[b - 1]);
                    } else if a < p && b == p {
                        assert(v[a] == vpre[a]);
                    }
                }
            }
            i = i + 1;
        }
    }
    proof {
        assert(orig.subrange(0, orig.len() as int) =~= orig);
    }
    out
}

/// Adjacent entries with the same name and version collapse to the first.
pub open spec fn spec_dedup(es: Seq<SearchEntryModel>) -> Seq<SearchEntryModel>
    decreases es.len(),
{
    if es.len() <= 1 {
        es
    } else {
        let rest = spec_dedup(es.drop_last());
        if es.last().name == es[es.len() - 2].name && es.last().version == es[es.len() - 2].version {
            rest
        } else {
            rest.push(es.last())
        }
    }
}

fn dedup_adjacent(entries: Vec<SearchEntry>) -> (r: Vec<SearchEntry>)
    ensures
        entries_view(r@) == spec_dedup(entries_view(entries@)),
{
    let ghost orig = entries_view(entries@);
    let mut input = entries;
    let mut out: Vec<SearchEntry> = Vec::new();
    let ghost mut i: int = 0;
    proof {
        assert(orig.subrange(0, orig.len() as int) =~= orig);
    }
    while input.len() > 0
        invariant
            0 <= i <= orig.len(),
            entries_view(input@) == orig.subrange(i, orig.len() as int),
            entries_view(out@) == spec_dedup(orig.subrange(0, i)),
            out@.len() > 0 <==> i > 0,
            i > 0 ==> entries_view(out@).last().name == orig[i - 1].name && entries_view(
                out@,
            ).last().version == orig[i - 1].version,
        decreases input@.len(),
    {
        let ghost pre_out = out@;
        let ghost old_in = input@;
        let x = input.remove(0);
        proof {
            lemma_entries_remove0(old_in, orig, i);
            assert(x@ == orig[i]);
            let prefix2 = orig.subrange(0, i + 1);
            assert(prefix2.drop_last() =~= orig.subrange(0, i));
            assert(prefix2.last() == orig[i]);
            if i > 0 {
                assert(prefix2[i - 1] == orig[i - 1]);
            }
        }
        let dup = if out.len() > 0 {
            let last = &out[out.len() - 1];
            last.name == x.name && last.version == x.version
        } else {
            false
        };
        proof {
            if i > 0 {
                assert(entries_view(pre_out)[pre_out.len() - 1] == pre_out[pre_out.len() - 1]@);
                assert(dup == (orig[i].name == orig[i - 1].name && orig[i].version == orig[
                    i - 1].version));
            }
        }
        if !dup {
            out.push(x);
            proof {
                assert(entries_view(out@) =~= entries_view(pre_out).push(orig[i]));
            }
        }
        proof {
            i = i + 1;
        }
    }
    proof {
        assert(orig.subrange(0, orig.len() as int) =~= orig);
    }
    out
}

pub open spec fn find_name_from(acc: Seq<TrackResponseModel>, name: Seq<char>, k: int) -> Option<
    int,
>
    decreases acc.len() - k,
{
    if !(0 <= k < acc.len()) {
        None
    } else if acc[k].name == name {
        Some(k)
    } else {
        find_name_from(acc, name, k + 1)
    }
}

/// One entry folded into the grouped answer: its version joins the first
/// track of the same name, or starts a new track.
pub open spec fn spec_add_entry(acc: Seq<TrackResponseModel>, e: SearchEntryModel) -> Seq<
    TrackResponseModel,
> {
    match find_name_from(acc, e.name, 0) {
        Some(j) => acc.update(
            j,
            TrackResponseModel {
                name: acc[j].name,
                is_battle: acc[j].is_battle,
                versions: acc[j].versions.push((e.version, e.hash)),
            },
        ),
        None => acc.push(
            TrackResponseModel {
                name: e.name,
                is_battle: e.is_battle,
                versions: seq![(e.version, e.hash)],
            },
        ),
    }
}

/// The grouping walk: entries are folded in order until all are used or a
/// fifth track has just been created.
pub open spec fn spec_assemble_from(
    es: Seq<SearchEntryModel>,
    i: int,
    acc: Seq<TrackResponseModel>,
) -> Seq<TrackResponseModel>
    decreases es.len() - i,
{
    if i < 0 || i >= es.len() {
        acc
    } else {
        let acc2 = spec_add_entry(acc, es[i]);
        if acc2.len() == 5 {
            acc2
        } else {
            spec_assemble_from(es, i + 1, acc2)
        }
    }
}

pub open spec fn spec_assemble(es: Seq<SearchEntryModel>) -> Seq<TrackResponseModel> {
    spec_assemble_from(es, 0, Seq::empty())
}

fn assemble_response(entries: Vec<SearchEntry>) -> (r: Vec<TrackResponse>)
    ensures
        responses_view(r@) == spec_assemble(entries_view(entries@)),
{
    let ghost orig = entries_view(entries@);
    let mut input = entries;
    let mut out: Vec<TrackResponse> = Vec::new();
    let ghost mut i: int = 0;
    proof {
        assert(orig.subrange(0, orig.len() as int) =~= orig);
        assert(responses_view(out@) =~= Seq::<TrackResponseModel>::empty());
    }
    loop
        invariant_except_break
            0 <= i <= orig.len(),
            entries_view(input@) == orig.subrange(i, orig.len() as int),
            spec_assemble(orig) == spec_assemble_from(orig, i, responses_view(out@)),
            out@.len() != 5,
        ensures
            responses_view(out@) == spec_assemble(orig),
        decreases input@.len(),
    {
        if input.len() == 0 {
            proof {
                assert(entries_view(input@).len() == input@.len());
                assert(i == orig.len());
            }
            break ;
        }
        let ghost pre_vec = out@;
        let ghost pre_out = responses_view(out@);
        let ghost old_in = input@;
        let e = input.remove(0);
        let ghost em = e@;
        proof {
            lemma_entries_remove0(old_in, orig, i);
            assert(em == orig[i]);
        }
        // find the first track with this name
        let n = out.len();
        let mut k: usize = 0;
        let mut found: Option<usize> = None;
        loop
            invariant_except_break
                k <= n,
                n == out@.len(),
                out@ == pre_vec,
                pre_out == responses_view(pre_vec),
                em == e@,
                found is None,
                find_name_from(pre_out, em.name, 0) == find_name_from(pre_out, em.name, k as int),
            ensures
                out@ == pre_vec,
                found matches Some(j) ==> j < n && find_name_from(pre_out, em.name, 0) == Some(
                    j as int,
                ),
                found is None ==> find_name_from(pre_out, em.name, 0) is None,
            decreases n - k,
        {
            if k >= n {
                break ;
            }
            let same = out[k].name == e.name;
            proof {
                assert(responses_view(pre_vec)[k as int] == pre_vec[k as int]@);
                assert(same == (pre_out[k as int].name == em.name));
            }
            if same {
                found = Some(k);
                break ;
            }
            k = k + 1;
        }
        let ghost target = spec_add_entry(pre_out, em);
        match found {
            Some(j) => {
                let mut t = out.remove(j);
                let ghost tv = t.versions@;
                proof {
                    assert(t == pre_vec[j as int]);
                    assert(pre_out[j as int] == pre_vec[j as int]@);
                }
                t.versions.push((e.version, e.hash));
                let ghost t2m = t@;
                out.insert(j, t);
                proof {
                    assert(t2m.name == pre_out[j as int].name);
                    assert(t2m.is_battle == pre_out[j as int].is_battle);
                    assert(t2m.versions.len() == tv.len() + 1);
                    assert(t2m.versions =~= pre_out[j as int].versions.push(
                        (em.version, em.hash),
                    )) by {
                        assert forall|m: int| 0 <= m < tv.len() + 1 implies t2m.versions[m]
                            == pre_out[j as int].versions.push((em.version, em.hash))[m] by {
                            if m < tv.len() {
                                assert(t2m.versions[m] == (tv[m].0@, tv[m].1));
                                assert(pre_out[j as int].versions[m] == (tv[m].0@, tv[m].1));
                            } else {
                                assert(t2m.versions[m] == (em.version, em.hash));
                            }
                        }
                    }
                    assert(out@ =~= pre_vec.update(j as int, out@[j as int]));
                    assert(out@[j as int]@ == t2m);
                    assert(responses_view(out@) =~~= target) by {
                        assert forall|q: int| 0 <= q < out@.len() implies responses_view(out@)[q]
                            =~~= target[q] by {
                            assert(responses_view(out@)[q] == out@[q]@);
                            if q == j {
                                assert(target[q] == (TrackResponseModel {
                                    name: pre_out[q].name,
                                    is_battle: pre_out[q].is_battle,
                                    versions: pre_out[q].versions.push((em.version, em.hash)),
                                }));
                            } else {
                                assert(out@[q] == pre_vec[q]);
                                assert(target[q] == pre_out[q]);
                                assert(pre_out[q] == pre_vec[q]@);
                            }
                        }
                    }
                }
            },
            None => {
                let mut versions: Vec<(String, Sha1)> = Vec::new();
                versions.push((e.version, e.hash));
                let t = TrackResponse { name: e.name, is_battle: e.is_battle, versions };
                out.push(t);
                proof {
                    assert(out@[pre_vec.len() as int]@.versions =~= seq![(em.version, em.hash)]);
                    assert(out@[pre_vec.len() as int]@ =~~= (TrackResponseModel {
                        name: em.name,
                        is_battle: em.is_battle,
                        versions: seq![(em.version, em.hash)],
                    }));
                    assert(responses_view(out@) =~~= target) by {
                        assert forall|q: int| 0 <= q < out@.len() implies responses_view(out@)[q]
                            =~~= target[q] by {
                            assert(responses_view(out@)[q] == out@[q]@);
                            if q < pre_vec.len() {
                                assert(out@[q] == pre_vec[q]);
                                assert(target[q] == pre_out[q]);
                                assert(pre_out[q] == pre_vec[q]@);
                            }
                        }
                    }
                }
            },
        }
        proof {
            i = i + 1;
            assert(responses_view(out@) == target);
            assert(spec_assemble_from(orig, i - 1, pre_out) == (if target.len() == 5 {
                target
            } else {
                spec_assemble_from(orig, i, target)
            }));
        }
        if out.len() == 5 {
            proof {
                assert(spec_assemble(orig) == responses_view(out@));
            }
            break ;
        }
    }
    out
}

/// The ordering key of one version entry.
pub open spec fn version_key(v: (Seq<char>, Sha1)) -> int {
    spec_extract_version(vstd::utf8::encode_utf8(v.0))
}

pub open spec fn sorted_by_version(vs: Seq<(Seq<char>, Sha1)>) -> bool {
    forall|i: int, j: int| 0 <= i <= j < vs.len() ==> version_key(vs[i]) <= version_key(vs[j])
}

/// Whether `out` is `inp` reordered so that version keys ascend.
pub open spec fn versions_sorted_perm(out: Seq<(Seq<char>, Sha1)>, inp: Seq<(Seq<char>, Sha1)>)
    -> bool {
    sorted_by_version(out) && out.to_multiset() == inp.to_multiset()
}

pub open spec fn versions_of(vs: Seq<(String, Sha1)>) -> Seq<(Seq<char>, Sha1)> {
    vs.map_values(|p: (String, Sha1)| (p.0@, p.1))
}

/// Sorts one track's versions by their version-string key.
fn sort_versions(vs: Vec<(String, Sha1)>) -> (r: Vec<(String, Sha1)>)
    ensures
        versions_sorted_perm(versions_of(r@), versions_of(vs@)),
{
    broadcast use vstd::seq_lib::group_to_multiset_ensures;

    let ghost orig = versions_of(vs@);
    let mut input = vs;
    let mut out: Vec<(String, Sha1)> = Vec::new();
    let ghost mut i: int = 0;
    proof {
        assert(orig.subrange(0, orig.len() as int) =~= orig);
    }
    while input.len() > 0
        invariant
            0 <= i <= orig.len(),
            versions_of(input@) == orig.subrange(i, orig.len() as int),
            sorted_by_version(versions_of(out@)),
            versions_of(out@).to_multiset() == orig.subrange(0, i).to_multiset(),
        decreases input@.len(),
    {
        let ghost old_in = input@;
        let x = input.remove(0);
        proof {
            assert(versions_of(old_in).len() == old_in.len());
            assert(i < orig.len());
            assert(versions_of(old_in)[0] == (old_in[0].0@, old_in[0].1));
            assert(orig.subrange(i, orig.len() as int)[0] == orig[i]);
            assert((x.0@, x.1) == orig[i]);
            assert forall|k: int| 0 <= k < old_in.remove(0).len() implies versions_of(
                old_in.remove(0),
            )[k] == orig.subrange(i + 1, orig.len() as int)[k] by {
                assert(old_in.remove(0)[k] == old_in[k + 1]);
                assert(versions_of(old_in)[k + 1] == (old_in[k + 1].0@, old_in[k + 1].1));
                assert(orig.subrange(i, orig.len() as int)[k + 1] == orig[i + 1 + k]);
            }
            assert(versions_of(input@) =~= orig.subrange(i + 1, orig.len() as int));
        }
        let key_x = extract_version(x.0.as_str());
        let mut p: usize = 0;
        while p < out.len() && extract_version(out[p].0.as_str()) <= key_x
            invariant
                p <= out@.len(),
                key_x as int == version_key((x.0@, x.1)),
                forall|q: int|
                    0 <= q < p ==> version_key(versions_of(out@)[q]) <= version_key((x.0@, x.1)),
            decreases out@.len() - p,
        {
            proof {
                assert(versions_of(out@)[p as int] == (out@[p as int].0@, out@[p as int].1));
            }
            p = p + 1;
        }
        proof {
            assert(p < out@.len() ==> version_key(versions_of(out@)[p as int]) > version_key(
                (x.0@, x.1),
            )) by {
                if p < out@.len() {
                    assert(versions_of(out@)[p as int] == (out@[p as int].0@, out@[p as int].1));
                }
            }
        }
        let ghost vpre = versions_of(out@);
        let ghost xm = (x.0@, x.1);
        out.insert(p, x);
        proof {
            assert(versions_of(out@) =~= vpre.insert(p as int, orig[i])) by {
                assert forall|q: int| 0 <= q < out@.len() implies versions_of(out@)[q]
                    == vpre.insert(p as int, orig[i])[q] by {
                    assert(versions_of(out@)[q] == (out@[q].0@, out@[q].1));
                    if q < p {
                        assert(versions_of(out@)[q] == vpre[q]);
                    } else if q > p {
                        assert((out@[q].0@, out@[q].1) == vpre[q - 1]);
                    }
                }
            }
            vstd::seq_lib::to_multiset_insert(vpre, p as int, orig[i]);
            assert(orig.subrange(0, i + 1) =~= orig.subrange(0, i).push(orig[i]));
            vstd::seq_lib::to_multiset_build(orig.subrange(0, i), orig[i]);
            assert(sorted_by_version(versions_of(out@))) by {
                let v = versions_of(out@);
                assert forall|a: int, b: int| 0 <= a <= b < v.len() implies version_key(v[a])
                    <= version_key(v[b]) by {
                    if a < p && b >= p as int + 1 {
                        assert(v[a] == vpre[a]);
                        assert(v[b] == vpre[b - 1]);
                    } else if a == p && b >= p as int + 1 {
                        assert(v[b] == vpre[b - 1]);
                    } else if a < p && b == p {
                        assert(v[a] == vpre[a]);
                    }
                }
            }
            i = i + 1;
        }
    }
    proof {
        assert(orig.subrange(0, orig.len() as int) =~= orig);
    }
    out
}

/// Whether `out` is `res` with each track's versions reordered by their
/// version keys.
pub open spec fn tracks_version_sorted(
    out: Seq<TrackResponseModel>,
    res: Seq<TrackResponseModel>,
) -> bool {
    out.len() == res.len() && forall|i: int|
        0 <= i < res.len() ==> ((#[trigger] out[i]).name == (#[trigger] res[i]).name && out[
            i
        ].is_battle == res[i].is_battle && versions_sorted_perm(out[i].versions, res[i].versions))
}

/// The whole search: a query of at most two bytes answers nothing; a longer
/// one filters the entries by lowercased-name prefix, ranks them by edit
/// distance to the query, drops adjacent duplicate name/version pairs,
/// groups what is left into at most five named tracks, and sorts each
/// track's versions.
pub fn search_tracks(entries: Vec<SearchEntry>, query: &str) -> (r: SearchResponse)
    ensures
        vstd::utf8::encode_utf8(query@).len() <= 2 ==> responses_view(r.tracks@) == Seq::<
            TrackResponseModel,
        >::empty(),
        vstd::utf8::encode_utf8(query@).len() > 2 ==> exists|ranked: Seq<SearchEntryModel>|
            sorted_by_distance(ranked, query@) && ranked.to_multiset() == spec_filter_entries(
                entries_view(entries@),
                query@,
            ).to_multiset() && tracks_version_sorted(
                responses_view(r.tracks@),
                spec_assemble(spec_dedup(ranked)),
            ),
{
    if query.as_bytes().len() <= 2 {
        let r = SearchResponse { tracks: Vec::new() };
        proof {
            assert(responses_view(r.tracks@) =~= Seq::<TrackResponseModel>::empty());
        }
        return r;
    }
    let filtered = filter_by_prefix(entries, query);
    let ranked_vec = sort_by_distance(filtered, query);
    let ghost ranked = entries_view(ranked_vec@);
    let deduped = dedup_adjacent(ranked_vec);
    let grouped = assemble_response(deduped);
    let ghost grouped_model = responses_view(grouped@);
    let mut input = grouped;
    let mut tracks: Vec<TrackResponse> = Vec::new();
    let ghost mut i: int = 0;
    proof {
        assert(grouped_model.subrange(0, grouped_model.len() as int) =~= grouped_model);
    }
    while input.len() > 0
        invariant
            0 <= i <= grouped_model.len(),
            responses_view(input@) == grouped_model.subrange(i, grouped_model.len() as int),
            responses_view(tracks@).len() == i,
            forall|k: int|
                0 <= k < i ==> ((#[trigger] responses_view(tracks@)[k]).name == grouped_model[
                    k
                ].name && responses_view(tracks@)[k].is_battle == grouped_model[k].is_battle
                    && versions_sorted_perm(
                    responses_view(tracks@)[k].versions,
                    grouped_model[k].versions,
                )),
        decreases input@.len(),
    {
        let ghost old_in = input@;
        let ghost pre_tracks = tracks@;
        let t = input.remove(0);
        let ghost tm = t@;
        let ghost tv = t.versions@;
        proof {
            lemma_responses_remove0(old_in, grouped_model, i);
            assert(tm == grouped_model[i]);
            assert(versions_of(tv) =~= tm.versions) by {
                assert forall|m: int| 0 <= m < tv.len() implies versions_of(tv)[m] == tm.versions[
                    m
                ] by {
                    assert(versions_of(tv)[m] == (tv[m].0@, tv[m].1));
                    assert(tm.versions[m] == (tv[m].0@, tv[m].1));
                }
            }
        }
        let sorted_versions = sort_versions(t.versions);
        let ghost sv = sorted_versions@;
        let t2 = TrackResponse { name: t.name, is_battle: t.is_battle, versions: sorted_versions };
        proof {
            assert(versions_of(sv) =~= t2@.versions) by {
                assert forall|m: int| 0 <= m < sv.len() implies versions_of(sv)[m] == t2@.versions[
                    m
                ] by {
                    assert(versions_of(sv)[m] == (sv[m].0@, sv[m].1));
                    assert(t2@.versions[m] == (sv[m].0@, sv[m].1));
                }
            }
            assert(versions_sorted_perm(t2@.versions, tm.versions));
            assert(t2@.name == tm.name);
            assert(t2@.is_battle == tm.is_battle);
        }
        tracks.push(t2);
        proof {
            assert forall|k: int| 0 <= k < i + 1 implies responses_view(tracks@)[k] == (if k < i {
                responses_view(pre_tracks)[k]
            } else {
                t2@
            }) by {
                assert(responses_view(tracks@)[k] == tracks@[k]@);
                if k < i {
                    assert(tracks@[k] == pre_tracks[k]);
                }
            }
            i = i + 1;
        }
    }
    let r = SearchResponse { tracks };
    proof {
        assert(tracks_version_sorted(responses_view(r.tracks@), grouped_model));
    }
    r
}

} // verus!
