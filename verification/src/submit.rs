//! The pure side of pack submission: the request shape, the length rules a
//! submission must meet, and the split of its track list by track type.

use vstd::prelude::*;
use vstd::string::StringSliceAdditionalSpecFns;

use crate::pack_list::TrackType;
use crate::wrappers::Sha1;

verus! {

/// A pack submission as the caller hands it in.
#[derive(Debug)]
pub struct SubmitParams {
    pub name: String,
    pub description: String,
    pub author_names: String,
    pub tracks: Vec<(TrackType, Sha1)>,
    pub access_token: String,
}

/// Why a submission is turned away without touching the database.
#[derive(Debug, Clone, Copy, PartialEq, Eq, Structural)]
pub enum SubmitRejection {
    NameTooLong,
    DescriptionTooLong,
    AuthorNamesTooLong,
}

/// The length rules, checked in order: the name must stay under 64 bytes,
/// the description under 128, the author names under 64.
pub fn check_submit_params(p: &SubmitParams) -> (r: Result<(), SubmitRejection>)
    ensures
        vstd::utf8::encode_utf8(p.name@).len() >= 64 ==> r == Err::<(), SubmitRejection>(
            SubmitRejection::NameTooLong,
        ),
        vstd::utf8::encode_utf8(p.name@).len() < 64 && vstd::utf8::encode_utf8(p.description@).len() >= 128 ==> r == Err::<
            (),
            SubmitRejection,
        >(SubmitRejection::DescriptionTooLong),
        vstd::utf8::encode_utf8(p.name@).len() < 64 && vstd::utf8::encode_utf8(p.description@).len() < 128
            && vstd::utf8::encode_utf8(p.author_names@).len() >= 64 ==> r == Err::<(), SubmitRejection>(
            SubmitRejection::AuthorNamesTooLong,
        ),
        vstd::utf8::encode_utf8(p.name@).len() < 64 && vstd::utf8::encode_utf8(p.description@).len() < 128
            && vstd::utf8::encode_utf8(p.author_names@).len() < 64 ==> r == Ok::<(), SubmitRejection>(()),
{
    if p.name.as_str().as_bytes().len() >= 64 {
        Err(SubmitRejection::NameTooLong)
    } else if p.description.as_str().as_bytes().len() >= 128 {
        Err(SubmitRejection::DescriptionTooLong)
    } else if p.author_names.as_str().as_bytes().len() >= 64 {
        Err(SubmitRejection::AuthorNamesTooLong)
    } else {
        Ok(())
    }
}

/// The digests of the tracks of one type, in the order given.
pub open spec fn spec_filter_tracks(ts: Seq<(TrackType, Sha1)>, k: TrackType) -> Seq<Sha1>
    decreases ts.len(),
{
    if ts.len() == 0 {
        Seq::empty()
    } else {
        let rest = spec_filter_tracks(ts.drop_last(), k);
        if ts.last().0 == k {
            rest.push(ts.last().1)
        } else {
            rest
        }
    }
}

/// Keeps the digests of the tracks of one type, in order.
pub fn filter_tracks(tracks: &[(TrackType, Sha1)], track_type: TrackType) -> (r: Vec<Sha1>)
    ensures
        r@ == spec_filter_tracks(tracks@, track_type),
{
    let mut r: Vec<Sha1> = Vec::new();
    let mut i: usize = 0;
    while i < tracks.len()
        invariant
            i <= tracks@.len(),
            r@ == spec_filter_tracks(tracks@.subrange(0, i as int), track_type),
        decreases tracks@.len() - i,
    {
        let ghost pre = tracks@.subrange(0, i as int);
        let ghost post = tracks@.subrange(0, i as int + 1);
        proof {
            assert(post.drop_last() =~= pre);
            assert(post.last() == tracks@[i as int]);
        }
        let (kind, hash) = tracks[i];
        let same = match (kind, track_type) {
            (TrackType::Race, TrackType::Race) => true,
            (TrackType::Coin, TrackType::Coin) => true,
            (TrackType::Balloon, TrackType::Balloon) => true,
            _ => false,
        };
        if same {
            r.push(hash);
        }
        i = i + 1;
    }
    proof {
        assert(tracks@.subrange(0, tracks@.len() as int) =~= tracks@);
    }
    r
}

} // verus!
