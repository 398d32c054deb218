//! Response shapes shared by the track queries.

use vstd::prelude::*;

use crate::wrappers::Sha1;

verus! {

/// One named track with all its known versions, each version paired with
/// the digest that identifies its file.
#[derive(Debug)]
pub struct TrackResponse {
    pub name: String,
    pub is_battle: bool,
    pub versions: Vec<(String, Sha1)>,
}

/// The mathematical content of a track response.
#[verifier::ext_equal]
pub ghost struct TrackResponseModel {
    pub name: Seq<char>,
    pub is_battle: bool,
    pub versions: Seq<(Seq<char>, Sha1)>,
}

impl View for TrackResponse {
    type V = TrackResponseModel;

    open spec fn view(&self) -> TrackResponseModel {
        TrackResponseModel {
            name: self.name@,
            is_battle: self.is_battle,
            versions: self.versions@.map_values(|p: (String, Sha1)| (p.0@, p.1)),
        }
    }
}

/// The contents of a list of track responses.
pub open spec fn responses_view(ts: Seq<TrackResponse>) -> Seq<TrackResponseModel> {
    ts.map_values(|t: TrackResponse| t@)
}


/// The access gate: a caller is authorized exactly when a user record was
/// found for its token and that record's expiry lies after the present
/// moment; the caller supplies both timestamps as plain values.
pub fn authorize_user(record: Option<(i64, i64)>, now: i64) -> (r: Option<i64>)
    ensures
        record is None ==> r is None,
        record matches Some(p) ==> r == (if p.1 > now {
            Some(p.0)
        } else {
            None::<i64>
        }),
{
    match record {
        Some((discord_id, expiry)) => {
            if expiry > now {
                Some(discord_id)
            } else {
                None
            }
        },
        None => None,
    }
}

} // verus!
