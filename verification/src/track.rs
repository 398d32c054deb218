//! The track query: its request shape, and the collection of all versions
//! of one named track from the database's entries.

use vstd::prelude::*;

use crate::track_lines::{Track, TrackModel};
use crate::wrappers::Sha1;

verus! {

/// A query for one track by its digest, authenticated by a token.
#[derive(Debug)]
pub struct TrackParams {
    pub query: Sha1,
    pub access_token: String,
}

/// The version/digest pairs of every database entry that shares the given
/// name and course and carries a version, in the order given.
pub open spec fn spec_collect_versions(
    db: Seq<(Sha1, TrackModel)>,
    name: Seq<char>,
    course_id: u32,
) -> Seq<(Seq<char>, Sha1)>
    decreases db.len(),
{
    if db.len() == 0 {
        Seq::empty()
    } else {
        let rest = spec_collect_versions(db.drop_last(), name, course_id);
        let last = db.last();
        if last.1.name == name && last.1.course_id == course_id && last.1.version is Some {
            rest.push((last.1.version->Some_0, last.0))
        } else {
            rest
        }
    }
}

/// Gathers all versions of the named track with the given course from the
/// database entries (entries without a version are passed over).
pub fn collect_versions(db: &Vec<(Sha1, Track)>, name: &String, course_id: u32) -> (r: Vec<
    (String, Sha1),
>)
    ensures
        r@.map_values(|p: (String, Sha1)| (p.0@, p.1)) == spec_collect_versions(
            db@.map_values(|e: (Sha1, Track)| (e.0, e.1@)),
            name@,
            course_id,
        ),
{
    let ghost dbm = db@.map_values(|e: (Sha1, Track)| (e.0, e.1@));
    let mut r: Vec<(String, Sha1)> = Vec::new();
    let mut i: usize = 0;
    while i < db.len()
        invariant
            i <= db@.len(),
            dbm == db@.map_values(|e: (Sha1, Track)| (e.0, e.1@)),
            dbm.len() == db@.len(),
            r@.map_values(|p: (String, Sha1)| (p.0@, p.1)) == spec_collect_versions(
                dbm.subrange(0, i as int),
                name@,
                course_id,
            ),
        decreases db@.len() - i,
    {
        let ghost pre = r@.map_values(|p: (String, Sha1)| (p.0@, p.1));
        proof {
            let prefix2 = dbm.subrange(0, i as int + 1);
            assert(prefix2.drop_last() =~= dbm.subrange(0, i as int));
            assert(prefix2.last() == dbm[i as int]);
            assert(dbm[i as int] == (db@[i as int].0, db@[i as int].1@));
        }
        let entry = &db[i];
        let keep = entry.1.name == *name && entry.1.course_id == course_id;
        if keep {
            match &entry.1.version {
                Some(v) => {
                    r.push((v.clone(), entry.0));
                    proof {
                        assert(r@.map_values(|p: (String, Sha1)| (p.0@, p.1)) =~= pre.push(
                            (db@[i as int].1@.version->Some_0, db@[i as int].0),
                        ));
                    }
                },
                None => {},
            }
        }
        i = i + 1;
    }
    proof {
        assert(dbm.subrange(0, dbm.len() as int) =~= dbm);
    }
    r
}

} // verus!
