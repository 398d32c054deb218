//! The pure side of a track upload: recognizing the container format of the
//! uploaded bytes, and the response shape. The decoding of the recognized
//! container is done outside the library by its caller.

use vstd::prelude::*;

use crate::wrappers::Sha1;

verus! {

/// What the submit-track endpoint answers: the digest under which the track
/// is now known, and whether it was new.
#[derive(Debug)]
pub struct TrackResponse {
    pub id: Sha1,
    pub is_new: bool,
}

/// The two accepted track containers: a compressed archive, or the bare
/// encoded track.
#[derive(Debug, Clone, Copy, PartialEq, Eq, Structural)]
pub enum TrackFileKind {
    Wbz,
    Wu8,
}

/// Why an upload is rejected before decoding.
#[derive(Debug, Clone, Copy, PartialEq, Eq)]
pub enum TrackFileError {
    /// The file is too short to hold any valid track.
    TooShort,
    /// Neither container's magic bytes open the file; the eight bytes found
    /// are carried for the error report.
    BadMagic([u8; 8]),
}

/// The magic bytes opening a compressed archive.
pub open spec fn wbz_magic() -> Seq<u8> {
    seq![0x57u8, 0x42u8, 0x5au8, 0x61u8, 0x57u8, 0x55u8, 0x38u8, 0x61u8]
}

/// The magic bytes opening a bare encoded track.
pub open spec fn wu8_magic() -> Seq<u8> {
    seq![0x57u8, 0x55u8, 0x38u8, 0x61u8]
}

/// Recognizes the container of an uploaded track file: a file shorter than
/// 0x20 bytes is rejected outright; otherwise the first eight bytes decide,
/// and an unknown magic is reported with those bytes.
pub fn classify_track_file(track: &[u8]) -> (r: Result<TrackFileKind, TrackFileError>)
    ensures
        track@.len() < 0x20 ==> r == Err::<TrackFileKind, TrackFileError>(TrackFileError::TooShort),
        track@.len() >= 0x20 && track@.subrange(0, 8) == wbz_magic() ==> r == Ok::<
            TrackFileKind,
            TrackFileError,
        >(TrackFileKind::Wbz),
        track@.len() >= 0x20 && track@.subrange(0, 8) != wbz_magic() && track@.subrange(0, 4)
            == wu8_magic() ==> r == Ok::<TrackFileKind, TrackFileError>(TrackFileKind::Wu8),
        track@.len() >= 0x20 && track@.subrange(0, 8) != wbz_magic() && track@.subrange(0, 4)
            != wu8_magic() ==> (r matches Err(e) && e matches TrackFileError::BadMagic(m) && m@
            == track@.subrange(0, 8)),
{
    if track.len() < 0x20 {
        return Err(TrackFileError::TooShort);
    }
    let m0 = track[0];
    let m1 = track[1];
    let m2 = track[2];
    let m3 = track[3];
    let m4 = track[4];
    let m5 = track[5];
    let m6 = track[6];
    let m7 = track[7];
    let ghost head8 = track@.subrange(0, 8);
    let ghost head4 = track@.subrange(0, 4);
    let wbz = m0 == 0x57 && m1 == 0x42 && m2 == 0x5a && m3 == 0x61 && m4 == 0x57 && m5 == 0x55
        && m6 == 0x38 && m7 == 0x61;
    let wu8 = m0 == 0x57 && m1 == 0x55 && m2 == 0x38 && m3 == 0x61;
    proof {
        assert(wbz == (head8 =~= wbz_magic()));
        assert(wu8 == (head4 =~= wu8_magic()));
    }
    if wbz {
        Ok(TrackFileKind::Wbz)
    } else if wu8 {
        Ok(TrackFileKind::Wu8)
    } else {
        let magic = [m0, m1, m2, m3, m4, m5, m6, m7];
        proof {
            assert(magic@ =~= track@.subrange(0, 8));
        }
        Err(TrackFileError::BadMagic(magic))
    }
}

} // verus!
