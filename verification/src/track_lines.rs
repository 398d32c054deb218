//! One line of the track-database listing: sixteen fields split on `|`,
//! holding the track's digest, its identifiers and slots, and its display
//! name. A line becomes a keyed track entry, is skipped, or fails the whole
//! listing.

use vstd::prelude::*;
use vstd::string::StrSliceExecFns;
use vstd::string::StringExecFns;
use vstd::string::StringSliceAdditionalSpecFns;
use vstd::utf8::encode_utf8;

use crate::slot_lookup::{InvalidCourseId, slot_to_course_id, spec_arena_id, spec_track_id};
use crate::track_database::{parse_u8_str, parse_u32_str, spec_parse_unsigned};
use crate::wrappers::{Sha1, hex_bytes_of, is_hex_digit};

verus! {

/// One track of the database, as the pack server serves it.
#[derive(Debug, PartialEq, Eq)]
pub struct Track {
    pub name: String,
    pub course_id: u32,
    pub music_id: Option<u32>,
    pub version: Option<String>,
    pub wiimm_id: Option<u32>,
}

/// The mathematical content of a track entry.
#[verifier::ext_equal]
pub ghost struct TrackModel {
    pub name: Seq<char>,
    pub course_id: u32,
    pub music_id: Option<u32>,
    pub version: Option<Seq<char>>,
    pub wiimm_id: Option<u32>,
}

impl View for Track {
    type V = TrackModel;

    open spec fn view(&self) -> TrackModel {
        TrackModel {
            name: self.name@,
            course_id: self.course_id,
            music_id: self.music_id,
            version: match self.version {
                Some(v) => Some(v@),
                None => None,
            },
            wiimm_id: self.wiimm_id,
        }
    }
}

/// Why a listing line is rejected (any one rejected line fails the whole
/// listing).
#[derive(Debug, Clone, Copy, PartialEq, Eq, Structural)]
pub enum TrackLineError {
    /// More fields than a listing line may carry.
    TooManyFields,
    /// The first field is not a 40-digit hexadecimal digest.
    BadHash,
    /// Fewer than eleven fields.
    TooShort,
    /// The slot field is not a small number.
    BadSlot,
    /// The slot-kind field is not a small number.
    BadKind,
    /// The slot and kind name no known course.
    BadCourse(InvalidCourseId),
    /// The line carries a course but lacks the version field.
    MissingVersion,
    /// The listing identifier is not a number.
    BadWiimmId,
    /// The music-slot field is neither zero nor a number.
    BadMusicId,
}

/// ASCII whitespace, the blank-line test.
pub open spec fn is_ws_char(c: char) -> bool {
    c == ' ' || c == '\t' || c == '\n' || c == '\r' || c == '\u{b}' || c == '\u{c}'
}

pub open spec fn is_blank(s: Seq<char>) -> bool {
    forall|i: int| 0 <= i < s.len() ==> is_ws_char(#[trigger] s[i])
}

/// The first position of character `c` at or after `from`, or the length.
pub open spec fn find_char(s: Seq<char>, c: char, from: int) -> int
    decreases s.len() - from,
{
    if from < 0 || from >= s.len() {
        s.len() as int
    } else if s[from] == c {
        from
    } else {
        find_char(s, c, from + 1)
    }
}

/// Where field `k` of the `|`-separated line starts.
pub open spec fn field_start(s: Seq<char>, k: int) -> int
    decreases k,
{
    if k <= 0 {
        0
    } else {
        find_char(s, '|', field_start(s, k - 1)) + 1
    }
}

/// Field `k` of the line.
pub open spec fn field(s: Seq<char>, k: int) -> Seq<char> {
    s.subrange(field_start(s, k), find_char(s, '|', field_start(s, k)))
}

pub open spec fn nfields_from(s: Seq<char>, from: int) -> int
    decreases s.len() - from,
{
    if from < 0 || from >= s.len() {
        1
    } else if s[from] == '|' {
        1 + nfields_from(s, from + 1)
    } else {
        nfields_from(s, from + 1)
    }
}

/// How many fields the line splits into (one more than its separators).
pub open spec fn nfields(s: Seq<char>) -> int {
    nfields_from(s, 0)
}

/// The UTF-8 bytes of field `k`.
pub open spec fn field_bytes(s: Seq<char>, k: int) -> Seq<u8> {
    encode_utf8(field(s, k))
}

/// What one listing line yields: nothing for a blank line or an unassigned
/// slot, a digest/track pair for a live one, or the first failure, in the
/// order the fields are read: the field count, the digest, the line length,
/// the slot, its kind, the course lookup, the version's presence, the
/// listing identifier, and the music slot.
pub open spec fn spec_parse_track_line(s: Seq<char>) -> Result<
    Option<(Seq<u8>, TrackModel)>,
    TrackLineError,
> {
    if is_blank(s) {
        Ok(None)
    } else if nfields(s) > 16 {
        Err(TrackLineError::TooManyFields)
    } else if !(field_bytes(s, 0).len() == 40 && (forall|i: int|
        0 <= i < 40 ==> is_hex_digit(#[trigger] field_bytes(s, 0)[i]))) {
        Err(TrackLineError::BadHash)
    } else if nfields(s) <= 10 {
        Err(TrackLineError::TooShort)
    } else {
        match spec_parse_unsigned(field_bytes(s, 5), 255) {
            None => Err(TrackLineError::BadSlot),
            Some(slot) => match spec_parse_unsigned(field_bytes(s, 4), 255) {
                None => Err(TrackLineError::BadKind),
                Some(kind) => spec_line_with_course(s, slot, kind),
            },
        }
    }
}

pub open spec fn spec_line_with_course(s: Seq<char>, slot: int, kind: int) -> Result<
    Option<(Seq<u8>, TrackModel)>,
    TrackLineError,
> {
    if slot == 0 {
        Ok(None)
    } else if kind == 1 {
        match spec_track_id(slot as u8) {
            Some(c) => spec_line_with_fields(s, c),
            None => Err(
                TrackLineError::BadCourse(
                    InvalidCourseId::InvalidCourse { slot_id: slot as u8, is_arena: false },
                ),
            ),
        }
    } else if kind == 2 {
        match spec_arena_id(slot as u8) {
            Some(c) => spec_line_with_fields(s, c),
            None => Err(
                TrackLineError::BadCourse(
                    InvalidCourseId::InvalidCourse { slot_id: slot as u8, is_arena: true },
                ),
            ),
        }
    } else {
        Err(TrackLineError::BadCourse(InvalidCourseId::InvalidSlotKind(kind as u8)))
    }
}

pub open spec fn spec_line_with_fields(s: Seq<char>, course: u8) -> Result<
    Option<(Seq<u8>, TrackModel)>,
    TrackLineError,
> {
    if nfields(s) < 13 {
        Err(TrackLineError::MissingVersion)
    } else {
        match spec_parse_unsigned(field_bytes(s, 1), u32::MAX as int) {
            None => Err(TrackLineError::BadWiimmId),
            Some(wiimm) => {
                let music = if field(s, 6) == seq!['0'] {
                    Ok(None)
                } else {
                    match spec_parse_unsigned(field_bytes(s, 6), u32::MAX as int) {
                        None => Err(TrackLineError::BadMusicId),
                        Some(m) => Ok(Some(m as u32)),
                    }
                };
                match music {
                    Err(e) => Err(e),
                    Ok(music_id) => {
                        let name = if field(s, 9).len() == 0 {
                            field(s, 10)
                        } else {
                            field(s, 9) + seq![' '] + field(s, 10)
                        };
                        Ok(
                            Some(
                                (
                                    hex_bytes_of(field_bytes(s, 0)),
                                    TrackModel {
                                        name,
                                        course_id: course as u32,
                                        music_id,
                                        version: Some(field(s, 12)),
                                        wiimm_id: Some(wiimm as u32),
                                    },
                                ),
                            ),
                        )
                    },
                }
            },
        }
    }
}

fn line_is_blank(line: &str) -> (r: bool)
    ensures
        r == is_blank(line@),
{
    let n = line.unicode_len();
    let mut i: usize = 0;
    while i < n
        invariant
            i <= n,
            n == line@.len(),
            forall|k: int| 0 <= k < i ==> is_ws_char(#[trigger] line@[k]),
        decreases n - i,
    {
        let c = line.get_char(i);
        if !(c == ' ' || c == '\t' || c == '\n' || c == '\r' || c == '\u{b}' || c == '\u{c}') {
            proof {
                assert(!is_ws_char(line@[i as int]));
            }
            return false;
        }
        i = i + 1;
    }
    true
}

/// Splits the line on `|` into its fields.
fn split_fields(line: &str) -> (r: Vec<String>)
    ensures
        r@.len() == nfields(line@),
        r@.len() >= 1,
        forall|k: int| 0 <= k < r@.len() ==> (#[trigger] r@[k])@ == field(line@, k),
{
    let n = line.unicode_len();
    let mut fields: Vec<String> = Vec::new();
    let mut pos: usize = 0;
    loop
        invariant_except_break
            pos <= n,
            n == line@.len(),
            field_start(line@, fields@.len() as int) == pos,
            nfields_from(line@, pos as int) == nfields(line@) - fields@.len(),
            forall|k: int| 0 <= k < fields@.len() ==> (#[trigger] fields@[k])@ == field(line@, k),
        ensures
            fields@.len() == nfields(line@),
            fields@.len() >= 1,
            forall|k: int| 0 <= k < fields@.len() ==> (#[trigger] fields@[k])@ == field(line@, k),
        decreases n - pos + 1,
    {
        // find the next separator
        let mut e: usize = pos;
        while e < n && line.get_char(e) != '|'
            invariant
                pos <= e <= n,
                n == line@.len(),
                find_char(line@, '|', pos as int) == find_char(line@, '|', e as int),
                nfields_from(line@, pos as int) == nfields_from(line@, e as int),
            decreases n - e,
        {
            e = e + 1;
        }
        proof {
            assert(find_char(line@, '|', pos as int) == e);
        }
        let ghost count = fields@.len() as int;
        let sub = line.substring_char(pos, e);
        fields.push(sub.to_owned());
        proof {
            assert(fields@[count]@ == field(line@, count));
            assert(field_start(line@, count + 1) == e + 1);
        }
        if e == n {
            break ;
        }
        pos = e + 1;
    }
    fields
}

/// Reads one line of the track-database listing: a blank line and an
/// unassigned slot yield nothing, a live line yields the track under its
/// digest, and a malformed line reports the first fault found.
pub fn parse_track_line(line: &str) -> (r: Result<Option<(Sha1, Track)>, TrackLineError>)
    ensures
        ({
            let spec = spec_parse_track_line(line@);
            match r {
                Ok(None) => spec == Ok::<Option<(Seq<u8>, TrackModel)>, TrackLineError>(None),
                Ok(Some((hash, track))) => spec matches Ok(Some(p)) && p.0 == hash@ && p.1
                    =~~= track@,
                Err(e) => spec == Err::<Option<(Seq<u8>, TrackModel)>, TrackLineError>(e),
            }
        }),
{
    if line_is_blank(line) {
        return Ok(None);
    }
    let fields = split_fields(line);
    if fields.len() > 16 {
        return Err(TrackLineError::TooManyFields);
    }
    let hash = match Sha1::from_str(fields[0].as_str()) {
        Some(h) => h,
        None => {
            return Err(TrackLineError::BadHash);
        },
    };
    if fields.len() <= 10 {
        return Err(TrackLineError::TooShort);
    }
    let slot = match parse_u8_str(fields[5].as_str()) {
        Some(v) => v,
        None => {
            return Err(TrackLineError::BadSlot);
        },
    };
    let kind = match parse_u8_str(fields[4].as_str()) {
        Some(v) => v,
        None => {
            return Err(TrackLineError::BadKind);
        },
    };
    let course = match slot_to_course_id(slot, kind) {
        Ok(None) => {
            return Ok(None);
        },
        Ok(Some(c)) => c,
        Err(e) => {
            return Err(TrackLineError::BadCourse(e));
        },
    };
    if fields.len() < 13 {
        return Err(TrackLineError::MissingVersion);
    }
    let wiimm = match parse_u32_str(fields[1].as_str()) {
        Some(v) => v,
        None => {
            return Err(TrackLineError::BadWiimmId);
        },
    };
    let f6 = fields[6].as_str();
    let is_zero = f6.unicode_len() == 1 && f6.get_char(0) == '0';
    proof {
        if is_zero {
            assert(field(line@, 6) =~= seq!['0']);
        }
    }
    let music_id = if is_zero {
        None
    } else {
        match parse_u32_str(f6) {
            Some(m) => Some(m),
            None => {
                return Err(TrackLineError::BadMusicId);
            },
        }
    };
    let mut name = String::new();
    name.append(fields[9].as_str());
    if !fields[9].as_str().is_empty() {
        let space = " ";
        proof {
            reveal_strlit(" ");
        }
        name.append(space);
    }
    name.append(fields[10].as_str());
    let track = Track {
        name,
        course_id: course as u32,
        music_id,
        version: Some(fields[12].clone()),
        wiimm_id: Some(wiimm),
    };
    Ok(Some((hash, track)))
}


/// The first entry of the database keyed by the given digest, if any.
pub open spec fn find_hash_from(db: Seq<(Seq<u8>, TrackModel)>, h: Seq<u8>, k: int) -> Option<int>
    decreases db.len() - k,
{
    if !(0 <= k < db.len()) {
        None
    } else if db[k].0 == h {
        Some(k)
    } else {
        find_hash_from(db, h, k + 1)
    }
}

/// One parsed line folded into the database: a digest already present has
/// its track overwritten, a new digest is appended.
pub open spec fn spec_upsert(db: Seq<(Seq<u8>, TrackModel)>, h: Seq<u8>, t: TrackModel) -> Seq<
    (Seq<u8>, TrackModel),
> {
    match find_hash_from(db, h, 0) {
        Some(j) => db.update(j, (h, t)),
        None => db.push((h, t)),
    }
}

/// The whole listing folded line by line: blank and unassigned lines
/// contribute nothing, a live line upserts its track under its digest, and
/// the first malformed line fails the whole build.
pub open spec fn spec_build_db(
    lines: Seq<Seq<char>>,
    i: int,
    db: Seq<(Seq<u8>, TrackModel)>,
) -> Result<Seq<(Seq<u8>, TrackModel)>, TrackLineError>
    decreases lines.len() - i,
{
    if i < 0 || i >= lines.len() {
        Ok(db)
    } else {
        match spec_parse_track_line(lines[i]) {
            Err(e) => Err(e),
            Ok(None) => spec_build_db(lines, i + 1, db),
            Ok(Some(p)) => spec_build_db(lines, i + 1, spec_upsert(db, p.0, p.1)),
        }
    }
}

/// The contents of the built database.
pub open spec fn db_view(db: Seq<(Sha1, Track)>) -> Seq<(Seq<u8>, TrackModel)> {
    db.map_values(|e: (Sha1, Track)| (e.0@, e.1@))
}

/// Builds the track database from the listing's lines: each live line's
/// track is filed under its digest, a later line with the same digest
/// overwriting an earlier one, and any malformed line fails the build.
pub fn build_track_database(lines: &Vec<String>) -> (r: Result<
    Vec<(Sha1, Track)>,
    TrackLineError,
>)
    ensures
        ({
            let spec = spec_build_db(
                lines@.map_values(|l: String| l@),
                0,
                Seq::<(Seq<u8>, TrackModel)>::empty(),
            );
            match r {
                Ok(db) => spec matches Ok(m) && db_view(db@) =~~= m,
                Err(e) => spec == Err::<Seq<(Seq<u8>, TrackModel)>, TrackLineError>(e),
            }
        }),
{
    let ghost lv = lines@.map_values(|l: String| l@);
    let mut out: Vec<(Sha1, Track)> = Vec::new();
    proof {
        assert(db_view(out@) =~~= Seq::<(Seq<u8>, TrackModel)>::empty());
    }
    let mut i: usize = 0;
    while i < lines.len()
        invariant
            i <= lines@.len(),
            lv == lines@.map_values(|l: String| l@),
            lv.len() == lines@.len(),
            spec_build_db(lv, 0, Seq::<(Seq<u8>, TrackModel)>::empty()) == spec_build_db(
                lv,
                i as int,
                db_view(out@),
            ),
        decreases lines@.len() - i,
    {
        let ghost pre_dbv = db_view(out@);
        proof {
            assert(lv[i as int] == lines@[i as int]@);
        }
        match parse_track_line(lines[i].as_str()) {
            Err(e) => {
                proof {
                    assert(spec_build_db(lv, i as int, pre_dbv) == Err::<
                        Seq<(Seq<u8>, TrackModel)>,
                        TrackLineError,
                    >(e));
                }
                return Err(e);
            },
            Ok(None) => {},
            Ok(Some((hash, track))) => {
                let ghost hb = hash@;
                let ghost tm = track@;
                let ghost p = spec_parse_track_line(lv[i as int])->Ok_0->Some_0;
                proof {
                    assert(p.0 == hb);
                    assert(p.1 =~~= tm);
                }
                // find an existing entry with this digest
                let n = out.len();
                let mut k: usize = 0;
                let mut found: Option<usize> = None;
                loop
                    invariant_except_break
                        k <= n,
                        n == out@.len(),
                        pre_dbv == db_view(out@),
                        hb == hash@,
                        found is None,
                        find_hash_from(pre_dbv, hb, 0) == find_hash_from(pre_dbv, hb, k as int),
                    ensures
                        n == out@.len(),
                        pre_dbv == db_view(out@),
                        found matches Some(j) ==> j < n && find_hash_from(pre_dbv, hb, 0) == Some(
                            j as int,
                        ),
                        found is None ==> find_hash_from(pre_dbv, hb, 0) is None,
                    decreases n - k,
                {
                    if k >= n {
                        break ;
                    }
                    let same = out[k].0.equals(&hash);
                    proof {
                        assert(pre_dbv[k as int] == (out@[k as int].0@, out@[k as int].1@));
                        assert(same == (pre_dbv[k as int].0 == hb));
                    }
                    if same {
                        found = Some(k);
                        break ;
                    }
                    k = k + 1;
                }
                let ghost pre_vec = out@;
                match found {
                    Some(j) => {
                        out[j] = (hash, track);
                        proof {
                            assert(db_view(out@) =~~= spec_upsert(pre_dbv, hb, tm)) by {
                                assert forall|q: int| 0 <= q < out@.len() implies db_view(out@)[q]
                                    =~~= spec_upsert(pre_dbv, hb, tm)[q] by {
                                    assert(db_view(out@)[q] == (out@[q].0@, out@[q].1@));
                                    if q != j {
                                        assert(out@[q] == pre_vec[q]);
                                        assert(pre_dbv[q] == (pre_vec[q].0@, pre_vec[q].1@));
                                    }
                                }
                            }
                        }
                    },
                    None => {
                        out.push((hash, track));
                        proof {
                            assert(db_view(out@) =~~= spec_upsert(pre_dbv, hb, tm)) by {
                                assert forall|q: int| 0 <= q < out@.len() implies db_view(out@)[q]
                                    =~~= spec_upsert(pre_dbv, hb, tm)[q] by {
                                    assert(db_view(out@)[q] == (out@[q].0@, out@[q].1@));
                                    if q < pre_vec.len() {
                                        assert(out@[q] == pre_vec[q]);
                                        assert(pre_dbv[q] == (pre_vec[q].0@, pre_vec[q].1@));
                                    }
                                }
                            }
                        }
                    },
                }
                proof {
                    assert(spec_upsert(pre_dbv, p.0, p.1) == spec_upsert(pre_dbv, hb, tm));
                    assert(spec_build_db(lv, i as int, pre_dbv) == spec_build_db(
                        lv,
                        i as int + 1,
                        db_view(out@),
                    ));
                }
            },
        }
        i = i + 1;
    }
    Ok(out)
}

} // verus!
