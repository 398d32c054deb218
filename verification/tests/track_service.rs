use mkw_spc::client_id::ClientId;
use mkw_spc::ids::{GameserverID, RoomId};
use mkw_spc::pack_list::TrackType;
use mkw_spc::search::{search_tracks, SearchEntry};
use mkw_spc::slot_lookup::{slot_to_arena_id, slot_to_course_id, slot_to_track_id, InvalidCourseId};
use mkw_spc::submit::{check_submit_params, filter_tracks, SubmitParams, SubmitRejection};
use mkw_spc::submit_track::{classify_track_file, TrackFileError, TrackFileKind};
use mkw_spc::track_database::{extract_version, handle_pre_version, is_battle};
use mkw_spc::wrappers::Sha1;

fn sha(byte: u8) -> Sha1 {
    Sha1([byte; 20])
}

#[test]
fn battle_split_at_0x20() {
    assert!(!is_battle(0x1f));
    assert!(is_battle(0x20));
    assert!(is_battle(0x29));
    assert!(!is_battle(-5));
}

#[test]
fn slot_lookup_tables() {
    assert_eq!(slot_to_track_id(11), Some(0x8));
    assert_eq!(slot_to_track_id(84), Some(0x1C));
    assert_eq!(slot_to_track_id(85), None);
    assert_eq!(slot_to_arena_id(11), Some(0x21));
    assert_eq!(slot_to_arena_id(25), Some(0x26));
    assert_eq!(slot_to_arena_id(31), None);
}

#[test]
fn slot_to_course_id_dispatch() {
    assert_eq!(slot_to_course_id(0, 7), Ok(None));
    assert_eq!(slot_to_course_id(21, 1), Ok(Some(0x0)));
    assert_eq!(slot_to_course_id(21, 2), Ok(Some(0x27)));
    assert!(matches!(
        slot_to_course_id(99, 1),
        Err(InvalidCourseId::InvalidCourse { slot_id: 99, is_arena: false })
    ));
    assert!(matches!(
        slot_to_course_id(99, 2),
        Err(InvalidCourseId::InvalidCourse { slot_id: 99, is_arena: true })
    ));
    assert!(matches!(slot_to_course_id(11, 3), Err(InvalidCourseId::InvalidSlotKind(3))));
}

#[test]
fn version_ordering_keys() {
    assert_eq!(extract_version("pre"), -3);
    assert_eq!(extract_version("pre2"), -1);
    assert_eq!(extract_version("alpha"), -2);
    assert_eq!(extract_version("beta3"), 2);
    assert_eq!(extract_version("v1.2"), 12);
    assert_eq!(extract_version("V1.1"), 11);
    assert_eq!(extract_version("2.0.1"), 21);
    assert_eq!(extract_version("1.30"), 40);
    assert_eq!(extract_version("v1.x"), 10);
    assert_eq!(extract_version("10"), 100);
    assert_eq!(extract_version("-1"), -10);
    assert_eq!(extract_version("200"), i16::MAX);
    assert_eq!(extract_version("garbage"), i16::MAX);
    assert_eq!(extract_version(""), i16::MAX);
}

#[test]
fn pre_version_stripping() {
    assert_eq!(handle_pre_version("alpha5", "alpha", -2), Some(3));
    assert_eq!(handle_pre_version("alpha", "alpha", -2), Some(-2));
    assert_eq!(handle_pre_version("beta", "alpha", -2), None);
    assert_eq!(handle_pre_version("prefix", "pre", -3), Some(-3));
}

#[test]
fn sha1_hash_known_vector() {
    let digest = Sha1::hash(b"");
    assert_eq!(digest.to_hex(), "da39a3ee5e6b4b0d3255bfef95601890afd80709");
    let digest = Sha1::hash(b"abc");
    assert_eq!(digest.to_hex(), "a9993e364706816aba3e25717850c26c9cd0d89d");
}

#[test]
fn sha1_hex_round_trip() {
    let text = "53a004bd5d2fd3242437edc5c97cf1b424be4b80";
    let digest = Sha1::from_str(text).unwrap();
    assert_eq!(digest.to_hex(), text);
    // either case decodes, spelling out lowercase
    let upper = Sha1::from_str("53A004BD5D2FD3242437EDC5C97CF1B424BE4B80").unwrap();
    assert_eq!(upper, digest);
    // the crate the wrapper relies on agrees byte for byte
    assert_eq!(digest.to_hex(), hex::encode(digest.into_inner()));
}

#[test]
fn sha1_rejects_bad_spellings() {
    assert!(Sha1::from_str("53a004").is_none());
    assert!(Sha1::from_str("zza004bd5d2fd3242437edc5c97cf1b424be4b80").is_none());
    assert!(Sha1::from_str("53a004bd5d2fd3242437edc5c97cf1b424be4b8000").is_none());
}

#[test]
fn sha1_conversions() {
    let bytes = [7u8; 20];
    let digest = Sha1::from(bytes);
    assert_eq!(digest.into_inner(), bytes);
}

#[test]
fn client_id_from_login() {
    assert_eq!(
        ClientId::new(Some((12, 34)), 99),
        ClientId::LoggedIn { device: 12, licence: 34 }
    );
    assert_eq!(ClientId::new(None, 99), ClientId::Guest { id: 99 });
}

#[test]
fn id_wrappers_carry_their_numbers() {
    assert_eq!(RoomId(3).0, 3);
    assert_eq!(GameserverID(7).0, 7);
}

#[test]
fn filter_tracks_by_type() {
    let tracks = vec![
        (TrackType::Race, sha(1)),
        (TrackType::Coin, sha(2)),
        (TrackType::Race, sha(3)),
        (TrackType::Balloon, sha(4)),
    ];
    assert_eq!(filter_tracks(&tracks, TrackType::Race), vec![sha(1), sha(3)]);
    assert_eq!(filter_tracks(&tracks, TrackType::Coin), vec![sha(2)]);
    assert_eq!(filter_tracks(&tracks, TrackType::Balloon), vec![sha(4)]);
}

fn submit_params(name: &str, description: &str, author_names: &str) -> SubmitParams {
    SubmitParams {
        name: name.to_string(),
        description: description.to_string(),
        author_names: author_names.to_string(),
        tracks: Vec::new(),
        access_token: String::new(),
    }
}

#[test]
fn submit_length_rules() {
    assert_eq!(check_submit_params(&submit_params("ok", "fine", "me")), Ok(()));
    let long64 = "x".repeat(64);
    let long128 = "x".repeat(128);
    assert_eq!(
        check_submit_params(&submit_params(&long64, "fine", "me")),
        Err(SubmitRejection::NameTooLong)
    );
    assert_eq!(
        check_submit_params(&submit_params("ok", &long128, "me")),
        Err(SubmitRejection::DescriptionTooLong)
    );
    assert_eq!(
        check_submit_params(&submit_params("ok", "fine", &long64)),
        Err(SubmitRejection::AuthorNamesTooLong)
    );
}

#[test]
fn track_file_classification() {
    assert_eq!(classify_track_file(b"WBZa"), Err(TrackFileError::TooShort));
    let mut wbz = vec![0u8; 0x20];
    wbz[..8].copy_from_slice(b"WBZaWU8a");
    assert_eq!(classify_track_file(&wbz), Ok(TrackFileKind::Wbz));
    let mut wu8 = vec![0u8; 0x20];
    wu8[..4].copy_from_slice(b"WU8a");
    assert_eq!(classify_track_file(&wu8), Ok(TrackFileKind::Wu8));
    let mut junk = vec![0u8; 0x20];
    junk[..8].copy_from_slice(b"NOTMAGIC");
    assert_eq!(
        classify_track_file(&junk),
        Err(TrackFileError::BadMagic(*b"NOTMAGIC"))
    );
}

fn entry(name: &str, version: &str, hash: Sha1, is_battle: bool) -> SearchEntry {
    SearchEntry {
        hash,
        is_battle,
        name: name.to_string(),
        version: version.to_string(),
    }
}

#[test]
fn search_short_query_answers_nothing() {
    let entries = vec![entry("aqua", "v1.0", sha(1), false)];
    let r = search_tracks(entries, "aq");
    assert!(r.tracks.is_empty());
}

#[test]
fn search_groups_ranks_and_sorts_versions() {
    let entries = vec![
        entry("aquarium", "v1.0", sha(9), true),
        entry("aqua", "v2.0", sha(2), false),
        entry("aqua", "v1.0", sha(1), false),
        entry("aqua", "v1.0", sha(1), false), // duplicate collapses
        entry("beach", "v1.0", sha(5), false),
    ];
    let r = search_tracks(entries, "aqua");
    assert_eq!(r.tracks.len(), 2);
    // "aqua" is nearer to the query than "aquarium"
    assert_eq!(r.tracks[0].name, "aqua");
    assert!(!r.tracks[0].is_battle);
    let versions: Vec<&str> = r.tracks[0].versions.iter().map(|(v, _)| v.as_str()).collect();
    assert_eq!(versions, vec!["v1.0", "v2.0"]);
    assert_eq!(r.tracks[0].versions[0].1, sha(1));
    assert_eq!(r.tracks[0].versions[1].1, sha(2));
    assert_eq!(r.tracks[1].name, "aquarium");
    assert!(r.tracks[1].is_battle);
}

use mkw_spc::track_lines::{parse_track_line, TrackLineError};
use mkw_spc::slot_lookup::InvalidCourseId as CourseErr;

const HASH: &str = "6dea567e6b20e8766215613b65885a652c9de88d";

#[test]
fn track_line_blank_and_unassigned_are_skipped() {
    assert!(matches!(parse_track_line(""), Ok(None)));
    assert!(matches!(parse_track_line("   \t  \r\n"), Ok(None)));
    // slot 0 means the track has no course and the line is skipped
    let line = format!("{HASH}|1234|x|x|1|0|0|x|x|Prefix|Name|x|v1.0|x|x|x");
    assert!(matches!(parse_track_line(&line), Ok(None)));
}

#[test]
fn track_line_full_parse() {
    let line = format!("{HASH}|1234|x|x|1|11|0|x|x|Prefix|Name|x|v1.0|x|x|x");
    let (hash, track) = parse_track_line(&line).unwrap().unwrap();
    assert_eq!(hash.to_hex(), HASH);
    assert_eq!(track.name, "Prefix Name");
    assert_eq!(track.course_id, 0x8);
    assert_eq!(track.music_id, None);
    assert_eq!(track.version.as_deref(), Some("v1.0"));
    assert_eq!(track.wiimm_id, Some(1234));
}

#[test]
fn track_line_empty_prefix_and_music() {
    let line = format!("{HASH}|7|x|x|2|25|42|x|x||Solo|x|beta2|x|x|x");
    let (_, track) = parse_track_line(&line).unwrap().unwrap();
    assert_eq!(track.name, "Solo");
    assert_eq!(track.course_id, 0x26);
    assert_eq!(track.music_id, Some(42));
    assert_eq!(track.version.as_deref(), Some("beta2"));
}

#[test]
fn track_line_failures_in_field_order() {
    let many = format!("{HASH}|{}", "x|".repeat(16));
    assert_eq!(parse_track_line(&many), Err(TrackLineError::TooManyFields));
    assert_eq!(
        parse_track_line("nothex|1|2|3|4|5|6|7|8|9|10"),
        Err(TrackLineError::BadHash)
    );
    assert_eq!(
        parse_track_line(&format!("{HASH}|1|2")),
        Err(TrackLineError::TooShort)
    );
    assert_eq!(
        parse_track_line(&format!("{HASH}|1|x|x|1|bogus|0|x|x|a|b")),
        Err(TrackLineError::BadSlot)
    );
    assert_eq!(
        parse_track_line(&format!("{HASH}|1|x|x|9|11|0|x|x|a|b")),
        Err(TrackLineError::BadCourse(CourseErr::InvalidSlotKind(9)))
    );
    assert_eq!(
        parse_track_line(&format!("{HASH}|1|x|x|1|99|0|x|x|a|b")),
        Err(TrackLineError::BadCourse(CourseErr::InvalidCourse {
            slot_id: 99,
            is_arena: false
        }))
    );
    assert_eq!(
        parse_track_line(&format!("{HASH}|1|x|x|1|11|0|x|x|a|b")),
        Err(TrackLineError::MissingVersion)
    );
    assert_eq!(
        parse_track_line(&format!("{HASH}|w|x|x|1|11|0|x|x|a|b|x|v1|x|x|x")),
        Err(TrackLineError::BadWiimmId)
    );
    assert_eq!(
        parse_track_line(&format!("{HASH}|1|x|x|1|11|abc|x|x|a|b|x|v1|x|x|x")),
        Err(TrackLineError::BadMusicId)
    );
}

use mkw_spc::track::collect_versions;
use mkw_spc::track_lines::Track;

fn db_track(name: &str, course_id: u32, version: Option<&str>) -> Track {
    Track {
        name: name.to_string(),
        course_id,
        music_id: None,
        version: version.map(str::to_string),
        wiimm_id: None,
    }
}

#[test]
fn collect_versions_filters_by_name_and_course() {
    let db = vec![
        (sha(1), db_track("aqua", 8, Some("v1.0"))),
        (sha(2), db_track("aqua", 9, Some("v2.0"))), // other course
        (sha(3), db_track("beach", 8, Some("v1.0"))), // other name
        (sha(4), db_track("aqua", 8, Some("v3.0"))),
        (sha(5), db_track("aqua", 8, None)), // no version recorded
    ];
    let versions = collect_versions(&db, &"aqua".to_string(), 8);
    let got: Vec<(&str, Sha1)> = versions.iter().map(|(v, h)| (v.as_str(), *h)).collect();
    assert_eq!(got, vec![("v1.0", sha(1)), ("v3.0", sha(4))]);
}

use mkw_spc::track_database::select_download;

#[test]
fn select_download_picks_first_matching_capture() {
    let captures = vec![
        ("@cookieA".to_string(), 100u32),
        ("@cookieB".to_string(), 6165),
        ("@cookieC".to_string(), 6165),
    ];
    assert_eq!(select_download(&captures, 6165), Some("@cookieB".to_string()));
    assert_eq!(select_download(&captures, 7), None);
    assert_eq!(select_download(&Vec::new(), 6165), None);
}

use mkw_spc::shared::authorize_user;

#[test]
fn access_gate_requires_fresh_record() {
    assert_eq!(authorize_user(None, 1_000), None);
    assert_eq!(authorize_user(Some((42, 2_000)), 1_000), Some(42));
    assert_eq!(authorize_user(Some((42, 1_000)), 1_000), None);
    assert_eq!(authorize_user(Some((42, 500)), 1_000), None);
}

use mkw_spc::track_lines::build_track_database;

#[test]
fn build_track_database_upserts_by_digest() {
    let other = "7e293e74991b0bf33e2ffa420b2ebe735ed23c38";
    let lines = vec![
        String::new(),
        format!("{HASH}|1|x|x|1|11|0|x|x||First|x|v1.0|x|x|x"),
        format!("{HASH}|2|x|x|1|12|0|x|x||Again|x|v2.0|x|x|x"), // same digest: overwritten
        format!("{other}|3|x|x|1|0|0|x|x||Unassigned|x|v1.0|x|x|x"), // slot 0: skipped
        format!("{other}|4|x|x|2|25|0|x|x||Arena|x|v1.0|x|x|x"),
    ];
    let db = build_track_database(&lines).unwrap();
    assert_eq!(db.len(), 2);
    assert_eq!(db[0].0.to_hex(), HASH);
    assert_eq!(db[0].1.name, "Again");
    assert_eq!(db[0].1.course_id, 0x1);
    assert_eq!(db[1].0.to_hex(), other);
    assert_eq!(db[1].1.name, "Arena");
    assert_eq!(db[1].1.course_id, 0x26);
}

#[test]
fn build_track_database_fails_on_a_bad_line() {
    let lines = vec![
        format!("{HASH}|1|x|x|1|11|0|x|x||First|x|v1.0|x|x|x"),
        "nothex|1|2|3|4|5|6|7|8|9|10".to_string(),
    ];
    assert_eq!(build_track_database(&lines), Err(TrackLineError::BadHash));
}
