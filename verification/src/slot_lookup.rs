//! Lookup tables from the track database's slot numbering to the game's
//! internal course identifiers.

use vstd::prelude::*;

verus! {

/// Why a slot has no course identifier.
#[derive(Debug, Clone, Copy, PartialEq, Eq, Structural)]
pub enum InvalidCourseId {
    /// The slot kind byte is neither a race track nor a battle arena.
    InvalidSlotKind(u8),
    /// The slot number does not exist for the given kind.
    InvalidCourse { slot_id: u8, is_arena: bool },
}

/// The race-track table: two-digit slot numbers to course identifiers.
pub open spec fn spec_track_id(slot_id: u8) -> Option<u8> {
    match slot_id {
        11 => Some(0x8),
        12 => Some(0x1),
        13 => Some(0x2),
        14 => Some(0x4),
        21 => Some(0x0),
        22 => Some(0x5),
        23 => Some(0x6),
        24 => Some(0x7),
        31 => Some(0x9),
        32 => Some(0xF),
        33 => Some(0xB),
        34 => Some(0x3),
        41 => Some(0xE),
        42 => Some(0xA),
        43 => Some(0xC),
        44 => Some(0xD),
        51 => Some(0x10),
        52 => Some(0x14),
        53 => Some(0x19),
        54 => Some(0x1A),
        61 => Some(0x1B),
        62 => Some(0x1F),
        63 => Some(0x17),
        64 => Some(0x12),
        71 => Some(0x15),
        72 => Some(0x1E),
        73 => Some(0x1D),
        74 => Some(0x11),
        81 => Some(0x18),
        82 => Some(0x16),
        83 => Some(0x13),
        84 => Some(0x1C),
        _ => None,
    }
}

/// The battle-arena table.
pub open spec fn spec_arena_id(slot_id: u8) -> Option<u8> {
    match slot_id {
        11 => Some(0x21),
        12 => Some(0x20),
        13 => Some(0x23),
        14 => Some(0x22),
        15 => Some(0x24),
        21 => Some(0x27),
        22 => Some(0x28),
        23 => Some(0x29),
        24 => Some(0x25),
        25 => Some(0x26),
        _ => None,
    }
}

/// Looks a race-track slot up in the fixed table.
pub fn slot_to_track_id(slot_id: u8) -> (r: Option<u8>)
    ensures
        r == spec_track_id(slot_id),
{
    match slot_id {
        11 => Some(0x8),
        12 => Some(0x1),
        13 => Some(0x2),
        14 => Some(0x4),
        21 => Some(0x0),
        22 => Some(0x5),
        23 => Some(0x6),
        24 => Some(0x7),
        31 => Some(0x9),
        32 => Some(0xF),
        33 => Some(0xB),
        34 => Some(0x3),
        41 => Some(0xE),
        42 => Some(0xA),
        43 => Some(0xC),
        44 => Some(0xD),
        51 => Some(0x10),
        52 => Some(0x14),
        53 => Some(0x19),
        54 => Some(0x1A),
        61 => Some(0x1B),
        62 => Some(0x1F),
        63 => Some(0x17),
        64 => Some(0x12),
        71 => Some(0x15),
        72 => Some(0x1E),
        73 => Some(0x1D),
        74 => Some(0x11),
        81 => Some(0x18),
        82 => Some(0x16),
        83 => Some(0x13),
        84 => Some(0x1C),
        _ => None,
    }
}

/// Looks a battle-arena slot up in the fixed table.
pub fn slot_to_arena_id(slot_id: u8) -> (r: Option<u8>)
    ensures
        r == spec_arena_id(slot_id),
{
    match slot_id {
        11 => Some(0x21),
        12 => Some(0x20),
        13 => Some(0x23),
        14 => Some(0x22),
        15 => Some(0x24),
        21 => Some(0x27),
        22 => Some(0x28),
        23 => Some(0x29),
        24 => Some(0x25),
        25 => Some(0x26),
        _ => None,
    }
}

/// Slot number and kind to course identifier: slot 0 means "no course",
/// kind 1 is a race track, kind 2 a battle arena, and anything else is an
/// unknown slot kind; a slot number missing from the chosen table reports
/// which table was consulted.
pub fn slot_to_course_id(slot_id: u8, kind: u8) -> (r: Result<Option<u8>, InvalidCourseId>)
    ensures
        slot_id == 0 ==> r == Ok::<Option<u8>, InvalidCourseId>(None),
        slot_id != 0 && kind == 1 ==> r == (match spec_track_id(slot_id) {
            Some(c) => Ok::<Option<u8>, InvalidCourseId>(Some(c)),
            None => Err(InvalidCourseId::InvalidCourse { slot_id, is_arena: false }),
        }),
        slot_id != 0 && kind == 2 ==> r == (match spec_arena_id(slot_id) {
            Some(c) => Ok::<Option<u8>, InvalidCourseId>(Some(c)),
            None => Err(InvalidCourseId::InvalidCourse { slot_id, is_arena: true }),
        }),
        slot_id != 0 && kind != 1 && kind != 2 ==> r == Err::<Option<u8>, InvalidCourseId>(
            InvalidCourseId::InvalidSlotKind(kind),
        ),
{
    if slot_id == 0 {
        Ok(None)
    } else if kind == 1 {
        match slot_to_track_id(slot_id) {
            Some(c) => Ok(Some(c)),
            None => Err(InvalidCourseId::InvalidCourse { slot_id, is_arena: false }),
        }
    } else if kind == 2 {
        match slot_to_arena_id(slot_id) {
            Some(c) => Ok(Some(c)),
            None => Err(InvalidCourseId::InvalidCourse { slot_id, is_arena: true }),
        }
    } else {
        Err(InvalidCourseId::InvalidSlotKind(kind))
    }
}

} // verus!
