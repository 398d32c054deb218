//! Readers for the two container formats: the fixed-layout main image and
//! the relocatable module with its section table. Both turn a raw byte
//! buffer into a list of typed, address-tagged sections of normalized words.

use vstd::prelude::*;

use crate::section::{Section, SectionKind, SpecSection, sections_view};
use crate::words::{Error, be_word, read_u32, spec_normalize_branch, spec_normalize_full,
    normalize_branch, normalize_full};

verus! {

/// The `n` big-endian words stored at byte offset `off`.
pub open spec fn decoded_words(d: Seq<u8>, off: int, n: int) -> Seq<u32> {
    Seq::new(n as nat, |j: int| be_word(d, off + 4 * j))
}

/// 32-bit addition that wraps around, as a module's load address does when a
/// large base is added to a section offset.
pub open spec fn wrap_add32(a: u32, b: u32) -> u32 {
    if a + b > u32::MAX {
        (a + b - 0x100000000) as u32
    } else {
        (a + b) as u32
    }
}

/// The outcome of main-image slot `i`: a section, nothing (an empty slot),
/// or a format failure. A slot's file offset lives at byte `i*4`, its load
/// address at `0x48 + i*4`, and its byte size at `0x90 + i*4`; the first 7
/// slots hold code, the rest data.
pub open spec fn dol_slot(d: Seq<u8>, i: int) -> Result<Option<SpecSection>, Error> {
    if d.len() < 0x90 + i * 4 + 4 {
        Err(Error::Oob)
    } else {
        let off = be_word(d, i * 4) as int;
        let addr = be_word(d, 0x48 + i * 4);
        let size = be_word(d, 0x90 + i * 4) as int;
        if off == 0 || addr == 0 || size == 0 {
            Ok(None)
        } else if off % 4 != 0 || (addr as int) % 4 != 0 || size % 4 != 0 {
            Err(Error::Invalid)
        } else if off + size > d.len() {
            Err(Error::Oob)
        } else if i < 7 {
            Ok(
                Some(
                    SpecSection {
                        address: addr,
                        kind: SectionKind::Text,
                        vals: decoded_words(d, off, size / 4).map_values(
                            |w: u32| spec_normalize_full(w),
                        ),
                    },
                ),
            )
        } else {
            Ok(
                Some(
                    SpecSection {
                        address: addr,
                        kind: SectionKind::Data,
                        vals: decoded_words(d, off, size / 4),
                    },
                ),
            )
        }
    }
}

/// The sections of the first `i` main-image slots, or the first failure.
pub open spec fn dol_upto(d: Seq<u8>, i: int) -> Result<Seq<SpecSection>, Error>
    decreases i,
{
    if i <= 0 {
        Ok(Seq::empty())
    } else {
        match dol_upto(d, i - 1) {
            Err(e) => Err(e),
            Ok(ss) => match dol_slot(d, i - 1) {
                Err(e) => Err(e),
                Ok(None) => Ok(ss),
                Ok(Some(sec)) => Ok(ss.push(sec)),
            },
        }
    }
}

/// What parsing a main image yields: the sections of its 18 slots.
pub open spec fn spec_parse_dol(d: Seq<u8>) -> Result<Seq<SpecSection>, Error> {
    dol_upto(d, 18)
}

proof fn lemma_dol_err_persists(d: Seq<u8>, i: int, j: int)
    requires
        0 <= i <= j,
        dol_upto(d, i) is Err,
    ensures
        dol_upto(d, j) == dol_upto(d, i),
    decreases j - i,
{
    if i < j {
        lemma_dol_err_persists(d, i, j - 1);
    }
}

/// The outcome of relocatable-module table entry `i`: word 0 of the entry
/// packs the byte offset and the is-executable flag (bit 0), so the true
/// offset is word 0 with bit 0 masked off; word 1 is the byte size. A
/// misaligned offset (bit 1 set) or size fails the parse.
pub open spec fn rel_slot(d: Seq<u8>, base: u32, table: int, i: int) -> Result<
    Option<SpecSection>,
    Error,
> {
    let hdr = table + i * 8;
    if d.len() < hdr + 8 {
        Err(Error::Oob)
    } else {
        let val = be_word(d, hdr);
        let off = (val & 0xfffffffe) as int;
        let size = be_word(d, hdr + 4) as int;
        if off % 4 != 0 || size % 4 != 0 {
            Err(Error::Invalid)
        } else if val & 0x1 == 0x1 && (off == 0 || size == 0) {
            Err(Error::Invalid)
        } else if val & 0x1 == 0x1 {
            if off + size > d.len() {
                Err(Error::Oob)
            } else {
                Ok(
                    Some(
                        SpecSection {
                            address: wrap_add32((val & 0xfffffffe), base),
                            kind: SectionKind::Text,
                            vals: decoded_words(d, off, size / 4).map_values(
                                |w: u32| spec_normalize_branch(w),
                            ),
                        },
                    ),
                )
            }
        } else if off == 0 {
            Ok(Some(SpecSection { address: base, kind: SectionKind::Bss, vals: Seq::empty() }))
        } else if size == 0 {
            Ok(None)
        } else {
            if off + size > d.len() {
                Err(Error::Oob)
            } else {
                Ok(
                    Some(
                        SpecSection {
                            address: wrap_add32((val & 0xfffffffe), base),
                            kind: SectionKind::Data,
                            vals: decoded_words(d, off, size / 4),
                        },
                    ),
                )
            }
        }
    }
}

/// The sections of the first `i` table entries, or the first failure.
pub open spec fn rel_upto(d: Seq<u8>, base: u32, table: int, i: int) -> Result<
    Seq<SpecSection>,
    Error,
>
    decreases i,
{
    if i <= 0 {
        Ok(Seq::empty())
    } else {
        match rel_upto(d, base, table, i - 1) {
            Err(e) => Err(e),
            Ok(ss) => match rel_slot(d, base, table, i - 1) {
                Err(e) => Err(e),
                Ok(None) => Ok(ss),
                Ok(Some(sec)) => Ok(ss.push(sec)),
            },
        }
    }
}

/// What parsing a relocatable module at load base `base` yields: the entry
/// count is the word at `0xc`, the table's file offset the word at `0x10`.
pub open spec fn spec_parse_rel(d: Seq<u8>, base: u32) -> Result<Seq<SpecSection>, Error> {
    if d.len() < 0x14 {
        Err(Error::Oob)
    } else {
        let count = be_word(d, 0xc) as int;
        let table = be_word(d, 0x10) as int;
        if table % 4 != 0 {
            Err(Error::Invalid)
        } else {
            rel_upto(d, base, table, count)
        }
    }
}

proof fn lemma_rel_err_persists(d: Seq<u8>, base: u32, table: int, i: int, j: int)
    requires
        0 <= i <= j,
        rel_upto(d, base, table, i) is Err,
    ensures
        rel_upto(d, base, table, j) == rel_upto(d, base, table, i),
    decreases j - i,
{
    if i < j {
        lemma_rel_err_persists(d, base, table, i, j - 1);
    }
}

/// Reads the big-endian word at byte offset `o`, known to be in bounds.
fn read_word_at(data: &[u8], o: usize) -> (w: u32)
    requires
        o + 4 <= data@.len(),
    ensures
        w == be_word(data@, o as int),
{
    ((data[o] as u32) * 0x1000000) + ((data[o + 1] as u32) * 0x10000) + ((data[o + 2] as u32)
        * 0x100) + (data[o + 3] as u32)
}

/// Decodes `n` big-endian words starting at byte offset `off`.
fn decode_raw(data: &[u8], off: usize, n: usize) -> (vals: Vec<u32>)
    requires
        off + 4 * n <= data@.len(),
    ensures
        vals@ =~= decoded_words(data@, off as int, n as int),
{
    let len = data.len();
    let mut vals: Vec<u32> = Vec::new();
    let mut j: usize = 0;
    while j < n
        invariant
            j <= n,
            off + 4 * n <= data@.len(),
            data@.len() == len,
            vals@.len() == j,
            forall|k: int| 0 <= k < j ==> vals@[k] == be_word(data@, off + 4 * k),
        decreases n - j,
    {
        let w = read_word_at(data, off + 4 * j);
        vals.push(w);
        j = j + 1;
    }
    vals
}

/// Masks every word with the full (main-image) normalization.
fn normalize_vec_full(vals: &mut Vec<u32>)
    ensures
        final(vals)@ =~= old(vals)@.map_values(|w: u32| spec_normalize_full(w)),
{
    let n = vals.len();
    let mut j: usize = 0;
    while j < n
        invariant
            j <= n,
            vals@.len() == n,
            old(vals)@.len() == n,
            forall|k: int| 0 <= k < j ==> vals@[k] == spec_normalize_full(old(vals)@[k]),
            forall|k: int| j <= k < n ==> vals@[k] == old(vals)@[k],
        decreases n - j,
    {
        let w = vals[j];
        vals[j] = normalize_full(w);
        j = j + 1;
    }
}

/// Masks every word with the branch-only (relocatable-module) normalization.
fn normalize_vec_branch(vals: &mut Vec<u32>)
    ensures
        final(vals)@ =~= old(vals)@.map_values(|w: u32| spec_normalize_branch(w)),
{
    let n = vals.len();
    let mut j: usize = 0;
    while j < n
        invariant
            j <= n,
            vals@.len() == n,
            old(vals)@.len() == n,
            forall|k: int| 0 <= k < j ==> vals@[k] == spec_normalize_branch(old(vals)@[k]),
            forall|k: int| j <= k < n ==> vals@[k] == old(vals)@[k],
        decreases n - j,
    {
        let w = vals[j];
        vals[j] = normalize_branch(w);
        j = j + 1;
    }
}

/// Parses a main image: 18 fixed section slots, the first 7 of them code.
/// Absent slots (a zero offset, address or size) are skipped; a misaligned
/// field fails the parse, as does a slot that leaves the buffer.
pub fn parse_dol(dol: &[u8]) -> (r: Result<Vec<Section>, Error>)
    ensures
        r is Ok <==> spec_parse_dol(dol@) is Ok,
        r is Ok ==> sections_view(r->Ok_0@) =~~= spec_parse_dol(dol@)->Ok_0,
        r is Err ==> r->Err_0 == spec_parse_dol(dol@)->Err_0,
{
    let ghost d = dol@;
    let mut sections: Vec<Section> = Vec::new();
    let mut i: usize = 0;
    while i < 18
        invariant
            i <= 18,
            d == dol@,
            dol_upto(d, i as int) is Ok,
            dol_upto(d, i as int)->Ok_0 =~~= sections_view(sections@),
        decreases 18 - i,
    {
        let ghost pre = sections@;
        let offset = match read_u32(dol, (i as u32) * 4) {
            Ok(v) => v,
            Err(e) => {
                proof {
                    lemma_dol_err_persists(d, i as int + 1, 18);
                }
                return Err(e);
            },
        };
        let address = match read_u32(dol, 0x48 + (i as u32) * 4) {
            Ok(v) => v,
            Err(e) => {
                proof {
                    lemma_dol_err_persists(d, i as int + 1, 18);
                }
                return Err(e);
            },
        };
        let size = match read_u32(dol, 0x90 + (i as u32) * 4) {
            Ok(v) => v,
            Err(e) => {
                proof {
                    lemma_dol_err_persists(d, i as int + 1, 18);
                }
                return Err(e);
            },
        };
        if offset == 0 || address == 0 || size == 0 {
            i = i + 1;
            continue;
        }
        if offset % 4 != 0 || address % 4 != 0 || size % 4 != 0 {
            proof {
                lemma_dol_err_persists(d, i as int + 1, 18);
            }
            return Err(Error::Invalid);
        }
        if (offset as u64) + (size as u64) > dol.len() as u64 {
            proof {
                lemma_dol_err_persists(d, i as int + 1, 18);
            }
            return Err(Error::Oob);
        }
        let n = (size / 4) as usize;
        let mut vals = decode_raw(dol, offset as usize, n);
        let kind = if i < 7 {
            SectionKind::Text
        } else {
            SectionKind::Data
        };
        if i < 7 {
            normalize_vec_full(&mut vals);
        }
        let sec = Section { address, kind, vals };
        sections.push(sec);
        proof {
            let spec_sec = dol_slot(d, i as int)->Ok_0->Some_0;
            assert(sec@ =~~= spec_sec);
            assert(sections_view(sections@) =~~= sections_view(pre).push(sec@));
        }
        i = i + 1;
    }
    Ok(sections)
}

/// Parses a relocatable module against the caller-supplied load base. Table
/// entries are read from the header-given table offset; an executable entry
/// with no contents fails the parse, a data entry of zero size is skipped,
/// and an entry with offset zero is a zero-filled region with no words.
pub fn parse_rel(rel: &[u8], base: u32) -> (r: Result<Vec<Section>, Error>)
    ensures
        r is Ok <==> spec_parse_rel(rel@, base) is Ok,
        r is Ok ==> sections_view(r->Ok_0@) =~~= spec_parse_rel(rel@, base)->Ok_0,
        r is Err ==> r->Err_0 == spec_parse_rel(rel@, base)->Err_0,
{
    let ghost d = rel@;
    let section_count = match read_u32(rel, 0xc) {
        Ok(v) => v,
        Err(e) => { return Err(e) },
    };
    let section_headers_offset = match read_u32(rel, 0x10) {
        Ok(v) => v,
        Err(e) => { return Err(e) },
    };
    if section_headers_offset % 4 != 0 {
        return Err(Error::Invalid);
    }
    let ghost table = section_headers_offset as int;
    let mut sections: Vec<Section> = Vec::new();
    let mut i: u32 = 0;
    while i < section_count
        invariant
            i <= section_count,
            d == rel@,
            d.len() >= 0x14,
            table == be_word(d, 0x10) as int,
            table % 4 == 0,
            section_headers_offset == be_word(d, 0x10),
            section_count == be_word(d, 0xc),
            rel_upto(d, base, table, i as int) is Ok,
            rel_upto(d, base, table, i as int)->Ok_0 =~~= sections_view(sections@),
        decreases section_count - i,
    {
        let ghost pre = sections@;
        let hdr64: u64 = (section_headers_offset as u64) + (i as u64) * 8;
        if hdr64 + 8 > rel.len() as u64 {
            proof {
                lemma_rel_err_persists(d, base, table, i as int + 1, section_count as int);
            }
            return Err(Error::Oob);
        }
        let hdr = hdr64 as usize;
        let val = read_word_at(rel, hdr);
        let offset = val & 0xfffffffe;
        let size = read_word_at(rel, hdr + 4);
        if offset % 4 != 0 || size % 4 != 0 {
            proof {
                lemma_rel_err_persists(d, base, table, i as int + 1, section_count as int);
            }
            return Err(Error::Invalid);
        }
        let executable = val & 0x1 == 0x1;
        if executable && (offset == 0 || size == 0) {
            proof {
                lemma_rel_err_persists(d, base, table, i as int + 1, section_count as int);
            }
            return Err(Error::Invalid);
        }
        if executable {
            if (offset as u64) + (size as u64) > rel.len() as u64 {
                proof {
                    lemma_rel_err_persists(d, base, table, i as int + 1, section_count as int);
                }
                return Err(Error::Oob);
            }
            let n = (size / 4) as usize;
            let mut vals = decode_raw(rel, offset as usize, n);
            normalize_vec_branch(&mut vals);
            let sec = Section { address: offset.wrapping_add(base), kind: SectionKind::Text, vals };
            sections.push(sec);
            proof {
                let spec_sec = rel_slot(d, base, table, i as int)->Ok_0->Some_0;
                assert(sec@ =~~= spec_sec);
                assert(sections_view(sections@) =~~= sections_view(pre).push(sec@));
            }
        } else if offset == 0 {
            let sec = Section { address: base, kind: SectionKind::Bss, vals: Vec::new() };
            sections.push(sec);
            proof {
                let spec_sec = rel_slot(d, base, table, i as int)->Ok_0->Some_0;
                assert(sec@ =~~= spec_sec);
                assert(sections_view(sections@) =~~= sections_view(pre).push(sec@));
            }
        } else if size == 0 {
            // the entry contributes no section
        } else {
            if (offset as u64) + (size as u64) > rel.len() as u64 {
                proof {
                    lemma_rel_err_persists(d, base, table, i as int + 1, section_count as int);
                }
                return Err(Error::Oob);
            }
            let n = (size / 4) as usize;
            let vals = decode_raw(rel, offset as usize, n);
            let sec = Section { address: offset.wrapping_add(base), kind: SectionKind::Data, vals };
            sections.push(sec);
            proof {
                let spec_sec = rel_slot(d, base, table, i as int)->Ok_0->Some_0;
                assert(sec@ =~~= spec_sec);
                assert(sections_view(sections@) =~~= sections_view(pre).push(sec@));
            }
        }
        i = i + 1;
    }
    Ok(sections)
}

} // verus!
