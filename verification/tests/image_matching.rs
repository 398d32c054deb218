use mkw_spc::engine::process;
use mkw_spc::matching::{find_best_match, Match};
use mkw_spc::parse::{parse_dol, parse_rel};
use mkw_spc::report::{compatible_sections, match_addresses, match_section_pair};
use mkw_spc::resolve::{postprocess, sort_by_source_start, sort_by_target_start, swap_coordinates};
use mkw_spc::section::{Section, SectionKind};
use mkw_spc::words::{normalize_branch, normalize_full, read_u32, Error};

fn put_be(buf: &mut Vec<u8>, offset: usize, value: u32) {
    buf[offset..offset + 4].copy_from_slice(&value.to_be_bytes());
}

fn text_section(words: Vec<u32>) -> Section {
    Section {
        address: 0x80000000,
        kind: SectionKind::Text,
        vals: words,
    }
}

#[test]
fn read_u32_decodes_big_endian() {
    let data = vec![0x12, 0x34, 0x56, 0x78, 0x9a];
    assert_eq!(read_u32(&data, 0), Ok(0x12345678));
    assert_eq!(read_u32(&data, 1), Ok(0x3456789a));
    assert_eq!(read_u32(&data, 2), Err(Error::Oob));
}

#[test]
fn normalize_masks_immediate_families() {
    // an immediate-operand word keeps only its upper half
    assert_eq!(normalize_full(0x38001234), 0x38000000);
    assert_eq!(normalize_full(0x80123456), 0x80120000);
    // an unconditional branch keeps the opcode and the link bit
    assert_eq!(normalize_full(0x48123457), 0x48000001);
    assert_eq!(normalize_full(0x48123456), 0x48000000);
    // anything else passes through
    assert_eq!(normalize_full(0x7c000278), 0x7c000278);
    // the module normalizer only touches branches
    assert_eq!(normalize_branch(0x38001234), 0x38001234);
    assert_eq!(normalize_branch(0x48123457), 0x48000001);
}

#[test]
fn normalize_is_idempotent_on_samples() {
    for w in [0x38001234u32, 0x48123457, 0x7c000278, 0x60001234, 0xffffffff, 0] {
        let once = normalize_full(w);
        assert_eq!(normalize_full(once), once);
        let once = normalize_branch(w);
        assert_eq!(normalize_branch(once), once);
    }
}

#[test]
fn parse_dol_reads_one_text_slot() {
    let mut dol = vec![0u8; 0x140];
    put_be(&mut dol, 0x0, 0x100); // slot 0 file offset
    put_be(&mut dol, 0x48, 0x80003100); // slot 0 load address
    put_be(&mut dol, 0x90, 0x40); // slot 0 byte size
    for i in 0..0x10 {
        put_be(&mut dol, 0x100 + i * 4, 0x7c000278);
    }
    let sections = parse_dol(&dol).unwrap();
    assert_eq!(sections.len(), 1);
    assert_eq!(sections[0].address, 0x80003100);
    assert_eq!(sections[0].kind, SectionKind::Text);
    assert_eq!(sections[0].vals.len(), 0x10);
    assert!(sections[0].vals.iter().all(|w| *w == 0x7c000278));
}

#[test]
fn parse_dol_masks_text_but_not_data() {
    let mut dol = vec![0u8; 0x200];
    // slot 0 (code) and slot 7 (data) hold the same immediate-family word
    put_be(&mut dol, 0x0, 0x100);
    put_be(&mut dol, 0x48, 0x80003100);
    put_be(&mut dol, 0x90, 0x4);
    put_be(&mut dol, 0x1c, 0x104); // slot 7 offset lives at 7*4
    put_be(&mut dol, 0x64, 0x80004000); // slot 7 address at 0x48 + 7*4
    put_be(&mut dol, 0xac, 0x4); // slot 7 size at 0x90 + 7*4
    put_be(&mut dol, 0x100, 0x38001234);
    put_be(&mut dol, 0x104, 0x38001234);
    let sections = parse_dol(&dol).unwrap();
    assert_eq!(sections.len(), 2);
    assert_eq!(sections[0].kind, SectionKind::Text);
    assert_eq!(sections[0].vals, vec![0x38000000]);
    assert_eq!(sections[1].kind, SectionKind::Data);
    assert_eq!(sections[1].vals, vec![0x38001234]);
}

#[test]
fn parse_dol_rejects_misaligned_and_out_of_range() {
    let mut dol = vec![0u8; 0x140];
    put_be(&mut dol, 0x0, 0x101); // misaligned offset
    put_be(&mut dol, 0x48, 0x80003100);
    put_be(&mut dol, 0x90, 0x40);
    assert_eq!(parse_dol(&dol).unwrap_err(), Error::Invalid);

    let mut dol = vec![0u8; 0x140];
    put_be(&mut dol, 0x0, 0x100);
    put_be(&mut dol, 0x48, 0x80003100);
    put_be(&mut dol, 0x90, 0x100); // runs past the end of the buffer
    assert_eq!(parse_dol(&dol).unwrap_err(), Error::Oob);

    // a header that cannot even be read
    assert_eq!(parse_dol(&[0u8; 0x20]).unwrap_err(), Error::Oob);
}

#[test]
fn parse_rel_kinds_and_asymmetric_masking() {
    let base = 0x90000000u32;
    let mut rel = vec![0u8; 0x80];
    put_be(&mut rel, 0xc, 3); // section count
    put_be(&mut rel, 0x10, 0x20); // table offset
    // entry 0: executable at 0x40, 8 bytes
    put_be(&mut rel, 0x20, 0x40 | 0x1);
    put_be(&mut rel, 0x24, 0x8);
    // entry 1: offset 0 -> zero-filled region, no words
    put_be(&mut rel, 0x28, 0x0);
    put_be(&mut rel, 0x2c, 0x100);
    // entry 2: data of size 0 -> skipped entirely
    put_be(&mut rel, 0x30, 0x60);
    put_be(&mut rel, 0x34, 0x0);
    put_be(&mut rel, 0x40, 0x48123456); // branch: masked
    put_be(&mut rel, 0x44, 0x60001234); // immediate family: kept as is
    let sections = parse_rel(&rel, base).unwrap();
    assert_eq!(sections.len(), 2);
    assert_eq!(sections[0].kind, SectionKind::Text);
    assert_eq!(sections[0].address, base + 0x40);
    assert_eq!(sections[0].vals, vec![0x48000000, 0x60001234]);
    assert_eq!(sections[1].kind, SectionKind::Bss);
    assert_eq!(sections[1].address, base);
    assert!(sections[1].vals.is_empty());
}

#[test]
fn parse_rel_rejects_bad_entries() {
    let mut rel = vec![0u8; 0x40];
    put_be(&mut rel, 0xc, 1);
    put_be(&mut rel, 0x10, 0x22); // misaligned table
    assert_eq!(parse_rel(&rel, 0).unwrap_err(), Error::Invalid);

    let mut rel = vec![0u8; 0x40];
    put_be(&mut rel, 0xc, 1);
    put_be(&mut rel, 0x10, 0x20);
    put_be(&mut rel, 0x20, 0x1); // executable with offset 0
    put_be(&mut rel, 0x24, 0x8);
    assert_eq!(parse_rel(&rel, 0).unwrap_err(), Error::Invalid);

    assert_eq!(parse_rel(&[0u8; 0x8], 0).unwrap_err(), Error::Oob);

    // the entry offset is word 0 with only bit 0 masked off, so an offset
    // with bit 1 set is misaligned
    let mut rel = vec![0u8; 0x40];
    put_be(&mut rel, 0xc, 1);
    put_be(&mut rel, 0x10, 0x20);
    put_be(&mut rel, 0x20, 0x6); // data entry at byte offset 6
    put_be(&mut rel, 0x24, 0x8);
    assert_eq!(parse_rel(&rel, 0).unwrap_err(), Error::Invalid);

    let mut rel = vec![0u8; 0x40];
    put_be(&mut rel, 0xc, 1);
    put_be(&mut rel, 0x10, 0x20);
    put_be(&mut rel, 0x20, 0x23); // executable entry at byte offset 0x22
    put_be(&mut rel, 0x24, 0x8);
    assert_eq!(parse_rel(&rel, 0).unwrap_err(), Error::Invalid);
}

#[test]
fn find_best_match_aligns_identical_runs() {
    let words: Vec<u32> = (0..0x10).map(|i| i * 7 + 1).collect();
    let s = text_section(words.clone());
    let t = text_section(words);
    let m = find_best_match(0x10, &s, &t, &[]).unwrap();
    assert_eq!((m.source_start, m.target_start, m.size), (0, 0, 0x10));
}

#[test]
fn candidate_extension_stops_at_accepted_matches() {
    // two equal two-word sections with the first word pair already accepted:
    // the new candidate may not grow into the claimed range, so only the
    // second word pair is found
    let s = text_section(vec![0x11, 0x11]);
    let t = text_section(vec![0x11, 0x11]);
    let accepted = [Match { source_start: 0, target_start: 0, size: 1 }];
    let m = find_best_match(1, &s, &t, &accepted).unwrap();
    assert_eq!((m.source_start, m.target_start, m.size), (1, 1, 1));
}

#[test]
fn round_trip_identity_single_full_match() {
    let words: Vec<u32> = (0u32..0x234).map(|i| i.wrapping_mul(0x9e3779b9)).collect();
    let s = text_section(words.clone());
    let t = text_section(words);
    let mut matches = process(&s, &t);
    assert_eq!(matches.len(), 1);
    assert_eq!(
        (matches[0].source_start, matches[0].target_start, matches[0].size),
        (0, 0, 0x234)
    );
    // the resolver has nothing to do on a single match
    postprocess(&s, &mut matches);
    assert_eq!(matches.len(), 1);
    assert_eq!(
        (matches[0].source_start, matches[0].target_start, matches[0].size),
        (0, 0, 0x234)
    );
}

#[test]
fn immediate_masking_extends_match_and_raw_difference_breaks_it() {
    // two images identical but for the low 16 bits of one immediate-family word
    let mut a: Vec<u32> = (0..8).map(|i| 0x7c000000 + i).collect();
    let mut b = a.clone();
    a[4] = 0x38001234;
    b[4] = 0x38005678;
    let sa = text_section(a.iter().map(|w| normalize_full(*w)).collect());
    let sb = text_section(b.iter().map(|w| normalize_full(*w)).collect());
    let matches = process(&sa, &sb);
    assert_eq!(matches.len(), 1);
    assert_eq!(matches[0].size, 8);

    // the same difference in a word no mask touches breaks the match
    let mut a: Vec<u32> = (0..8).map(|i| 0x7c000000 + i).collect();
    let mut b = a.clone();
    a[4] = 0x7c001234;
    b[4] = 0x7c005678;
    let sa = text_section(a.iter().map(|w| normalize_full(*w)).collect());
    let sb = text_section(b.iter().map(|w| normalize_full(*w)).collect());
    let matches = process(&sa, &sb);
    assert!(matches.is_empty());
}

#[test]
fn boundary_split_at_return_word() {
    // two matches overlap by four words; the overlap holds one return word
    let mut words = vec![0x7c000278u32; 0x10];
    words[8] = 0x4e800020;
    let s = text_section(words);
    let mut matches = vec![
        Match { source_start: 0, target_start: 0, size: 10 },
        Match { source_start: 6, target_start: 6, size: 10 },
    ];
    postprocess(&s, &mut matches);
    // the return word sits at overlap position 2, so the split lands after it
    assert_eq!(
        (matches[0].source_start, matches[0].target_start, matches[0].size),
        (0, 0, 9)
    );
    assert_eq!(
        (matches[1].source_start, matches[1].target_start, matches[1].size),
        (9, 9, 7)
    );
    // the two are adjacent and non-overlapping
    assert_eq!(matches[0].source_start + matches[0].size, matches[1].source_start);
}

#[test]
fn postprocess_leaves_disjoint_matches_alone() {
    let s = text_section(vec![0x7c000278u32; 0x20]);
    let mut matches = vec![
        Match { source_start: 8, target_start: 0, size: 4 },
        Match { source_start: 0, target_start: 8, size: 4 },
    ];
    postprocess(&s, &mut matches);
    // sorted by source offset, otherwise untouched
    assert_eq!(
        matches,
        vec![
            Match { source_start: 0, target_start: 8, size: 4 },
            Match { source_start: 8, target_start: 0, size: 4 },
        ]
    );
}

#[test]
fn postprocess_skips_non_text_sections() {
    let s = Section { address: 0, kind: SectionKind::Data, vals: vec![] };
    let mut matches = vec![
        Match { source_start: 9, target_start: 0, size: 4 },
        Match { source_start: 0, target_start: 8, size: 4 },
    ];
    postprocess(&s, &mut matches);
    assert_eq!(matches[0].source_start, 9);
}

#[test]
fn sorts_and_swap() {
    let mut ms = vec![
        Match { source_start: 4, target_start: 0, size: 1 },
        Match { source_start: 0, target_start: 9, size: 2 },
        Match { source_start: 2, target_start: 3, size: 3 },
    ];
    sort_by_source_start(&mut ms);
    assert_eq!(ms.iter().map(|m| m.source_start).collect::<Vec<_>>(), vec![0, 2, 4]);
    sort_by_target_start(&mut ms);
    assert_eq!(ms.iter().map(|m| m.target_start).collect::<Vec<_>>(), vec![0, 3, 9]);
    swap_coordinates(&mut ms);
    assert_eq!(ms.iter().map(|m| m.source_start).collect::<Vec<_>>(), vec![0, 3, 9]);
    swap_coordinates(&mut ms);
    assert_eq!(ms.iter().map(|m| m.target_start).collect::<Vec<_>>(), vec![0, 3, 9]);
}

#[test]
fn compatible_sections_checks_count_and_kinds() {
    let a = vec![text_section(vec![0]), Section { address: 0, kind: SectionKind::Data, vals: vec![0] }];
    let b = vec![text_section(vec![1]), Section { address: 4, kind: SectionKind::Data, vals: vec![2] }];
    assert!(compatible_sections(&a, &b));
    let c = vec![text_section(vec![1])];
    assert!(!compatible_sections(&a, &c));
    let d = vec![
        Section { address: 0, kind: SectionKind::Data, vals: vec![1] },
        text_section(vec![2]),
    ];
    assert!(!compatible_sections(&a, &d));
}

#[test]
fn end_to_end_single_text_slot() {
    let mut dol = vec![0u8; 0x140];
    put_be(&mut dol, 0x0, 0x100);
    put_be(&mut dol, 0x48, 0x80003100);
    put_be(&mut dol, 0x90, 0x40);
    for i in 0..0x10 {
        put_be(&mut dol, 0x100 + i * 4, 0x7c000000 + i as u32);
    }
    let source = parse_dol(&dol).unwrap();
    let target = parse_dol(&dol).unwrap();
    assert!(compatible_sections(&source, &target));
    let (by_source, by_target) = match_section_pair(&source[0], &target[0]);
    assert_eq!(by_source.len(), 1);
    assert_eq!(by_target.len(), 1);
    let quad = match_addresses(&source[0], &target[0], &by_source[0]);
    assert_eq!(quad, (0x80003100, 0x80003140, 0x80003100, 0x80003140));
}

#[test]
fn match_range_queries() {
    let m = Match { source_start: 4, target_start: 10, size: 3 };
    assert_eq!(m.source_end(), 7);
    assert!(!m.contains_source(3));
    assert!(m.contains_source(4));
    assert!(m.contains_source(6));
    assert!(!m.contains_source(7));
    assert!(m.contains_target(10));
    assert!(m.contains_target(12));
    assert!(!m.contains_target(13));
}

fn ranges_disjoint(ms: &[Match]) -> bool {
    for (i, a) in ms.iter().enumerate() {
        for b in ms.iter().skip(i + 1) {
            let src_apart = a.source_start + a.size <= b.source_start
                || b.source_start + b.size <= a.source_start;
            let tgt_apart = a.target_start + a.size <= b.target_start
                || b.target_start + b.size <= a.target_start;
            if !src_apart || !tgt_apart {
                return false;
            }
        }
    }
    true
}

#[test]
fn larger_threshold_matches_persist_and_stay_disjoint() {
    // two common blocks of different sizes, placed differently in the two
    // images, with filler that never matches across them
    let block_a: Vec<u32> = (0..0x300u32).map(|i| 0x10000000 + i).collect();
    let block_b: Vec<u32> = (0..0x180u32).map(|i| 0x40000000 + i).collect();
    let junk_s: Vec<u32> = (0..0x100u32).map(|i| 0x20000000 + i).collect();
    let junk_t: Vec<u32> = (0..0x100u32).map(|i| 0x30000000 + i).collect();

    let mut source_words = block_a.clone();
    source_words.extend(&junk_s);
    source_words.extend(&block_b);
    let mut target_words = block_b.clone();
    target_words.extend(&junk_t);
    target_words.extend(&block_a);

    let s = text_section(source_words);
    let t = text_section(target_words);
    let matches = process(&s, &t);
    // the large block is accepted at a coarser threshold and stands first,
    // unchanged, after the finer passes accept the small one
    assert_eq!(
        matches,
        vec![
            Match { source_start: 0, target_start: 0x280, size: 0x300 },
            Match { source_start: 0x400, target_start: 0, size: 0x180 },
        ]
    );
    assert!(ranges_disjoint(&matches));

    // and the resolver keeps the already-disjoint set intact
    let (by_source, by_target) = match_section_pair(&s, &t);
    assert!(ranges_disjoint(&by_source));
    assert!(ranges_disjoint(&by_target));
    assert_eq!(by_source.len(), 2);
    assert_eq!(by_target.len(), 2);
    assert_eq!(by_target[0].target_start, 0);
}
