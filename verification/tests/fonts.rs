//! TrueType fonts: character maps, subset tags, instructions.

use amatl::truetype::cmap::{find_table, parse_cmap, parse_subtable, CmapSubtable};
use amatl::truetype::hinting::{strip_glyph_instructions, strip_hinting};
use amatl::truetype::names::mask_subset_tags;
use amatl::truetype::sfnt::{assemble_sfnt, insert_cmap, parse_tables, table_checksum};
use amatl::truetype::subtable::{build_format4, build_format6};
use std::collections::BTreeMap;

fn sample_map(pairs: &[(u32, u16)]) -> BTreeMap<u32, u16> {
    pairs.iter().copied().collect()
}

#[test]
fn format4_roundtrips_through_parser() {
    let map = sample_map(&[(0x20, 1), (0x21, 2), (0x22, 3), (0x41, 9), (0x2022, 4)]);
    let body = build_format4(&map).unwrap();
    assert_eq!(parse_subtable(&body).unwrap(), map);
}

#[test]
fn format6_roundtrips_through_parser() {
    let map = sample_map(&[(0x20, 5), (0x7E, 2), (0xCA, 7)]);
    let body = build_format6(&map);
    assert_eq!(parse_subtable(&body).unwrap(), map);
}

/// Minimal two-table sfnt (`head`, `name`) whose `name` body is `body`.
fn tiny_font(body: &[u8]) -> Vec<u8> {
    let head = vec![0u8; 54];
    let tables: [(&[u8; 4], &[u8]); 2] = [(b"head", &head), (b"name", body)];
    let mut out = vec![0x00, 0x01, 0x00, 0x00, 0x00, 0x02, 0, 32, 0, 1, 0, 0];
    let mut offset = 12 + 32;
    for (tag, data) in tables {
        out.extend_from_slice(tag);
        out.extend_from_slice(&table_checksum(data).to_be_bytes());
        out.extend_from_slice(&(offset as u32).to_be_bytes());
        out.extend_from_slice(&(data.len() as u32).to_be_bytes());
        offset += data.len().next_multiple_of(4);
    }
    for (_, data) in tables {
        out.extend_from_slice(data);
        out.resize(out.len().next_multiple_of(4), 0);
    }
    out
}

#[test]
fn masking_makes_same_subset_under_different_tags_byte_equal() {
    let a = tiny_font(b"SKOJEB+ArialMT\x00\x00");
    let b = tiny_font(b"RZEDQD+ArialMT\x00\x00");
    assert_ne!(a, b);
    let (ma, mb) = (mask_subset_tags(&a).unwrap(), mask_subset_tags(&b).unwrap());
    assert_eq!(ma, mb);
    assert!(contains_window(&ma, b"AAAAAA+ArialMT"));
    // Whole-font checksum invariant holds after the repair.
    let head = find_table(&ma, b"head").unwrap().0;
    let mut zeroed = ma.clone();
    let adj = u32::from_be_bytes(ma[head + 8..head + 12].try_into().unwrap());
    zeroed[head + 8..head + 12].fill(0);
    assert_eq!(adj, 0xB1B0_AFBAu32.wrapping_sub(table_checksum(&zeroed)));
}

#[test]
fn masking_handles_utf16be_names_and_leaves_untagged_fonts_alone() {
    let mut utf16 = Vec::new();
    for ch in "SKOJEB+Arial".chars() {
        utf16.extend_from_slice(&[0, ch as u8]);
    }
    let masked = mask_subset_tags(&tiny_font(&utf16)).unwrap();
    assert!(contains_window(
        &masked,
        b"\x00A\x00A\x00A\x00A\x00A\x00A\x00+"
    ));

    let plain = tiny_font(b"ArialMT\x00");
    assert_eq!(mask_subset_tags(&plain).unwrap(), plain);
}

fn contains_window(haystack: &[u8], needle: &[u8]) -> bool {
    haystack.windows(needle.len()).any(|w| w == needle)
}

#[test]
fn simple_glyph_instructions_are_removed() {
    // 1 contour, 2 points, 3 instruction bytes, then flags/coords.
    let mut g = Vec::new();
    g.extend_from_slice(&1i16.to_be_bytes());
    g.extend_from_slice(&[0u8; 8]); // bbox
    g.extend_from_slice(&1u16.to_be_bytes()); // endPts
    g.extend_from_slice(&3u16.to_be_bytes()); // instructionLength
    g.extend_from_slice(&[0xB0, 0x01, 0x21]); // instructions
    g.extend_from_slice(&[0x01, 0x01, 5, 5, 5, 5]); // flags + coords
    let mut out = Vec::new();
    strip_glyph_instructions(&g, &mut out).unwrap();
    assert_eq!(out.len(), g.len() - 3);
    assert_eq!(&out[10 + 2..10 + 4], &0u16.to_be_bytes());
    assert_eq!(&out[out.len() - 6..], &[0x01, 0x01, 5, 5, 5, 5]);
}

#[test]
fn composite_glyph_instruction_flag_is_cleared() {
    let mut g = Vec::new();
    g.extend_from_slice(&(-1i16).to_be_bytes());
    g.extend_from_slice(&[0u8; 8]); // bbox
    g.extend_from_slice(&0x0101u16.to_be_bytes()); // WORDS | INSTRUCTIONS
    g.extend_from_slice(&7u16.to_be_bytes()); // glyphIndex
    g.extend_from_slice(&[0u8; 4]); // word args
    g.extend_from_slice(&2u16.to_be_bytes()); // instr length
    g.extend_from_slice(&[0xB0, 0x00]);
    let mut out = Vec::new();
    strip_glyph_instructions(&g, &mut out).unwrap();
    assert_eq!(out.len(), g.len() - 4);
    assert_eq!(&out[10..12], &0x0001u16.to_be_bytes());
}

#[test]
fn empty_map_still_builds_valid_tables() {
    let map = BTreeMap::new();
    assert_eq!(parse_subtable(&build_format4(&map).unwrap()).unwrap(), map);
    assert_eq!(parse_subtable(&build_format6(&map)).unwrap(), map);
}

#[test]
fn parser_reads_tables_and_rejects_what_is_cut_off() {
    let font = tiny_font(b"ArialMT\x00");
    let (version, tables) = parse_tables(&font).unwrap();
    assert_eq!(version, 0x0001_0000);
    assert_eq!(tables.len(), 2);
    assert_eq!(&tables[1].0, b"name");
    assert_eq!(tables[1].1, b"ArialMT\x00");
    assert!(parse_tables(&font[..20]).is_none());
    assert!(parse_subtable(&[0, 9, 0, 0]).is_none());
    assert!(find_table(&font, b"cmap").is_none());
}

#[test]
fn assembled_font_has_the_checksum_of_its_tables() {
    let (version, tables) = parse_tables(&tiny_font(b"ArialMT\x00")).unwrap();
    let out = assemble_sfnt(version, tables).unwrap();
    assert_eq!(table_checksum(&out), 0xB1B0_AFBA);
    assert!(assemble_sfnt(version, Vec::new()).is_none());
}

#[test]
fn inserted_character_map_is_found_again() {
    let map = sample_map(&[(0x41, 3), (0x42, 4), (0x2022, 9)]);
    let tables = [CmapSubtable {
        platform: 3,
        encoding: 1,
        map: map.clone(),
    }];
    let out = insert_cmap(&tiny_font(b"ArialMT\x00"), &tables).unwrap();
    let found = parse_cmap(&out).unwrap();
    assert_eq!(found.len(), 1);
    assert_eq!((found[0].platform, found[0].encoding), (3, 1));
    assert_eq!(found[0].map, map);
}

#[test]
fn masking_again_changes_nothing() {
    let once = mask_subset_tags(&tiny_font(b"SKOJEB+ArialMT\x00\x00")).unwrap();
    assert_eq!(mask_subset_tags(&once).unwrap(), once);
}

#[test]
fn checksum_counts_a_cut_word_with_zeros() {
    assert_eq!(table_checksum(&[0, 0, 0, 1, 2]), 0x0200_0001);
}

/// A font with one simple glyph of three instruction bytes and a program.
fn hinted_font() -> Vec<u8> {
    let mut maxp = vec![0x00, 0x01, 0x00, 0x00, 0x00, 0x01];
    maxp.extend(6..32u8);
    let glyph = [
        0, 1, 0, 0, 0, 0, 0, 0, 0, 0, 0, 1, 0, 3, 0xB0, 0x01, 0x21, 0x01, 0x01, 5, 5, 5, 5, 0,
    ];
    let tables = vec![
        (*b"fpgm", vec![1, 2, 3]),
        (*b"glyf", glyph.to_vec()),
        (*b"head", vec![0u8; 54]),
        (*b"loca", vec![0, 0, 0, 12]),
        (*b"maxp", maxp),
    ];
    assemble_sfnt(0x0001_0000, tables).unwrap()
}

#[test]
fn instruction_maximum_and_nothing_else_of_maxp_is_zeroed() {
    let out = strip_hinting(&hinted_font()).unwrap();
    let (_, tables) = parse_tables(&out).unwrap();
    let tags: Vec<&[u8; 4]> = tables.iter().map(|t| &t.0).collect();
    assert_eq!(tags, [b"glyf", b"head", b"loca", b"maxp"]);
    let mut maxp = vec![0x00, 0x01, 0x00, 0x00, 0x00, 0x01];
    maxp.extend(6..32u8);
    maxp[26..28].fill(0);
    assert_eq!(tables[3].1, maxp);
    assert_eq!(tables[0].1.len(), 22);
    assert_eq!(tables[2].1, [0, 0, 0, 11]);
    assert_eq!(table_checksum(&out), 0xB1B0_AFBA);
}

#[test]
fn hinting_is_removed_once() {
    let out = strip_hinting(&hinted_font()).unwrap();
    assert!(strip_hinting(&out).is_none());
}

#[test]
fn inserting_a_character_map_keeps_the_other_tables() {
    let font = hinted_font();
    let tables = [CmapSubtable { platform: 3, encoding: 1, map: sample_map(&[(0x41, 3)]) }];
    let out = insert_cmap(&font, &tables).unwrap();
    let (version, new) = parse_tables(&out).unwrap();
    assert_eq!(version, 0x0001_0000);
    let tags: Vec<&[u8; 4]> = new.iter().map(|t| &t.0).collect();
    assert_eq!(tags, [b"cmap", b"fpgm", b"glyf", b"head", b"loca", b"maxp"]);
    let (_, old) = parse_tables(&font).unwrap();
    for (tag, body) in &old {
        if tag != b"head" {
            assert!(new.iter().any(|t| t.0 == *tag && t.1 == *body));
        }
    }
}

#[test]
fn directory_of_an_assembled_font_tells_sum_place_and_length() {
    let font = hinted_font();
    let (_, tables) = parse_tables(&font).unwrap();
    for (i, (tag, body)) in tables.iter().enumerate() {
        let record = &font[12 + 16 * i..28 + 16 * i];
        let field = |at: usize| u32::from_be_bytes(record[at..at + 4].try_into().unwrap());
        let mut written = body.clone();
        if tag == b"head" {
            written[8..12].fill(0);
        }
        assert_eq!(&record[..4], tag);
        assert_eq!(field(4), table_checksum(&written));
        assert_eq!(field(8) % 4, 0);
        assert_eq!(field(12) as usize, body.len());
    }
}

#[test]
fn font_without_glyphs_keeps_its_hinting() {
    assert!(strip_hinting(&tiny_font(b"ArialMT\x00")).is_none());
}

#[test]
fn glyph_that_is_cut_off_is_declined() {
    let mut out = Vec::new();
    assert!(strip_glyph_instructions(&[0, 1, 0, 0], &mut out).is_none());
}
