use glyf::corpus::{
    category_of, codepoint, entry_block, entry_category, entry_icon_set, entry_name, entry_source,
    entry_str, icon_set_description, list_icon_sets, list_sources, lookup, lookup_name, lookup_str,
    num_entries, parse_cp_str, Corpus, Idx, FIELD_GLYPH,
};

fn row(cp: u32, fields: [&'static str; 17]) -> (u32, [&'static str; 17]) {
    (cp, fields)
}

fn uni(glyph: &'static str, name: &'static str, cat: &'static str, block: &'static str) -> [&'static str; 17] {
    [glyph, name, "unicode", cat, "0", "L", "", "", "", "", "N", "", "", "", "", block, ""]
}

fn fixture_rows() -> Vec<(u32, [&'static str; 17])> {
    vec![
        row(0x0021, uni("!", "EXCLAMATION MARK", "Po", "Basic Latin")),
        row(0x0028, uni("(", "LEFT PARENTHESIS", "Ps", "Basic Latin")),
        row(0x0029, uni(")", "RIGHT PARENTHESIS", "Pe", "Basic Latin")),
        row(0x002D, uni("-", "HYPHEN-MINUS", "Pd", "Basic Latin")),
        row(0x0030, uni("0", "DIGIT ZERO", "Nd", "Basic Latin")),
        row(
            0x0041,
            [
                "A", "LATIN CAPITAL LETTER A", "unicode", "Lu", "0", "L", "", "", "", "", "N", "", "", "0061",
                "", "Basic Latin", "",
            ],
        ),
        row(
            0x0042,
            [
                "B", "LATIN CAPITAL LETTER B", "unicode", "Lu", "0", "L", "", "", "", "", "N", "", "", "0062",
                "", "Basic Latin", "",
            ],
        ),
        row(
            0x0043,
            [
                "C", "LATIN CAPITAL LETTER C", "unicode", "Lu", "0", "L", "", "", "", "", "N", "", "", "0063",
                "", "Basic Latin", "",
            ],
        ),
        row(0x005F, uni("_", "LOW LINE", "Pc", "Basic Latin")),
        row(
            0x0061,
            [
                "a", "LATIN SMALL LETTER A", "unicode", "Ll", "0", "L", "", "", "", "", "N", "", "0041", "",
                "0041", "Basic Latin", "",
            ],
        ),
        row(0x00AB, uni("\u{AB}", "LEFT-POINTING DOUBLE ANGLE QUOTATION MARK", "Pi", "Latin-1 Supplement")),
        row(0x00BB, uni("\u{BB}", "RIGHT-POINTING DOUBLE ANGLE QUOTATION MARK", "Pf", "Latin-1 Supplement")),
        row(0x00E9, uni("\u{E9}", "LATIN SMALL LETTER E WITH ACUTE", "Ll", "Latin-1 Supplement")),
        row(
            0x01C5,
            uni(
                "\u{1C5}",
                "LATIN CAPITAL LETTER D WITH SMALL LETTER Z WITH CARON",
                "Lt",
                "Latin Extended-B",
            ),
        ),
        row(0x02B0, uni("\u{2B0}", "MODIFIER LETTER SMALL H", "Lm", "Spacing Modifier Letters")),
        row(0x05D0, uni("\u{5D0}", "HEBREW LETTER ALEF", "Lo", "Hebrew")),
        row(0x266A, uni("\u{266A}", "EIGHTH NOTE", "So", "Miscellaneous Symbols")),
        row(
            0xE7A8,
            [
                "\u{E7A8}", "nf-dev-rust", "nerdfonts", "Co", "", "", "", "", "", "", "", "", "", "", "",
                "Private Use Area", "dev",
            ],
        ),
        row(0x1F600, uni("\u{1F600}", "GRINNING FACE", "So", "Emoticons")),
        row(0x1F601, uni("\u{1F601}", "GRINNING FACE WITH SMILING EYES", "So", "Emoticons")),
    ]
}

fn fixture_corpus() -> Corpus {
    let mut strings: Vec<u8> = Vec::new();
    let mut cps: Vec<u8> = Vec::new();
    let mut offs: Vec<u8> = Vec::new();
    let mut lens: Vec<u8> = Vec::new();
    let mut name_offs: Vec<u8> = Vec::new();
    let mut name_lens: Vec<u8> = Vec::new();
    for (cp, fields) in fixture_rows() {
        cps.extend_from_slice(&cp.to_le_bytes());
        for (i, f) in fields.iter().enumerate() {
            let off = strings.len() as u32;
            let len = f.len() as u16;
            strings.extend_from_slice(f.as_bytes());
            offs.extend_from_slice(&off.to_le_bytes());
            lens.extend_from_slice(&len.to_le_bytes());
            if i == 1 {
                name_offs.extend_from_slice(&off.to_le_bytes());
                name_lens.extend_from_slice(&len.to_le_bytes());
            }
        }
    }
    Corpus::from_blobs(strings, cps, offs, lens, name_offs, name_lens).expect("fixture tables are valid")
}

#[test]
fn lookup_hit_lower_bound() {
    let c = fixture_corpus();
    let idx = lookup(&c, 0x0041).expect("A should exist");
    assert_eq!(entry_name(&c, idx), "LATIN CAPITAL LETTER A");
}

#[test]
fn lookup_hit_emoji() {
    let c = fixture_corpus();
    let idx = lookup(&c, 0x1F600).expect("grinning face should exist");
    assert_eq!(entry_name(&c, idx), "GRINNING FACE");
}

#[test]
fn lookup_miss_surrogate() {
    let c = fixture_corpus();
    assert!(lookup(&c, 0xD800).is_none());
}

#[test]
fn lookup_miss_above_range() {
    let c = fixture_corpus();
    assert!(lookup(&c, 0xFFFFFF).is_none());
}

#[test]
fn lookup_miss_unsassigned() {
    let c = fixture_corpus();
    assert!(lookup(&c, 0x0378).is_none());
}

#[test]
fn lookup_str_uplus_format() {
    let c = fixture_corpus();
    let idx = lookup_str(&c, "U+0041").expect("U+0041 should resolve");
    assert_eq!(codepoint(&c, idx), 0x41);
}

#[test]
fn lookup_str_uplus_lowercase() {
    let c = fixture_corpus();
    let idx = lookup_str(&c, "u+0041").expect("u+0041 should resolve");
    assert_eq!(codepoint(&c, idx), 0x41);
}

#[test]
fn lookup_str_0x_format() {
    let c = fixture_corpus();
    let idx = lookup_str(&c, "0x0041").expect("0x0041 should resolve");
    assert_eq!(codepoint(&c, idx), 0x41);
}

#[test]
fn lookup_str_hex_only() {
    let c = fixture_corpus();
    let idx = lookup_str(&c, "0041").expect("0041 should resolve");
    assert_eq!(codepoint(&c, idx), 0x41);
}

#[test]
fn lookup_str_single_ascii_char() {
    let c = fixture_corpus();
    let idx = lookup_str(&c, "A").expect("A should resolve");
    assert_eq!(codepoint(&c, idx), 0x41);
}

#[test]
fn lookup_str_single_non_ascii_char() {
    let c = fixture_corpus();
    let idx = lookup_str(&c, "\u{1F600}").expect("emoji should resolve");
    assert_eq!(codepoint(&c, idx), 0x1F600);
}

#[test]
fn lookup_str_trimmed() {
    let c = fixture_corpus();
    let idx = lookup_str(&c, "  U+0041  ").expect("trimmed should resolve");
    assert_eq!(codepoint(&c, idx), 0x41);
}

#[test]
fn lookup_str_not_found() {
    let c = fixture_corpus();
    assert!(lookup_str(&c, "ZZZZ_NOT_A_CODEPOINT").is_none());
}

#[test]
fn parse_cp_str_bare_hex_multi_char_ascii() {
    assert_eq!(parse_cp_str("0041"), Some(0x0041));
}

#[test]
fn parse_cp_str_too_long_multi_char_ascii() {
    assert_eq!(parse_cp_str("AB"), Some(0xAB));
}

#[test]
fn parse_cp_str_empty() {
    assert_eq!(parse_cp_str(""), None);
}

#[test]
fn entries_are_sorted() {
    let c = fixture_corpus();
    let n = num_entries(&c);
    for i in 1..n {
        let prev = codepoint(&c, Idx(i as u32 - 1));
        let cur = codepoint(&c, Idx(i as u32));
        assert!(prev <= cur, "entries not sorted at index {i}: {prev} > {cur}");
    }
}

#[test]
fn entries_lookup_roundtrip() {
    let c = fixture_corpus();
    let idx = lookup(&c, 0x0041).expect("A should exist");
    assert_eq!(codepoint(&c, idx), 0x0041);
    assert_eq!(entry_str(&c, idx, FIELD_GLYPH), "A");
    assert_eq!(entry_name(&c, idx), "LATIN CAPITAL LETTER A");
}

#[test]
fn parse_cp_str_forms() {
    assert_eq!(parse_cp_str("U+1F600"), Some(0x1F600));
    assert_eq!(parse_cp_str("0x+ff"), Some(0xFF));
    assert_eq!(parse_cp_str("\t 279f \n"), Some(0x279F));
    assert_eq!(parse_cp_str("é"), Some(0xE9));
    assert_eq!(parse_cp_str("éé"), Some(0xE9));
    assert_eq!(parse_cp_str("U+"), None);
    assert_eq!(parse_cp_str("0x"), None);
    assert_eq!(parse_cp_str("   "), None);
    assert_eq!(parse_cp_str("U+110000000"), None);
    assert_eq!(parse_cp_str("FFFFFFFF"), Some(0xFFFF_FFFF));
    assert_eq!(parse_cp_str("100000000"), None);
    assert_eq!(parse_cp_str("0X41"), None);
}

#[test]
fn field_accessors() {
    let c = fixture_corpus();
    let idx = lookup(&c, 0xE7A8).expect("icon should exist");
    assert_eq!(entry_source(&c, idx), "nerdfonts");
    assert_eq!(entry_category(&c, idx), "Co");
    assert_eq!(entry_block(&c, idx), "Private Use Area");
    assert_eq!(entry_icon_set(&c, idx), "dev");
    assert_eq!(entry_name(&c, idx), "nf-dev-rust");
}

#[test]
fn category_and_name_of_codepoint() {
    let c = fixture_corpus();
    assert_eq!(category_of(&c, 0x41), Some("Lu"));
    assert_eq!(category_of(&c, 0x1F600), Some("So"));
    assert_eq!(category_of(&c, 0x378), None);
    assert_eq!(lookup_name(&c, 0x61), Some("LATIN SMALL LETTER A"));
    assert_eq!(lookup_name(&c, 0x62), None);
}

#[test]
fn sources_and_icon_sets_are_distinct_and_sorted() {
    let c = fixture_corpus();
    assert_eq!(list_sources(&c), vec!["nerdfonts", "unicode"]);
    assert_eq!(list_icon_sets(&c), vec!["dev"]);
}

#[test]
fn icon_set_descriptions() {
    assert_eq!(icon_set_description("cod"), "Codicons");
    assert_eq!(icon_set_description("indent"), "Extra glyphs");
    assert_eq!(icon_set_description("indentation"), "Extra glyphs");
    assert_eq!(icon_set_description("weather"), "Weather Icons");
    assert_eq!(icon_set_description("nope"), "");
}

#[test]
fn from_blobs_refuses_bad_tables() {
    assert!(Corpus::from_blobs(vec![], vec![1, 2, 3], vec![], vec![], vec![], vec![]).is_none());
    let cps: Vec<u8> = [2u32, 1u32].iter().flat_map(|x| x.to_le_bytes()).collect();
    let offs = vec![0u8; 4 * 17 * 2];
    let lens = vec![0u8; 2 * 17 * 2];
    assert!(
        Corpus::from_blobs(vec![], cps.clone(), offs.clone(), lens.clone(), vec![0; 8], vec![0; 4])
            .is_none()
    );
    let sorted: Vec<u8> = [0xD800u32, 0xD801u32].iter().flat_map(|x| x.to_le_bytes()).collect();
    assert!(
        Corpus::from_blobs(vec![], sorted.clone(), offs.clone(), lens.clone(), vec![0; 8], vec![0; 4])
            .is_some()
    );
    let mut bad_len = lens.clone();
    bad_len[0] = 5;
    assert!(Corpus::from_blobs(vec![b'x'; 4], sorted.clone(), offs, bad_len, vec![0; 8], vec![0; 4]).is_none());
    let mut utf_off = vec![0u8; 4 * 17 * 2];
    utf_off[0] = 0;
    let mut utf_len = vec![0u8; 2 * 17 * 2];
    utf_len[0] = 1;
    assert!(Corpus::from_blobs(vec![0xFF], sorted, utf_off, utf_len, vec![0; 8], vec![0; 4]).is_none());
}

#[test]
fn from_blobs_checks_glyph_field() {
    let one: Vec<u8> = 0x41u32.to_le_bytes().to_vec();
    let mut offs = vec![0u8; 4 * 17];
    let mut lens = vec![0u8; 2 * 17];
    lens[0] = 1;
    assert!(Corpus::from_blobs(b"A".to_vec(), one.clone(), offs.clone(), lens.clone(), vec![0; 4], vec![0; 2]).is_some());
    assert!(Corpus::from_blobs(b"B".to_vec(), one.clone(), offs.clone(), lens.clone(), vec![0; 4], vec![0; 2]).is_none());
    lens[0] = 0;
    assert!(Corpus::from_blobs(b"A".to_vec(), one, offs.clone(), lens.clone(), vec![0; 4], vec![0; 2]).is_none());
    let surrogate: Vec<u8> = 0xD800u32.to_le_bytes().to_vec();
    offs[0] = 0;
    assert!(Corpus::from_blobs(b"A".to_vec(), surrogate, offs, lens, vec![0; 4], vec![0; 2]).is_some());
}

#[test]
fn glyph_field_is_the_character() {
    let c = fixture_corpus();
    for i in 0..num_entries(&c) {
        let idx = Idx(i as u32);
        let expected = char::from_u32(codepoint(&c, idx)).map(|ch| ch.to_string()).unwrap_or_default();
        assert_eq!(entry_str(&c, idx, FIELD_GLYPH), expected);
    }
}
