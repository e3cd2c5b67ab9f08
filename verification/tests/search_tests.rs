use glyf::corpus::{codepoint, entry_name, lookup, Corpus};
use glyf::frecency::Frecency;
use glyf::search::{search_all, search_in, MAX_QUERY_LEN};
use glyf::Sort;

fn row(cp: u32, fields: [&'static str; 17]) -> (u32, [&'static str; 17]) {
    (cp, fields)
}

fn uni(glyph: &'static str, name: &'static str, cat: &'static str, block: &'static str) -> [&'static str; 17] {
    [glyph, name, "unicode", cat, "0", "L", "", "", "", "", "N", "", "", "", "", block, ""]
}

fn fixture_rows() -> Vec<(u32, [&'static str; 17])> {
    vec![
        row(0x0021, uni("!", "EXCLAMATION MARK", "Po", "Basic Latin")),
        row(0x0028, uni("(", "LEFT PARENTHESIS", "Ps", "Basic Latin")),
        row(0x0029, uni(")", "RIGHT PARENTHESIS", "Pe", "Basic Latin")),
        row(0x002D, uni("-", "HYPHEN-MINUS", "Pd", "Basic Latin")),
        row(0x0030, uni("0", "DIGIT ZERO", "Nd", "Basic Latin")),
        row(
            0x0041,
            [
                "A", "LATIN CAPITAL LETTER A", "unicode", "Lu", "0", "L", "", "", "", "", "N", "", "", "0061",
                "", "Basic Latin", "",
            ],
        ),
        row(
            0x0042,
            [
                "B", "LATIN CAPITAL LETTER B", "unicode", "Lu", "0", "L", "", "", "", "", "N", "", "", "0062",
                "", "Basic Latin", "",
            ],
        ),
        row(
            0x0043,
            [
                "C", "LATIN CAPITAL LETTER C", "unicode", "Lu", "0", "L", "", "", "", "", "N", "", "", "0063",
                "", "Basic Latin", "",
            ],
        ),
        row(0x005F, uni("_", "LOW LINE", "Pc", "Basic Latin")),
        row(
            0x0061,
            [
                "a", "LATIN SMALL LETTER A", "unicode", "Ll", "0", "L", "", "", "", "", "N", "", "0041", "",
                "0041", "Basic Latin", "",
            ],
        ),
        row(0x00AB, uni("\u{AB}", "LEFT-POINTING DOUBLE ANGLE QUOTATION MARK", "Pi", "Latin-1 Supplement")),
        row(0x00BB, uni("\u{BB}", "RIGHT-POINTING DOUBLE ANGLE QUOTATION MARK", "Pf", "Latin-1 Supplement")),
        row(0x00E9, uni("\u{E9}", "LATIN SMALL LETTER E WITH ACUTE", "Ll", "Latin-1 Supplement")),
        row(
            0x01C5,
            uni(
                "\u{1C5}",
                "LATIN CAPITAL LETTER D WITH SMALL LETTER Z WITH CARON",
                "Lt",
                "Latin Extended-B",
            ),
        ),
        row(0x02B0, uni("\u{2B0}", "MODIFIER LETTER SMALL H", "Lm", "Spacing Modifier Letters")),
        row(0x05D0, uni("\u{5D0}", "HEBREW LETTER ALEF", "Lo", "Hebrew")),
        row(0x266A, uni("\u{266A}", "EIGHTH NOTE", "So", "Miscellaneous Symbols")),
        row(
            0xE7A8,
            [
                "\u{E7A8}", "nf-dev-rust", "nerdfonts", "Co", "", "", "", "", "", "", "", "", "", "", "",
                "Private Use Area", "dev",
            ],
        ),
        row(0x1F600, uni("\u{1F600}", "GRINNING FACE", "So", "Emoticons")),
        row(0x1F601, uni("\u{1F601}", "GRINNING FACE WITH SMILING EYES", "So", "Emoticons")),
    ]
}

fn fixture_corpus() -> Corpus {
    let mut strings: Vec<u8> = Vec::new();
    let mut cps: Vec<u8> = Vec::new();
    let mut offs: Vec<u8> = Vec::new();
    let mut lens: Vec<u8> = Vec::new();
    let mut name_offs: Vec<u8> = Vec::new();
    let mut name_lens: Vec<u8> = Vec::new();
    for (cp, fields) in fixture_rows() {
        cps.extend_from_slice(&cp.to_le_bytes());
        for (i, f) in fields.iter().enumerate() {
            let off = strings.len() as u32;
            let len = f.len() as u16;
            strings.extend_from_slice(f.as_bytes());
            offs.extend_from_slice(&off.to_le_bytes());
            lens.extend_from_slice(&len.to_le_bytes());
            if i == 1 {
                name_offs.extend_from_slice(&off.to_le_bytes());
                name_lens.extend_from_slice(&len.to_le_bytes());
            }
        }
    }
    Corpus::from_blobs(strings, cps, offs, lens, name_offs, name_lens).expect("fixture tables are valid")
}

#[test]
fn search_exact_finds_result() {
    let c = fixture_corpus();
    let frec = Frecency::empty_for_testing();
    let results = search_all(&c, "LATIN CAPITAL LETTER A", &frec, 10, Some(0), Sort::Relevance);
    assert!(!results.is_empty());
    assert_eq!(entry_name(&c, results[0].idx), "LATIN CAPITAL LETTER A");
}

#[test]
fn search_fuzzy_finds_result() {
    let c = fixture_corpus();
    let frec = Frecency::empty_for_testing();
    let results = search_all(&c, "GRINNING", &frec, 10, Some(2), Sort::Relevance);
    assert!(!results.is_empty());
    assert!(results.iter().any(|m| entry_name(&c, m.idx) == "GRINNING FACE"));
}

#[test]
fn search_empty_query_returns_empty_with_cold_frecency() {
    let c = fixture_corpus();
    let frec = Frecency::empty_for_testing();
    let results = search_all(&c, "", &frec, 10, None, Sort::Relevance);
    assert!(results.is_empty());
}

#[test]
fn search_empty_query_returns_frecency_hits() {
    let c = fixture_corpus();
    let mut frec = Frecency::empty_for_testing();
    frec.record(0x0041);
    let results = search_all(&c, "", &frec, 10, None, Sort::Relevance);
    assert_eq!(results.len(), 1);
    assert_eq!(codepoint(&c, results[0].idx), 0x0041);
}

#[test]
fn search_empty_query_respects_limit() {
    let c = fixture_corpus();
    let mut frec = Frecency::empty_for_testing();
    frec.record(0x0041);
    frec.record(0x0042);
    let results = search_all(&c, "", &frec, 1, None, Sort::Relevance);
    assert_eq!(results.len(), 1);
}

#[test]
fn search_too_long_query_returns_empty() {
    let c = fixture_corpus();
    let frec = Frecency::empty_for_testing();
    let long_query = "A".repeat(MAX_QUERY_LEN + 1);
    let results = search_all(&c, &long_query, &frec, 10, None, Sort::Relevance);
    assert!(results.is_empty());
}

#[test]
fn search_no_results_returns_empty() {
    let c = fixture_corpus();
    let frec = Frecency::empty_for_testing();
    let results = search_all(&c, "XYZZY_NONEXISTENT", &frec, 10, Some(0), Sort::Relevance);
    assert!(results.is_empty());
}

#[test]
fn search_sort_by_name() {
    let c = fixture_corpus();
    let mut frec = Frecency::empty_for_testing();
    frec.record(0x0041);
    frec.record(0x0042);
    let results = search_all(&c, "", &frec, 10, None, Sort::Name);
    assert_eq!(results.len(), 2);
    assert!(entry_name(&c, results[0].idx) <= entry_name(&c, results[1].idx));
}

#[test]
fn search_sort_by_codepoint() {
    let c = fixture_corpus();
    let mut frec = Frecency::empty_for_testing();
    frec.record(0x0042);
    frec.record(0x0041);
    let results = search_all(&c, "", &frec, 10, None, Sort::Codepoint);
    assert_eq!(results.len(), 2);
    assert_eq!(codepoint(&c, results[0].idx), 0x0041);
    assert_eq!(codepoint(&c, results[1].idx), 0x0042);
}

#[test]
fn search_freq_no_clamp_needed_for_u16() {
    let c = fixture_corpus();
    let mut frec = Frecency::empty_for_testing();
    frec.record(0x0041);
    let results = search_all(&c, "LATIN CAPITAL LETTER A", &frec, 10, Some(0), Sort::Relevance);
    assert!(!results.is_empty());
}

#[test]
fn search_in_restricted_pool() {
    let c = fixture_corpus();
    let frec = Frecency::empty_for_testing();
    let idx = lookup(&c, 0x0041).expect("A must be in corpus");
    let indices = vec![idx];
    let names = vec![entry_name(&c, idx)];
    let results = search_in(&c, "A", &indices, &names, &frec, 10, Some(0), Sort::Relevance);
    assert_eq!(results.len(), 1);
    assert_eq!(codepoint(&c, results[0].idx), 0x0041);
}

#[test]
fn search_in_empty_pool_yields_empty() {
    let c = fixture_corpus();
    let frec = Frecency::empty_for_testing();
    let results = search_in(&c, "A", &[], &[], &frec, 10, Some(0), Sort::Relevance);
    assert!(results.is_empty());
}

#[test]
fn search_index_within_bounds() {
    let c = fixture_corpus();
    let frec = Frecency::empty_for_testing();
    let results = search_all(&c, "A", &frec, 10, Some(1), Sort::Relevance);
    for m in &results {
        assert!(codepoint(&c, m.idx) > 0);
    }
}

#[test]
fn search_relevance_puts_frequent_first() {
    let c = fixture_corpus();
    let mut frec = Frecency::empty_for_testing();
    frec.record(0x0042);
    frec.record(0x0043);
    frec.record(0x0043);
    frec.record(0x0041);
    frec.record(0x0041);
    frec.record(0x0041);
    let results = search_all(&c, "", &frec, 10, None, Sort::Relevance);
    let cps: Vec<u32> = results.iter().map(|m| codepoint(&c, m.idx)).collect();
    assert_eq!(cps, vec![0x41, 0x43, 0x42]);
    assert_eq!(results[0].freq, 3);
    assert_eq!(results[0].score, 0);
}

#[test]
fn search_name_order_is_byte_order() {
    let c = fixture_corpus();
    let mut frec = Frecency::empty_for_testing();
    for cp in [0x1F600, 0x0061, 0x0041, 0x0021] {
        frec.record(cp);
    }
    let results = search_all(&c, "", &frec, 10, None, Sort::Name);
    let names: Vec<&str> = results.iter().map(|m| entry_name(&c, m.idx)).collect();
    assert_eq!(
        names,
        vec!["EXCLAMATION MARK", "GRINNING FACE", "LATIN CAPITAL LETTER A", "LATIN SMALL LETTER A"]
    );
}

#[test]
fn search_fuzzy_sorted_by_codepoint() {
    let c = fixture_corpus();
    let frec = Frecency::empty_for_testing();
    let results = search_all(&c, "grinning", &frec, 10, Some(0), Sort::Codepoint);
    let cps: Vec<u32> = results.iter().map(|m| codepoint(&c, m.idx)).collect();
    assert_eq!(cps, vec![0x1F600, 0x1F601]);
}

#[test]
fn search_ascii_query_ignores_case() {
    let c = fixture_corpus();
    let frec = Frecency::empty_for_testing();
    let lower = search_all(&c, "grinning face", &frec, 10, Some(1), Sort::Relevance);
    let upper = search_all(&c, "GRINNING FACE", &frec, 10, Some(1), Sort::Relevance);
    let key = |r: &Vec<glyf::search::Match>| -> Vec<(u32, u16, u16)> {
        r.iter().map(|m| (codepoint(&c, m.idx), m.score, m.freq)).collect()
    };
    assert!(!lower.is_empty());
    assert_eq!(key(&lower), key(&upper));
    let mixed = search_all(&c, "Latin Capital Letter A", &frec, 10, Some(0), Sort::Relevance);
    assert_eq!(entry_name(&c, mixed[0].idx), "LATIN CAPITAL LETTER A");
    assert!(search_all(&c, "tschüß", &frec, 10, Some(0), Sort::Relevance).is_empty());
}

#[test]
fn lookup_hit_clamps_picks() {
    let c = fixture_corpus();
    let mut frec = Frecency::empty_for_testing();
    frec.record(0x0041);
    frec.record(0x0041);
    let a = lookup(&c, 0x0041).expect("A");
    let m = glyf::search::lookup_hit(&c, a, &frec);
    assert_eq!((m.score, m.freq), (0, 2));
    assert_eq!(codepoint(&c, m.idx), 0x41);
}
