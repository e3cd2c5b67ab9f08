use glyf::block::{Block, Blocks};
use glyf::corpus::{codepoint, entry_name, lookup, Corpus, Idx};
use glyf::filter::{
    entry_in_bounds, list_entries, options_filter, pool, resolve_filter, search_filtered,
    validate_str_list, Filter,
};
use glyf::frecency::Frecency;
use glyf::search::search_all;
use glyf::Sort;

fn row(cp: u32, fields: [&'static str; 17]) -> (u32, [&'static str; 17]) {
    (cp, fields)
}

fn uni(glyph: &'static str, name: &'static str, cat: &'static str, block: &'static str) -> [&'static str; 17] {
    [glyph, name, "unicode", cat, "0", "L", "", "", "", "", "N", "", "", "", "", block, ""]
}

fn fixture_rows() -> Vec<(u32, [&'static str; 17])> {
    vec![
        row(0x0021, uni("!", "EXCLAMATION MARK", "Po", "Basic Latin")),
        row(0x0028, uni("(", "LEFT PARENTHESIS", "Ps", "Basic Latin")),
        row(0x0029, uni(")", "RIGHT PARENTHESIS", "Pe", "Basic Latin")),
        row(0x002D, uni("-", "HYPHEN-MINUS", "Pd", "Basic Latin")),
        row(0x0030, uni("0", "DIGIT ZERO", "Nd", "Basic Latin")),
        row(
            0x0041,
            [
                "A", "LATIN CAPITAL LETTER A", "unicode", "Lu", "0", "L", "", "", "", "", "N", "", "", "0061",
                "", "Basic Latin", "",
            ],
        ),
        row(
            0x0042,
            [
                "B", "LATIN CAPITAL LETTER B", "unicode", "Lu", "0", "L", "", "", "", "", "N", "", "", "0062",
                "", "Basic Latin", "",
            ],
        ),
        row(
            0x0043,
            [
                "C", "LATIN CAPITAL LETTER C", "unicode", "Lu", "0", "L", "", "", "", "", "N", "", "", "0063",
                "", "Basic Latin", "",
            ],
        ),
        row(0x005F, uni("_", "LOW LINE", "Pc", "Basic Latin")),
        row(
            0x0061,
            [
                "a", "LATIN SMALL LETTER A", "unicode", "Ll", "0", "L", "", "", "", "", "N", "", "0041", "",
                "0041", "Basic Latin", "",
            ],
        ),
        row(0x00AB, uni("\u{AB}", "LEFT-POINTING DOUBLE ANGLE QUOTATION MARK", "Pi", "Latin-1 Supplement")),
        row(0x00BB, uni("\u{BB}", "RIGHT-POINTING DOUBLE ANGLE QUOTATION MARK", "Pf", "Latin-1 Supplement")),
        row(0x00E9, uni("\u{E9}", "LATIN SMALL LETTER E WITH ACUTE", "Ll", "Latin-1 Supplement")),
        row(
            0x01C5,
            uni(
                "\u{1C5}",
                "LATIN CAPITAL LETTER D WITH SMALL LETTER Z WITH CARON",
                "Lt",
                "Latin Extended-B",
            ),
        ),
        row(0x02B0, uni("\u{2B0}", "MODIFIER LETTER SMALL H", "Lm", "Spacing Modifier Letters")),
        row(0x05D0, uni("\u{5D0}", "HEBREW LETTER ALEF", "Lo", "Hebrew")),
        row(0x266A, uni("\u{266A}", "EIGHTH NOTE", "So", "Miscellaneous Symbols")),
        row(
            0xE7A8,
            [
                "\u{E7A8}", "nf-dev-rust", "nerdfonts", "Co", "", "", "", "", "", "", "", "", "", "", "",
                "Private Use Area", "dev",
            ],
        ),
        row(0x1F600, uni("\u{1F600}", "GRINNING FACE", "So", "Emoticons")),
        row(0x1F601, uni("\u{1F601}", "GRINNING FACE WITH SMILING EYES", "So", "Emoticons")),
    ]
}

fn fixture_corpus() -> Corpus {
    let mut strings: Vec<u8> = Vec::new();
    let mut cps: Vec<u8> = Vec::new();
    let mut offs: Vec<u8> = Vec::new();
    let mut lens: Vec<u8> = Vec::new();
    let mut name_offs: Vec<u8> = Vec::new();
    let mut name_lens: Vec<u8> = Vec::new();
    for (cp, fields) in fixture_rows() {
        cps.extend_from_slice(&cp.to_le_bytes());
        for (i, f) in fields.iter().enumerate() {
            let off = strings.len() as u32;
            let len = f.len() as u16;
            strings.extend_from_slice(f.as_bytes());
            offs.extend_from_slice(&off.to_le_bytes());
            lens.extend_from_slice(&len.to_le_bytes());
            if i == 1 {
                name_offs.extend_from_slice(&off.to_le_bytes());
                name_lens.extend_from_slice(&len.to_le_bytes());
            }
        }
    }
    Corpus::from_blobs(strings, cps, offs, lens, name_offs, name_lens).expect("fixture tables are valid")
}

fn fixture_blocks() -> Blocks {
    let table: [(u32, u32, &str); 25] = [
        (0x0000, 0x007F, "Basic Latin"),
        (0x0080, 0x00FF, "Latin-1 Supplement"),
        (0x0100, 0x017F, "Latin Extended-A"),
        (0x0180, 0x024F, "Latin Extended-B"),
        (0x0250, 0x02AF, "IPA Extensions"),
        (0x02B0, 0x02FF, "Spacing Modifier Letters"),
        (0x0300, 0x036F, "Combining Diacritical Marks"),
        (0x0370, 0x03FF, "Greek and Coptic"),
        (0x0400, 0x04FF, "Cyrillic"),
        (0x0500, 0x052F, "Cyrillic Supplement"),
        (0x0530, 0x058F, "Armenian"),
        (0x0590, 0x05FF, "Hebrew"),
        (0x0600, 0x06FF, "Arabic"),
        (0x0700, 0x074F, "Syriac"),
        (0x0750, 0x077F, "Arabic Supplement"),
        (0x0780, 0x07BF, "Thaana"),
        (0x07C0, 0x07FF, "NKo"),
        (0x2600, 0x26FF, "Miscellaneous Symbols"),
        (0xD800, 0xDB7F, "High Surrogates"),
        (0xDB80, 0xDBFF, "High Private Use Surrogates"),
        (0xDC00, 0xDFFF, "Low Surrogates"),
        (0xE000, 0xF8FF, "Private Use Area"),
        (0x14400, 0x1467F, "Anatolian Hieroglyphs"),
        (0x16800, 0x16A3F, "Bamum Supplement"),
        (0x1F600, 0x1F64F, "Emoticons"),
    ];
    let blocks: Vec<Block> = table
        .iter()
        .map(|&(start, end, name)| Block { range: start..end + 1, name: name.to_string() })
        .collect();
    Blocks::new(blocks).expect("fixture blocks are ordered")
}

fn strings(items: &[&str]) -> Vec<String> {
    items.iter().map(|s| s.to_string()).collect()
}

fn empty_filter() -> Filter {
    Filter { ranges: vec![], sources: vec![], icon_sets: vec![], categories: vec![] }
}

fn cps(c: &Corpus, idxs: &[Idx]) -> Vec<u32> {
    idxs.iter().map(|&i| codepoint(c, i)).collect()
}

#[test]
fn resolve_filter_without_options_is_empty() {
    let c = fixture_corpus();
    let b = fixture_blocks();
    let f = resolve_filter(&c, &b, None, &vec![], &vec![], &vec![]).expect("no options");
    assert!(f.ranges.is_empty());
    assert!(f.sources.is_empty());
    assert!(f.icon_sets.is_empty());
    assert!(f.categories.is_empty());
}

#[test]
fn resolve_filter_block_ignores_ascii_case() {
    let c = fixture_corpus();
    let b = fixture_blocks();
    let f = resolve_filter(&c, &b, Some("basic LATIN"), &vec![], &vec![], &vec![]).expect("known block");
    assert_eq!(f.ranges, vec![0x0000..0x0080]);
}

#[test]
fn resolve_filter_unknown_block() {
    let c = fixture_corpus();
    let b = fixture_blocks();
    let r = resolve_filter(&c, &b, Some("Nope"), &strings(&["Xx"]), &vec![], &vec![]);
    assert_eq!(r.err(), Some("unknown block 'Nope'".to_string()));
}

#[test]
fn resolve_filter_category_pattern() {
    let c = fixture_corpus();
    let b = fixture_blocks();
    let f = resolve_filter(&c, &b, None, &strings(&["L*", "So"]), &vec![], &vec![]).expect("known");
    assert_eq!(f.categories, strings(&["Ll", "Lm", "Lo", "Lt", "Lu", "So"]));
    let g = resolve_filter(&c, &b, None, &strings(&["Lu", "L*"]), &vec![], &vec![]).expect("known");
    assert_eq!(g.categories, strings(&["Lu", "Ll", "Lm", "Lo", "Lt", "Lu"]));
}

#[test]
fn resolve_filter_unknown_category() {
    let c = fixture_corpus();
    let b = fixture_blocks();
    let r = resolve_filter(&c, &b, None, &strings(&["Lu", "Xx"]), &strings(&["bogus"]), &vec![]);
    assert_eq!(r.err(), Some("unknown category 'Xx' (did you mean 'Xx*'?)".to_string()));
    let r = resolve_filter(&c, &b, None, &strings(&["Q*"]), &vec![], &vec![]);
    assert_eq!(r.err(), Some("unknown category pattern 'Q*'".to_string()));
}

#[test]
fn resolve_filter_sources_and_icon_sets() {
    let c = fixture_corpus();
    let b = fixture_blocks();
    let f = resolve_filter(
        &c,
        &b,
        None,
        &vec![],
        &strings(&["nerdfonts", "unicode", "nerdfonts"]),
        &strings(&["dev"]),
    )
    .expect("known sources and icon sets");
    assert_eq!(f.sources, strings(&["nerdfonts", "unicode"]));
    assert_eq!(f.icon_sets, strings(&["dev"]));
    let r = resolve_filter(&c, &b, None, &vec![], &strings(&["unicode", "bogus"]), &strings(&["zz"]));
    assert_eq!(r.err(), Some("unknown source 'bogus'".to_string()));
    let r = resolve_filter(&c, &b, None, &vec![], &vec![], &strings(&["dev", "zz"]));
    assert_eq!(r.err(), Some("unknown icon set 'zz'".to_string()));
}

#[test]
fn validate_str_list_keeps_first_occurrences() {
    let known = strings(&["a", "b", "c"]);
    let mut out = strings(&["b"]);
    assert_eq!(validate_str_list(&known, &strings(&["c", "b", "a", "c"]), &mut out, "thing"), Ok(()));
    assert_eq!(out, strings(&["b", "c", "a"]));
    let mut out2 = vec![];
    let r = validate_str_list(&known, &strings(&["a", "d", "e"]), &mut out2, "thing");
    assert_eq!(r, Err("unknown thing 'd'".to_string()));
}

#[test]
fn entry_in_bounds_checks_every_condition() {
    let c = fixture_corpus();
    let a = lookup(&c, 0x0041).expect("A");
    let rust = lookup(&c, 0xE7A8).expect("rust icon");
    assert!(entry_in_bounds(&c, a, &empty_filter()));
    let mut f = empty_filter();
    f.ranges = vec![0x0000..0x0080];
    assert!(entry_in_bounds(&c, a, &f));
    assert!(!entry_in_bounds(&c, rust, &f));
    let mut g = empty_filter();
    g.categories = strings(&["Lu"]);
    g.sources = strings(&["unicode"]);
    assert!(entry_in_bounds(&c, a, &g));
    g.icon_sets = strings(&["dev"]);
    assert!(!entry_in_bounds(&c, a, &g));
    let mut h = empty_filter();
    h.icon_sets = strings(&["dev"]);
    assert!(entry_in_bounds(&c, rust, &h));
}

#[test]
fn pool_of_block_and_category() {
    let c = fixture_corpus();
    let mut f = empty_filter();
    f.ranges = vec![0x0000..0x0080];
    f.categories = strings(&["Lu"]);
    assert_eq!(cps(&c, &pool(&c, &f)), vec![0x41, 0x42, 0x43]);
}

#[test]
fn pool_goes_range_after_range() {
    let c = fixture_corpus();
    let mut f = empty_filter();
    f.ranges = vec![0x1F600..0x1F650, 0x0040..0x0043];
    assert_eq!(cps(&c, &pool(&c, &f)), vec![0x1F600, 0x1F601, 0x41, 0x42]);
    assert!(pool(&c, &{
        let mut g = empty_filter();
        g.ranges = vec![0x3000..0x3100];
        g
    })
    .is_empty());
}

#[test]
fn list_entries_orders() {
    let c = fixture_corpus();
    let mut f = empty_filter();
    f.categories = strings(&["So"]);
    let rel = list_entries(&c, &f, Sort::Relevance);
    assert_eq!(cps(&c, &rel), vec![0x266A, 0x1F600, 0x1F601]);
    let by_name = list_entries(&c, &f, Sort::Name);
    let names: Vec<&str> = by_name.iter().map(|&i| entry_name(&c, i)).collect();
    assert_eq!(names, vec!["EIGHTH NOTE", "GRINNING FACE", "GRINNING FACE WITH SMILING EYES"]);
    let mut g = empty_filter();
    g.categories = strings(&["Lu", "Ll"]);
    let by_cp = list_entries(&c, &g, Sort::Codepoint);
    assert_eq!(cps(&c, &by_cp), vec![0x41, 0x42, 0x43, 0x61, 0xE9]);
    let names: Vec<&str> =
        list_entries(&c, &g, Sort::Name).iter().map(|&i| entry_name(&c, i)).collect();
    assert_eq!(
        names,
        vec![
            "LATIN CAPITAL LETTER A",
            "LATIN CAPITAL LETTER B",
            "LATIN CAPITAL LETTER C",
            "LATIN SMALL LETTER A",
            "LATIN SMALL LETTER E WITH ACUTE",
        ]
    );
}

#[test]
fn list_entries_unfiltered_lists_all() {
    let c = fixture_corpus();
    let all = list_entries(&c, &empty_filter(), Sort::Relevance);
    assert_eq!(all.len(), 20);
    assert_eq!(codepoint(&c, all[0]), 0x21);
    assert_eq!(codepoint(&c, all[19]), 0x1F601);
}

#[test]
fn search_filtered_without_filter_is_search_all() {
    let c = fixture_corpus();
    let frec = Frecency::empty_for_testing();
    let a = search_filtered(&c, "GRINNING", &frec, 10, Some(2), Sort::Relevance, &empty_filter());
    let b = search_all(&c, "GRINNING", &frec, 10, Some(2), Sort::Relevance);
    assert_eq!(cps(&c, &a.iter().map(|m| m.idx).collect::<Vec<_>>()), cps(&c, &b.iter().map(|m| m.idx).collect::<Vec<_>>()));
    assert!(!a.is_empty());
}

#[test]
fn search_filtered_restricts_to_pool() {
    let c = fixture_corpus();
    let mut frec = Frecency::empty_for_testing();
    frec.record(0x0041);
    frec.record(0x266A);
    frec.record(0x266A);
    let mut f = empty_filter();
    f.categories = strings(&["So"]);
    let r = search_filtered(&c, "", &frec, 10, None, Sort::Relevance, &f);
    assert_eq!(r.len(), 1);
    assert_eq!(codepoint(&c, r[0].idx), 0x266A);
    assert_eq!(r[0].freq, 2);
    let hits = search_filtered(&c, "GRINNING", &frec, 10, Some(0), Sort::Codepoint, &f);
    assert!(hits.iter().all(|m| codepoint(&c, m.idx) >= 0x1F600));
    assert!(!hits.is_empty());
}

#[test]
fn search_filtered_empty_pool_finds_nothing() {
    let c = fixture_corpus();
    let frec = Frecency::empty_for_testing();
    let mut f = empty_filter();
    f.ranges = vec![0x3000..0x3100];
    assert!(search_filtered(&c, "LATIN", &frec, 10, Some(2), Sort::Relevance, &f).is_empty());
}

#[test]
fn options_filter_builds_lists() {
    let c = fixture_corpus();
    let b = fixture_blocks();
    let f = options_filter(
        &c,
        &b,
        Some("emoticons, Basic Latin,,"),
        Some(" Lu , S*"),
        Some((0x41, 0x42)),
        Some("unicode, nerdfonts"),
        Some("dev,, fa "),
    )
    .expect("valid options");
    assert_eq!(f.ranges, vec![0x1F600..0x1F650, 0x0000..0x0080, 0x41..0x43]);
    assert_eq!(f.categories, strings(&["Lu", "So"]));
    assert_eq!(f.sources, strings(&["unicode", "nerdfonts"]));
    assert_eq!(f.icon_sets, strings(&["dev", "fa"]));
}

#[test]
fn options_filter_absent_options() {
    let c = fixture_corpus();
    let b = fixture_blocks();
    let f = options_filter(&c, &b, None, None, None, None, None).expect("no options");
    assert!(f.ranges.is_empty() && f.categories.is_empty());
    assert!(f.sources.is_empty() && f.icon_sets.is_empty());
}

#[test]
fn options_filter_errors() {
    let c = fixture_corpus();
    let b = fixture_blocks();
    let r = options_filter(&c, &b, Some("Hebrew, Klingon"), Some("Xx"), None, None, None);
    assert_eq!(r.err(), Some("unknown block 'Klingon'".to_string()));
    let r = options_filter(&c, &b, Some("Hebrew"), Some("Lu, Xx"), None, None, None);
    assert_eq!(r.err(), Some("unknown category 'Xx' (did you mean 'Xx*'?)".to_string()));
}
