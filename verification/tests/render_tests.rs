use glyf::block::{Block, Blocks};
use glyf::category::list;
use glyf::corpus::{list_icon_sets, lookup, Corpus, Idx};
use glyf::frecency::Frecency;
use glyf::output::{
    block_lines, category_lines, icon_set_lines, pretty_rows, render_results, Format,
};
use glyf::search::{rank_fuzzy_hits, Match};
use glyf::text::split_csv;
use glyf::{parse_sort, Sort};

fn row(cp: u32, fields: [&'static str; 17]) -> (u32, [&'static str; 17]) {
    (cp, fields)
}

fn uni(glyph: &'static str, name: &'static str, cat: &'static str, block: &'static str) -> [&'static str; 17] {
    [glyph, name, "unicode", cat, "0", "L", "", "", "", "", "N", "", "", "", "", block, ""]
}

fn fixture_rows() -> Vec<(u32, [&'static str; 17])> {
    vec![
        row(0x0021, uni("!", "EXCLAMATION MARK", "Po", "Basic Latin")),
        row(0x0028, uni("(", "LEFT PARENTHESIS", "Ps", "Basic Latin")),
        row(0x0029, uni(")", "RIGHT PARENTHESIS", "Pe", "Basic Latin")),
        row(0x002D, uni("-", "HYPHEN-MINUS", "Pd", "Basic Latin")),
        row(0x0030, uni("0", "DIGIT ZERO", "Nd", "Basic Latin")),
        row(
            0x0041,
            [
                "A", "LATIN CAPITAL LETTER A", "unicode", "Lu", "0", "L", "", "", "", "", "N", "", "", "0061",
                "", "Basic Latin", "",
            ],
        ),
        row(
            0x0042,
            [
                "B", "LATIN CAPITAL LETTER B", "unicode", "Lu", "0", "L", "", "", "", "", "N", "", "", "0062",
                "", "Basic Latin", "",
            ],
        ),
        row(
            0x0043,
            [
                "C", "LATIN CAPITAL LETTER C", "unicode", "Lu", "0", "L", "", "", "", "", "N", "", "", "0063",
                "", "Basic Latin", "",
            ],
        ),
        row(0x005F, uni("_", "LOW LINE", "Pc", "Basic Latin")),
        row(
            0x0061,
            [
                "a", "LATIN SMALL LETTER A", "unicode", "Ll", "0", "L", "", "", "", "", "N", "", "0041", "",
                "0041", "Basic Latin", "",
            ],
        ),
        row(0x00AB, uni("\u{AB}", "LEFT-POINTING DOUBLE ANGLE QUOTATION MARK", "Pi", "Latin-1 Supplement")),
        row(0x00BB, uni("\u{BB}", "RIGHT-POINTING DOUBLE ANGLE QUOTATION MARK", "Pf", "Latin-1 Supplement")),
        row(0x00E9, uni("\u{E9}", "LATIN SMALL LETTER E WITH ACUTE", "Ll", "Latin-1 Supplement")),
        row(
            0x01C5,
            uni(
                "\u{1C5}",
                "LATIN CAPITAL LETTER D WITH SMALL LETTER Z WITH CARON",
                "Lt",
                "Latin Extended-B",
            ),
        ),
        row(0x02B0, uni("\u{2B0}", "MODIFIER LETTER SMALL H", "Lm", "Spacing Modifier Letters")),
        row(0x05D0, uni("\u{5D0}", "HEBREW LETTER ALEF", "Lo", "Hebrew")),
        row(0x266A, uni("\u{266A}", "EIGHTH NOTE", "So", "Miscellaneous Symbols")),
        row(
            0xE7A8,
            [
                "\u{E7A8}", "nf-dev-rust", "nerdfonts", "Co", "", "", "", "", "", "", "", "", "", "", "",
                "Private Use Area", "dev",
            ],
        ),
        row(0x1F600, uni("\u{1F600}", "GRINNING FACE", "So", "Emoticons")),
        row(0x1F601, uni("\u{1F601}", "GRINNING FACE WITH SMILING EYES", "So", "Emoticons")),
    ]
}

fn fixture_corpus() -> Corpus {
    let mut strings: Vec<u8> = Vec::new();
    let mut cps: Vec<u8> = Vec::new();
    let mut offs: Vec<u8> = Vec::new();
    let mut lens: Vec<u8> = Vec::new();
    let mut name_offs: Vec<u8> = Vec::new();
    let mut name_lens: Vec<u8> = Vec::new();
    for (cp, fields) in fixture_rows() {
        cps.extend_from_slice(&cp.to_le_bytes());
        for (i, f) in fields.iter().enumerate() {
            let off = strings.len() as u32;
            let len = f.len() as u16;
            strings.extend_from_slice(f.as_bytes());
            offs.extend_from_slice(&off.to_le_bytes());
            lens.extend_from_slice(&len.to_le_bytes());
            if i == 1 {
                name_offs.extend_from_slice(&off.to_le_bytes());
                name_lens.extend_from_slice(&len.to_le_bytes());
            }
        }
    }
    Corpus::from_blobs(strings, cps, offs, lens, name_offs, name_lens).expect("fixture tables are valid")
}

fn idx(c: &Corpus, cp: u32) -> Idx {
    lookup(c, cp).expect("codepoint is in the fixture")
}

#[test]
fn pretty_rows_pad_names_to_longest() {
    let c = fixture_corpus();
    let rows = pretty_rows(&c, &[idx(&c, 0x0041), idx(&c, 0x266A)]);
    assert_eq!(
        rows,
        vec![
            "A\tU+0041\tLATIN CAPITAL LETTER A\tBasic Latin\n".to_string(),
            "\u{266A}\tU+266A\tEIGHTH NOTE           \tMiscellaneous Symbols\n".to_string(),
        ]
    );
    assert!(pretty_rows(&c, &[]).is_empty());
}

#[test]
fn pretty_rows_wide_codepoint() {
    let c = fixture_corpus();
    let rows = pretty_rows(&c, &[idx(&c, 0x1F600)]);
    assert_eq!(rows, vec!["\u{1F600}\tU+1F600\tGRINNING FACE\tEmoticons\n".to_string()]);
}

#[test]
fn render_results_per_format() {
    let c = fixture_corpus();
    let hits = vec![
        Match { idx: idx(&c, 0x0030), score: 0, freq: 0 },
        Match { idx: idx(&c, 0x0041), score: 0, freq: 0 },
    ];
    assert_eq!(render_results(&c, &hits, &Format::Plain), vec!["0\n".to_string(), "A\n".to_string()]);
    let pretty = render_results(&c, &hits, &Format::Pretty);
    assert_eq!(pretty[0], "0\tU+0030\tDIGIT ZERO            \tBasic Latin\n");
    assert_eq!(pretty[1], "A\tU+0041\tLATIN CAPITAL LETTER A\tBasic Latin\n");
    let tsv = render_results(&c, &hits, &Format::Tsv);
    assert!(tsv[0].starts_with("48\t0\tDIGIT ZERO\tunicode\tNd"));
}

#[test]
fn block_lines_align_names() {
    let blocks = Blocks::new(vec![
        Block { range: 0x0000..0x0080, name: "Basic Latin".to_string() },
        Block { range: 0x0590..0x0600, name: "Hebrew".to_string() },
        Block { range: 0x1F600..0x1F650, name: "Emoticons".to_string() },
    ])
    .expect("ordered");
    assert_eq!(
        block_lines(&blocks),
        vec![
            "Basic Latin  U+0000..U+007F".to_string(),
            "Hebrew       U+0590..U+05FF".to_string(),
            "Emoticons    U+1F600..U+1F64F".to_string(),
        ]
    );
}

#[test]
fn blocks_reject_empty_range() {
    assert!(Blocks::new(vec![Block { range: 0x10..0x10, name: "Empty".to_string() }]).is_none());
}

#[test]
fn category_lines_code_tab_desc() {
    let c = fixture_corpus();
    let lines = category_lines(&list(&c));
    assert_eq!(lines[0], "Co\tPrivate Use");
    assert!(lines.contains(&"Lu\tUppercase Letter".to_string()));
    assert_eq!(lines.len(), 15);
}

#[test]
fn icon_set_lines_pad_code() {
    let c = fixture_corpus();
    assert_eq!(icon_set_lines(&list_icon_sets(&c)), vec!["dev           Devicons".to_string()]);
    assert_eq!(
        icon_set_lines(&vec!["weather".to_string(), "unknownset123".to_string()]),
        vec!["weather       Weather Icons".to_string(), "unknownset123  ".to_string()]
    );
}

#[test]
fn split_csv_trims_and_drops_empty() {
    assert_eq!(split_csv(" a, b ,,c "), vec!["a", "b", "c"]);
    assert_eq!(split_csv("Basic Latin"), vec!["Basic Latin"]);
    assert!(split_csv("").is_empty());
    assert!(split_csv(" , ,").is_empty());
    assert_eq!(split_csv("x,\u{3000}y\t"), vec!["x", "y"]);
}

#[test]
fn parse_sort_names() {
    assert_eq!(parse_sort("relevance"), Some(Sort::Relevance));
    assert_eq!(parse_sort("score"), Some(Sort::Relevance));
    assert_eq!(parse_sort("name"), Some(Sort::Name));
    assert_eq!(parse_sort("codepoint"), Some(Sort::Codepoint));
    assert_eq!(parse_sort("Name"), None);
    assert_eq!(parse_sort(""), None);
}

#[test]
fn rank_fuzzy_hits_ranks_by_picks_then_score() {
    let c = fixture_corpus();
    let mut frec = Frecency::empty_for_testing();
    frec.record(0x0042);
    let idxs = vec![idx(&c, 0x0041), idx(&c, 0x0042), idx(&c, 0x0043)];
    let raw: Vec<(u32, u16)> = vec![(0, 90), (1, 10), (2, 120)];
    let r = rank_fuzzy_hits(&c, &idxs, &raw, &frec, 10, Sort::Relevance);
    let order: Vec<(u32, u16, u16)> =
        r.iter().map(|m| (glyf::corpus::codepoint(&c, m.idx), m.score, m.freq)).collect();
    assert_eq!(order, vec![(0x42, 10, 1), (0x43, 120, 0), (0x41, 90, 0)]);
    let top = rank_fuzzy_hits(&c, &idxs, &raw, &frec, 1, Sort::Codepoint);
    assert_eq!(top.len(), 1);
    assert_eq!(glyf::corpus::codepoint(&c, top[0].idx), 0x41);
}

#[test]
fn rank_fuzzy_hits_keeps_tied_hits_in_match_order() {
    let c = fixture_corpus();
    let frec = Frecency::empty_for_testing();
    let idxs = vec![idx(&c, 0x0041), idx(&c, 0x0042), idx(&c, 0x0043)];
    let raw: Vec<(u32, u16)> = vec![(2, 50), (0, 70), (1, 50)];
    let r = rank_fuzzy_hits(&c, &idxs, &raw, &frec, 10, Sort::Relevance);
    let order: Vec<u32> = r.iter().map(|m| glyf::corpus::codepoint(&c, m.idx)).collect();
    assert_eq!(order, vec![0x41, 0x43, 0x42]);
}

#[test]
fn trim_agrees_with_std_whitespace() {
    for u in 0u32..0x4000 {
        if let Some(ch) = char::from_u32(u) {
            let s = format!("{ch}x{ch}");
            assert_eq!(glyf::text::trim(&s), s.trim(), "U+{u:04X}");
        }
    }
    for u in [0xFEFFu32, 0x180E, 0x200B, 0x1F600, 0xE000, 0x10FFFF] {
        let s = format!("{}x", char::from_u32(u).unwrap());
        assert_eq!(glyf::text::trim(&s), s.trim());
    }
}

#[test]
fn split_str_and_lines_follow_std() {
    for text in ["", "a", "a\n", "a\r\nb", "a\n\nb\r", "\n", "x\r\n", "a\tb\t\tc"] {
        let ours = glyf::text::text_lines_of(text);
        let std_lines: Vec<String> = text.lines().map(|l| l.to_string()).collect();
        assert_eq!(ours, std_lines, "{text:?}");
        let pieces = glyf::text::split_str(text, '\t');
        let std_pieces: Vec<String> = text.split('\t').map(|l| l.to_string()).collect();
        assert_eq!(pieces, std_pieces, "{text:?}");
    }
}
