use glyf::category::{list, resolve};
use glyf::corpus::Corpus;

fn row(cp: u32, fields: [&'static str; 17]) -> (u32, [&'static str; 17]) {
    (cp, fields)
}

fn uni(glyph: &'static str, name: &'static str, cat: &'static str, block: &'static str) -> [&'static str; 17] {
    [glyph, name, "unicode", cat, "0", "L", "", "", "", "", "N", "", "", "", "", block, ""]
}

fn fixture_rows() -> Vec<(u32, [&'static str; 17])> {
    vec![
        row(0x0021, uni("!", "EXCLAMATION MARK", "Po", "Basic Latin")),
        row(0x0028, uni("(", "LEFT PARENTHESIS", "Ps", "Basic Latin")),
        row(0x0029, uni(")", "RIGHT PARENTHESIS", "Pe", "Basic Latin")),
        row(0x002D, uni("-", "HYPHEN-MINUS", "Pd", "Basic Latin")),
        row(0x0030, uni("0", "DIGIT ZERO", "Nd", "Basic Latin")),
        row(
            0x0041,
            [
                "A", "LATIN CAPITAL LETTER A", "unicode", "Lu", "0", "L", "", "", "", "", "N", "", "", "0061",
                "", "Basic Latin", "",
            ],
        ),
        row(
            0x0042,
            [
                "B", "LATIN CAPITAL LETTER B", "unicode", "Lu", "0", "L", "", "", "", "", "N", "", "", "0062",
                "", "Basic Latin", "",
            ],
        ),
        row(
            0x0043,
            [
                "C", "LATIN CAPITAL LETTER C", "unicode", "Lu", "0", "L", "", "", "", "", "N", "", "", "0063",
                "", "Basic Latin", "",
            ],
        ),
        row(0x005F, uni("_", "LOW LINE", "Pc", "Basic Latin")),
        row(
            0x0061,
            [
                "a", "LATIN SMALL LETTER A", "unicode", "Ll", "0", "L", "", "", "", "", "N", "", "0041", "",
                "0041", "Basic Latin", "",
            ],
        ),
        row(0x00AB, uni("\u{AB}", "LEFT-POINTING DOUBLE ANGLE QUOTATION MARK", "Pi", "Latin-1 Supplement")),
        row(0x00BB, uni("\u{BB}", "RIGHT-POINTING DOUBLE ANGLE QUOTATION MARK", "Pf", "Latin-1 Supplement")),
        row(0x00E9, uni("\u{E9}", "LATIN SMALL LETTER E WITH ACUTE", "Ll", "Latin-1 Supplement")),
        row(
            0x01C5,
            uni(
                "\u{1C5}",
                "LATIN CAPITAL LETTER D WITH SMALL LETTER Z WITH CARON",
                "Lt",
                "Latin Extended-B",
            ),
        ),
        row(0x02B0, uni("\u{2B0}", "MODIFIER LETTER SMALL H", "Lm", "Spacing Modifier Letters")),
        row(0x05D0, uni("\u{5D0}", "HEBREW LETTER ALEF", "Lo", "Hebrew")),
        row(0x266A, uni("\u{266A}", "EIGHTH NOTE", "So", "Miscellaneous Symbols")),
        row(
            0xE7A8,
            [
                "\u{E7A8}", "nf-dev-rust", "nerdfonts", "Co", "", "", "", "", "", "", "", "", "", "", "",
                "Private Use Area", "dev",
            ],
        ),
        row(0x1F600, uni("\u{1F600}", "GRINNING FACE", "So", "Emoticons")),
        row(0x1F601, uni("\u{1F601}", "GRINNING FACE WITH SMILING EYES", "So", "Emoticons")),
    ]
}

fn fixture_corpus() -> Corpus {
    let mut strings: Vec<u8> = Vec::new();
    let mut cps: Vec<u8> = Vec::new();
    let mut offs: Vec<u8> = Vec::new();
    let mut lens: Vec<u8> = Vec::new();
    let mut name_offs: Vec<u8> = Vec::new();
    let mut name_lens: Vec<u8> = Vec::new();
    for (cp, fields) in fixture_rows() {
        cps.extend_from_slice(&cp.to_le_bytes());
        for (i, f) in fields.iter().enumerate() {
            let off = strings.len() as u32;
            let len = f.len() as u16;
            strings.extend_from_slice(f.as_bytes());
            offs.extend_from_slice(&off.to_le_bytes());
            lens.extend_from_slice(&len.to_le_bytes());
            if i == 1 {
                name_offs.extend_from_slice(&off.to_le_bytes());
                name_lens.extend_from_slice(&len.to_le_bytes());
            }
        }
    }
    Corpus::from_blobs(strings, cps, offs, lens, name_offs, name_lens).expect("fixture tables are valid")
}

#[test]
fn resolve_exact() {
    let c = fixture_corpus();
    let r = resolve(&c, "Lu").unwrap();
    assert_eq!(r, vec!["Lu"]);
}

#[test]
fn resolve_wildcard_letters() {
    let c = fixture_corpus();
    let r = resolve(&c, "L*").unwrap();
    for cat in &["Lu", "Ll", "Lt", "Lm", "Lo"] {
        assert!(r.iter().any(|x| x == cat), "missing {cat}");
    }
}

#[test]
fn resolve_wildcard_punctuation() {
    let c = fixture_corpus();
    let r = resolve(&c, "P*").unwrap();
    for cat in &["Pc", "Pd", "Ps", "Pe", "Pi", "Pf", "Po"] {
        assert!(r.iter().any(|x| x == cat), "missing {cat}");
    }
}

#[test]
fn resolve_unknown_exact() {
    let c = fixture_corpus();
    assert!(resolve(&c, "Xyz").is_err());
}

#[test]
fn resolve_unknown_wildcard() {
    let c = fixture_corpus();
    assert!(resolve(&c, "X*").is_err());
}

#[test]
fn resolve_list_not_empty() {
    let c = fixture_corpus();
    assert!(!list(&c).is_empty());
}

#[test]
fn resolve_error_messages() {
    let c = fixture_corpus();
    assert_eq!(resolve(&c, "Xyz").unwrap_err(), "unknown category 'Xyz' (did you mean 'Xyz*'?)");
    assert_eq!(resolve(&c, "X*").unwrap_err(), "unknown category pattern 'X*'");
}

#[test]
fn resolve_wildcard_is_sorted_and_exact() {
    let c = fixture_corpus();
    let r = resolve(&c, "L*").unwrap();
    assert_eq!(r, vec!["Ll", "Lm", "Lo", "Lt", "Lu"]);
    let all = resolve(&c, "*").unwrap();
    assert_eq!(all.len(), list(&c).len());
}

#[test]
fn list_has_descriptions_in_code_order() {
    let c = fixture_corpus();
    let cats = list(&c);
    let codes: Vec<&str> = cats.iter().map(|x| x.code.as_str()).collect();
    assert_eq!(
        codes,
        vec!["Co", "Ll", "Lm", "Lo", "Lt", "Lu", "Nd", "Pc", "Pd", "Pe", "Pf", "Pi", "Po", "Ps", "So"]
    );
    assert_eq!(cats[0].desc, "Private Use");
    assert_eq!(cats[5].desc, "Uppercase Letter");
}
