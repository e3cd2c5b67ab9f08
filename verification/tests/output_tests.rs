use glyf::corpus::{lookup, Corpus, Idx};
use glyf::output::{print_entry, Format};

fn row(cp: u32, fields: [&'static str; 17]) -> (u32, [&'static str; 17]) {
    (cp, fields)
}

fn uni(glyph: &'static str, name: &'static str, cat: &'static str, block: &'static str) -> [&'static str; 17] {
    [glyph, name, "unicode", cat, "0", "L", "", "", "", "", "N", "", "", "", "", block, ""]
}

fn fixture_rows() -> Vec<(u32, [&'static str; 17])> {
    vec![
        row(0x0021, uni("!", "EXCLAMATION MARK", "Po", "Basic Latin")),
        row(0x0028, uni("(", "LEFT PARENTHESIS", "Ps", "Basic Latin")),
        row(0x0029, uni(")", "RIGHT PARENTHESIS", "Pe", "Basic Latin")),
        row(0x002D, uni("-", "HYPHEN-MINUS", "Pd", "Basic Latin")),
        row(0x0030, uni("0", "DIGIT ZERO", "Nd", "Basic Latin")),
        row(
            0x0041,
            [
                "A", "LATIN CAPITAL LETTER A", "unicode", "Lu", "0", "L", "", "", "", "", "N", "", "", "0061",
                "", "Basic Latin", "",
            ],
        ),
        row(
            0x0042,
            [
                "B", "LATIN CAPITAL LETTER B", "unicode", "Lu", "0", "L", "", "", "", "", "N", "", "", "0062",
                "", "Basic Latin", "",
            ],
        ),
        row(
            0x0043,
            [
                "C", "LATIN CAPITAL LETTER C", "unicode", "Lu", "0", "L", "", "", "", "", "N", "", "", "0063",
                "", "Basic Latin", "",
            ],
        ),
        row(0x005F, uni("_", "LOW LINE", "Pc", "Basic Latin")),
        row(
            0x0061,
            [
                "a", "LATIN SMALL LETTER A", "unicode", "Ll", "0", "L", "", "", "", "", "N", "", "0041", "",
                "0041", "Basic Latin", "",
            ],
        ),
        row(0x00AB, uni("\u{AB}", "LEFT-POINTING DOUBLE ANGLE QUOTATION MARK", "Pi", "Latin-1 Supplement")),
        row(0x00BB, uni("\u{BB}", "RIGHT-POINTING DOUBLE ANGLE QUOTATION MARK", "Pf", "Latin-1 Supplement")),
        row(0x00E9, uni("\u{E9}", "LATIN SMALL LETTER E WITH ACUTE", "Ll", "Latin-1 Supplement")),
        row(
            0x01C5,
            uni(
                "\u{1C5}",
                "LATIN CAPITAL LETTER D WITH SMALL LETTER Z WITH CARON",
                "Lt",
                "Latin Extended-B",
            ),
        ),
        row(0x02B0, uni("\u{2B0}", "MODIFIER LETTER SMALL H", "Lm", "Spacing Modifier Letters")),
        row(0x05D0, uni("\u{5D0}", "HEBREW LETTER ALEF", "Lo", "Hebrew")),
        row(0x266A, uni("\u{266A}", "EIGHTH NOTE", "So", "Miscellaneous Symbols")),
        row(
            0xE7A8,
            [
                "\u{E7A8}", "nf-dev-rust", "nerdfonts", "Co", "", "", "", "", "", "", "", "", "", "", "",
                "Private Use Area", "dev",
            ],
        ),
        row(0x1F600, uni("\u{1F600}", "GRINNING FACE", "So", "Emoticons")),
        row(0x1F601, uni("\u{1F601}", "GRINNING FACE WITH SMILING EYES", "So", "Emoticons")),
    ]
}

fn fixture_corpus() -> Corpus {
    let mut strings: Vec<u8> = Vec::new();
    let mut cps: Vec<u8> = Vec::new();
    let mut offs: Vec<u8> = Vec::new();
    let mut lens: Vec<u8> = Vec::new();
    let mut name_offs: Vec<u8> = Vec::new();
    let mut name_lens: Vec<u8> = Vec::new();
    for (cp, fields) in fixture_rows() {
        cps.extend_from_slice(&cp.to_le_bytes());
        for (i, f) in fields.iter().enumerate() {
            let off = strings.len() as u32;
            let len = f.len() as u16;
            strings.extend_from_slice(f.as_bytes());
            offs.extend_from_slice(&off.to_le_bytes());
            lens.extend_from_slice(&len.to_le_bytes());
            if i == 1 {
                name_offs.extend_from_slice(&off.to_le_bytes());
                name_lens.extend_from_slice(&len.to_le_bytes());
            }
        }
    }
    Corpus::from_blobs(strings, cps, offs, lens, name_offs, name_lens).expect("fixture tables are valid")
}

fn sample_idx(c: &Corpus) -> Idx {
    lookup(c, 0x0041).expect("A should be in corpus")
}

#[test]
fn format_from_str_plain() {
    let f: Format = "plain".parse().expect("plain is valid");
    assert!(matches!(f, Format::Plain));
}

#[test]
fn format_from_str_pretty() {
    let f: Format = "pretty".parse().expect("pretty is valid");
    assert!(matches!(f, Format::Pretty));
}

#[test]
fn format_from_str_tsv() {
    let f: Format = "tsv".parse().expect("tsv is valid");
    assert!(matches!(f, Format::Tsv));
}

#[test]
fn format_from_str_invalid() {
    assert!("badger".parse::<Format>().is_err());
}

#[test]
fn print_plain_format() {
    let c = fixture_corpus();
    let idx = sample_idx(&c);
    let s = print_entry(&c, idx, &Format::Plain);
    assert_eq!(s, "A\n");
}

#[test]
fn print_pretty_format() {
    let c = fixture_corpus();
    let idx = sample_idx(&c);
    let s = print_entry(&c, idx, &Format::Pretty);
    assert_eq!(s, "A\tU+0041\tLATIN CAPITAL LETTER A\tBasic Latin\n");
}

#[test]
fn print_tsv_format() {
    let c = fixture_corpus();
    let idx = sample_idx(&c);
    let s = print_entry(&c, idx, &Format::Tsv);
    assert!(s.starts_with("65\tA\tLATIN CAPITAL LETTER A\tunicode"));
    assert!(s.ends_with("\tBasic Latin\t\n"));
}

#[test]
fn print_pretty_wide_codepoint() {
    let c = fixture_corpus();
    let idx = lookup(&c, 0x1F600).expect("emoji");
    let s = print_entry(&c, idx, &Format::Pretty);
    assert_eq!(s, "\u{1F600}\tU+1F600\tGRINNING FACE\tEmoticons\n");
    let idx = lookup(&c, 0x21).expect("bang");
    let s = print_entry(&c, idx, &Format::Pretty);
    assert_eq!(s, "!\tU+0021\tEXCLAMATION MARK\tBasic Latin\n");
}

#[test]
fn print_tsv_has_every_field() {
    let c = fixture_corpus();
    let idx = sample_idx(&c);
    let s = print_entry(&c, idx, &Format::Tsv);
    assert_eq!(s, "65\tA\tLATIN CAPITAL LETTER A\tunicode\tLu\t0\tL\t\t\t\t\tN\t\t\t0061\t\tBasic Latin\t\n");
    assert_eq!(s.matches('\t').count(), 17);
}

#[test]
fn format_error_message() {
    assert_eq!(
        "badger".parse::<Format>().unwrap_err(),
        "unknown format; use plain, pretty, or tsv"
    );
}
