use glyf::block::{all, block_from_fields, block_of, by_name, parse_block_table, Block, Blocks};

fn fixture_blocks() -> Blocks {
    let table: [(u32, u32, &str); 25] = [
        (0x0000, 0x007F, "Basic Latin"),
        (0x0080, 0x00FF, "Latin-1 Supplement"),
        (0x0100, 0x017F, "Latin Extended-A"),
        (0x0180, 0x024F, "Latin Extended-B"),
        (0x0250, 0x02AF, "IPA Extensions"),
        (0x02B0, 0x02FF, "Spacing Modifier Letters"),
        (0x0300, 0x036F, "Combining Diacritical Marks"),
        (0x0370, 0x03FF, "Greek and Coptic"),
        (0x0400, 0x04FF, "Cyrillic"),
        (0x0500, 0x052F, "Cyrillic Supplement"),
        (0x0530, 0x058F, "Armenian"),
        (0x0590, 0x05FF, "Hebrew"),
        (0x0600, 0x06FF, "Arabic"),
        (0x0700, 0x074F, "Syriac"),
        (0x0750, 0x077F, "Arabic Supplement"),
        (0x0780, 0x07BF, "Thaana"),
        (0x07C0, 0x07FF, "NKo"),
        (0x2600, 0x26FF, "Miscellaneous Symbols"),
        (0xD800, 0xDB7F, "High Surrogates"),
        (0xDB80, 0xDBFF, "High Private Use Surrogates"),
        (0xDC00, 0xDFFF, "Low Surrogates"),
        (0xE000, 0xF8FF, "Private Use Area"),
        (0x14400, 0x1467F, "Anatolian Hieroglyphs"),
        (0x16800, 0x16A3F, "Bamum Supplement"),
        (0x1F600, 0x1F64F, "Emoticons"),
    ];
    let blocks: Vec<Block> = table
        .iter()
        .map(|&(start, end, name)| Block { range: start..end + 1, name: name.to_string() })
        .collect();
    Blocks::new(blocks).expect("fixture blocks are ordered")
}

#[test]
fn block_of_first_cp() {
    let t = fixture_blocks();
    assert_eq!(block_of(&t, 0x0000), Some("Basic Latin"));
}

#[test]
fn block_of_last_cp() {
    let t = fixture_blocks();
    assert_eq!(block_of(&t, 0x007F), Some("Basic Latin"));
}

#[test]
fn block_of_boundary_next() {
    let t = fixture_blocks();
    assert_eq!(block_of(&t, 0x0080), Some("Latin-1 Supplement"));
}

#[test]
fn block_of_mid_block() {
    let t = fixture_blocks();
    assert_eq!(block_of(&t, 0x0041), Some("Basic Latin"));
    assert_eq!(block_of(&t, 0x0600), Some("Arabic"));
    assert_eq!(block_of(&t, 0x1F600), Some("Emoticons"));
}

#[test]
fn block_of_miss_between_blocks() {
    let t = fixture_blocks();
    assert_eq!(block_of(&t, 0x15000), None);
}

#[test]
fn block_of_surrogate() {
    let t = fixture_blocks();
    assert_eq!(block_of(&t, 0xD800), Some("High Surrogates"));
}

#[test]
fn by_name_case_insensitive() {
    let t = fixture_blocks();
    let b = by_name(&t, "basic latin").expect("should find");
    assert_eq!(b.name, "Basic Latin");
    let b = by_name(&t, "BASIC LATIN").expect("should find");
    assert_eq!(b.name, "Basic Latin");
    let b = by_name(&t, "EMOTICONS").expect("should find");
    assert_eq!(b.name, "Emoticons");
}

#[test]
fn by_name_unknown() {
    let t = fixture_blocks();
    assert!(by_name(&t, "nonexistent block").is_none());
}

#[test]
fn all_not_empty() {
    let t = fixture_blocks();
    assert!(!all(&t).is_empty());
}

#[test]
fn block_of_across_blocks() {
    let t = fixture_blocks();
    assert_eq!(block_of(&t, 0x007F), Some("Basic Latin"));
    assert_eq!(block_of(&t, 0x0080), Some("Latin-1 Supplement"));
    assert_eq!(block_of(&t, 0x00FF), Some("Latin-1 Supplement"));
    assert_eq!(block_of(&t, 0x0100), Some("Latin Extended-A"));
}

#[test]
fn block_of_end_is_exclusive() {
    let t = fixture_blocks();
    assert_eq!(block_of(&t, 0x1F650), None);
    assert_eq!(block_of(&t, 0x1F64F), Some("Emoticons"));
}

#[test]
fn blocks_out_of_order_are_refused() {
    let blocks = vec![
        Block { range: 0x80..0x100, name: "Latin-1 Supplement".to_string() },
        Block { range: 0x0..0x80, name: "Basic Latin".to_string() },
    ];
    assert!(Blocks::new(blocks).is_none());
    let inverted = vec![Block { range: 0x80..0x10, name: "Backwards".to_string() }];
    assert!(Blocks::new(inverted).is_none());
}

#[test]
fn by_name_returns_whole_block() {
    let t = fixture_blocks();
    let b = by_name(&t, "arabic").expect("should find");
    assert_eq!(b.range, 0x0600..0x0700);
}

#[test]
fn block_from_fields_reads_table_line() {
    let b = block_from_fields("0000", "007F", " Basic Latin \r");
    assert_eq!(b.range, 0x0000..0x0080);
    assert_eq!(b.name, "Basic Latin");
    let odd = block_from_fields("zz", "+1f", "X");
    assert_eq!(odd.range, 0..0x20);
    let empty = block_from_fields("", "", "");
    assert_eq!(empty.range, 0..1);
    assert_eq!(empty.name, "");
}

#[test]
fn parse_block_table_reads_lines() {
    let rows = parse_block_table("0000\t007F\tBasic Latin\r\n0080\t00FF\t Latin-1 Supplement \n")
        .expect("fits");
    assert_eq!(rows.len(), 2);
    assert_eq!(rows[0].range, 0x0000..0x0080);
    assert_eq!(rows[0].name, "Basic Latin");
    assert_eq!(rows[1].range, 0x0080..0x0100);
    assert_eq!(rows[1].name, "Latin-1 Supplement");
    let short = parse_block_table("1F600\n\nzz\t1\tx\ty").expect("fits");
    assert_eq!(short.len(), 3);
    assert_eq!(short[0].range, 0x1F600..1);
    assert_eq!(short[0].name, "");
    assert_eq!(short[1].range, 0..1);
    assert_eq!(short[2].range, 0..2);
    assert_eq!(short[2].name, "x");
    assert!(parse_block_table("").expect("fits").is_empty());
    assert!(parse_block_table("0\tFFFFFFFF\tAll").is_none());
    let blocks = Blocks::new(parse_block_table("0000\t007F\tBasic Latin\n").unwrap()).unwrap();
    assert_eq!(block_of(&blocks, 0x41), Some("Basic Latin"));
}
