//! Text renderings of corpus entries (a bare glyph, a readable row, or a
//! tab-separated record of every field), the aligned listing of search hits,
//! and the lines listing blocks, categories and icon sets.

use vstd::prelude::*;
use vstd::string::*;
use crate::corpus::{
    Corpus, EntryView, Idx, codepoint, entry_name, entry_str, icon_set_desc, icon_set_description, FIELD_ALT_NAME, FIELD_BIDI,
    FIELD_BLOCK, FIELD_CATEGORY, FIELD_COMBINING, FIELD_DECIMAL, FIELD_DECOMP, FIELD_DIGIT,
    FIELD_GLYPH, FIELD_ICON_SET, FIELD_LOWERCASE, FIELD_MIRRORED, FIELD_NUMERIC, FIELD_SOURCE,
    FIELD_TITLECASE, FIELD_UPPERCASE,
};
use crate::block::{Block, Blocks, all, blocks_ordered};
use crate::category::Cat;
use crate::search::Match;
use crate::text::{dec_digit, dec_value, hex_digit, hex_value, parse_dec_u32, parse_hex_u32, str_eq, to_string};
use vstd::utf8::encode_utf8;

verus! {

/// How an entry is rendered.
#[derive(Clone, Copy, Debug, PartialEq, Eq, Structural)]
pub enum Format {
    Plain,
    Pretty,
    Tsv,
}

/// The error for an unknown format name.
pub open spec fn unknown_format_msg() -> Seq<char> {
    "unknown format; use plain, pretty, or tsv"@
}

/// The format named `s`, if any.
pub fn parse_format(s: &str) -> (r: Result<Format, &'static str>)
    ensures
        s@ == "plain"@ ==> r == Ok::<Format, &'static str>(Format::Plain),
        s@ == "pretty"@ ==> r == Ok::<Format, &'static str>(Format::Pretty),
        s@ == "tsv"@ ==> r == Ok::<Format, &'static str>(Format::Tsv),
        s@ != "plain"@ && s@ != "pretty"@ && s@ != "tsv"@ ==> (r matches Err(e) && e@
            == unknown_format_msg()),
{
    proof {
        reveal_strlit("plain");
        reveal_strlit("pretty");
        reveal_strlit("tsv");
        assert("plain"@.len() == 5);
        assert("pretty"@.len() == 6);
        assert("tsv"@.len() == 3);
    }
    if str_eq(s, "plain") {
        Ok(Format::Plain)
    } else if str_eq(s, "pretty") {
        Ok(Format::Pretty)
    } else if str_eq(s, "tsv") {
        Ok(Format::Tsv)
    } else {
        Err("unknown format; use plain, pretty, or tsv")
    }
}

impl std::str::FromStr for Format {
    type Err = &'static str;

    fn from_str(s: &str) -> (r: Result<Self, Self::Err>)
        ensures
            s@ == "plain"@ ==> r == Ok::<Format, &'static str>(Format::Plain),
            s@ == "pretty"@ ==> r == Ok::<Format, &'static str>(Format::Pretty),
            s@ == "tsv"@ ==> r == Ok::<Format, &'static str>(Format::Tsv),
            s@ != "plain"@ && s@ != "pretty"@ && s@ != "tsv"@ ==> (r matches Err(e) && e@
                == unknown_format_msg()),
    {
        parse_format(s)
    }
}

/// The upper-case hex digit for `d` (below 16).
pub open spec fn hex_char(d: nat) -> char {
    if d < 10 {
        ((d + 48) as u32) as char
    } else {
        ((d + 55) as u32) as char
    }
}

/// Upper-case hex digits of `x`, without leading zeros.
pub open spec fn hex_digits(x: nat) -> Seq<char>
    decreases x,
{
    if x < 16 {
        seq![hex_char(x)]
    } else {
        hex_digits(x / 16).push(hex_char(x % 16))
    }
}

/// Decimal digits of `x`, without leading zeros.
pub open spec fn dec_digits(x: nat) -> Seq<char>
    decreases x,
{
    if x < 10 {
        seq![hex_char(x)]
    } else {
        dec_digits(x / 10).push(hex_char(x % 10))
    }
}

/// `s` padded on the left with zeros to at least four chars (`{:04}`).
pub open spec fn zero_pad4(s: Seq<char>) -> Seq<char> {
    if s.len() < 4 {
        Seq::new((4 - s.len()) as nat, |i: int| '0') + s
    } else {
        s
    }
}

/// The decimal rendering of a number is made of the digits `0`..`9`, has no
/// leading zero, and reads back as the number (as a decimal string and as
/// `str::parse::<u32>` reads it).
pub proof fn lemma_dec_digits_read_back(x: nat)
    ensures
        dec_digits(x).len() >= 1,
        forall|i: int| 0 <= i < dec_digits(x).len() ==> '0' <= #[trigger] dec_digits(x)[i] <= '9',
        dec_digits(x).len() > 1 ==> dec_digits(x)[0] != '0',
        dec_value(dec_digits(x)) == Some(x as int),
        x <= u32::MAX ==> parse_dec_u32(dec_digits(x)) == Some(x as u32),
    decreases x,
{
    let s = dec_digits(x);
    if x < 10 {
        assert(s == seq![hex_char(x)]);
        assert(s.drop_last() =~= Seq::<char>::empty());
        assert(dec_value(s.drop_last()) == Some(0int));
        assert(dec_digit(hex_char(x)) == Some(x as int));
    } else {
        lemma_dec_digits_read_back(x / 10);
        let p = dec_digits(x / 10);
        assert(s == p.push(hex_char(x % 10)));
        assert(s.drop_last() =~= p);
        assert(s.last() == hex_char(x % 10));
        assert(dec_digit(hex_char(x % 10)) == Some((x % 10) as int));
        assert(x == (x / 10) * 10 + x % 10);
        assert forall|i: int| 0 <= i < s.len() implies '0' <= #[trigger] s[i] <= '9' by {
            if i < p.len() {
                assert(s[i] == p[i]);
            }
        }
        assert(s[0] == p[0]);
        if p.len() == 1 {
            assert(x / 10 < 10) by {
                if x / 10 >= 10 {
                    assert(dec_digits(x / 10).len() > 1) by {
                        lemma_dec_digits_read_back(x / 10 / 10);
                    }
                }
            }
            assert(p[0] == hex_char(x / 10));
        }
    }
    assert(s[0] != '+');
}

/// The hex rendering of a number is made of the digits `0`..`9` and
/// `A`..`F`, has no leading zero, and reads back as the number.
pub proof fn lemma_hex_digits_read_back(x: nat)
    ensures
        hex_digits(x).len() >= 1,
        forall|i: int|
            0 <= i < hex_digits(x).len() ==> ('0' <= #[trigger] hex_digits(x)[i] <= '9') || ('A'
                <= hex_digits(x)[i] <= 'F'),
        hex_digits(x).len() > 1 ==> hex_digits(x)[0] != '0',
        hex_value(hex_digits(x)) == Some(x as int),
        x <= u32::MAX ==> parse_hex_u32(hex_digits(x)) == Some(x as u32),
    decreases x,
{
    let s = hex_digits(x);
    if x < 16 {
        assert(s == seq![hex_char(x)]);
        assert(s.drop_last() =~= Seq::<char>::empty());
        assert(hex_value(s.drop_last()) == Some(0int));
        assert(hex_digit(hex_char(x)) == Some(x as int));
    } else {
        lemma_hex_digits_read_back(x / 16);
        let p = hex_digits(x / 16);
        assert(s == p.push(hex_char(x % 16)));
        assert(s.drop_last() =~= p);
        assert(s.last() == hex_char(x % 16));
        assert(hex_digit(hex_char(x % 16)) == Some((x % 16) as int));
        assert(x == (x / 16) * 16 + x % 16);
        assert forall|i: int| 0 <= i < s.len() implies ('0' <= #[trigger] s[i] <= '9') || ('A'
            <= s[i] <= 'F') by {
            if i < p.len() {
                assert(s[i] == p[i]);
            }
        }
        assert(s[0] == p[0]);
        if p.len() == 1 {
            assert(x / 16 < 16) by {
                if x / 16 >= 16 {
                    assert(hex_digits(x / 16).len() > 1) by {
                        lemma_hex_digits_read_back(x / 16 / 16);
                    }
                }
            }
            assert(p[0] == hex_char(x / 16));
        }
    }
    assert(s[0] != '+');
}

proof fn lemma_hex_value_zeros(k: nat)
    ensures
        hex_value(Seq::new(k, |i: int| '0')) == Some(0int),
    decreases k,
{
    if k > 0 {
        lemma_hex_value_zeros((k - 1) as nat);
        assert(Seq::new(k, |i: int| '0').drop_last() =~= Seq::new((k - 1) as nat, |i: int| '0'));
    }
}

proof fn lemma_hex_value_leading_zeros(k: nat, s: Seq<char>)
    ensures
        hex_value(Seq::new(k, |i: int| '0') + s) == hex_value(s),
    decreases s.len(),
{
    let z = Seq::new(k, |i: int| '0');
    if s.len() == 0 {
        assert(z + s =~= z);
        lemma_hex_value_zeros(k);
    } else {
        lemma_hex_value_leading_zeros(k, s.drop_last());
        assert((z + s).drop_last() =~= z + s.drop_last());
        assert((z + s).last() == s.last());
    }
}

/// The zero-padded hex rendering of a codepoint (as in `U+0041`) has at
/// least four digits, the hex rendering at its end, and reads back as the
/// codepoint.
pub proof fn lemma_padded_hex_read_back(x: u32)
    ensures
        zero_pad4(hex_digits(x as nat)).len() >= 4,
        hex_digits(x as nat).is_suffix_of(zero_pad4(hex_digits(x as nat))),
        hex_value(zero_pad4(hex_digits(x as nat))) == Some(x as int),
        parse_hex_u32(zero_pad4(hex_digits(x as nat))) == Some(x),
{
    let h = hex_digits(x as nat);
    lemma_hex_digits_read_back(x as nat);
    if h.len() < 4 {
        let k = (4 - h.len()) as nat;
        lemma_hex_value_leading_zeros(k, h);
        let z = zero_pad4(h);
        assert(z == Seq::new(k, |i: int| '0') + h);
        assert(z.subrange(z.len() - h.len(), z.len() as int) =~= h);
        assert(z[0] == '0');
    } else {
        assert(h.subrange(0, h.len() as int) =~= h);
    }
}

fn digit_str(d: u32) -> (r: &'static str)
    requires
        d < 16,
    ensures
        r@ == seq![hex_char(d as nat)],
{
    proof {
        reveal_strlit("0");
        reveal_strlit("1");
        reveal_strlit("2");
        reveal_strlit("3");
        reveal_strlit("4");
        reveal_strlit("5");
        reveal_strlit("6");
        reveal_strlit("7");
        reveal_strlit("8");
        reveal_strlit("9");
        reveal_strlit("A");
        reveal_strlit("B");
        reveal_strlit("C");
        reveal_strlit("D");
        reveal_strlit("E");
        reveal_strlit("F");
    }
    let r = if d == 0 {
        "0"
    } else if d == 1 {
        "1"
    } else if d == 2 {
        "2"
    } else if d == 3 {
        "3"
    } else if d == 4 {
        "4"
    } else if d == 5 {
        "5"
    } else if d == 6 {
        "6"
    } else if d == 7 {
        "7"
    } else if d == 8 {
        "8"
    } else if d == 9 {
        "9"
    } else if d == 10 {
        "A"
    } else if d == 11 {
        "B"
    } else if d == 12 {
        "C"
    } else if d == 13 {
        "D"
    } else if d == 14 {
        "E"
    } else {
        "F"
    };
    proof {
        assert(r@ =~= seq![hex_char(d as nat)]);
    }
    r
}

fn hex_string(x: u32) -> (r: String)
    ensures
        r@ == hex_digits(x as nat),
    decreases x,
{
    if x < 16 {
        to_string(digit_str(x))
    } else {
        let mut s = hex_string(x / 16);
        s.append(digit_str(x % 16));
        s
    }
}

fn dec_string(x: u32) -> (r: String)
    ensures
        r@ == dec_digits(x as nat),
    decreases x,
{
    if x < 10 {
        to_string(digit_str(x))
    } else {
        let mut s = dec_string(x / 10);
        s.append(digit_str(x % 10));
        s
    }
}

fn zero_padded_hex(x: u32) -> (r: String)
    ensures
        r@ == zero_pad4(hex_digits(x as nat)),
{
    let h = hex_string(x);
    let n = h.as_str().unicode_len();
    if n >= 4 {
        return h;
    }
    let mut s = String::new();
    let mut i: usize = n;
    proof {
        reveal_strlit("0");
    }
    while i < 4
        invariant
            n <= i <= 4,
            n == h@.len(),
            s@ == Seq::new((i - n) as nat, |k: int| '0'),
        decreases 4 - i,
    {
        s.append("0");
        proof {
            reveal_strlit("0");
            assert(s@ =~= Seq::new((i + 1 - n) as nat, |k: int| '0'));
        }
        i = i + 1;
    }
    s.append(h.as_str());
    s
}

/// The line `print_entry` renders for an entry.
pub open spec fn entry_line(e: EntryView, fmt: Format) -> Seq<char> {
    match fmt {
        Format::Plain => e.fields[FIELD_GLYPH as int] + "\n"@,
        Format::Pretty => e.fields[FIELD_GLYPH as int] + "\tU+"@ + zero_pad4(
            hex_digits(e.cp as nat),
        ) + "\t"@ + e.name + "\t"@ + e.fields[FIELD_BLOCK as int] + "\n"@,
        Format::Tsv => dec_digits(e.cp as nat) + "\t"@ + e.fields[FIELD_GLYPH as int] + "\t"@
            + e.name + "\t"@ + e.fields[FIELD_SOURCE as int] + "\t"@
            + e.fields[FIELD_CATEGORY as int] + "\t"@ + e.fields[FIELD_COMBINING as int] + "\t"@
            + e.fields[FIELD_BIDI as int] + "\t"@ + e.fields[FIELD_DECOMP as int] + "\t"@
            + e.fields[FIELD_DECIMAL as int] + "\t"@ + e.fields[FIELD_DIGIT as int] + "\t"@
            + e.fields[FIELD_NUMERIC as int] + "\t"@ + e.fields[FIELD_MIRRORED as int] + "\t"@
            + e.fields[FIELD_ALT_NAME as int] + "\t"@ + e.fields[FIELD_UPPERCASE as int] + "\t"@
            + e.fields[FIELD_LOWERCASE as int] + "\t"@ + e.fields[FIELD_TITLECASE as int] + "\t"@
            + e.fields[FIELD_BLOCK as int] + "\t"@ + e.fields[FIELD_ICON_SET as int] + "\n"@,
    }
}

/// Renders entry `idx` in format `fmt`, as one line ending in a newline.
pub fn print_entry(c: &Corpus, idx: Idx, fmt: &Format) -> (r: String)
    requires
        idx.0 < c@.len(),
    ensures
        r@ == entry_line(c@[idx.0 as int], *fmt),
{
    let mut s = to_string(entry_str(c, idx, FIELD_GLYPH));
    match fmt {
        Format::Plain => {
            s.append("\n");
        },
        Format::Pretty => {
            s.append("\tU+");
            s.append(zero_padded_hex(codepoint(c, idx)).as_str());
            s.append("\t");
            s.append(entry_name(c, idx));
            s.append("\t");
            s.append(entry_str(c, idx, FIELD_BLOCK));
            s.append("\n");
        },
        Format::Tsv => {
            s = dec_string(codepoint(c, idx));
            s.append("\t");
            s.append(entry_str(c, idx, FIELD_GLYPH));
            s.append("\t");
            s.append(entry_name(c, idx));
            s.append("\t");
            s.append(entry_str(c, idx, FIELD_SOURCE));
            s.append("\t");
            s.append(entry_str(c, idx, FIELD_CATEGORY));
            s.append("\t");
            s.append(entry_str(c, idx, FIELD_COMBINING));
            s.append("\t");
            s.append(entry_str(c, idx, FIELD_BIDI));
            s.append("\t");
            s.append(entry_str(c, idx, FIELD_DECOMP));
            s.append("\t");
            s.append(entry_str(c, idx, FIELD_DECIMAL));
            s.append("\t");
            s.append(entry_str(c, idx, FIELD_DIGIT));
            s.append("\t");
            s.append(entry_str(c, idx, FIELD_NUMERIC));
            s.append("\t");
            s.append(entry_str(c, idx, FIELD_MIRRORED));
            s.append("\t");
            s.append(entry_str(c, idx, FIELD_ALT_NAME));
            s.append("\t");
            s.append(entry_str(c, idx, FIELD_UPPERCASE));
            s.append("\t");
            s.append(entry_str(c, idx, FIELD_LOWERCASE));
            s.append("\t");
            s.append(entry_str(c, idx, FIELD_TITLECASE));
            s.append("\t");
            s.append(entry_str(c, idx, FIELD_BLOCK));
            s.append("\t");
            s.append(entry_str(c, idx, FIELD_ICON_SET));
            s.append("\n");
        },
    }
    proof {
        assert(s@ =~= entry_line(c@[idx.0 as int], *fmt));
    }
    s
}


/// `s` padded on the right with spaces to at least `width` chars.
pub open spec fn pad_right(s: Seq<char>, width: nat) -> Seq<char> {
    if s.len() < width {
        s + Seq::new((width - s.len()) as nat, |i: int| ' ')
    } else {
        s
    }
}

/// The greatest length in bytes of the names of the entries `idxs` (0 when
/// there are none).
pub open spec fn name_width(c: Seq<EntryView>, idxs: Seq<Idx>) -> nat
    decreases idxs.len(),
{
    if idxs.len() == 0 {
        0
    } else {
        let w = name_width(c, idxs.drop_last());
        let n = encode_utf8(c[idxs.last().0 as int].name).len();
        if n > w {
            n
        } else {
            w
        }
    }
}

/// A row of the aligned listing: glyph, codepoint, name padded to `width`,
/// block.
pub open spec fn pretty_row(e: EntryView, width: nat) -> Seq<char> {
    e.fields[FIELD_GLYPH as int] + "\tU+"@ + zero_pad4(hex_digits(e.cp as nat)) + "\t"@
        + pad_right(e.name, width) + "\t"@ + e.fields[FIELD_BLOCK as int] + "\n"@
}

/// The rows of the aligned listing of the entries `indices`, names padded to
/// the longest one.
pub fn pretty_rows(c: &Corpus, indices: &[Idx]) -> (r: Vec<String>)
    requires
        forall|k: int| 0 <= k < indices@.len() ==> (#[trigger] indices@[k]).0 < c@.len(),
    ensures
        r@.len() == indices@.len(),
        forall|k: int|
            0 <= k < r@.len() ==> (#[trigger] r@[k])@ == pretty_row(
                c@[indices@[k].0 as int],
                name_width(c@, indices@),
            ),
{
    let mut width: usize = 0;
    let mut i: usize = 0;
    while i < indices.len()
        invariant
            i <= indices@.len(),
            forall|k: int| 0 <= k < indices@.len() ==> (#[trigger] indices@[k]).0 < c@.len(),
            width == name_width(c@, indices@.take(i as int)),
        decreases indices@.len() - i,
    {
        let n = entry_name(c, indices[i]).len();
        proof {
            let t = indices@.take(i + 1);
            assert(t.drop_last() =~= indices@.take(i as int));
            assert(t.last() == indices@[i as int]);
        }
        if n > width {
            width = n;
        }
        i = i + 1;
    }
    proof {
        assert(indices@.take(indices@.len() as int) =~= indices@);
    }
    let mut rows: Vec<String> = Vec::new();
    let mut j: usize = 0;
    while j < indices.len()
        invariant
            j <= indices@.len(),
            forall|k: int| 0 <= k < indices@.len() ==> (#[trigger] indices@[k]).0 < c@.len(),
            width == name_width(c@, indices@),
            rows@.len() == j,
            forall|k: int|
                0 <= k < j ==> (#[trigger] rows@[k])@ == pretty_row(
                    c@[indices@[k].0 as int],
                    width as nat,
                ),
        decreases indices@.len() - j,
    {
        let idx = indices[j];
        let mut s = to_string(entry_str(c, idx, FIELD_GLYPH));
        s.append("\tU+");
        s.append(zero_padded_hex(codepoint(c, idx)).as_str());
        s.append("\t");
        s.append(padded(entry_name(c, idx), width).as_str());
        s.append("\t");
        s.append(entry_str(c, idx, FIELD_BLOCK));
        s.append("\n");
        proof {
            assert(s@ =~= pretty_row(c@[idx.0 as int], width as nat));
        }
        rows.push(s);
        j = j + 1;
    }
    rows
}

/// The positions of the hits `s`.
pub open spec fn hit_indices(s: Seq<Match>) -> Seq<Idx> {
    s.map_values(|m: Match| m.idx)
}

/// The lines showing search hits in format `fmt`: the aligned listing for
/// `Format::Pretty`, otherwise one `print_entry` line per hit.
pub fn render_results(c: &Corpus, results: &[Match], fmt: &Format) -> (r: Vec<String>)
    requires
        forall|k: int| 0 <= k < results@.len() ==> (#[trigger] results@[k]).idx.0 < c@.len(),
    ensures
        r@.len() == results@.len(),
        forall|k: int|
            0 <= k < r@.len() ==> (#[trigger] r@[k])@ == if *fmt == Format::Pretty {
                pretty_row(c@[results@[k].idx.0 as int], name_width(c@, hit_indices(results@)))
            } else {
                entry_line(c@[results@[k].idx.0 as int], *fmt)
            },
{
    if *fmt == Format::Pretty {
        let mut idxs: Vec<Idx> = Vec::new();
        let mut i: usize = 0;
        while i < results.len()
            invariant
                i <= results@.len(),
                idxs@ == hit_indices(results@).take(i as int),
                forall|k: int| 0 <= k < results@.len() ==> (#[trigger] results@[k]).idx.0 < c@.len(),
            decreases results@.len() - i,
        {
            idxs.push(results[i].idx);
            proof {
                assert(hit_indices(results@).take(i + 1) =~= hit_indices(results@).take(i as int).push(
                    results@[i as int].idx,
                ));
            }
            i = i + 1;
        }
        proof {
            assert(hit_indices(results@).take(results@.len() as int) =~= hit_indices(results@));
        }
        return pretty_rows(c, idxs.as_slice());
    }
    let mut lines: Vec<String> = Vec::new();
    let mut j: usize = 0;
    while j < results.len()
        invariant
            j <= results@.len(),
            *fmt != Format::Pretty,
            lines@.len() == j,
            forall|k: int| 0 <= k < results@.len() ==> (#[trigger] results@[k]).idx.0 < c@.len(),
            forall|k: int|
                0 <= k < j ==> (#[trigger] lines@[k])@ == entry_line(c@[results@[k].idx.0 as int], *fmt),
        decreases results@.len() - j,
    {
        lines.push(print_entry(c, results[j].idx, fmt));
        j = j + 1;
    }
    lines
}


/// `s` padded on the right with spaces to `width` chars.
fn padded(s: &str, width: usize) -> (r: String)
    ensures
        r@ == pad_right(s@, width as nat),
{
    let chars = s.unicode_len();
    let mut out = to_string(s);
    let mut p: usize = chars;
    proof {
        reveal_strlit(" ");
        assert(out@ =~= s@ + Seq::new((p - chars) as nat, |q: int| ' '));
    }
    while p < width
        invariant
            chars == s@.len(),
            chars <= p,
            p <= width || p == chars,
            out@ == s@ + Seq::new((p - chars) as nat, |q: int| ' '),
        decreases width - p,
    {
        out.append(" ");
        proof {
            reveal_strlit(" ");
            assert(out@ =~= s@ + Seq::new((p + 1 - chars) as nat, |q: int| ' '));
        }
        p = p + 1;
    }
    proof {
        if chars >= width {
            assert(out@ =~= s@);
        }
    }
    out
}

/// The greatest length in bytes of the names of the blocks `t` (0 when
/// there are none).
pub open spec fn block_name_width(t: Seq<Block>) -> nat
    decreases t.len(),
{
    if t.len() == 0 {
        0
    } else {
        let w = block_name_width(t.drop_last());
        let n = encode_utf8(t.last().name@).len();
        if n > w {
            n
        } else {
            w
        }
    }
}

/// A line of the block listing: the name padded to `width`, then the first
/// and last codepoint.
pub open spec fn block_line(b: Block, width: nat) -> Seq<char> {
    pad_right(b.name@, width) + "  U+"@ + zero_pad4(hex_digits(b.range.start as nat)) + "..U+"@
        + zero_pad4(hex_digits((b.range.end - 1) as nat))
}

/// The lines listing every block, names aligned.
pub fn block_lines(t: &Blocks) -> (r: Vec<String>)
    requires
        forall|i: int| 0 <= i < t@.len() ==> encode_utf8((#[trigger] t@[i]).name@).len() <= usize::MAX,
    ensures
        r@.len() == t@.len(),
        forall|k: int|
            0 <= k < r@.len() ==> (#[trigger] r@[k])@ == block_line(t@[k], block_name_width(t@)),
{
    let bs = all(t);
    let mut width: usize = 0;
    let mut i: usize = 0;
    while i < bs.len()
        invariant
            bs@ == t@,
            i <= bs@.len(),
            forall|k: int| 0 <= k < t@.len() ==> encode_utf8((#[trigger] t@[k]).name@).len() <= usize::MAX,
            width == block_name_width(bs@.take(i as int)),
        decreases bs@.len() - i,
    {
        let n = bs[i].name.as_str().len();
        proof {
            let s = bs@.take(i + 1);
            assert(s.drop_last() =~= bs@.take(i as int));
            assert(s.last() == bs@[i as int]);
        }
        if n > width {
            width = n;
        }
        i = i + 1;
    }
    proof {
        assert(bs@.take(bs@.len() as int) =~= bs@);
    }
    let mut lines: Vec<String> = Vec::new();
    let mut j: usize = 0;
    while j < bs.len()
        invariant
            bs@ == t@,
            blocks_ordered(bs@),
            j <= bs@.len(),
            width == block_name_width(t@),
            lines@.len() == j,
            forall|k: int| 0 <= k < j ==> (#[trigger] lines@[k])@ == block_line(t@[k], width as nat),
        decreases bs@.len() - j,
    {
        let b = &bs[j];
        let mut s = padded(b.name.as_str(), width);
        s.append("  U+");
        s.append(zero_padded_hex(b.range.start).as_str());
        s.append("..U+");
        s.append(zero_padded_hex(b.range.end - 1).as_str());
        proof {
            assert(s@ =~= block_line(t@[j as int], width as nat));
        }
        lines.push(s);
        j = j + 1;
    }
    lines
}

/// A line of the category listing: code, tab, description.
pub open spec fn category_line(cat: Cat) -> Seq<char> {
    cat.code@ + "\t"@ + cat.desc@
}

/// The lines listing the categories `cats`.
pub fn category_lines(cats: &Vec<Cat>) -> (r: Vec<String>)
    ensures
        r@.len() == cats@.len(),
        forall|k: int| 0 <= k < r@.len() ==> (#[trigger] r@[k])@ == category_line(cats@[k]),
{
    let mut lines: Vec<String> = Vec::new();
    let mut j: usize = 0;
    while j < cats.len()
        invariant
            j <= cats@.len(),
            lines@.len() == j,
            forall|k: int| 0 <= k < j ==> (#[trigger] lines@[k])@ == category_line(cats@[k]),
        decreases cats@.len() - j,
    {
        let mut s = to_string(cats[j].code.as_str());
        s.append("\t");
        s.append(cats[j].desc.as_str());
        lines.push(s);
        j = j + 1;
    }
    lines
}

/// A line of the icon set listing: the code padded to 12 chars, two spaces,
/// the description.
pub open spec fn icon_set_line(code: Seq<char>) -> Seq<char> {
    pad_right(code, 12) + "  "@ + icon_set_desc(code)
}

/// The lines listing the icon sets `sets`.
pub fn icon_set_lines(sets: &Vec<String>) -> (r: Vec<String>)
    ensures
        r@.len() == sets@.len(),
        forall|k: int| 0 <= k < r@.len() ==> (#[trigger] r@[k])@ == icon_set_line(sets@[k]@),
{
    let mut lines: Vec<String> = Vec::new();
    let mut j: usize = 0;
    while j < sets.len()
        invariant
            j <= sets@.len(),
            lines@.len() == j,
            forall|k: int| 0 <= k < j ==> (#[trigger] lines@[k])@ == icon_set_line(sets@[k]@),
        decreases sets@.len() - j,
    {
        let code = sets[j].as_str();
        let mut s = padded(code, 12);
        s.append("  ");
        s.append(icon_set_description(code));
        lines.push(s);
        j = j + 1;
    }
    lines
}

} // verus!
