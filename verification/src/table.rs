//! Building the corpus tables from the corpus text: a tab-separated file
//! whose first line names the columns (codepoint, glyph, name, then the
//! other fields) and whose other lines are the entries.

use vstd::prelude::*;
use vstd::utf8::{decode_utf8, encode_utf8, encode_utf8_decode_utf8, encode_utf8_valid_utf8};
use vstd::string::*;
use crate::block::{hex_or_zero, tab_field};
use crate::corpus::{Blobs, EntryView, NUM_FIELDS, glyph_of, le_u16, le_u32};
use crate::text::{
    parse_dec, parse_dec_u32, split_on, split_str, str_eq, string_views, text_lines, text_lines_of,
    trimmed,
};

verus! {

broadcast use {encode_utf8_decode_utf8, encode_utf8_valid_utf8};

/// The byte tables of a corpus, ready to be saved or handed to
/// `Corpus::from_blobs` (in the order of its parameters).
pub struct Tables {
    pub strings: Vec<u8>,
    pub codepoints: Vec<u8>,
    pub offsets: Vec<u8>,
    pub lengths: Vec<u8>,
    pub name_offsets: Vec<u8>,
    pub name_lengths: Vec<u8>,
}

impl Tables {
    /// The tables as `Blobs`.
    pub open spec fn blobs(&self) -> Blobs {
        Blobs {
            strings: self.strings@,
            codepoints: self.codepoints@,
            offsets: self.offsets@,
            lengths: self.lengths@,
            name_offsets: self.name_offsets@,
            name_lengths: self.name_lengths@,
        }
    }
}

/// The first line of the text, split at tabs.
pub open spec fn tsv_header(tsv: Seq<char>) -> Seq<Seq<char>> {
    let ls = text_lines(tsv);
    split_on(
        if ls.len() > 0 {
            ls[0]
        } else {
            Seq::empty()
        },
        '\t',
    )
}

/// The header has the columns the field layout assumes: one per field after
/// the codepoint, starting with codepoint, glyph and name.
pub open spec fn header_ok(h: Seq<Seq<char>>) -> bool {
    &&& h.len() == NUM_FIELDS + 1
    &&& h[0] == "codepoint"@
    &&& h[1] == "glyph"@
    &&& h[2] == "name"@
}

/// Codepoint `cp` lies in one of the inclusive ranges `skip`.
pub open spec fn skipped(cp: u32, skip: Seq<(u32, u32)>) -> bool {
    exists|k: int| 0 <= k < skip.len() && (#[trigger] skip[k]).0 <= cp && cp <= skip[k].1
}

/// A line, split at tabs, is an entry: it has `width` fields, the first a
/// decimal codepoint that is not skipped.
pub open spec fn row_kept(f: Seq<Seq<char>>, width: nat, skip: Seq<(u32, u32)>) -> bool {
    &&& f.len() == width
    &&& parse_dec_u32(f[0]) is Some
    &&& !skipped(parse_dec_u32(f[0])->0, skip)
}

/// The lines after the first, split at tabs.
pub open spec fn data_rows(tsv: Seq<char>) -> Seq<Seq<Seq<char>>> {
    let ls = text_lines(tsv);
    if ls.len() == 0 {
        Seq::empty()
    } else {
        ls.drop_first().map_values(|l: Seq<char>| split_on(l, '\t'))
    }
}

/// The entry rows of the text, in order.
pub open spec fn kept_rows(tsv: Seq<char>, skip: Seq<(u32, u32)>) -> Seq<Seq<Seq<char>>> {
    data_rows(tsv).filter(|f: Seq<Seq<char>>| row_kept(f, tsv_header(tsv).len(), skip))
}

/// The codepoint of an entry row.
pub open spec fn row_cp(f: Seq<Seq<char>>) -> u32 {
    parse_dec_u32(f[0])->0
}

/// Field `k` of an entry row: the glyph (the character of the codepoint)
/// for field 0, otherwise the text of column `k + 1`.
pub open spec fn row_field(f: Seq<Seq<char>>, k: int) -> Seq<char> {
    if k == 0 {
        glyph_of(row_cp(f))
    } else {
        f[k + 1]
    }
}

/// The entry a row describes.
pub open spec fn row_entry(f: Seq<Seq<char>>) -> EntryView {
    EntryView {
        cp: row_cp(f),
        name: f[2],
        fields: Seq::new(NUM_FIELDS as nat, |k: int| row_field(f, k)),
    }
}

/// The bytes the first `k` fields of a row take.
pub open spec fn fields_len(f: Seq<Seq<char>>, k: int) -> nat
    decreases k,
{
    if k <= 0 {
        0
    } else {
        fields_len(f, k - 1) + encode_utf8(row_field(f, k - 1)).len()
    }
}

/// The bytes all fields of the rows take.
pub open spec fn rows_len(rows: Seq<Seq<Seq<char>>>) -> nat
    decreases rows.len(),
{
    if rows.len() == 0 {
        0
    } else {
        rows_len(rows.drop_last()) + fields_len(rows.last(), NUM_FIELDS as int)
    }
}

/// The rows fit the tables: at most `u32::MAX` of them, every field at most
/// `u16::MAX` bytes, all fields together at most `u32::MAX` bytes.
pub open spec fn rows_fit(rows: Seq<Seq<Seq<char>>>) -> bool {
    &&& rows.len() <= u32::MAX
    &&& rows_len(rows) <= u32::MAX
    &&& forall|j: int, k: int|
        0 <= j < rows.len() && 0 <= k < NUM_FIELDS ==> encode_utf8(
            #[trigger] row_field(rows[j], k),
        ).len() <= u16::MAX
}


/// The UTF-8 bytes of the glyph of `cp` (see `glyph_of`).
fn glyph_bytes(cp: u32) -> (r: Vec<u8>)
    ensures
        r@ == encode_utf8(glyph_of(cp)),
{
    let mut r: Vec<u8> = Vec::new();
    if cp <= 0x7F {
        r.push((cp & 0x7F) as u8);
    } else if cp <= 0x7FF {
        r.push(0xC0 | ((cp >> 6) & 0x1F) as u8);
        r.push(0x80 | (cp & 0x3F) as u8);
    } else if cp <= 0xFFFF && !(0xD800 <= cp && cp <= 0xDFFF) {
        r.push(0xE0 | ((cp >> 12) & 0x0F) as u8);
        r.push(0x80 | ((cp >> 6) & 0x3F) as u8);
        r.push(0x80 | (cp & 0x3F) as u8);
    } else if 0x10000 <= cp && cp <= 0x10FFFF {
        r.push(0xF0 | ((cp >> 18) & 0x7) as u8);
        r.push(0x80 | ((cp >> 12) & 0x3F) as u8);
        r.push(0x80 | ((cp >> 6) & 0x3F) as u8);
        r.push(0x80 | (cp & 0x3F) as u8);
    }
    proof {
        if crate::corpus::is_scalar(cp) {
            let c = cp as char;
            assert(c as u32 == cp);
            assert(seq![c].drop_first() =~= Seq::<char>::empty());
            assert(encode_utf8(seq![c]) =~= vstd::utf8::encode_scalar(cp) + encode_utf8(Seq::<char>::empty()));
            assert(r@ =~= encode_utf8(glyph_of(cp)));
        } else {
            assert(r@ =~= encode_utf8(glyph_of(cp)));
        }
    }
    r
}


/// The little-endian bytes of a 16-bit value.
pub open spec fn le2_bytes(x: u16) -> Seq<u8> {
    seq![(x % 256) as u8, (x / 256) as u8]
}

fn push_u16_le(out: &mut Vec<u8>, x: u16)
    ensures
        final(out)@ == old(out)@ + le2_bytes(x),
{
    out.push((x % 256) as u8);
    out.push((x / 256) as u8);
    proof {
        assert(out@ =~= old(out)@ + le2_bytes(x));
    }
}

fn append_bytes(out: &mut Vec<u8>, bytes: &Vec<u8>)
    ensures
        final(out)@ == old(out)@ + bytes@,
{
    let mut i: usize = 0;
    while i < bytes.len()
        invariant
            i <= bytes@.len(),
            out@ == old(out)@ + bytes@.take(i as int),
        decreases bytes@.len() - i,
    {
        out.push(bytes[i]);
        proof {
            assert(bytes@.take(i + 1) =~= bytes@.take(i as int).push(bytes@[i as int]));
            assert(out@ =~= old(out)@ + bytes@.take(i + 1));
        }
        i = i + 1;
    }
    proof {
        assert(bytes@.take(bytes@.len() as int) =~= bytes@);
    }
}

proof fn lemma_le_u32_append(b: Seq<u8>, t: Seq<u8>, s: int)
    requires
        0 <= s,
        4 * s + 4 <= b.len(),
    ensures
        le_u32(b + t, s) == le_u32(b, s),
{
    assert((b + t)[4 * s] == b[4 * s]);
    assert((b + t)[4 * s + 1] == b[4 * s + 1]);
    assert((b + t)[4 * s + 2] == b[4 * s + 2]);
    assert((b + t)[4 * s + 3] == b[4 * s + 3]);
}

proof fn lemma_le_u32_new(b: Seq<u8>, x: u32, s: int)
    requires
        0 <= s,
        4 * s == b.len(),
    ensures
        le_u32(b + crate::frecency::le_bytes(x), s) == x,
{
    let t = crate::frecency::le_bytes(x);
    crate::frecency::lemma_le_bytes(x);
    assert((b + t)[4 * s] == t[0]);
    assert((b + t)[4 * s + 1] == t[1]);
    assert((b + t)[4 * s + 2] == t[2]);
    assert((b + t)[4 * s + 3] == t[3]);
}

proof fn lemma_le_u16_append(b: Seq<u8>, t: Seq<u8>, s: int)
    requires
        0 <= s,
        2 * s + 2 <= b.len(),
    ensures
        le_u16(b + t, s) == le_u16(b, s),
{
    assert((b + t)[2 * s] == b[2 * s]);
    assert((b + t)[2 * s + 1] == b[2 * s + 1]);
}

proof fn lemma_le_u16_new(b: Seq<u8>, x: u16, s: int)
    requires
        0 <= s,
        2 * s == b.len(),
    ensures
        le_u16(b + le2_bytes(x), s) == x,
{
    let t = le2_bytes(x);
    assert((b + t)[2 * s] == t[0]);
    assert((b + t)[2 * s + 1] == t[1]);
    assert(t[0] + 256 * t[1] == x) by (nonlinear_arith)
        requires
            t[0] == x % 256,
            t[1] == x / 256,
            x < 65536,
    ;
}

proof fn lemma_subrange_append(b: Seq<u8>, t: Seq<u8>, a: int, e: int)
    requires
        0 <= a <= e <= b.len(),
    ensures
        (b + t).subrange(a, e) == b.subrange(a, e),
{
    assert((b + t).subrange(a, e) =~= b.subrange(a, e));
}

proof fn lemma_slot_div(j: int, k: int)
    requires
        0 <= j,
        0 <= k < 17,
    ensures
        (j * 17 + k) / 17 == j,
        (j * 17 + k) % 17 == k,
{
    assert((j * 17 + k) / 17 == j) by (nonlinear_arith)
        requires
            0 <= j,
            0 <= k < 17,
    ;
    assert((j * 17 + k) % 17 == k) by (nonlinear_arith)
        requires
            0 <= j,
            0 <= k < 17,
    ;
}

proof fn lemma_fields_len_mono(f: Seq<Seq<char>>, a: int, b: int)
    requires
        0 <= a <= b,
    ensures
        fields_len(f, a) <= fields_len(f, b),
    decreases b - a,
{
    if a < b {
        lemma_fields_len_mono(f, a, b - 1);
    }
}

proof fn lemma_rows_len_take(rows: Seq<Seq<Seq<char>>>, m: int)
    requires
        0 <= m <= rows.len(),
    ensures
        rows_len(rows.take(m)) <= rows_len(rows),
    decreases rows.len() - m,
{
    if m < rows.len() {
        assert(rows.drop_last().take(m) =~= rows.take(m));
        lemma_rows_len_take(rows.drop_last(), m);
    } else {
        assert(rows.take(m) =~= rows);
    }
}

proof fn lemma_rows_len_step(rows: Seq<Seq<Seq<char>>>, m: int)
    requires
        0 <= m < rows.len(),
    ensures
        rows_len(rows.take(m + 1)) == rows_len(rows.take(m)) + fields_len(rows[m], NUM_FIELDS as int),
{
    assert(rows.take(m + 1).drop_last() =~= rows.take(m));
    assert(rows.take(m + 1).last() == rows[m]);
}


/// The rows of a list of rows of strings, as text.
pub open spec fn rows_view(v: Seq<Vec<String>>) -> Seq<Seq<Seq<char>>> {
    v.map_values(|r: Vec<String>| string_views(r@))
}

/// The tables hold exactly the entries the rows describe, each field and
/// name valid UTF-8 and each glyph the character of its codepoint.
pub open spec fn tables_hold(b: Blobs, rows: Seq<Seq<Seq<char>>>) -> bool {
    &&& b.shaped()
    &&& forall|i: int, f: int|
        0 <= i < b.num_entries() && 0 <= f < NUM_FIELDS ==> #[trigger] b.field_ok(i, f)
    &&& forall|i: int| 0 <= i < b.num_entries() ==> #[trigger] b.name_ok(i)
    &&& forall|i: int| 0 <= i < b.num_entries() ==> #[trigger] b.glyph_ok(i)
    &&& b.entries() == rows.map_values(|f: Seq<Seq<char>>| row_entry(f))
}

/// The bytes slot `s` of the field tables points to.
spec fn slot_bytes(b: Blobs, s: int) -> Seq<u8> {
    b.strings.subrange(le_u32(b.offsets, s), le_u32(b.offsets, s) + le_u16(b.lengths, s))
}

/// Slot `s` points inside the string table, at the bytes of field
/// `s % 17` of row `s / 17`.
spec fn slot_holds(b: Blobs, rows: Seq<Seq<Seq<char>>>, s: int) -> bool {
    &&& le_u32(b.offsets, s) + le_u16(b.lengths, s) <= b.strings.len()
    &&& slot_bytes(b, s) == encode_utf8(row_field(rows[s / 17], s % 17))
}

/// The name slot of row `j` points at the bytes of its name.
spec fn name_holds(b: Blobs, rows: Seq<Seq<Seq<char>>>, j: int) -> bool {
    &&& b.name_off(j) + b.name_len(j) <= b.strings.len()
    &&& b.name_bytes(j) == encode_utf8(rows[j][2])
}

proof fn lemma_push_slot(
    old: Blobs,
    new: Blobs,
    rows: Seq<Seq<Seq<char>>>,
    bytes: Seq<u8>,
    off: u32,
    len: u16,
    slots: int,
    named: int,
)
    requires
        0 <= slots,
        0 <= named,
        old.offsets.len() == 4 * slots,
        old.lengths.len() == 2 * slots,
        new.strings == old.strings + bytes,
        new.offsets == old.offsets + crate::frecency::le_bytes(off),
        new.lengths == old.lengths + le2_bytes(len),
        new.codepoints == old.codepoints,
        new.name_offsets == old.name_offsets,
        new.name_lengths == old.name_lengths,
        off == old.strings.len(),
        len == bytes.len(),
        forall|s: int| 0 <= s < slots ==> #[trigger] slot_holds(old, rows, s),
        forall|j: int| 0 <= j < named ==> #[trigger] name_holds(old, rows, j),
    ensures
        forall|s: int| 0 <= s < slots ==> #[trigger] slot_holds(new, rows, s),
        forall|j: int| 0 <= j < named ==> #[trigger] name_holds(new, rows, j),
        le_u32(new.offsets, slots) + le_u16(new.lengths, slots) <= new.strings.len(),
        slot_bytes(new, slots) == bytes,
        le_u32(new.offsets, slots) == off,
        le_u16(new.lengths, slots) == len,
{
    assert forall|s: int| 0 <= s < slots implies #[trigger] slot_holds(new, rows, s) by {
        assert(slot_holds(old, rows, s));
        lemma_le_u32_append(old.offsets, crate::frecency::le_bytes(off), s);
        lemma_le_u16_append(old.lengths, le2_bytes(len), s);
        lemma_subrange_append(
            old.strings,
            bytes,
            le_u32(old.offsets, s),
            le_u32(old.offsets, s) + le_u16(old.lengths, s),
        );
    }
    assert forall|j: int| 0 <= j < named implies #[trigger] name_holds(new, rows, j) by {
        assert(name_holds(old, rows, j));
        lemma_subrange_append(old.strings, bytes, old.name_off(j), old.name_off(j) + old.name_len(j));
    }
    lemma_le_u32_new(old.offsets, off, slots);
    lemma_le_u16_new(old.lengths, len, slots);
    assert((old.strings + bytes).subrange(off as int, off + len) =~= bytes);
}


/// Lays out entry rows in the tables; `None` when they do not fit (see
/// `rows_fit`).
fn tables_of_rows(rows: &Vec<Vec<String>>) -> (r: Option<Tables>)
    requires
        forall|j: int|
            0 <= j < rows@.len() ==> (#[trigger] rows@[j])@.len() == NUM_FIELDS + 1 && parse_dec_u32(
                rows@[j]@[0]@,
            ) is Some,
    ensures
        r is Some <==> rows_fit(rows_view(rows@)),
        r matches Some(t) ==> tables_hold(t.blobs(), rows_view(rows@)),
{
    let ghost rv = rows_view(rows@);
    if rows.len() > 0xFFFF_FFFF {
        return None;
    }
    let mut t = Tables {
        strings: Vec::new(),
        codepoints: Vec::new(),
        offsets: Vec::new(),
        lengths: Vec::new(),
        name_offsets: Vec::new(),
        name_lengths: Vec::new(),
    };
    proof {
        assert(rv.take(0) =~= Seq::<Seq<Seq<char>>>::empty());
    }
    let mut m: usize = 0;
    while m < rows.len()
        invariant
            rv == rows_view(rows@),
            forall|j: int|
                0 <= j < rows@.len() ==> (#[trigger] rows@[j])@.len() == NUM_FIELDS + 1
                    && parse_dec_u32(rows@[j]@[0]@) is Some,
            rows@.len() <= u32::MAX,
            m <= rows@.len(),
            t.codepoints@.len() == 4 * m,
            t.offsets@.len() == 4 * (17 * m),
            t.lengths@.len() == 2 * (17 * m),
            t.name_offsets@.len() == 4 * m,
            t.name_lengths@.len() == 2 * m,
            t.strings@.len() == rows_len(rv.take(m as int)),
            t.strings@.len() <= u32::MAX,
            forall|j: int| 0 <= j < m ==> #[trigger] le_u32(t.codepoints@, j) == row_cp(rv[j]),
            forall|s: int| 0 <= s < 17 * m ==> #[trigger] slot_holds(t.blobs(), rv, s),
            forall|j: int| 0 <= j < m ==> #[trigger] name_holds(t.blobs(), rv, j),
        decreases rows@.len() - m,
    {
        let row = &rows[m];
        proof {
            assert(row@.len() == NUM_FIELDS + 1);
            assert(rv[m as int] == string_views(row@));
        }
        let cp = match parse_dec(row[0].as_str()) {
            Some(v) => v,
            None => {
                proof {
                    assert(false);
                }
                0
            },
        };
        let mut name_off: u32 = 0;
        let mut name_len: u16 = 0;
        let mut k: usize = 0;
        while k < NUM_FIELDS
            invariant
                rv == rows_view(rows@),
                m < rows@.len(),
                rows@.len() <= u32::MAX,
                row@.len() == NUM_FIELDS + 1,
                rv[m as int] == string_views(row@),
                cp == row_cp(rv[m as int]),
                k <= NUM_FIELDS,
                t.codepoints@.len() == 4 * m,
                t.offsets@.len() == 4 * (17 * m + k),
                t.lengths@.len() == 2 * (17 * m + k),
                t.name_offsets@.len() == 4 * m,
                t.name_lengths@.len() == 2 * m,
                t.strings@.len() == rows_len(rv.take(m as int)) + fields_len(rv[m as int], k as int),
                t.strings@.len() <= u32::MAX,
                forall|j: int| 0 <= j < m ==> #[trigger] le_u32(t.codepoints@, j) == row_cp(rv[j]),
                forall|s: int| 0 <= s < 17 * m + k ==> #[trigger] slot_holds(t.blobs(), rv, s),
                forall|j: int| 0 <= j < m ==> #[trigger] name_holds(t.blobs(), rv, j),
                k > 1 ==> name_off == le_u32(t.offsets@, 17 * m + 1) && name_len == le_u16(
                    t.lengths@,
                    17 * m + 1,
                ),
            decreases NUM_FIELDS - k,
        {
            let bytes: Vec<u8> = if k == 0 {
                glyph_bytes(cp)
            } else {
                vstd::slice::slice_to_vec(row[k + 1].as_str().as_bytes())
            };
            proof {
                assert(bytes@ == encode_utf8(row_field(rv[m as int], k as int)));
                lemma_rows_len_step(rv, m as int);
                lemma_fields_len_mono(rv[m as int], k + 1, NUM_FIELDS as int);
                lemma_rows_len_take(rv, m + 1);
            }
            if bytes.len() > 0xFFFF {
                proof {
                    assert(encode_utf8(row_field(rv[m as int], k as int)).len() > u16::MAX);
                }
                return None;
            }
            if bytes.len() > 0xFFFF_FFFF - t.strings.len() {
                proof {
                    assert(rows_len(rv) > u32::MAX);
                }
                return None;
            }
            let off = t.strings.len() as u32;
            let len = bytes.len() as u16;
            let ghost old_b = t.blobs();
            append_bytes(&mut t.strings, &bytes);
            crate::frecency::push_u32_le(&mut t.offsets, off);
            push_u16_le(&mut t.lengths, len);
            proof {
                lemma_push_slot(old_b, t.blobs(), rv, bytes@, off, len, 17 * m + k, m as int);
                lemma_slot_div(m as int, k as int);
                assert(slot_holds(t.blobs(), rv, 17 * m + k));
                if k > 1 {
                    lemma_le_u32_append(old_b.offsets, crate::frecency::le_bytes(off), 17 * m + 1);
                    lemma_le_u16_append(old_b.lengths, le2_bytes(len), 17 * m + 1);
                }
                assert forall|j: int| 0 <= j < m implies #[trigger] le_u32(t.codepoints@, j) == row_cp(
                    rv[j],
                ) by {}
            }
            if k == 1 {
                name_off = off;
                name_len = len;
            }
            k = k + 1;
        }
        proof {
            lemma_rows_len_step(rv, m as int);
            assert(rv.take(m + 1).len() == m + 1);
        }
        let ghost old_b = t.blobs();
        crate::frecency::push_u32_le(&mut t.codepoints, cp);
        crate::frecency::push_u32_le(&mut t.name_offsets, name_off);
        push_u16_le(&mut t.name_lengths, name_len);
        proof {
            let b = t.blobs();
            lemma_le_u32_new(old_b.codepoints, cp, m as int);
            lemma_le_u32_new(old_b.name_offsets, name_off, m as int);
            lemma_le_u16_new(old_b.name_lengths, name_len, m as int);
            assert forall|j: int| 0 <= j < m + 1 implies #[trigger] le_u32(t.codepoints@, j)
                == row_cp(rv[j]) by {
                if j < m {
                    lemma_le_u32_append(old_b.codepoints, crate::frecency::le_bytes(cp), j);
                }
            }
            assert forall|s: int| 0 <= s < 17 * (m + 1) implies #[trigger] slot_holds(b, rv, s) by {
                assert(slot_holds(old_b, rv, s));
            }
            assert(slot_holds(old_b, rv, 17 * m + 1));
            lemma_slot_div(m as int, 1);
            assert forall|j: int| 0 <= j < m + 1 implies #[trigger] name_holds(b, rv, j) by {
                if j < m {
                    assert(name_holds(old_b, rv, j));
                    lemma_le_u32_append(old_b.name_offsets, crate::frecency::le_bytes(name_off), j);
                    lemma_le_u16_append(old_b.name_lengths, le2_bytes(name_len), j);
                } else {
                    assert(b.name_off(j) == le_u32(old_b.offsets, 17 * m + 1));
                    assert(b.name_len(j) == le_u16(old_b.lengths, 17 * m + 1));
                    assert(b.name_bytes(j) == slot_bytes(old_b, 17 * m + 1));
                    assert(row_field(rv[m as int], 1) == rv[m as int][2]);
                }
            }
        }
        m = m + 1;
    }
    proof {
        let b = t.blobs();
        let n = rows@.len();
        assert(rv.take(n as int) =~= rv);
        assert(b.num_entries() == n);
        assert forall|i: int, f: int| 0 <= i < n && 0 <= f < NUM_FIELDS implies #[trigger] b.field_ok(
            i,
            f,
        ) && b.field_bytes(i, f) == encode_utf8(row_field(rv[i], f)) by {
            lemma_slot_div(i, f);
            assert(slot_holds(b, rv, i * 17 + f));
        }
        assert forall|i: int| 0 <= i < n implies #[trigger] b.name_ok(i) by {
            assert(name_holds(b, rv, i));
        }
        assert forall|i: int| 0 <= i < n implies #[trigger] b.glyph_ok(i) by {
            assert(b.field_ok(i, 0));
            assert(le_u32(t.codepoints@, i) == row_cp(rv[i]));
        }
        assert forall|i: int| 0 <= i < n implies #[trigger] b.entry(i) == row_entry(rv[i]) by {
            assert(name_holds(b, rv, i));
            assert forall|f: int| 0 <= f < NUM_FIELDS implies b.entry(i).fields[f] == row_entry(
                rv[i],
            ).fields[f] by {
                assert(b.field_ok(i, f));
            }
            assert(b.entry(i).fields =~= row_entry(rv[i]).fields);
            assert(le_u32(t.codepoints@, i) == row_cp(rv[i]));
        }
        assert(b.entries() =~= rv.map_values(|f: Seq<Seq<char>>| row_entry(f)));
        assert forall|j: int, k: int| 0 <= j < rv.len() && 0 <= k < NUM_FIELDS implies encode_utf8(
            #[trigger] row_field(rv[j], k),
        ).len() <= u16::MAX by {
            assert(b.field_ok(j, k));
            assert(b.field_bytes(j, k).len() == b.field_len(j, k));
        }
    }
    Some(t)
}


/// Whether `cp` lies in one of the inclusive ranges `skip`.
fn in_skip(cp: u32, skip: &Vec<(u32, u32)>) -> (r: bool)
    ensures
        r == skipped(cp, skip@),
{
    let mut k: usize = 0;
    while k < skip.len()
        invariant
            k <= skip@.len(),
            forall|q: int| 0 <= q < k ==> !((#[trigger] skip@[q]).0 <= cp && cp <= skip@[q].1),
        decreases skip@.len() - k,
    {
        if skip[k].0 <= cp && cp <= skip[k].1 {
            return true;
        }
        k = k + 1;
    }
    false
}

/// The lines after the first that are entries (see `row_kept`), split at
/// tabs.
fn entry_rows(lines: &Vec<String>, width: usize, skip: &Vec<(u32, u32)>) -> (r: Vec<Vec<String>>)
    requires
        lines@.len() > 0,
        width > 0,
    ensures
        rows_view(r@) == string_views(lines@).drop_first().map_values(
            |l: Seq<char>| split_on(l, '\t'),
        ).filter(|f: Seq<Seq<char>>| row_kept(f, width as nat, skip@)),
        forall|j: int|
            0 <= j < r@.len() ==> (#[trigger] r@[j])@.len() == width && parse_dec_u32(r@[j]@[0]@) is Some,
{
    broadcast use Seq::lemma_filter_push;

    let ghost src = string_views(lines@).drop_first().map_values(|l: Seq<char>| split_on(l, '\t'));
    let ghost pred = |f: Seq<Seq<char>>| row_kept(f, width as nat, skip@);
    let mut out: Vec<Vec<String>> = Vec::new();
    let mut i: usize = 1;
    proof {
        assert(src.take(0) =~= Seq::<Seq<Seq<char>>>::empty());
        assert(rows_view(out@) =~= Seq::<Seq<Seq<char>>>::empty());
    }
    while i < lines.len()
        invariant
            src == string_views(lines@).drop_first().map_values(|l: Seq<char>| split_on(l, '\t')),
            pred == |f: Seq<Seq<char>>| row_kept(f, width as nat, skip@),
            width > 0,
            1 <= i <= lines@.len(),
            rows_view(out@) == src.take(i - 1).filter(pred),
            forall|j: int|
                0 <= j < out@.len() ==> (#[trigger] out@[j])@.len() == width && parse_dec_u32(
                    out@[j]@[0]@,
                ) is Some,
        decreases lines@.len() - i,
    {
        let fields = split_str(lines[i].as_str(), '\t');
        proof {
            assert(src[i - 1] == string_views(fields@));
            assert(src.take(i as int) =~= src.take(i - 1).push(src[i - 1]));
            src.take(i - 1).lemma_filter_push(src[i - 1], pred);
        }
        let mut keep = false;
        if fields.len() == width {
            match parse_dec(fields[0].as_str()) {
                Some(cp) => {
                    keep = !in_skip(cp, skip);
                },
                None => {},
            }
        }
        proof {
            if fields@.len() == width {
                assert(string_views(fields@)[0] == fields@[0]@);
            }
            assert(keep == pred(src[i - 1]));
        }
        if keep {
            let ghost before = out@;
            out.push(fields);
            proof {
                assert(rows_view(out@) =~= rows_view(before).push(src[i - 1]));
            }
        }
        i = i + 1;
    }
    proof {
        assert(src.take(lines@.len() - 1) =~= src);
    }
    out
}

/// Builds the corpus tables from the corpus text, leaving out the entries
/// whose codepoints lie in one of the inclusive ranges `skip`. `None` when
/// the header does not have the expected columns or the entries do not fit
/// the tables (see `rows_fit`). Each field is stored at a place of its own in
/// the string table; equal strings are not shared.
pub fn build_tables(tsv: &str, skip: &Vec<(u32, u32)>) -> (r: Option<Tables>)
    ensures
        r is Some <==> header_ok(tsv_header(tsv@)) && rows_fit(kept_rows(tsv@, skip@)),
        r matches Some(t) ==> tables_hold(t.blobs(), kept_rows(tsv@, skip@)),
{
    let lines = text_lines_of(tsv);
    if lines.len() == 0 {
        proof {
            reveal_strlit("codepoint");
            assert(split_on(Seq::<char>::empty(), '\t').len() == 1);
        }
        return None;
    }
    let header = split_str(lines[0].as_str(), '\t');
    proof {
        assert(string_views(header@) == tsv_header(tsv@));
    }
    if header.len() != NUM_FIELDS + 1 || !str_eq(header[0].as_str(), "codepoint") || !str_eq(
        header[1].as_str(),
        "glyph",
    ) || !str_eq(header[2].as_str(), "name") {
        proof {
            if header@.len() == NUM_FIELDS + 1 {
                assert(string_views(header@)[0] == header@[0]@);
                assert(string_views(header@)[1] == header@[1]@);
                assert(string_views(header@)[2] == header@[2]@);
            }
        }
        return None;
    }
    proof {
        assert(string_views(header@)[0] == header@[0]@);
        assert(string_views(header@)[1] == header@[1]@);
        assert(string_views(header@)[2] == header@[2]@);
        assert(header_ok(tsv_header(tsv@)));
    }
    let rows = entry_rows(&lines, header.len(), skip);
    proof {
        let ls = text_lines(tsv@);
        assert(string_views(lines@).drop_first().map_values(|l: Seq<char>| split_on(l, '\t'))
            =~= data_rows(tsv@));
    }
    tables_of_rows(&rows)
}


/// The block names of a list of names, one per line (empty lines left
/// out).
pub open spec fn name_list(text: Seq<char>) -> Seq<Seq<char>> {
    text_lines(text).filter(|l: Seq<char>| l.len() > 0)
}

/// The line of the block table names a block of the list `names`.
pub open spec fn line_listed(line: Seq<char>, names: Seq<Seq<char>>) -> bool {
    names.contains(trimmed(tab_field(line, 2)))
}

/// The inclusive codepoint range a line of the block table gives (hex
/// fields read as `block_from_fields` reads them).
pub open spec fn line_range(line: Seq<char>) -> (u32, u32) {
    (hex_or_zero(tab_field(line, 0)), hex_or_zero(tab_field(line, 1)))
}

/// The inclusive ranges of the blocks of the block table (`blocks_tsv`)
/// whose names are listed in `names`, one per line: the entries left out
/// of the corpus unless all of them are wanted.
pub fn expanded_ranges(blocks_tsv: &str, names: &str) -> (r: Vec<(u32, u32)>)
    ensures
        r@ == text_lines(blocks_tsv@).filter(|l: Seq<char>| line_listed(l, name_list(names@))).map_values(
            |l: Seq<char>| line_range(l),
        ),
{
    broadcast use Seq::lemma_filter_push;

    let name_lines = text_lines_of(names);
    let ghost nl = string_views(name_lines@);
    let ghost npred = |l: Seq<char>| l.len() > 0;
    let mut listed: Vec<String> = Vec::new();
    let mut i: usize = 0;
    proof {
        assert(nl.take(0) =~= Seq::<Seq<char>>::empty());
        assert(string_views(listed@) =~= Seq::<Seq<char>>::empty());
    }
    while i < name_lines.len()
        invariant
            nl == string_views(name_lines@),
            nl == text_lines(names@),
            npred == |l: Seq<char>| l.len() > 0,
            i <= name_lines@.len(),
            string_views(listed@) == nl.take(i as int).filter(npred),
        decreases name_lines@.len() - i,
    {
        proof {
            assert(nl.take(i + 1) =~= nl.take(i as int).push(nl[i as int]));
            nl.take(i as int).lemma_filter_push(nl[i as int], npred);
        }
        if name_lines[i].as_str().unicode_len() > 0 {
            let ghost before = listed@;
            listed.push(crate::text::to_string(name_lines[i].as_str()));
            proof {
                assert(string_views(listed@) =~= string_views(before).push(nl[i as int]));
            }
        }
        i = i + 1;
    }
    proof {
        assert(nl.take(nl.len() as int) =~= nl);
    }
    let ghost names_v = name_list(names@);
    let lines = text_lines_of(blocks_tsv);
    let ghost bl = string_views(lines@);
    let ghost lpred = |l: Seq<char>| line_listed(l, names_v);
    let ghost lmap = |l: Seq<char>| line_range(l);
    let mut out: Vec<(u32, u32)> = Vec::new();
    let mut k: usize = 0;
    proof {
        assert(bl.take(0) =~= Seq::<Seq<char>>::empty());
        assert(bl.take(0).filter(lpred).map_values(lmap) =~= out@);
    }
    while k < lines.len()
        invariant
            string_views(listed@) == names_v,
            names_v == name_list(names@),
            bl == string_views(lines@),
            bl == text_lines(blocks_tsv@),
            lpred == |l: Seq<char>| line_listed(l, names_v),
            lmap == |l: Seq<char>| line_range(l),
            k <= lines@.len(),
            out@ == bl.take(k as int).filter(lpred).map_values(lmap),
        decreases lines@.len() - k,
    {
        let line = lines[k].as_str();
        let fields = split_str(line, '\t');
        let start = if fields.len() > 0 {
            fields[0].as_str()
        } else {
            ""
        };
        let end = if fields.len() > 1 {
            fields[1].as_str()
        } else {
            ""
        };
        let name = if fields.len() > 2 {
            fields[2].as_str()
        } else {
            ""
        };
        proof {
            reveal_strlit("");
            assert(""@ =~= Seq::<char>::empty());
            assert(line@ == bl[k as int]);
            assert(start@ == tab_field(line@, 0));
            assert(end@ == tab_field(line@, 1));
            assert(name@ == tab_field(line@, 2));
        }
        let key = crate::text::trim(name);
        let mut found = false;
        let mut q: usize = 0;
        while q < listed.len() && !found
            invariant
                q <= listed@.len(),
                found ==> string_views(listed@).contains(key@),
                !found ==> forall|p: int| 0 <= p < q ==> (#[trigger] listed@[p])@ != key@,
            decreases listed@.len() - q,
        {
            if str_eq(listed[q].as_str(), key) {
                found = true;
                proof {
                    assert(string_views(listed@)[q as int] == key@);
                }
            }
            q = q + 1;
        }
        proof {
            if !found && string_views(listed@).contains(key@) {
                let p = choose|p: int| 0 <= p < string_views(listed@).len() && string_views(listed@)[p] == key@;
                assert(listed@[p]@ == key@);
            }
            assert(found == lpred(bl[k as int]));
            assert(bl.take(k + 1) =~= bl.take(k as int).push(bl[k as int]));
            bl.take(k as int).lemma_filter_push(bl[k as int], lpred);
        }
        if found {
            let a = match crate::text::parse_hex(start) {
                Some(v) => v,
                None => 0,
            };
            let b = match crate::text::parse_hex(end) {
                Some(v) => v,
                None => 0,
            };
            let ghost before = out@;
            out.push((a, b));
            proof {
                assert(out@ =~= before.push(lmap(bl[k as int])));
                assert(bl.take(k + 1).filter(lpred) =~= bl.take(k as int).filter(lpred).push(
                    bl[k as int],
                ));
                assert(bl.take(k + 1).filter(lpred).map_values(lmap) =~= out@);
            }
        } else {
            proof {
                assert(bl.take(k + 1).filter(lpred).map_values(lmap) =~= out@);
            }
        }
        k = k + 1;
    }
    proof {
        assert(bl.take(bl.len() as int) =~= bl);
    }
    out
}

} // verus!
