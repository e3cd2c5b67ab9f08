//! The glyph corpus: a compact little-endian table of entries, each with a
//! codepoint, a name and a fixed number of string fields stored in one
//! shared string blob.

use vstd::prelude::*;
use vstd::utf8::*;
use vstd::string::*;
use vstd::slice::slice_subrange;
use crate::text::{
    hex_digit, hex_value, parse_hex, parse_hex_u32, trim, trimmed, str_eq, insert_sorted_unique, string_views,
    strictly_sorted,
};

verus! {

broadcast use {encode_utf8_decode_utf8, encode_utf8_valid_utf8};

/// Number of string fields stored per entry.
pub const NUM_FIELDS: usize = 17;
pub const FIELD_GLYPH: usize = 0;
pub const FIELD_SOURCE: usize = 2;
pub const FIELD_CATEGORY: usize = 3;
pub const FIELD_COMBINING: usize = 4;
pub const FIELD_BIDI: usize = 5;
pub const FIELD_DECOMP: usize = 6;
pub const FIELD_DECIMAL: usize = 7;
pub const FIELD_DIGIT: usize = 8;
pub const FIELD_NUMERIC: usize = 9;
pub const FIELD_MIRRORED: usize = 10;
pub const FIELD_ALT_NAME: usize = 11;
pub const FIELD_UPPERCASE: usize = 12;
pub const FIELD_LOWERCASE: usize = 13;
pub const FIELD_TITLECASE: usize = 14;
pub const FIELD_BLOCK: usize = 15;
pub const FIELD_ICON_SET: usize = 16;

/// Position of an entry in the corpus.
#[derive(Debug, Clone, Copy, PartialEq, Eq, Structural)]
pub struct Idx(pub u32);

/// The little-endian 32-bit value stored at slot `i` of `b`.
pub open spec fn le_u32(b: Seq<u8>, i: int) -> int {
    b[4 * i] + 256 * b[4 * i + 1] + 65536 * b[4 * i + 2] + 16777216 * b[4 * i + 3]
}

/// The little-endian 16-bit value stored at slot `i` of `b`.
pub open spec fn le_u16(b: Seq<u8>, i: int) -> int {
    b[2 * i] + 256 * b[2 * i + 1]
}

/// What one corpus entry holds.
pub struct EntryView {
    pub cp: u32,
    pub name: Seq<char>,
    pub fields: Seq<Seq<char>>,
}

/// `cp` is a Unicode scalar value (a codepoint that is no surrogate).
pub open spec fn is_scalar(cp: u32) -> bool {
    cp <= 0xD7FF || (0xE000 <= cp && cp <= 0x10FFFF)
}

/// The glyph of codepoint `cp`: its character, or nothing when `cp` is no
/// Unicode scalar value.
pub open spec fn glyph_of(cp: u32) -> Seq<char> {
    if is_scalar(cp) {
        seq![cp as char]
    } else {
        Seq::empty()
    }
}

/// The raw byte tables a corpus is made of.
pub struct Blobs {
    pub strings: Seq<u8>,
    pub codepoints: Seq<u8>,
    pub offsets: Seq<u8>,
    pub lengths: Seq<u8>,
    pub name_offsets: Seq<u8>,
    pub name_lengths: Seq<u8>,
}

impl Blobs {
    pub open spec fn num_entries(self) -> nat {
        self.codepoints.len() / 4
    }

    pub open spec fn cp(self, i: int) -> u32 {
        le_u32(self.codepoints, i) as u32
    }

    pub open spec fn field_off(self, i: int, f: int) -> int {
        le_u32(self.offsets, i * NUM_FIELDS + f)
    }

    pub open spec fn field_len(self, i: int, f: int) -> int {
        le_u16(self.lengths, i * NUM_FIELDS + f)
    }

    pub open spec fn field_bytes(self, i: int, f: int) -> Seq<u8> {
        self.strings.subrange(self.field_off(i, f), self.field_off(i, f) + self.field_len(i, f))
    }

    pub open spec fn name_off(self, i: int) -> int {
        le_u32(self.name_offsets, i)
    }

    pub open spec fn name_len(self, i: int) -> int {
        le_u16(self.name_lengths, i)
    }

    pub open spec fn name_bytes(self, i: int) -> Seq<u8> {
        self.strings.subrange(self.name_off(i), self.name_off(i) + self.name_len(i))
    }

    /// The table sizes agree with each other.
    pub open spec fn shaped(self) -> bool {
        &&& self.codepoints.len() % 4 == 0
        &&& self.num_entries() <= u32::MAX
        &&& self.offsets.len() == 4 * NUM_FIELDS * self.num_entries()
        &&& self.lengths.len() == 2 * NUM_FIELDS * self.num_entries()
        &&& self.name_offsets.len() == 4 * self.num_entries()
        &&& self.name_lengths.len() == 2 * self.num_entries()
    }

    /// Field `f` of entry `i` lies inside the string blob and is UTF-8.
    pub open spec fn field_ok(self, i: int, f: int) -> bool {
        &&& self.field_off(i, f) + self.field_len(i, f) <= self.strings.len()
        &&& valid_utf8(self.field_bytes(i, f))
    }

    /// The name of entry `i` lies inside the string blob and is UTF-8.
    pub open spec fn name_ok(self, i: int) -> bool {
        &&& self.name_off(i) + self.name_len(i) <= self.strings.len()
        &&& valid_utf8(self.name_bytes(i))
    }

    /// The glyph field of entry `i` is the character of its codepoint.
    pub open spec fn glyph_ok(self, i: int) -> bool {
        decode_utf8(self.field_bytes(i, FIELD_GLYPH as int)) == glyph_of(self.cp(i))
    }

    /// Codepoints never decrease along the table.
    pub open spec fn sorted(self) -> bool {
        forall|i: int, j: int|
            0 <= i <= j < self.num_entries() ==> #[trigger] self.cp(i) <= #[trigger] self.cp(j)
    }

    /// Everything a reader of the tables relies on.
    pub open spec fn valid(self) -> bool {
        &&& self.shaped()
        &&& forall|i: int, f: int|
            0 <= i < self.num_entries() && 0 <= f < NUM_FIELDS ==> #[trigger] self.field_ok(i, f)
        &&& forall|i: int| 0 <= i < self.num_entries() ==> #[trigger] self.name_ok(i)
        &&& forall|i: int| 0 <= i < self.num_entries() ==> #[trigger] self.glyph_ok(i)
        &&& self.sorted()
    }

    /// The entry at position `i`, as the tables describe it.
    pub open spec fn entry(self, i: int) -> EntryView {
        EntryView {
            cp: self.cp(i),
            name: decode_utf8(self.name_bytes(i)),
            fields: Seq::new(NUM_FIELDS as nat, |f: int| decode_utf8(self.field_bytes(i, f))),
        }
    }

    /// All entries, in table order.
    pub open spec fn entries(self) -> Seq<EntryView> {
        Seq::new(self.num_entries(), |i: int| self.entry(i))
    }
}

/// The corpus of glyph entries, ordered by codepoint.
pub struct Corpus {
    string_data: Vec<u8>,
    codepoint_data: Vec<u8>,
    offset_data: Vec<u8>,
    length_data: Vec<u8>,
    name_offset_data: Vec<u8>,
    name_length_data: Vec<u8>,
}

impl Corpus {
    /// The byte tables of this corpus.
    pub closed spec fn blobs(&self) -> Blobs {
        Blobs {
            strings: self.string_data@,
            codepoints: self.codepoint_data@,
            offsets: self.offset_data@,
            lengths: self.length_data@,
            name_offsets: self.name_offset_data@,
            name_lengths: self.name_length_data@,
        }
    }

    #[verifier::type_invariant]
    closed spec fn inv(&self) -> bool {
        self.blobs().valid()
    }
}

impl View for Corpus {
    type V = Seq<EntryView>;

    open spec fn view(&self) -> Seq<EntryView> {
        self.blobs().entries()
    }
}

impl Corpus {
    /// Builds a corpus from its byte tables, or `None` when the tables do
    /// not fit together, a string is out of bounds or not UTF-8, or the
    /// codepoints are out of order.
    pub fn from_blobs(
        strings: Vec<u8>,
        codepoints: Vec<u8>,
        offsets: Vec<u8>,
        lengths: Vec<u8>,
        name_offsets: Vec<u8>,
        name_lengths: Vec<u8>,
    ) -> (r: Option<Corpus>)
        ensures
            ({
                let b = Blobs {
                    strings: strings@,
                    codepoints: codepoints@,
                    offsets: offsets@,
                    lengths: lengths@,
                    name_offsets: name_offsets@,
                    name_lengths: name_lengths@,
                };
                &&& r is Some <==> b.valid()
                &&& r matches Some(c) ==> c.blobs() == b
            }),
    {
        let ghost b = Blobs {
            strings: strings@,
            codepoints: codepoints@,
            offsets: offsets@,
            lengths: lengths@,
            name_offsets: name_offsets@,
            name_lengths: name_lengths@,
        };
        if codepoints.len() % 4 != 0 {
            return None;
        }
        let n = codepoints.len() / 4;
        if n > 0xFFFF_FFFF {
            return None;
        }
        if offsets.len() / 4 / NUM_FIELDS != n || offsets.len() % (4 * NUM_FIELDS) != 0 {
            return None;
        }
        if lengths.len() / 2 / NUM_FIELDS != n || lengths.len() % (2 * NUM_FIELDS) != 0 {
            return None;
        }
        if name_offsets.len() / 4 != n || name_offsets.len() % 4 != 0 {
            return None;
        }
        if name_lengths.len() / 2 != n || name_lengths.len() % 2 != 0 {
            return None;
        }
        assert(b.shaped());
        let olen = offsets.len();
        let llen = lengths.len();
        let mut i: usize = 0;
        while i < n
            invariant
                b.shaped(),
                n == b.num_entries(),
                strings@ == b.strings,
                codepoints@ == b.codepoints,
                offsets@ == b.offsets,
                lengths@ == b.lengths,
                name_offsets@ == b.name_offsets,
                name_lengths@ == b.name_lengths,
                olen == offsets@.len(),
                llen == lengths@.len(),
                i <= n,
                forall|k: int, f: int|
                    0 <= k < i && 0 <= f < NUM_FIELDS ==> #[trigger] b.field_ok(k, f),
                forall|k: int| 0 <= k < i ==> #[trigger] b.name_ok(k),
                forall|k: int| 0 <= k < i ==> #[trigger] b.glyph_ok(k),
                forall|k: int, j: int| 0 <= k <= j < i ==> #[trigger] b.cp(k) <= #[trigger] b.cp(j),
            decreases n - i,
        {
            let mut f: usize = 0;
            while f < NUM_FIELDS
                invariant
                    b.shaped(),
                    n == b.num_entries(),
                    strings@ == b.strings,
                    codepoints@ == b.codepoints,
                    offsets@ == b.offsets,
                    lengths@ == b.lengths,
                    name_offsets@ == b.name_offsets,
                    name_lengths@ == b.name_lengths,
                    olen == offsets@.len(),
                    llen == lengths@.len(),
                    i < n,
                    f <= NUM_FIELDS,
                    forall|g: int| 0 <= g < f ==> #[trigger] b.field_ok(i as int, g),
                decreases NUM_FIELDS - f,
            {
                proof {
                    assert(i * 17 + f + 1 <= n * 17) by (nonlinear_arith)
                        requires
                            i < n,
                            f < 17,
                    ;
                    assert(olen == 68 * n);
                    assert(llen == 34 * n);
                }
                let slot = i * NUM_FIELDS + f;
                let off = get_u32(offsets.as_slice(), slot) as usize;
                let len = get_u16(lengths.as_slice(), slot) as usize;
                if !slice_is_utf8(strings.as_slice(), off, len) {
                    proof {
                        assert(!b.field_ok(i as int, f as int));
                    }
                    return None;
                }
                f = f + 1;
            }
            let off = get_u32(name_offsets.as_slice(), i) as usize;
            let len = get_u16(name_lengths.as_slice(), i) as usize;
            if !slice_is_utf8(strings.as_slice(), off, len) {
                proof {
                    assert(!b.name_ok(i as int));
                }
                return None;
            }
            proof {
                assert(b.field_ok(i as int, 0));
                assert(i * 17 + 1 <= n * 17) by (nonlinear_arith)
                    requires
                        i < n,
                ;
                assert(olen == 68 * n);
                assert(llen == 34 * n);
            }
            let gslot = i * NUM_FIELDS;
            let goff = get_u32(offsets.as_slice(), gslot) as usize;
            let glen = get_u16(lengths.as_slice(), gslot) as usize;
            let _bytes = strings.len();
            proof {
                assert(goff == b.field_off(i as int, 0));
                assert(glen == b.field_len(i as int, 0));
            }
            let glyph = str_of_bytes(slice_subrange(strings.as_slice(), goff, goff + glen));
            proof {
                assert(strings@.subrange(goff as int, goff + glen) == b.field_bytes(i as int, 0));
            }
            if !glyph_matches(glyph, get_u32(codepoints.as_slice(), i)) {
                proof {
                    assert(!b.glyph_ok(i as int));
                }
                return None;
            }
            if i > 0 {
                let prev = get_u32(codepoints.as_slice(), i - 1);
                let cur = get_u32(codepoints.as_slice(), i);
                if prev > cur {
                    proof {
                        assert(b.cp(i - 1) > b.cp(i as int));
                    }
                    return None;
                }
                proof {
                    assert(b.cp(i - 1) <= b.cp(i as int));
                    assert forall|k: int, j: int| 0 <= k <= j < i + 1 implies #[trigger] b.cp(k)
                        <= #[trigger] b.cp(j) by {
                        if j == i && k < i {
                            assert(b.cp(k) <= b.cp(i - 1));
                        }
                    }
                }
            }
            i = i + 1;
        }
        Some(
            Corpus {
                string_data: strings,
                codepoint_data: codepoints,
                offset_data: offsets,
                length_data: lengths,
                name_offset_data: name_offsets,
                name_length_data: name_lengths,
            },
        )
    }
}

/// Whether `s` is the glyph of codepoint `cp` (see `glyph_of`).
fn glyph_matches(s: &str, cp: u32) -> (r: bool)
    ensures
        r == (s@ == glyph_of(cp)),
{
    let n = s.unicode_len();
    if cp <= 0xD7FF || (0xE000 <= cp && cp <= 0x10FFFF) {
        if n == 1 && (s.get_char(0) as u32) == cp {
            proof {
                assert(s@ =~= glyph_of(cp));
            }
            true
        } else {
            proof {
                if s@ == glyph_of(cp) {
                    assert(s@[0] == cp as char);
                }
            }
            false
        }
    } else {
        proof {
            if n == 0 {
                assert(s@ =~= glyph_of(cp));
            }
        }
        n == 0
    }
}

/// Whether `len` bytes from `off` lie inside `strings` and are valid UTF-8.
fn slice_is_utf8(strings: &[u8], off: usize, len: usize) -> (r: bool)
    ensures
        r == (off + len <= strings@.len() && valid_utf8(
            strings@.subrange(off as int, off + len),
        )),
{
    if off > strings.len() || len > strings.len() - off {
        return false;
    }
    let bytes = slice_subrange(strings, off, off + len);
    utf8_str(bytes).is_some()
}

/// Reads the little-endian 32-bit slot `i`.
pub(crate) fn get_u32(data: &[u8], i: usize) -> (r: u32)
    requires
        4 * i + 4 <= data@.len(),
    ensures
        r == le_u32(data@, i as int),
{
    let _len = data.len();
    let b = 4 * i;
    (data[b] as u32) + (data[b + 1] as u32) * 256 + (data[b + 2] as u32) * 65536 + (data[b + 3]
        as u32) * 16777216
}

/// Reads the little-endian 16-bit slot `i`.
fn get_u16(data: &[u8], i: usize) -> (r: u16)
    requires
        2 * i + 2 <= data@.len(),
    ensures
        r == le_u16(data@, i as int),
{
    let _len = data.len();
    let b = 2 * i;
    (data[b] as u16) + (data[b + 1] as u16) * 256
}

/// Decodes UTF-8 bytes, as `std::str::from_utf8` does: `Some` exactly when
/// the bytes are valid UTF-8, and then a string with those very bytes.
#[verifier::external_body]
pub(crate) fn utf8_str(bytes: &[u8]) -> (r: Option<&str>)
    ensures
        r is Some <==> valid_utf8(bytes@),
        r matches Some(s) ==> s.spec_bytes() == bytes@,
{
    std::str::from_utf8(bytes).ok()
}

/// A valid UTF-8 byte slice as a string slice, whose chars are its decoding.
fn str_of_bytes(bytes: &[u8]) -> (r: &str)
    requires
        valid_utf8(bytes@),
    ensures
        r@ == decode_utf8(bytes@),
        r.spec_bytes() == bytes@,
{
    match utf8_str(bytes) {
        Some(s) => {
            proof {
                assert(decode_utf8(encode_utf8(s@)) == s@);
            }
            s
        },
        None => {
            proof {
                assert(false);
            }
            ""
        },
    }
}

/// Number of entries in the corpus.
pub fn num_entries(c: &Corpus) -> (n: usize)
    ensures
        n == c@.len(),
        n <= u32::MAX,
        forall|i: int, j: int| 0 <= i <= j < n ==> #[trigger] c@[i].cp <= #[trigger] c@[j].cp,
{
    proof {
        use_type_invariant(c);
    }
    c.codepoint_data.len() / 4
}

/// The codepoint of entry `idx`.
pub fn codepoint(c: &Corpus, idx: Idx) -> (r: u32)
    requires
        idx.0 < c@.len(),
    ensures
        r == c@[idx.0 as int].cp,
{
    proof {
        use_type_invariant(c);
    }
    get_u32(c.codepoint_data.as_slice(), idx.0 as usize)
}

/// String field `field` of entry `idx`.
pub fn entry_str(c: &Corpus, idx: Idx, field: usize) -> (r: &str)
    requires
        idx.0 < c@.len(),
        field < NUM_FIELDS,
    ensures
        r@ == c@[idx.0 as int].fields[field as int],
        field == FIELD_GLYPH ==> r@ == glyph_of(c@[idx.0 as int].cp),
{
    proof {
        use_type_invariant(c);
        assert(c.blobs().field_ok(idx.0 as int, field as int));
        assert(c.blobs().glyph_ok(idx.0 as int));
    }
    let _slots = c.offset_data.len();
    let _bytes = c.string_data.len();
    let slot = idx.0 as usize * NUM_FIELDS + field;
    let off = get_u32(c.offset_data.as_slice(), slot) as usize;
    let len = get_u16(c.length_data.as_slice(), slot) as usize;
    let bytes = slice_subrange(c.string_data.as_slice(), off, off + len);
    proof {
        assert(bytes@ == c.blobs().field_bytes(idx.0 as int, field as int));
    }
    str_of_bytes(bytes)
}

/// The name of entry `idx`.
pub fn entry_name(c: &Corpus, idx: Idx) -> (r: &str)
    requires
        idx.0 < c@.len(),
    ensures
        r@ == c@[idx.0 as int].name,
        encode_utf8(r@).len() <= u16::MAX,
{
    proof {
        use_type_invariant(c);
        assert(c.blobs().name_ok(idx.0 as int));
    }
    let _bytes = c.string_data.len();
    let off = get_u32(c.name_offset_data.as_slice(), idx.0 as usize) as usize;
    let len = get_u16(c.name_length_data.as_slice(), idx.0 as usize) as usize;
    let bytes = slice_subrange(c.string_data.as_slice(), off, off + len);
    proof {
        assert(bytes@ == c.blobs().name_bytes(idx.0 as int));
    }
    str_of_bytes(bytes)
}

/// The source field (for example `unicode`) of entry `idx`.
pub fn entry_source(c: &Corpus, idx: Idx) -> (r: &str)
    requires
        idx.0 < c@.len(),
    ensures
        r@ == c@[idx.0 as int].fields[FIELD_SOURCE as int],
{
    entry_str(c, idx, FIELD_SOURCE)
}

/// The general category field of entry `idx`.
pub fn entry_category(c: &Corpus, idx: Idx) -> (r: &str)
    requires
        idx.0 < c@.len(),
    ensures
        r@ == c@[idx.0 as int].fields[FIELD_CATEGORY as int],
{
    entry_str(c, idx, FIELD_CATEGORY)
}

/// The block field of entry `idx`.
pub fn entry_block(c: &Corpus, idx: Idx) -> (r: &str)
    requires
        idx.0 < c@.len(),
    ensures
        r@ == c@[idx.0 as int].fields[FIELD_BLOCK as int],
{
    entry_str(c, idx, FIELD_BLOCK)
}

/// The icon-set field of entry `idx` (empty outside icon fonts).
pub fn entry_icon_set(c: &Corpus, idx: Idx) -> (r: &str)
    requires
        idx.0 < c@.len(),
    ensures
        r@ == c@[idx.0 as int].fields[FIELD_ICON_SET as int],
{
    entry_str(c, idx, FIELD_ICON_SET)
}

/// The first position whose codepoint is not below `cp`.
pub(crate) fn lower_bound(c: &Corpus, cp: u32) -> (r: usize)
    ensures
        r <= c@.len(),
        forall|j: int| 0 <= j < r ==> c@[j].cp < cp,
        forall|j: int| r <= j < c@.len() ==> c@[j].cp >= cp,
{
    proof {
        use_type_invariant(c);
    }
    let n = c.codepoint_data.len() / 4;
    let ghost b = c.blobs();
    let mut left: usize = 0;
    let mut right: usize = n;
    while left < right
        invariant
            b == c.blobs(),
            b.valid(),
            n == b.num_entries(),
            4 * n <= c.codepoint_data@.len(),
            left <= right <= n,
            forall|j: int| 0 <= j < left ==> b.cp(j) < cp,
            forall|j: int| right <= j < n ==> b.cp(j) >= cp,
        decreases right - left,
    {
        let mid = left + (right - left) / 2;
        if get_u32(c.codepoint_data.as_slice(), mid) < cp {
            proof {
                assert forall|j: int| 0 <= j <= mid implies b.cp(j) < cp by {
                    assert(b.cp(j) <= b.cp(mid as int));
                }
            }
            left = mid + 1;
        } else {
            proof {
                assert forall|j: int| mid <= j < n implies b.cp(j) >= cp by {
                    assert(b.cp(mid as int) <= b.cp(j));
                }
            }
            right = mid;
        }
    }
    left
}

/// The first entry with codepoint `cp`, if any.
pub fn lookup(c: &Corpus, cp: u32) -> (r: Option<Idx>)
    ensures
        match r {
            Some(idx) => {
                &&& idx.0 < c@.len()
                &&& c@[idx.0 as int].cp == cp
                &&& forall|j: int| 0 <= j < idx.0 ==> c@[j].cp != cp
            },
            None => forall|j: int| 0 <= j < c@.len() ==> c@[j].cp != cp,
        },
{
    let i = lower_bound(c, cp);
    let n = num_entries(c);
    if i < n && codepoint(c, Idx(i as u32)) == cp {
        Some(Idx(i as u32))
    } else {
        proof {
            use_type_invariant(c);
            if i < n {
                assert forall|j: int| 0 <= j < c@.len() implies c@[j].cp != cp by {
                    if j >= i {
                        assert(c.blobs().cp(i as int) <= c.blobs().cp(j));
                    }
                }
            }
        }
        None
    }
}


/// The general category of the first entry with codepoint `cp`.
pub fn category_of(c: &Corpus, cp: u32) -> (r: Option<&str>)
    ensures
        match r {
            Some(cat) => exists|i: int|
                0 <= i < c@.len() && #[trigger] c@[i].cp == cp && (forall|j: int|
                    0 <= j < i ==> c@[j].cp != cp) && cat@ == c@[i].fields[FIELD_CATEGORY as int],
            None => forall|j: int| 0 <= j < c@.len() ==> c@[j].cp != cp,
        },
{
    match lookup(c, cp) {
        Some(idx) => Some(entry_category(c, idx)),
        None => None,
    }
}

/// The name of the first entry with codepoint `cp`.
pub fn lookup_name(c: &Corpus, cp: u32) -> (r: Option<&str>)
    ensures
        match r {
            Some(name) => exists|i: int|
                0 <= i < c@.len() && #[trigger] c@[i].cp == cp && (forall|j: int|
                    0 <= j < i ==> c@[j].cp != cp) && name@ == c@[i].name,
            None => forall|j: int| 0 <= j < c@.len() ==> c@[j].cp != cp,
        },
{
    match lookup(c, cp) {
        Some(idx) => Some(entry_name(c, idx)),
        None => None,
    }
}

/// The codepoint a query string denotes: `U+XXXX`, `u+XXXX`, `0xXXXX`, a
/// single character, or bare hex; surrounding whitespace is ignored.
pub open spec fn parse_cp_spec(s: Seq<char>) -> Option<u32> {
    let t = trimmed(s);
    if t.len() >= 2 && (t[0] == 'U' || t[0] == 'u') && t[1] == '+' {
        parse_hex_u32(t.skip(2))
    } else if t.len() >= 2 && t[0] == '0' && t[1] == 'x' {
        parse_hex_u32(t.skip(2))
    } else if t.len() == 0 {
        None
    } else if t.len() == 1 || t[0] as u32 >= 128 {
        Some(t[0] as u32)
    } else {
        parse_hex_u32(t)
    }
}

/// A query that is a single character (once surrounding whitespace is
/// trimmed) denotes that character, digits and letters included.
pub proof fn lemma_single_char_query(s: Seq<char>)
    requires
        trimmed(s).len() == 1,
    ensures
        parse_cp_spec(s) == Some(trimmed(s)[0] as u32),
{
}

/// A query whose first character (after trimming) is not ASCII denotes that
/// character, whatever follows.
pub proof fn lemma_non_ascii_query(s: Seq<char>)
    requires
        trimmed(s).len() > 0,
        trimmed(s)[0] as u32 >= 128,
    ensures
        parse_cp_spec(s) == Some(trimmed(s)[0] as u32),
{
}

/// `U+`, `u+` or `0x` followed by a hex number denotes that number.
pub proof fn lemma_prefixed_query(s: Seq<char>, digits: Seq<char>)
    requires
        trimmed(s) == seq!['U', '+'] + digits || trimmed(s) == seq!['u', '+'] + digits || trimmed(s)
            == seq!['0', 'x'] + digits,
    ensures
        parse_cp_spec(s) == parse_hex_u32(digits),
{
    let t = trimmed(s);
    assert(t.skip(2) =~= digits);
}

/// Several ASCII characters without a prefix are read as a hex number.
pub proof fn lemma_bare_hex_query(s: Seq<char>)
    requires
        trimmed(s).len() >= 2,
        (trimmed(s)[0] as u32) < 128,
        (trimmed(s)[0] != 'U' && trimmed(s)[0] != 'u') || trimmed(s)[1] != '+',
        trimmed(s)[0] != '0' || trimmed(s)[1] != 'x',
    ensures
        parse_cp_spec(s) == parse_hex_u32(trimmed(s)),
{
}

/// The hex digits and their values: `0`..`9` are 0 to 9, `a`..`f` and
/// `A`..`F` are 10 to 15, and no other character is a hex digit.
pub proof fn lemma_hex_digit_values(c: char)
    ensures
        '0' <= c <= '9' ==> hex_digit(c) == Some(c as int - 48),
        'a' <= c <= 'f' ==> hex_digit(c) == Some(c as int - 87),
        'A' <= c <= 'F' ==> hex_digit(c) == Some(c as int - 55),
        !('0' <= c <= '9' || 'a' <= c <= 'f' || 'A' <= c <= 'F') ==> hex_digit(c) is None,
{
}

/// Appending a hex digit to a hex number multiplies it by 16 and adds the
/// digit, as long as the result fits in 32 bits.
pub proof fn lemma_parse_hex_append(digits: Seq<char>, c: char, v: u32, d: int)
    requires
        digits.len() > 0,
        digits[0] != '+',
        parse_hex_u32(digits) == Some(v),
        hex_digit(c) == Some(d),
        v * 16 + d <= u32::MAX,
    ensures
        parse_hex_u32(digits.push(c)) == Some((v * 16 + d) as u32),
{
    let e = digits.push(c);
    assert(e.drop_last() =~= digits);
    assert(e[0] == digits[0]);
    crate::text::lemma_hex_value_nonneg(digits);
    assert(hex_value(digits) == Some(v as int));
    assert(hex_value(e) == Some(v * 16 + d));
}

/// Parses a codepoint query (see `parse_cp_spec`).
pub fn parse_cp_str(s: &str) -> (r: Option<u32>)
    ensures
        r == parse_cp_spec(s@),
{
    let t = trim(s);
    let n = t.unicode_len();
    if n >= 2 {
        let c0 = t.get_char(0);
        let c1 = t.get_char(1);
        if (c0 == 'U' || c0 == 'u') && c1 == '+' || c0 == '0' && c1 == 'x' {
            let rest = t.substring_char(2, n);
            proof {
                assert(rest@ =~= t@.skip(2));
            }
            return parse_hex(rest);
        }
    }
    if n == 0 {
        return None;
    }
    let first = t.get_char(0);
    if n == 1 || (first as u32) >= 128 {
        return Some(first as u32);
    }
    parse_hex(t)
}

/// The first entry whose codepoint a query string denotes.
pub fn lookup_str(c: &Corpus, s: &str) -> (r: Option<Idx>)
    ensures
        match parse_cp_spec(s@) {
            None => r is None,
            Some(cp) => match r {
                Some(idx) => {
                    &&& idx.0 < c@.len()
                    &&& c@[idx.0 as int].cp == cp
                    &&& forall|j: int| 0 <= j < idx.0 ==> c@[j].cp != cp
                },
                None => forall|j: int| 0 <= j < c@.len() ==> c@[j].cp != cp,
            },
        },
{
    let cp = parse_cp_str(s)?;
    lookup(c, cp)
}

/// The distinct values of field `field` over all entries, in `str` order,
/// leaving out the empty string when `skip_empty` is set.
pub(crate) fn distinct_field_values(c: &Corpus, field: usize, skip_empty: bool) -> (r: Vec<String>)
    requires
        field < NUM_FIELDS,
    ensures
        strictly_sorted(string_views(r@)),
        forall|s: Seq<char>|
            #![trigger string_views(r@).contains(s)]
            string_views(r@).contains(s) <==> (!skip_empty || s.len() > 0) && exists|i: int|
                0 <= i < c@.len() && #[trigger] c@[i].fields[field as int] == s,
{
    let n = num_entries(c);
    let mut out: Vec<String> = Vec::new();
    let mut i: usize = 0;
    proof {
        assert(string_views(out@) =~= Seq::<Seq<char>>::empty());
    }
    while i < n
        invariant
            n == c@.len(),
            n <= u32::MAX,
            i <= n,
            field < NUM_FIELDS,
            strictly_sorted(string_views(out@)),
            forall|s: Seq<char>|
                #![trigger string_views(out@).contains(s)]
                string_views(out@).contains(s) <==> (!skip_empty || s.len() > 0) && exists|j: int|
                    0 <= j < i && #[trigger] c@[j].fields[field as int] == s,
        decreases n - i,
    {
        let v = entry_str(c, Idx(i as u32), field);
        let ghost before = string_views(out@);
        if !skip_empty || v.unicode_len() > 0 {
            insert_sorted_unique(&mut out, v);
        }
        proof {
            let after = string_views(out@);
            assert forall|s: Seq<char>| #![trigger after.contains(s)]
                after.contains(s) <==> (!skip_empty || s.len() > 0) && exists|j: int|
                    0 <= j < i + 1 && #[trigger] c@[j].fields[field as int] == s by {
                if after.contains(s) {
                    assert(after.to_set().contains(s));
                    if s != v@ || (skip_empty && v@.len() == 0) {
                        assert(before.to_set().contains(s));
                        assert(before.contains(s));
                    }
                }
                if (!skip_empty || s.len() > 0) && exists|j: int|
                    0 <= j < i + 1 && #[trigger] c@[j].fields[field as int] == s {
                    let j = choose|j: int| 0 <= j < i + 1 && #[trigger] c@[j].fields[field as int] == s;
                    if j < i {
                        assert(before.contains(s));
                        assert(before.to_set().contains(s));
                        assert(after.to_set().contains(s));
                    } else {
                        assert(s == v@);
                        assert(after.to_set() == before.to_set().insert(v@));
                        assert(after.to_set().contains(s));
                    }
                }
            }
        }
        i = i + 1;
    }
    out
}

/// The distinct sources of the entries, in `str` order.
pub fn list_sources(c: &Corpus) -> (r: Vec<String>)
    ensures
        strictly_sorted(string_views(r@)),
        forall|s: Seq<char>|
            #![trigger string_views(r@).contains(s)]
            string_views(r@).contains(s) <==> exists|i: int|
                0 <= i < c@.len() && #[trigger] c@[i].fields[FIELD_SOURCE as int] == s,
{
    distinct_field_values(c, FIELD_SOURCE, false)
}

/// The distinct non-empty icon sets of the entries, in `str` order.
pub fn list_icon_sets(c: &Corpus) -> (r: Vec<String>)
    ensures
        strictly_sorted(string_views(r@)),
        forall|s: Seq<char>|
            #![trigger string_views(r@).contains(s)]
            string_views(r@).contains(s) <==> s.len() > 0 && exists|i: int|
                0 <= i < c@.len() && #[trigger] c@[i].fields[FIELD_ICON_SET as int] == s,
{
    distinct_field_values(c, FIELD_ICON_SET, true)
}

/// The human-readable name of a Nerd Fonts icon set code ("" if unknown).
pub open spec fn icon_set_desc(name: Seq<char>) -> Seq<char> {
    if name == "cod"@ {
        "Codicons"@
    } else if name == "custom"@ {
        "Seti and original"@
    } else if name == "dev"@ {
        "Devicons"@
    } else if name == "extra"@ {
        "Extra glyphs"@
    } else if name == "fa"@ {
        "Font Awesome"@
    } else if name == "fae"@ {
        "Font Awesome Extension"@
    } else if name == "iec"@ {
        "Power Symbols IEC"@
    } else if name == "indent"@ || name == "indentation"@ {
        "Extra glyphs"@
    } else if name == "linux"@ {
        "Font Logos"@
    } else if name == "md"@ {
        "Material Design"@
    } else if name == "oct"@ {
        "Octicons"@
    } else if name == "pl"@ {
        "Powerline Symbols"@
    } else if name == "ple"@ {
        "Powerline Extra"@
    } else if name == "pom"@ {
        "Pomicons"@
    } else if name == "seti"@ {
        "Seti and original"@
    } else if name == "weather"@ {
        "Weather Icons"@
    } else {
        ""@
    }
}

/// The description of each Nerd Fonts icon set code: `custom` and `seti`
/// share one, as do `extra`, `indent` and `indentation`; the others each
/// have their own (so `fa` is not `fae`).
pub proof fn lemma_icon_set_names()
    ensures
        icon_set_desc("cod"@) == "Codicons"@,
        icon_set_desc("custom"@) == "Seti and original"@,
        icon_set_desc("dev"@) == "Devicons"@,
        icon_set_desc("extra"@) == "Extra glyphs"@,
        icon_set_desc("fa"@) == "Font Awesome"@,
        icon_set_desc("fae"@) == "Font Awesome Extension"@,
        icon_set_desc("iec"@) == "Power Symbols IEC"@,
        icon_set_desc("indent"@) == "Extra glyphs"@,
        icon_set_desc("indentation"@) == "Extra glyphs"@,
        icon_set_desc("linux"@) == "Font Logos"@,
        icon_set_desc("md"@) == "Material Design"@,
        icon_set_desc("oct"@) == "Octicons"@,
        icon_set_desc("pl"@) == "Powerline Symbols"@,
        icon_set_desc("ple"@) == "Powerline Extra"@,
        icon_set_desc("pom"@) == "Pomicons"@,
        icon_set_desc("seti"@) == "Seti and original"@,
        icon_set_desc("weather"@) == "Weather Icons"@,
        icon_set_desc("fa"@) != icon_set_desc("fae"@),
        icon_set_desc("pl"@) != icon_set_desc("ple"@),
{
    reveal_strlit("cod");
    reveal_strlit("custom");
    reveal_strlit("dev");
    reveal_strlit("extra");
    reveal_strlit("fa");
    reveal_strlit("fae");
    reveal_strlit("iec");
    reveal_strlit("indent");
    reveal_strlit("indentation");
    reveal_strlit("linux");
    reveal_strlit("md");
    reveal_strlit("oct");
    reveal_strlit("pl");
    reveal_strlit("ple");
    reveal_strlit("pom");
    reveal_strlit("seti");
    reveal_strlit("weather");
    assert("cod"@[0] == 'c' && "cod"@[1] == 'o' && "cod"@[2] == 'd');
    assert("custom"@[0] == 'c' && "custom"@[1] == 'u' && "custom"@[2] == 's' && "custom"@[3] == 't' && "custom"@[4] == 'o' && "custom"@[5] == 'm');
    assert("dev"@[0] == 'd' && "dev"@[1] == 'e' && "dev"@[2] == 'v');
    assert("extra"@[0] == 'e' && "extra"@[1] == 'x' && "extra"@[2] == 't' && "extra"@[3] == 'r' && "extra"@[4] == 'a');
    assert("fa"@[0] == 'f' && "fa"@[1] == 'a');
    assert("fae"@[0] == 'f' && "fae"@[1] == 'a' && "fae"@[2] == 'e');
    assert("iec"@[0] == 'i' && "iec"@[1] == 'e' && "iec"@[2] == 'c');
    assert("indent"@[0] == 'i' && "indent"@[1] == 'n' && "indent"@[2] == 'd' && "indent"@[3] == 'e' && "indent"@[4] == 'n' && "indent"@[5] == 't');
    assert("indentation"@[0] == 'i' && "indentation"@[1] == 'n' && "indentation"@[2] == 'd' && "indentation"@[3] == 'e' && "indentation"@[4] == 'n' && "indentation"@[5] == 't' && "indentation"@[6] == 'a' && "indentation"@[7] == 't' && "indentation"@[8] == 'i' && "indentation"@[9] == 'o' && "indentation"@[10] == 'n');
    assert("linux"@[0] == 'l' && "linux"@[1] == 'i' && "linux"@[2] == 'n' && "linux"@[3] == 'u' && "linux"@[4] == 'x');
    assert("md"@[0] == 'm' && "md"@[1] == 'd');
    assert("oct"@[0] == 'o' && "oct"@[1] == 'c' && "oct"@[2] == 't');
    assert("pl"@[0] == 'p' && "pl"@[1] == 'l');
    assert("ple"@[0] == 'p' && "ple"@[1] == 'l' && "ple"@[2] == 'e');
    assert("pom"@[0] == 'p' && "pom"@[1] == 'o' && "pom"@[2] == 'm');
    assert("seti"@[0] == 's' && "seti"@[1] == 'e' && "seti"@[2] == 't' && "seti"@[3] == 'i');
    assert("weather"@[0] == 'w' && "weather"@[1] == 'e' && "weather"@[2] == 'a' && "weather"@[3] == 't' && "weather"@[4] == 'h' && "weather"@[5] == 'e' && "weather"@[6] == 'r');
    assert("cod"@.len() == 3);
    assert("custom"@.len() == 6);
    assert("dev"@.len() == 3);
    assert("extra"@.len() == 5);
    assert("fa"@.len() == 2);
    assert("fae"@.len() == 3);
    assert("iec"@.len() == 3);
    assert("indent"@.len() == 6);
    assert("indentation"@.len() == 11);
    assert("linux"@.len() == 5);
    assert("md"@.len() == 2);
    assert("oct"@.len() == 3);
    assert("pl"@.len() == 2);
    assert("ple"@.len() == 3);
    assert("pom"@.len() == 3);
    assert("seti"@.len() == 4);
    assert("weather"@.len() == 7);
    reveal_strlit("Codicons");
    reveal_strlit("Devicons");
    reveal_strlit("Extra glyphs");
    reveal_strlit("Font Awesome");
    reveal_strlit("Font Awesome Extension");
    reveal_strlit("Font Logos");
    reveal_strlit("Material Design");
    reveal_strlit("Octicons");
    reveal_strlit("Pomicons");
    reveal_strlit("Power Symbols IEC");
    reveal_strlit("Powerline Extra");
    reveal_strlit("Powerline Symbols");
    reveal_strlit("Seti and original");
    reveal_strlit("Weather Icons");
    assert("Codicons"@.len() == 8 && "Codicons"@[0] == 'C' && "Codicons"@[7] == 's');
    assert("Devicons"@.len() == 8 && "Devicons"@[0] == 'D' && "Devicons"@[7] == 's');
    assert("Extra glyphs"@.len() == 12 && "Extra glyphs"@[0] == 'E' && "Extra glyphs"@[11] == 's');
    assert("Font Awesome"@.len() == 12 && "Font Awesome"@[0] == 'F' && "Font Awesome"@[11] == 'e');
    assert("Font Awesome Extension"@.len() == 22 && "Font Awesome Extension"@[0] == 'F' && "Font Awesome Extension"@[21] == 'n');
    assert("Font Logos"@.len() == 10 && "Font Logos"@[0] == 'F' && "Font Logos"@[9] == 's');
    assert("Material Design"@.len() == 15 && "Material Design"@[0] == 'M' && "Material Design"@[14] == 'n');
    assert("Octicons"@.len() == 8 && "Octicons"@[0] == 'O' && "Octicons"@[7] == 's');
    assert("Pomicons"@.len() == 8 && "Pomicons"@[0] == 'P' && "Pomicons"@[7] == 's');
    assert("Power Symbols IEC"@.len() == 17 && "Power Symbols IEC"@[0] == 'P' && "Power Symbols IEC"@[16] == 'C');
    assert("Powerline Extra"@.len() == 15 && "Powerline Extra"@[0] == 'P' && "Powerline Extra"@[14] == 'a');
    assert("Powerline Symbols"@.len() == 17 && "Powerline Symbols"@[0] == 'P' && "Powerline Symbols"@[16] == 's');
    assert("Seti and original"@.len() == 17 && "Seti and original"@[0] == 'S' && "Seti and original"@[16] == 'l');
    assert("Weather Icons"@.len() == 13 && "Weather Icons"@[0] == 'W' && "Weather Icons"@[12] == 's');
}

/// A code that is no icon set has no description, and every icon set has
/// one.
pub proof fn lemma_icon_set_desc_empty(name: Seq<char>)
    ensures
        icon_set_desc(name).len() == 0 <==> !(name == "cod"@ || name == "custom"@ || name == "dev"@ || name == "extra"@ || name == "fa"@ || name == "fae"@ || name == "iec"@ || name == "indent"@ || name == "indentation"@ || name == "linux"@ || name == "md"@ || name == "oct"@ || name == "pl"@ || name == "ple"@ || name == "pom"@ || name == "seti"@ || name == "weather"@),
{
    reveal_strlit("cod");
    reveal_strlit("custom");
    reveal_strlit("dev");
    reveal_strlit("extra");
    reveal_strlit("fa");
    reveal_strlit("fae");
    reveal_strlit("iec");
    reveal_strlit("indent");
    reveal_strlit("indentation");
    reveal_strlit("linux");
    reveal_strlit("md");
    reveal_strlit("oct");
    reveal_strlit("pl");
    reveal_strlit("ple");
    reveal_strlit("pom");
    reveal_strlit("seti");
    reveal_strlit("weather");
    assert("cod"@[0] == 'c' && "cod"@[1] == 'o' && "cod"@[2] == 'd');
    assert("custom"@[0] == 'c' && "custom"@[1] == 'u' && "custom"@[2] == 's' && "custom"@[3] == 't' && "custom"@[4] == 'o' && "custom"@[5] == 'm');
    assert("dev"@[0] == 'd' && "dev"@[1] == 'e' && "dev"@[2] == 'v');
    assert("extra"@[0] == 'e' && "extra"@[1] == 'x' && "extra"@[2] == 't' && "extra"@[3] == 'r' && "extra"@[4] == 'a');
    assert("fa"@[0] == 'f' && "fa"@[1] == 'a');
    assert("fae"@[0] == 'f' && "fae"@[1] == 'a' && "fae"@[2] == 'e');
    assert("iec"@[0] == 'i' && "iec"@[1] == 'e' && "iec"@[2] == 'c');
    assert("indent"@[0] == 'i' && "indent"@[1] == 'n' && "indent"@[2] == 'd' && "indent"@[3] == 'e' && "indent"@[4] == 'n' && "indent"@[5] == 't');
    assert("indentation"@[0] == 'i' && "indentation"@[1] == 'n' && "indentation"@[2] == 'd' && "indentation"@[3] == 'e' && "indentation"@[4] == 'n' && "indentation"@[5] == 't' && "indentation"@[6] == 'a' && "indentation"@[7] == 't' && "indentation"@[8] == 'i' && "indentation"@[9] == 'o' && "indentation"@[10] == 'n');
    assert("linux"@[0] == 'l' && "linux"@[1] == 'i' && "linux"@[2] == 'n' && "linux"@[3] == 'u' && "linux"@[4] == 'x');
    assert("md"@[0] == 'm' && "md"@[1] == 'd');
    assert("oct"@[0] == 'o' && "oct"@[1] == 'c' && "oct"@[2] == 't');
    assert("pl"@[0] == 'p' && "pl"@[1] == 'l');
    assert("ple"@[0] == 'p' && "ple"@[1] == 'l' && "ple"@[2] == 'e');
    assert("pom"@[0] == 'p' && "pom"@[1] == 'o' && "pom"@[2] == 'm');
    assert("seti"@[0] == 's' && "seti"@[1] == 'e' && "seti"@[2] == 't' && "seti"@[3] == 'i');
    assert("weather"@[0] == 'w' && "weather"@[1] == 'e' && "weather"@[2] == 'a' && "weather"@[3] == 't' && "weather"@[4] == 'h' && "weather"@[5] == 'e' && "weather"@[6] == 'r');
    assert("cod"@.len() == 3);
    assert("custom"@.len() == 6);
    assert("dev"@.len() == 3);
    assert("extra"@.len() == 5);
    assert("fa"@.len() == 2);
    assert("fae"@.len() == 3);
    assert("iec"@.len() == 3);
    assert("indent"@.len() == 6);
    assert("indentation"@.len() == 11);
    assert("linux"@.len() == 5);
    assert("md"@.len() == 2);
    assert("oct"@.len() == 3);
    assert("pl"@.len() == 2);
    assert("ple"@.len() == 3);
    assert("pom"@.len() == 3);
    assert("seti"@.len() == 4);
    assert("weather"@.len() == 7);
    reveal_strlit("Codicons");
    reveal_strlit("Devicons");
    reveal_strlit("Extra glyphs");
    reveal_strlit("Font Awesome");
    reveal_strlit("Font Awesome Extension");
    reveal_strlit("Font Logos");
    reveal_strlit("Material Design");
    reveal_strlit("Octicons");
    reveal_strlit("Pomicons");
    reveal_strlit("Power Symbols IEC");
    reveal_strlit("Powerline Extra");
    reveal_strlit("Powerline Symbols");
    reveal_strlit("Seti and original");
    reveal_strlit("Weather Icons");
    assert("Codicons"@.len() == 8 && "Codicons"@[0] == 'C' && "Codicons"@[7] == 's');
    assert("Devicons"@.len() == 8 && "Devicons"@[0] == 'D' && "Devicons"@[7] == 's');
    assert("Extra glyphs"@.len() == 12 && "Extra glyphs"@[0] == 'E' && "Extra glyphs"@[11] == 's');
    assert("Font Awesome"@.len() == 12 && "Font Awesome"@[0] == 'F' && "Font Awesome"@[11] == 'e');
    assert("Font Awesome Extension"@.len() == 22 && "Font Awesome Extension"@[0] == 'F' && "Font Awesome Extension"@[21] == 'n');
    assert("Font Logos"@.len() == 10 && "Font Logos"@[0] == 'F' && "Font Logos"@[9] == 's');
    assert("Material Design"@.len() == 15 && "Material Design"@[0] == 'M' && "Material Design"@[14] == 'n');
    assert("Octicons"@.len() == 8 && "Octicons"@[0] == 'O' && "Octicons"@[7] == 's');
    assert("Pomicons"@.len() == 8 && "Pomicons"@[0] == 'P' && "Pomicons"@[7] == 's');
    assert("Power Symbols IEC"@.len() == 17 && "Power Symbols IEC"@[0] == 'P' && "Power Symbols IEC"@[16] == 'C');
    assert("Powerline Extra"@.len() == 15 && "Powerline Extra"@[0] == 'P' && "Powerline Extra"@[14] == 'a');
    assert("Powerline Symbols"@.len() == 17 && "Powerline Symbols"@[0] == 'P' && "Powerline Symbols"@[16] == 's');
    assert("Seti and original"@.len() == 17 && "Seti and original"@[0] == 'S' && "Seti and original"@[16] == 'l');
    assert("Weather Icons"@.len() == 13 && "Weather Icons"@[0] == 'W' && "Weather Icons"@[12] == 's');
    reveal_strlit("");
}

/// Describes an icon set code (see `icon_set_desc`).
pub fn icon_set_description(name: &str) -> (r: &'static str)
    ensures
        r@ == icon_set_desc(name@),
{
    if str_eq(name, "cod") {
        "Codicons"
    } else if str_eq(name, "custom") {
        "Seti and original"
    } else if str_eq(name, "dev") {
        "Devicons"
    } else if str_eq(name, "extra") {
        "Extra glyphs"
    } else if str_eq(name, "fa") {
        "Font Awesome"
    } else if str_eq(name, "fae") {
        "Font Awesome Extension"
    } else if str_eq(name, "iec") {
        "Power Symbols IEC"
    } else if str_eq(name, "indent") || str_eq(name, "indentation") {
        "Extra glyphs"
    } else if str_eq(name, "linux") {
        "Font Logos"
    } else if str_eq(name, "md") {
        "Material Design"
    } else if str_eq(name, "oct") {
        "Octicons"
    } else if str_eq(name, "pl") {
        "Powerline Symbols"
    } else if str_eq(name, "ple") {
        "Powerline Extra"
    } else if str_eq(name, "pom") {
        "Pomicons"
    } else if str_eq(name, "seti") {
        "Seti and original"
    } else if str_eq(name, "weather") {
        "Weather Icons"
    } else {
        ""
    }
}

} // verus!
