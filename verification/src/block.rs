//! Unicode blocks: named, disjoint codepoint ranges in ascending order.

use std::ops::Range;
use vstd::prelude::*;
use vstd::utf8::encode_utf8;
use vstd::string::StringSliceAdditionalSpecFns;
use crate::corpus::{Corpus, lower_bound, num_entries, codepoint, Idx};
use crate::text::{
    eq_ignore_ascii_case, eq_ignore_ascii_case_spec, parse_hex, parse_hex_u32, split_on, split_str,
    string_views, text_lines, text_lines_of, to_string, trim, trimmed,
};

verus! {

/// A named half-open range of codepoints.
#[derive(Debug)]
pub struct Block {
    pub range: Range<u32>,
    pub name: String,
}

impl Clone for Block {
    fn clone(&self) -> (r: Self)
        ensures
            r == *self,
    {
        Block { range: self.range.start..self.range.end, name: self.name.clone() }
    }
}

/// The blocks are in ascending order, each range non-empty and ending at or
/// before the next one starts.
pub open spec fn blocks_ordered(b: Seq<Block>) -> bool {
    &&& forall|i: int| 0 <= i < b.len() ==> (#[trigger] b[i]).range.start < b[i].range.end
    &&& forall|i: int, j: int|
        0 <= i < j < b.len() ==> (#[trigger] b[i]).range.end <= (#[trigger] b[j]).range.start
}

/// Whether block `b` holds codepoint `cp`.
pub open spec fn block_holds(b: Block, cp: u32) -> bool {
    b.range.start <= cp && cp < b.range.end
}

/// A table of Unicode blocks.
pub struct Blocks {
    blocks: Vec<Block>,
}

impl View for Blocks {
    type V = Seq<Block>;

    closed spec fn view(&self) -> Seq<Block> {
        self.blocks@
    }
}

impl Blocks {
    #[verifier::type_invariant]
    closed spec fn inv(&self) -> bool {
        blocks_ordered(self.blocks@)
    }

    /// A table of the given blocks, or `None` when they are not ordered or a
    /// range is empty.
    pub fn new(blocks: Vec<Block>) -> (r: Option<Blocks>)
        ensures
            r is Some <==> blocks_ordered(blocks@),
            r matches Some(t) ==> t@ == blocks@,
    {
        let n = blocks.len();
        let mut i: usize = 0;
        while i < n
            invariant
                n == blocks@.len(),
                i <= n,
                forall|k: int| 0 <= k < i ==> (#[trigger] blocks@[k]).range.start < blocks@[k].range.end,
                forall|k: int, j: int|
                    0 <= k < j < i ==> (#[trigger] blocks@[k]).range.end <= (#[trigger] blocks@[j]).range.start,
            decreases n - i,
        {
            if blocks[i].range.start >= blocks[i].range.end {
                return None;
            }
            if i > 0 && blocks[i - 1].range.end > blocks[i].range.start {
                return None;
            }
            proof {
                assert forall|k: int, j: int| 0 <= k < j < i + 1 implies (#[trigger] blocks@[k]).range.end
                    <= (#[trigger] blocks@[j]).range.start by {
                    if j == i && k < i - 1 {
                        assert(blocks@[k].range.end <= blocks@[i - 1].range.start);
                    }
                }
            }
            i = i + 1;
        }
        Some(Blocks { blocks })
    }
}

/// All blocks, in ascending order.
pub fn all(t: &Blocks) -> (r: &[Block])
    ensures
        r@ == t@,
        blocks_ordered(r@),
        t@.len() > 0 ==> r@.len() > 0,
{
    proof {
        use_type_invariant(t);
    }
    t.blocks.as_slice()
}

/// The name of the block holding `cp`, if any.
pub fn block_of(t: &Blocks, cp: u32) -> (r: Option<&str>)
    ensures
        match r {
            Some(name) => exists|i: int|
                0 <= i < t@.len() && block_holds(#[trigger] t@[i], cp) && name@ == t@[i].name@,
            None => forall|i: int| 0 <= i < t@.len() ==> !block_holds(#[trigger] t@[i], cp),
        },
{
    proof {
        use_type_invariant(t);
    }
    let b = &t.blocks;
    let mut lo: usize = 0;
    let mut hi: usize = b.len();
    while lo < hi
        invariant
            b@ == t@,
            blocks_ordered(b@),
            lo <= hi <= b@.len(),
            forall|j: int| 0 <= j < lo ==> b@[j].range.end <= cp,
            forall|j: int| hi <= j < b@.len() ==> cp < b@[j].range.start,
        decreases hi - lo,
    {
        let mid = lo + (hi - lo) / 2;
        if cp < b[mid].range.start {
            proof {
                assert forall|j: int| mid <= j < b@.len() implies cp < b@[j].range.start by {
                    if j > mid {
                        assert(b@[mid as int].range.end <= b@[j].range.start);
                    }
                }
            }
            hi = mid;
        } else if cp >= b[mid].range.end {
            proof {
                assert forall|j: int| 0 <= j <= mid implies b@[j].range.end <= cp by {
                    if j < mid {
                        assert(b@[j].range.end <= b@[mid as int].range.start);
                    }
                }
            }
            lo = mid + 1;
        } else {
            return Some(b[mid].name.as_str());
        }
    }
    None
}

/// The name of block `b` equals `name` up to ASCII letter case.
pub open spec fn name_matches(b: Block, name: Seq<char>) -> bool {
    eq_ignore_ascii_case_spec(encode_utf8(b.name@), encode_utf8(name))
}

/// Block `i` of `t` is the first whose name matches `name`.
pub open spec fn first_named(t: Seq<Block>, name: Seq<char>, i: int) -> bool {
    &&& 0 <= i < t.len()
    &&& name_matches(t[i], name)
    &&& forall|j: int| 0 <= j < i ==> !name_matches(#[trigger] t[j], name)
}

/// The first block whose name equals `name` up to ASCII letter case.
pub fn by_name<'a>(t: &'a Blocks, name: &str) -> (r: Option<&'a Block>)
    ensures
        match r {
            Some(blk) => exists|i: int| first_named(t@, name@, i) && #[trigger] t@[i] == *blk,
            None => forall|j: int| 0 <= j < t@.len() ==> !name_matches(#[trigger] t@[j], name@),
        },
{
    let b = &t.blocks;
    let mut i: usize = 0;
    while i < b.len()
        invariant
            b@ == t@,
            i <= b@.len(),
            forall|j: int| 0 <= j < i ==> !name_matches(#[trigger] b@[j], name@),
        decreases b@.len() - i,
    {
        if eq_ignore_ascii_case(b[i].name.as_str(), name) {
            return Some(&b[i]);
        }
        i = i + 1;
    }
    None
}

/// The positions of the corpus entries whose codepoints lie in `range`.
pub fn entry_range(c: &Corpus, range: &Range<u32>) -> (r: Range<usize>)
    ensures
        r.start <= r.end <= c@.len(),
        forall|j: int| 0 <= j < r.start ==> #[trigger] c@[j].cp < range.start,
        forall|j: int| r.start <= j < c@.len() ==> #[trigger] c@[j].cp >= range.start,
        forall|j: int|
            0 <= j < c@.len() ==> ((r.start <= j < r.end) <==> (range.start <= #[trigger] c@[j].cp
                < range.end)),
{
    let start = lower_bound(c, range.start);
    let n = num_entries(c);
    let mut end = start;
    while end < n && codepoint(c, Idx(end as u32)) < range.end
        invariant
            n == c@.len(),
            n <= u32::MAX,
            start <= end <= n,
            forall|j: int| start <= j < end ==> c@[j].cp < range.end,
        decreases n - end,
    {
        end = end + 1;
    }
    proof {
        if end < n {
            assert forall|j: int| end <= j < n implies c@[j].cp >= range.end by {
                assert(c@[end as int].cp <= c@[j].cp);
            }
        }
    }
    start..end
}


/// A hex number as `u32::from_str_radix(s, 16).unwrap_or(0)` reads it.
pub open spec fn hex_or_zero(s: Seq<char>) -> u32 {
    match parse_hex_u32(s) {
        Some(v) => v,
        None => 0,
    }
}

/// The block of a line of the block table: its first and last codepoint in
/// hex (0 where unreadable) and its name, trimmed.
pub fn block_from_fields(start_hex: &str, end_hex: &str, name: &str) -> (r: Block)
    requires
        hex_or_zero(end_hex@) < u32::MAX,
    ensures
        r.range.start == hex_or_zero(start_hex@),
        r.range.end == hex_or_zero(end_hex@) + 1,
        r.name@ == trimmed(name@),
{
    let start = match parse_hex(start_hex) {
        Some(v) => v,
        None => 0,
    };
    let end = match parse_hex(end_hex) {
        Some(v) => v,
        None => 0,
    };
    Block { range: start..end + 1, name: to_string(trim(name)) }
}


/// Field `k` of a tab-separated line (empty where the line has fewer
/// fields).
pub open spec fn tab_field(line: Seq<char>, k: int) -> Seq<char> {
    let p = split_on(line, '\t');
    if k < p.len() {
        p[k]
    } else {
        Seq::empty()
    }
}

/// The last codepoint of a line of the block table leaves room for the end
/// of its range.
pub open spec fn row_fits(line: Seq<char>) -> bool {
    hex_or_zero(tab_field(line, 1)) < u32::MAX
}

/// `b` is the block a line of the block table describes (see
/// `block_from_fields`).
pub open spec fn row_block(line: Seq<char>, b: Block) -> bool {
    &&& b.range.start == hex_or_zero(tab_field(line, 0))
    &&& b.range.end == hex_or_zero(tab_field(line, 1)) + 1
    &&& b.name@ == trimmed(tab_field(line, 2))
}

/// Reads the block table: one line per block, with its first and last
/// codepoint in hex and its name, separated by tabs. `None` when a line's
/// last codepoint is `u32::MAX`, so that its range cannot end after it.
pub fn parse_block_table(text: &str) -> (r: Option<Vec<Block>>)
    ensures
        r is Some <==> forall|k: int|
            0 <= k < text_lines(text@).len() ==> row_fits(#[trigger] text_lines(text@)[k]),
        r matches Some(v) ==> v@.len() == text_lines(text@).len() && forall|k: int|
            0 <= k < v@.len() ==> row_block(text_lines(text@)[k], #[trigger] v@[k]),
{
    let lines = text_lines_of(text);
    let ghost ls = text_lines(text@);
    let mut out: Vec<Block> = Vec::new();
    let mut k: usize = 0;
    while k < lines.len()
        invariant
            string_views(lines@) == ls,
            ls == text_lines(text@),
            k <= lines@.len(),
            out@.len() == k,
            forall|j: int| 0 <= j < k ==> row_fits(#[trigger] ls[j]),
            forall|j: int| 0 <= j < k ==> row_block(ls[j], #[trigger] out@[j]),
        decreases lines@.len() - k,
    {
        let fields = split_str(lines[k].as_str(), '\t');
        let ghost line = ls[k as int];
        proof {
            assert(lines@[k as int]@ == line);
        }
        let start = if fields.len() > 0 {
            fields[0].as_str()
        } else {
            ""
        };
        let end = if fields.len() > 1 {
            fields[1].as_str()
        } else {
            ""
        };
        let name = if fields.len() > 2 {
            fields[2].as_str()
        } else {
            ""
        };
        proof {
            reveal_strlit("");
            assert(""@ =~= Seq::<char>::empty());
            assert(start@ == tab_field(line, 0));
            assert(end@ == tab_field(line, 1));
            assert(name@ == tab_field(line, 2));
        }
        let last = match parse_hex(end) {
            Some(v) => v,
            None => 0,
        };
        if last == u32::MAX {
            proof {
                assert(!row_fits(ls[k as int]));
            }
            return None;
        }
        out.push(block_from_fields(start, end, name));
        k = k + 1;
    }
    Some(out)
}

} // verus!
