//! Pick frequencies ("frecency"): how often each codepoint was picked, and
//! the little-endian record format they are saved in.

use std::collections::HashMap;
use vstd::prelude::*;
use vstd::std_specs::hash::*;
use crate::corpus::{get_u32, le_u32};

verus! {

broadcast use {
    axiom_u32_obeys_hash_table_key_model,
    axiom_random_state_builds_valid_hashers,
    axiom_spec_hash_map_iter,
};

/// How often `cp` was picked according to `m` (0 when never).
pub open spec fn count_of(m: Map<u32, u32>, cp: u32) -> nat {
    if m.contains_key(cp) {
        m[cp] as nat
    } else {
        0
    }
}

/// The `i`-th saved record: a codepoint and its count, each a little-endian
/// 32-bit value.
pub open spec fn record_at(b: Seq<u8>, i: int) -> (u32, u32) {
    (le_u32(b, 2 * i) as u32, le_u32(b, 2 * i + 1) as u32)
}

/// The records held by a byte string of whole 8-byte records.
pub open spec fn records(b: Seq<u8>) -> Seq<(u32, u32)> {
    Seq::new(b.len() / 8, |i: int| record_at(b, i))
}

/// The map a list of records builds, later records overriding earlier ones.
pub open spec fn pairs_map(s: Seq<(u32, u32)>) -> Map<u32, u32>
    decreases s.len(),
{
    if s.len() == 0 {
        Map::empty()
    } else {
        pairs_map(s.drop_last()).insert(s.last().0, s.last().1)
    }
}

/// The counts saved in a byte string: none unless it is made of whole
/// 8-byte records.
pub open spec fn parse_counts(b: Seq<u8>) -> Map<u32, u32> {
    if b.len() % 8 != 0 {
        Map::empty()
    } else {
        pairs_map(records(b))
    }
}

/// Records listed in strictly ascending codepoint order.
pub open spec fn keys_ascending(s: Seq<(u32, u32)>) -> bool {
    forall|i: int, j: int| 0 <= i < j < s.len() ==> (#[trigger] s[i]).0 < (#[trigger] s[j]).0
}

/// The pick counts of a user.
pub struct Frecency {
    entries: HashMap<u32, u32>,
    dirty: bool,
}

impl Frecency {
    /// The recorded counts.
    pub closed spec fn counts(&self) -> Map<u32, u32> {
        self.entries@
    }

    /// Whether there are picks that were not saved yet.
    pub closed spec fn unsaved(&self) -> bool {
        self.dirty
    }

    /// No counts.
    pub fn empty_for_testing() -> (r: Frecency)
        ensures
            r.counts() == Map::<u32, u32>::empty(),
            !r.unsaved(),
    {
        Frecency { entries: HashMap::new(), dirty: false }
    }

    /// The counts from the saved contents, if there are any; none if the
    /// contents are missing or not made of whole records.
    pub fn load(contents: Option<&[u8]>) -> (r: Frecency)
        ensures
            r.counts() == match contents {
                Some(b) => parse_counts(b@),
                None => Map::empty(),
            },
            !r.unsaved(),
    {
        let entries = match contents {
            Some(b) => read(b),
            None => HashMap::new(),
        };
        Frecency { entries, dirty: false }
    }

    /// How often `codepoint` was picked.
    pub fn get(&self, codepoint: u32) -> (r: u32)
        ensures
            r == count_of(self.counts(), codepoint),
    {
        match self.entries.get(&codepoint) {
            Some(v) => *v,
            None => 0,
        }
    }

    /// Counts one more pick of `codepoint`.
    pub fn record(&mut self, codepoint: u32)
        requires
            count_of(old(self).counts(), codepoint) < u32::MAX,
        ensures
            final(self).counts() == old(self).counts().insert(
                codepoint,
                (count_of(old(self).counts(), codepoint) + 1) as u32,
            ),
            final(self).unsaved(),
    {
        let n = self.get(codepoint);
        self.entries.insert(codepoint, n + 1);
        self.dirty = true;
    }

    /// Whether there are unsaved picks.
    pub fn is_dirty(&self) -> (r: bool)
        ensures
            r == self.unsaved(),
    {
        self.dirty
    }

    /// The bytes to save when there are unsaved picks: one record per
    /// codepoint, in ascending codepoint order.
    pub fn flush(&self) -> (r: Option<Vec<u8>>)
        ensures
            r is Some <==> self.unsaved(),
            r matches Some(b) ==> {
                &&& b@.len() % 8 == 0
                &&& keys_ascending(records(b@))
                &&& pairs_map(records(b@)) == self.counts()
                &&& parse_counts(b@) == self.counts()
            },
    {
        if self.dirty {
            Some(write(&self.entries))
        } else {
            None
        }
    }

    /// Notes that the bytes from `flush` were saved.
    pub fn mark_saved(&mut self)
        ensures
            final(self).counts() == old(self).counts(),
            !final(self).unsaved(),
    {
        self.dirty = false;
    }
}

/// The counts held by `bytes` (see `parse_counts`).
fn read(bytes: &[u8]) -> (r: HashMap<u32, u32>)
    ensures
        r@ == parse_counts(bytes@),
{
    let mut m: HashMap<u32, u32> = HashMap::new();
    if bytes.len() % 8 != 0 {
        return m;
    }
    let blen = bytes.len();
    let k = blen / 8;
    let mut i: usize = 0;
    while i < k
        invariant
            blen == bytes@.len(),
            k == bytes@.len() / 8,
            bytes@.len() % 8 == 0,
            i <= k,
            m@ == pairs_map(records(bytes@).take(i as int)),
        decreases k - i,
    {
        let cp = get_u32(bytes, 2 * i);
        let count = get_u32(bytes, 2 * i + 1);
        proof {
            let s = records(bytes@).take(i + 1);
            assert(s.drop_last() =~= records(bytes@).take(i as int));
            assert(s.last() == record_at(bytes@, i as int));
        }
        m.insert(cp, count);
        i = i + 1;
    }
    proof {
        assert(records(bytes@).take(k as int) =~= records(bytes@));
    }
    m
}

/// The little-endian bytes of `x`.
pub open spec fn le_bytes(x: u32) -> Seq<u8> {
    seq![
        (x % 256) as u8,
        (x / 256 % 256) as u8,
        (x / 65536 % 256) as u8,
        (x / 16777216 % 256) as u8,
    ]
}

pub(crate) proof fn lemma_le_bytes(x: u32)
    ensures
        le_u32(le_bytes(x), 0) == x,
{
    let b = le_bytes(x);
    assert(b[0] + 256 * b[1] + 65536 * b[2] + 16777216 * b[3] == x) by (nonlinear_arith)
        requires
            b[0] == x % 256,
            b[1] == x / 256 % 256,
            b[2] == x / 65536 % 256,
            b[3] == x / 16777216 % 256,
            x < 4294967296,
    ;
}

pub(crate) fn push_u32_le(out: &mut Vec<u8>, x: u32)
    ensures
        final(out)@ == old(out)@ + le_bytes(x),
{
    out.push((x % 256) as u8);
    out.push((x / 256 % 256) as u8);
    out.push((x / 65536 % 256) as u8);
    out.push((x / 16777216 % 256) as u8);
    proof {
        assert(out@ =~= old(out)@ + le_bytes(x));
    }
}

proof fn lemma_pairs_map_keys(s: Seq<(u32, u32)>, k: u32)
    ensures
        pairs_map(s).contains_key(k) <==> exists|i: int| 0 <= i < s.len() && (#[trigger] s[i]).0 == k,
        pairs_map(s).contains_key(k) ==> exists|i: int|
            0 <= i < s.len() && (#[trigger] s[i]).0 == k && s[i].1 == pairs_map(s)[k],
    decreases s.len(),
{
    if s.len() > 0 {
        let t = s.drop_last();
        lemma_pairs_map_keys(t, k);
        if exists|i: int| 0 <= i < t.len() && (#[trigger] t[i]).0 == k {
            let i = choose|i: int| 0 <= i < t.len() && (#[trigger] t[i]).0 == k;
            assert(s[i] == t[i]);
        }
        if exists|i: int| 0 <= i < s.len() && (#[trigger] s[i]).0 == k {
            let i = choose|i: int| 0 <= i < s.len() && (#[trigger] s[i]).0 == k;
            if i < s.len() - 1 {
                assert(t[i] == s[i]);
            }
        }
        if pairs_map(t).contains_key(k) && k != s.last().0 {
            let i = choose|i: int| 0 <= i < t.len() && (#[trigger] t[i]).0 == k && t[i].1 == pairs_map(t)[k];
            assert(s[i] == t[i]);
        }
    }
}

/// Adds `kv` to a list in strictly ascending key order, unless its key is
/// already there.
fn insert_by_key(v: &mut Vec<(u32, u32)>, kv: (u32, u32))
    requires
        keys_ascending(old(v)@),
    ensures
        keys_ascending(final(v)@),
        forall|x: (u32, u32)| final(v)@.contains(x) ==> old(v)@.contains(x) || x == kv,
        final(v)@.contains(kv) || exists|i: int| 0 <= i < old(v)@.len() && (#[trigger] old(v)@[i]).0 == kv.0,
        forall|x: (u32, u32)| old(v)@.contains(x) ==> final(v)@.contains(x),
{
    let mut p: usize = 0;
    while p < v.len() && v[p].0 < kv.0
        invariant
            v@ == old(v)@,
            p <= v@.len(),
            forall|k: int| 0 <= k < p ==> (#[trigger] v@[k]).0 < kv.0,
        decreases v@.len() - p,
    {
        p = p + 1;
    }
    if p < v.len() && v[p].0 == kv.0 {
        return;
    }
    let ghost before = v@;
    v.insert(p, kv);
    proof {
        assert(v@ =~= before.insert(p as int, kv));
        assert(v@[p as int] == kv);
        assert forall|i: int, j: int| 0 <= i < j < v@.len() implies (#[trigger] v@[i]).0 < (#[trigger] v@[j]).0 by {
            if j > p && i < p {
                assert(before[i].0 < kv.0);
                assert(kv.0 < before[p as int].0 || p == before.len());
                if p < before.len() {
                    assert(before[p as int].0 <= before[j - 1].0);
                }
            } else if j > p && i == p {
                if p < before.len() {
                    assert(before[p as int].0 <= before[j - 1].0);
                }
            }
        }
        assert forall|x: (u32, u32)| v@.contains(x) implies before.contains(x) || x == kv by {
            let i = choose|i: int| 0 <= i < v@.len() && v@[i] == x;
            if i < p {
                assert(before[i] == x);
            } else if i > p {
                assert(before[i - 1] == x);
            }
        }
        assert forall|x: (u32, u32)| before.contains(x) implies v@.contains(x) by {
            let i = choose|i: int| 0 <= i < before.len() && before[i] == x;
            if i < p {
                assert(v@[i] == x);
            } else {
                assert(v@[i + 1] == x);
            }
        }
    }
}

/// The bytes of all counts, one record per codepoint in ascending order.
fn write(m: &HashMap<u32, u32>) -> (r: Vec<u8>)
    ensures
        r@.len() % 8 == 0,
        keys_ascending(records(r@)),
        pairs_map(records(r@)) == m@,
        parse_counts(r@) == m@,
{
    let mut sorted: Vec<(u32, u32)> = Vec::new();
    for kv in it: m.iter()
        invariant
            keys_ascending(sorted@),
            forall|x: (u32, u32)| sorted@.contains(x) ==> m@.contains_key(x.0) && m@[x.0] == x.1,
            forall|k: u32|
                m@.contains_key(k) ==> (exists|i: int|
                    0 <= i < sorted@.len() && (#[trigger] sorted@[i]).0 == k) || (exists|a: int|
                    it.index() <= a < it.seq().len() && *(#[trigger] it.seq()[a]).0 == k),
    {
        let ghost before = sorted@;
        insert_by_key(&mut sorted, (*kv.0, *kv.1));
        proof {
            assert forall|k: u32| m@.contains_key(k) implies (exists|i: int|
                0 <= i < sorted@.len() && (#[trigger] sorted@[i]).0 == k) || (exists|a: int|
                it.index() + 1 <= a < it.seq().len() && *(#[trigger] it.seq()[a]).0 == k) by {
                if exists|i: int| 0 <= i < before.len() && (#[trigger] before[i]).0 == k {
                    let i = choose|i: int| 0 <= i < before.len() && (#[trigger] before[i]).0 == k;
                    assert(before.contains(before[i]));
                    assert(sorted@.contains(before[i]));
                } else {
                    let a = choose|a: int| it.index() <= a < it.seq().len() && *(#[trigger] it.seq()[a]).0 == k;
                    if a == it.index() {
                        if !sorted@.contains((*kv.0, *kv.1)) {
                            let i = choose|i: int| 0 <= i < before.len() && (#[trigger] before[i]).0 == *kv.0;
                            assert(before.contains(before[i]));
                            assert(sorted@.contains(before[i]));
                        }
                    }
                }
            }
        }
    }
    assert(forall|k: u32| m@.contains_key(k) ==> exists|i: int|
        0 <= i < sorted@.len() && (#[trigger] sorted@[i]).0 == k);
    let mut out: Vec<u8> = Vec::new();
    let mut i: usize = 0;
    while i < sorted.len()
        invariant
            i <= sorted@.len(),
            out@.len() == 8 * i,
            forall|a: int| 0 <= a < i ==> record_at(out@, a) == #[trigger] sorted@[a],
            keys_ascending(sorted@),
            forall|x: (u32, u32)| sorted@.contains(x) ==> m@.contains_key(x.0) && m@[x.0] == x.1,
            forall|k: u32| m@.contains_key(k) ==> exists|i: int|
                0 <= i < sorted@.len() && (#[trigger] sorted@[i]).0 == k,
        decreases sorted@.len() - i,
    {
        let ghost before = out@;
        push_u32_le(&mut out, sorted[i].0);
        push_u32_le(&mut out, sorted[i].1);
        proof {
            lemma_le_bytes(sorted@[i as int].0);
            lemma_le_bytes(sorted@[i as int].1);
            assert forall|a: int| 0 <= a < i + 1 implies record_at(out@, a) == #[trigger] sorted@[a] by {
                if a < i {
                    assert(record_at(out@, a) == record_at(before, a));
                } else {
                    assert(out@.subrange(8 * a, 8 * a + 4) =~= le_bytes(sorted@[a].0));
                    assert(out@.subrange(8 * a + 4, 8 * a + 8) =~= le_bytes(sorted@[a].1));
                }
            }
        }
        i = i + 1;
    }
    proof {
        assert(records(out@) =~= sorted@);
        assert forall|k: u32| pairs_map(sorted@).contains_key(k) <==> m@.contains_key(k) by {
            lemma_pairs_map_keys(sorted@, k);
            if pairs_map(sorted@).contains_key(k) {
                let i = choose|i: int| 0 <= i < sorted@.len() && (#[trigger] sorted@[i]).0 == k;
                assert(sorted@.contains(sorted@[i]));
            }
        }
        assert(pairs_map(sorted@) =~= m@) by {
            assert forall|k: u32| pairs_map(sorted@).contains_key(k) implies pairs_map(sorted@)[k] == m@[k] by {
                lemma_pairs_map_keys(sorted@, k);
                let i = choose|i: int| 0 <= i < sorted@.len() && (#[trigger] sorted@[i]).0 == k && sorted@[i].1 == pairs_map(sorted@)[k];
                assert(sorted@.contains(sorted@[i]));
            }
        }
    }
    out
}

/// The bytes of a list of records: each codepoint, then its count, both
/// little-endian 32-bit.
pub open spec fn encode_records(s: Seq<(u32, u32)>) -> Seq<u8> {
    Seq::new(
        s.len() * 8,
        |p: int|
            {
                let r = s[p / 8];
                le_bytes(
                    if p % 8 < 4 {
                        r.0
                    } else {
                        r.1
                    },
                )[p % 4]
            },
    )
}

proof fn lemma_div8(i: int, t: int)
    requires
        0 <= i,
        0 <= t < 8,
    ensures
        (8 * i + t) / 8 == i,
        (8 * i + t) % 8 == t,
        (8 * i + t) % 4 == t % 4,
{
    assert((8 * i + t) / 8 == i) by (nonlinear_arith)
        requires
            0 <= i,
            0 <= t < 8,
    ;
    assert((8 * i + t) % 8 == t) by (nonlinear_arith)
        requires
            0 <= i,
            0 <= t < 8,
    ;
    assert((8 * i + t) % 4 == t % 4) by (nonlinear_arith)
        requires
            0 <= i,
            0 <= t < 8,
    ;
}

/// Records written in the file format are read back unchanged, so the
/// counts loaded from them are the ones the records give.
pub proof fn lemma_records_roundtrip(s: Seq<(u32, u32)>)
    ensures
        records(encode_records(s)) == s,
        parse_counts(encode_records(s)) == pairs_map(s),
{
    let b = encode_records(s);
    assert(b.len() / 8 == s.len() && b.len() % 8 == 0) by (nonlinear_arith)
        requires
            b.len() == s.len() * 8,
    ;
    assert forall|i: int| 0 <= i < s.len() implies #[trigger] record_at(b, i) == s[i] by {
        lemma_le_bytes(s[i].0);
        lemma_le_bytes(s[i].1);
        lemma_div8(i, 0);
        lemma_div8(i, 1);
        lemma_div8(i, 2);
        lemma_div8(i, 3);
        lemma_div8(i, 4);
        lemma_div8(i, 5);
        lemma_div8(i, 6);
        lemma_div8(i, 7);
        assert(4 * (2 * i) == 8 * i);
        assert(4 * (2 * i + 1) == 8 * i + 4);
        assert(le_u32(b, 2 * i) == le_u32(le_bytes(s[i].0), 0));
        assert(le_u32(b, 2 * i + 1) == le_u32(le_bytes(s[i].1), 0));
    }
    assert(records(b) =~= s);
}

/// Recording a pick raises that codepoint's count by one and leaves every
/// other count as it was.
pub proof fn lemma_record_counts(counts: Map<u32, u32>, picked: u32, other: u32)
    requires
        count_of(counts, picked) < u32::MAX,
    ensures
        count_of(counts.insert(picked, (count_of(counts, picked) + 1) as u32), picked) == count_of(
            counts,
            picked,
        ) + 1,
        other != picked ==> count_of(
            counts.insert(picked, (count_of(counts, picked) + 1) as u32),
            other,
        ) == count_of(counts, other),
{
}

} // verus!
