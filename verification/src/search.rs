//! Name search: frecency-ranked listing for an empty query, fuzzy matching
//! otherwise, then ordering and truncation of the hits.

use vstd::prelude::*;
use vstd::multiset::*;
use vstd::seq_lib::*;
use vstd::slice::slice_to_vec;
use vstd::utf8::*;
use vstd::string::*;
use crate::Sort;
use crate::corpus::{Corpus, EntryView, Idx, codepoint, entry_name, num_entries};
use crate::frecency::{Frecency, count_of};
use crate::sort::{
    in_bounds, is_permutation, key_le, lemma_permutation_distinct, positions, sort_positions,
    sorted_by_keys, stable_le,
};
use crate::text::{
    bytes_lt, lemma_bytes_lt_irreflexive, lemma_bytes_lt_total, lemma_bytes_lt_transitive, str_lt,
};

verus! {

broadcast use {group_to_multiset_ensures, group_multiset_axioms, encode_utf8_decode_utf8};

/// A search hit: the entry, its fuzzy score and its (clamped) pick count.
#[derive(Debug, Clone, Copy)]
pub struct Match {
    pub idx: Idx,
    pub score: u16,
    pub freq: u16,
}

/// Queries longer than this many bytes match nothing.
pub const MAX_QUERY_LEN: usize = 3275;

/// A pick count clamped to 16 bits.
pub open spec fn clamp_freq(f: nat) -> u16 {
    if f > 65535 {
        65535
    } else {
        f as u16
    }
}

/// Hit `a` may be listed before hit `b` under `sort`.
pub open spec fn ranked_le(c: Seq<EntryView>, sort: Sort, a: Match, b: Match) -> bool {
    match sort {
        Sort::Relevance => a.freq > b.freq || (a.freq == b.freq && a.score >= b.score),
        Sort::Name => !str_lt(c[b.idx.0 as int].name, c[a.idx.0 as int].name),
        Sort::Codepoint => c[a.idx.0 as int].cp <= c[b.idx.0 as int].cp,
    }
}

/// Hits `a` and `b` rank equally under `sort`.
pub open spec fn tied(c: Seq<EntryView>, sort: Sort, a: Match, b: Match) -> bool {
    match sort {
        Sort::Relevance => a.freq == b.freq && a.score == b.score,
        Sort::Name => c[a.idx.0 as int].name == c[b.idx.0 as int].name,
        Sort::Codepoint => c[a.idx.0 as int].cp == c[b.idx.0 as int].cp,
    }
}

/// `s` is `cands` rearranged by the permutation `perm` (`s[i]` is
/// `cands[perm[i]]`), with tied hits kept in their order in `cands`.
pub open spec fn arranged_by(
    c: Seq<EntryView>,
    sort: Sort,
    s: Seq<Match>,
    cands: Seq<Match>,
    perm: Seq<usize>,
) -> bool {
    &&& is_permutation(perm, cands.len())
    &&& perm.len() == cands.len()
    &&& s == Seq::new(cands.len(), |i: int| cands[perm[i] as int])
    &&& forall|i: int, j: int|
        0 <= i < j < s.len() && tied(c, sort, #[trigger] s[i], #[trigger] s[j]) ==> perm[i] < perm[j]
}

/// `s` lists the hits `cands`, each once, in `sort` order; tied hits keep
/// their order in `cands`.
pub open spec fn is_ranking(c: Seq<EntryView>, sort: Sort, s: Seq<Match>, cands: Seq<Match>) -> bool {
    &&& exists|perm: Seq<usize>| arranged_by(c, sort, s, cands, perm)
    &&& forall|i: int, j: int| 0 <= i < j < s.len() ==> ranked_le(c, sort, #[trigger] s[i], #[trigger] s[j])
}

/// In a relevance ranking, a hit picked more often comes before one picked
/// less often.
pub proof fn lemma_picked_first(c: Seq<EntryView>, s: Seq<Match>, cands: Seq<Match>, i: int, j: int)
    requires
        is_ranking(c, Sort::Relevance, s, cands),
        0 <= i < s.len(),
        0 <= j < s.len(),
        s[i].freq > s[j].freq,
    ensures
        i < j,
{
    if j < i {
        assert(ranked_le(c, Sort::Relevance, s[j], s[i]));
    }
}

/// The first `limit` items of `s` (all of them if there are fewer).
pub open spec fn truncated(s: Seq<Match>, limit: usize) -> Seq<Match> {
    if limit < s.len() {
        s.take(limit as int)
    } else {
        s
    }
}

/// The entries among `idxs` that were picked at least once, in order, as
/// hits with score 0.
pub open spec fn frecency_hits(c: Seq<EntryView>, idxs: Seq<Idx>, counts: Map<u32, u32>) -> Seq<Match>
    decreases idxs.len(),
{
    if idxs.len() == 0 {
        Seq::empty()
    } else {
        let rest = frecency_hits(c, idxs.drop_last(), counts);
        let idx = idxs.last();
        let f = count_of(counts, c[idx.0 as int].cp);
        if f > 0 {
            rest.push(Match { idx, score: 0, freq: clamp_freq(f) })
        } else {
            rest
        }
    }
}

/// The hits for the fuzzy matches `raw` (position in `idxs`, score), in order.
pub open spec fn fuzzy_hits(
    c: Seq<EntryView>,
    idxs: Seq<Idx>,
    raw: Seq<(u32, u16)>,
    counts: Map<u32, u32>,
) -> Seq<Match> {
    Seq::new(
        raw.len(),
        |k: int|
            Match {
                idx: idxs[raw[k].0 as int],
                score: raw[k].1,
                freq: clamp_freq(count_of(counts, c[idxs[raw[k].0 as int].0 as int].cp)),
            },
    )
}

/// The typo budget actually used for a query of `query_bytes` bytes.
pub open spec fn typo_budget(max_typos: Option<u16>, query_bytes: nat) -> Option<u16> {
    let allowed: int = if query_bytes == 0 {
        0
    } else if query_bytes - 1 > 65535 {
        65535
    } else {
        query_bytes - 1
    };
    match max_typos {
        Some(t) => Some(if t < allowed { t } else { allowed as u16 }),
        None => None,
    }
}

/// The typo budget handed to the matcher for a query of `n > 0` bytes: no
/// limit stays no limit, and a limit `t` becomes the smaller of `t` and
/// `n - 1`, so a query is never allowed as many typos as it has bytes.
pub proof fn lemma_typo_budget_below_query(max_typos: Option<u16>, n: nat)
    requires
        n > 0,
    ensures
        max_typos is None ==> typo_budget(max_typos, n) is None,
        max_typos matches Some(t) ==> (typo_budget(max_typos, n) matches Some(b) && b as int == (
        if (t as int) < n - 1 {
            t as int
        } else {
            n - 1
        }) && (b as int) < n && b <= t),
{
}

/// What `str::to_uppercase` returns for a string.
pub uninterp spec fn upper_case(s: Seq<char>) -> Seq<char>;

/// Calls `str::to_uppercase`; the contract names its result.
#[verifier::external_body]
fn to_uppercase(s: &str) -> (r: String)
    ensures
        r@ == upper_case(s@),
{
    s.to_uppercase()
}

/// The ASCII upper-case letter for an ASCII lower-case one; any other char
/// unchanged.
pub open spec fn ascii_upper_char(c: char) -> char {
    if 'a' <= c && c <= 'z' {
        ((c as u32) - 32) as char
    } else {
        c
    }
}

/// `s` with its ASCII lower-case letters upper-cased.
pub open spec fn ascii_upper(s: Seq<char>) -> Seq<char> {
    s.map_values(|c: char| ascii_upper_char(c))
}

/// The upper-cased query that names are matched against: for an ASCII
/// query its ASCII upper case, otherwise what `str::to_uppercase` returns.
pub open spec fn query_upper(s: Seq<char>) -> Seq<char> {
    if is_ascii_chars(s) {
        ascii_upper(s)
    } else {
        upper_case(s)
    }
}

/// Upper-cases a query (see `query_upper`).
fn upper_query(s: &str) -> (r: String)
    ensures
        r@ == query_upper(s@),
{
    broadcast use {encode_utf8_valid_utf8, encode_utf8_decode_utf8};

    if !s.is_ascii() {
        return to_uppercase(s);
    }
    let bytes = s.as_bytes();
    let ghost t = ascii_upper(s@);
    proof {
        assert(bytes@ == encode_utf8(s@));
        assert(is_ascii_chars(t));
        is_ascii_chars_encode_utf8(t);
        is_ascii_chars_encode_utf8(s@);
    }
    let mut out: Vec<u8> = Vec::new();
    let mut i: usize = 0;
    while i < bytes.len()
        invariant
            bytes@ == encode_utf8(s@),
            bytes@.len() == s@.len(),
            t == ascii_upper(s@),
            forall|k: int| 0 <= k < s@.len() ==> #[trigger] bytes@[k] == s@[k] as u8,
            forall|k: int| 0 <= k < t.len() ==> #[trigger] encode_utf8(t)[k] == t[k] as u8,
            encode_utf8(t).len() == t.len(),
            is_ascii_chars(s@),
            i <= bytes@.len(),
            out@ == encode_utf8(t).take(i as int),
        decreases bytes@.len() - i,
    {
        let b = bytes[i];
        let u = if 97 <= b && b <= 122 {
            b - 32
        } else {
            b
        };
        proof {
            let ch = s@[i as int];
            assert('\0' <= ch <= '\u{7f}');
            assert(b == ch as u8);
            assert(u == ascii_upper_char(ch) as u8);
            assert(encode_utf8(t)[i as int] == t[i as int] as u8);
        }
        out.push(u);
        proof {
            assert(out@ =~= encode_utf8(t).take(i + 1));
        }
        i = i + 1;
    }
    proof {
        assert(out@ =~= encode_utf8(t));
    }
    match crate::corpus::utf8_str(out.as_slice()) {
        Some(r) => {
            proof {
                assert(r@ == decode_utf8(encode_utf8(r@)));
            }
            crate::text::to_string(r)
        },
        None => {
            proof {
                assert(false);
            }
            String::new()
        },
    }
}

/// The fuzzy matches frizbee reports: the position of each matching
/// haystack and its score, in frizbee's order.
pub uninterp spec fn fuzzy_match(
    needle: Seq<char>,
    haystacks: Seq<Seq<char>>,
    max_typos: Option<u16>,
) -> Seq<(u32, u16)>;

/// Runs `frizbee::Matcher::match_list` with the default configuration and
/// the given typo budget. The contract names the result; frizbee reports
/// positions of the haystacks it was given, so each lies below their count.
/// It asserts (panics) when there are more than `u32::MAX` haystacks.
#[verifier::external_body]
fn match_list(needle: &str, haystacks: &[&str], max_typos: Option<u16>) -> (r: Vec<(u32, u16)>)
    requires
        haystacks@.len() <= u32::MAX,
    ensures
        r@ == fuzzy_match(needle@, haystacks@.map_values(|h: &str| h@), max_typos),
        forall|k: int| 0 <= k < r@.len() ==> (#[trigger] r@[k]).0 < haystacks@.len(),
{
    let config = frizbee::Config { max_typos, ..frizbee::Config::default() };
    let mut matcher = frizbee::Matcher::new(needle, &config);
    matcher.match_list(haystacks).into_iter().map(|m| (m.index, m.score)).collect()
}


/// The two big-endian bytes of a 16-bit value.
pub open spec fn be_u16(x: int) -> Seq<u8> {
    seq![(x / 256) as u8, (x % 256) as u8]
}

/// The byte string hits are ordered by under `sort`: byte order of the keys
/// is the ranking order.
pub open spec fn rank_key(c: Seq<EntryView>, sort: Sort, m: Match) -> Seq<u8> {
    match sort {
        Sort::Relevance => be_u16(65535 - m.freq) + be_u16(65535 - m.score),
        Sort::Name => encode_utf8(c[m.idx.0 as int].name),
        Sort::Codepoint => be_u16(c[m.idx.0 as int].cp as int / 65536) + be_u16(
            c[m.idx.0 as int].cp as int % 65536,
        ),
    }
}

proof fn lemma_be_u16(x: int, y: int)
    requires
        0 <= x < 65536,
        0 <= y < 65536,
    ensures
        bytes_lt(be_u16(x), be_u16(y)) <==> x < y,
        be_u16(x) == be_u16(y) <==> x == y,
{
    let a = be_u16(x);
    let b = be_u16(y);
    assert(a.drop_first() =~= seq![(x % 256) as u8]);
    assert(b.drop_first() =~= seq![(y % 256) as u8]);
    assert(a.drop_first().drop_first() =~= Seq::<u8>::empty());
    assert(b.drop_first().drop_first() =~= Seq::<u8>::empty());
    assert(bytes_lt(a.drop_first(), b.drop_first()) == (x % 256 < y % 256)) by {
        reveal_with_fuel(bytes_lt, 2);
    }
    assert((x < y) == (x / 256 < y / 256 || (x / 256 == y / 256 && x % 256 < y % 256)))
        by (nonlinear_arith)
        requires
            0 <= x < 65536,
            0 <= y < 65536,
    ;
    assert((x == y) == (x / 256 == y / 256 && x % 256 == y % 256)) by (nonlinear_arith)
        requires
            0 <= x < 65536,
            0 <= y < 65536,
    ;
    if x == y {
        assert(a =~= b);
    }
    if a == b {
        assert(a[0] == b[0] && a[1] == b[1]);
    }
}

proof fn lemma_bytes_lt_concat(a1: Seq<u8>, a2: Seq<u8>, b1: Seq<u8>, b2: Seq<u8>)
    requires
        a1.len() == b1.len(),
    ensures
        bytes_lt(a1 + a2, b1 + b2) == if a1 == b1 {
            bytes_lt(a2, b2)
        } else {
            bytes_lt(a1, b1)
        },
    decreases a1.len(),
{
    if a1.len() == 0 {
        assert(a1 + a2 =~= a2);
        assert(b1 + b2 =~= b2);
        assert(a1 =~= b1);
    } else {
        assert((a1 + a2).drop_first() =~= a1.drop_first() + a2);
        assert((b1 + b2).drop_first() =~= b1.drop_first() + b2);
        assert((a1 + a2)[0] == a1[0]);
        assert((b1 + b2)[0] == b1[0]);
        lemma_bytes_lt_concat(a1.drop_first(), a2, b1.drop_first(), b2);
        if a1[0] == b1[0] && a1.drop_first() == b1.drop_first() {
            assert(a1 =~= b1) by {
                assert(a1 =~= seq![a1[0]] + a1.drop_first());
                assert(b1 =~= seq![b1[0]] + b1.drop_first());
            }
        }
        if a1 == b1 {
            assert(a1.drop_first() == b1.drop_first());
        }
    }
}

/// Byte order of the keys is the ranking order.
proof fn lemma_rank_key(c: Seq<EntryView>, sort: Sort, a: Match, b: Match)
    ensures
        !bytes_lt(rank_key(c, sort, b), rank_key(c, sort, a)) <==> ranked_le(c, sort, a, b),
{
    match sort {
        Sort::Relevance => {
            lemma_be_u16(65535 - b.freq, 65535 - a.freq);
            lemma_be_u16(65535 - b.score, 65535 - a.score);
            lemma_bytes_lt_concat(
                be_u16(65535 - b.freq),
                be_u16(65535 - b.score),
                be_u16(65535 - a.freq),
                be_u16(65535 - a.score),
            );
        },
        Sort::Name => {},
        Sort::Codepoint => {
            let x = c[a.idx.0 as int].cp as int;
            let y = c[b.idx.0 as int].cp as int;
            lemma_be_u16(y / 65536, x / 65536);
            lemma_be_u16(y % 65536, x % 65536);
            lemma_bytes_lt_concat(
                be_u16(y / 65536),
                be_u16(y % 65536),
                be_u16(x / 65536),
                be_u16(x % 65536),
            );
            assert((x <= y) == (x / 65536 < y / 65536 || (x / 65536 == y / 65536 && x % 65536
                <= y % 65536))) by (nonlinear_arith)
                requires
                    0 <= x < 4294967296,
                    0 <= y < 4294967296,
            ;
        },
    }
}

/// Equal ranking keys mean tied hits.
proof fn lemma_rank_key_tied(c: Seq<EntryView>, sort: Sort, a: Match, b: Match)
    requires
        rank_key(c, sort, a) == rank_key(c, sort, b),
    ensures
        tied(c, sort, a, b),
{
    match sort {
        Sort::Relevance => {
            let ka = rank_key(c, sort, a);
            let kb = rank_key(c, sort, b);
            assert(ka.subrange(0, 2) =~= be_u16(65535 - a.freq));
            assert(kb.subrange(0, 2) =~= be_u16(65535 - b.freq));
            assert(ka.subrange(2, 4) =~= be_u16(65535 - a.score));
            assert(kb.subrange(2, 4) =~= be_u16(65535 - b.score));
            lemma_be_u16(65535 - a.freq, 65535 - b.freq);
            lemma_be_u16(65535 - a.score, 65535 - b.score);
        },
        Sort::Name => {
            broadcast use vstd::utf8::encode_utf8_decode_utf8;

            let na = c[a.idx.0 as int].name;
            let nb = c[b.idx.0 as int].name;
            assert(decode_utf8(encode_utf8(na)) == na);
            assert(decode_utf8(encode_utf8(nb)) == nb);
        },
        Sort::Codepoint => {
            let x = c[a.idx.0 as int].cp as int;
            let y = c[b.idx.0 as int].cp as int;
            let ka = rank_key(c, sort, a);
            let kb = rank_key(c, sort, b);
            assert(ka.subrange(0, 2) =~= be_u16(x / 65536));
            assert(kb.subrange(0, 2) =~= be_u16(y / 65536));
            assert(ka.subrange(2, 4) =~= be_u16(x % 65536));
            assert(kb.subrange(2, 4) =~= be_u16(y % 65536));
            lemma_be_u16(x / 65536, y / 65536);
            lemma_be_u16(x % 65536, y % 65536);
            assert(x == y) by (nonlinear_arith)
                requires
                    x / 65536 == y / 65536,
                    x % 65536 == y % 65536,
                    0 <= x,
                    0 <= y,
            ;
        },
    }
}

/// Position `p` of `cands` comes strictly before position `q` in a stable
/// ranking: its key is smaller, or the keys are equal and `p < q`.
pub open spec fn position_before(
    c: Seq<EntryView>,
    sort: Sort,
    cands: Seq<Match>,
    p: usize,
    q: usize,
) -> bool {
    let kp = rank_key(c, sort, cands[p as int]);
    let kq = rank_key(c, sort, cands[q as int]);
    bytes_lt(kp, kq) || (kp == kq && p < q)
}

proof fn lemma_increasing_unique(
    a: Seq<usize>,
    b: Seq<usize>,
    lt: spec_fn(usize, usize) -> bool,
)
    requires
        forall|i: int, j: int| 0 <= i < j < a.len() ==> lt(#[trigger] a[i], #[trigger] a[j]),
        forall|i: int, j: int| 0 <= i < j < b.len() ==> lt(#[trigger] b[i], #[trigger] b[j]),
        forall|x: usize| a.contains(x) <==> b.contains(x),
        forall|x: usize| !#[trigger] lt(x, x),
        forall|x: usize, y: usize, z: usize| #[trigger] lt(x, y) && #[trigger] lt(y, z) ==> lt(x, z),
    ensures
        a == b,
    decreases a.len(),
{
    if a.len() == 0 {
        if b.len() > 0 {
            assert(b.contains(b[0]));
        }
        assert(a =~= b);
    } else if b.len() == 0 {
        assert(a.contains(a[0]));
    } else {
        assert(a.contains(a[0]));
        assert(b.contains(b[0]));
        let i = choose|i: int| 0 <= i < a.len() && a[i] == b[0];
        let j = choose|j: int| 0 <= j < b.len() && b[j] == a[0];
        if i > 0 && j > 0 {
            assert(lt(a[0], a[i]));
            assert(lt(b[0], b[j]));
            assert(lt(a[0], a[0]));
        }
        assert(a[0] == b[0]);
        let ta = a.drop_first();
        let tb = b.drop_first();
        assert forall|x: usize| ta.contains(x) <==> tb.contains(x) by {
            if ta.contains(x) {
                let p = choose|p: int| 0 <= p < ta.len() && ta[p] == x;
                assert(a[p + 1] == x);
                assert(lt(a[0], a[p + 1]));
                assert(a.contains(x));
                let q = choose|q: int| 0 <= q < b.len() && b[q] == x;
                assert(q != 0);
                assert(tb[q - 1] == x);
            }
            if tb.contains(x) {
                let p = choose|p: int| 0 <= p < tb.len() && tb[p] == x;
                assert(b[p + 1] == x);
                assert(lt(b[0], b[p + 1]));
                assert(b.contains(x));
                let q = choose|q: int| 0 <= q < a.len() && a[q] == x;
                assert(q != 0);
                assert(ta[q - 1] == x);
            }
        }
        assert forall|p: int, q: int| 0 <= p < q < ta.len() implies lt(#[trigger] ta[p], #[trigger] ta[q]) by {
            assert(ta[p] == a[p + 1] && ta[q] == a[q + 1]);
        }
        assert forall|p: int, q: int| 0 <= p < q < tb.len() implies lt(#[trigger] tb[p], #[trigger] tb[q]) by {
            assert(tb[p] == b[p + 1] && tb[q] == b[q + 1]);
        }
        lemma_increasing_unique(ta, tb, lt);
        assert(a =~= seq![a[0]] + ta);
        assert(b =~= seq![b[0]] + tb);
    }
}

/// The permutation behind a ranking lists the positions in stable key
/// order.
proof fn lemma_arranged_increasing(
    c: Seq<EntryView>,
    sort: Sort,
    s: Seq<Match>,
    cands: Seq<Match>,
    perm: Seq<usize>,
)
    requires
        arranged_by(c, sort, s, cands, perm),
        forall|i: int, j: int| 0 <= i < j < s.len() ==> ranked_le(c, sort, #[trigger] s[i], #[trigger] s[j]),
    ensures
        forall|i: int, j: int|
            0 <= i < j < perm.len() ==> position_before(c, sort, cands, #[trigger] perm[i], #[trigger] perm[j]),
{
    assert forall|i: int, j: int| 0 <= i < j < perm.len() implies position_before(
        c,
        sort,
        cands,
        #[trigger] perm[i],
        #[trigger] perm[j],
    ) by {
        assert(s[i] == cands[perm[i] as int]);
        assert(s[j] == cands[perm[j] as int]);
        assert(ranked_le(c, sort, s[i], s[j]));
        lemma_rank_key(c, sort, s[i], s[j]);
        let ki = rank_key(c, sort, s[i]);
        let kj = rank_key(c, sort, s[j]);
        lemma_bytes_lt_total(ki, kj);
        if ki == kj {
            lemma_rank_key_tied(c, sort, s[i], s[j]);
        }
    }
}

/// A ranking of given candidates is unique.
pub proof fn lemma_ranking_unique(c: Seq<EntryView>, sort: Sort, s1: Seq<Match>, s2: Seq<Match>, cands: Seq<Match>)
    requires
        is_ranking(c, sort, s1, cands),
        is_ranking(c, sort, s2, cands),
    ensures
        s1 == s2,
{
    broadcast use {group_to_multiset_ensures, group_multiset_axioms};

    let p1 = choose|perm: Seq<usize>| arranged_by(c, sort, s1, cands, perm);
    let p2 = choose|perm: Seq<usize>| arranged_by(c, sort, s2, cands, perm);
    lemma_arranged_increasing(c, sort, s1, cands, p1);
    lemma_arranged_increasing(c, sort, s2, cands, p2);
    let lt = |p: usize, q: usize| position_before(c, sort, cands, p, q);
    assert(p1.to_multiset() == p2.to_multiset());
    p1.to_multiset_ensures();
    p2.to_multiset_ensures();
    assert forall|x: usize| p1.contains(x) <==> p2.contains(x) by {
        assert(p1.contains(x) <==> p1.to_multiset().count(x) > 0);
        assert(p2.contains(x) <==> p2.to_multiset().count(x) > 0);
    }
    assert forall|x: usize| !#[trigger] lt(x, x) by {
        lemma_bytes_lt_irreflexive(rank_key(c, sort, cands[x as int]));
    }
    assert forall|x: usize, y: usize, z: usize| #[trigger] lt(x, y) && #[trigger] lt(y, z) implies lt(x, z) by {
        let kx = rank_key(c, sort, cands[x as int]);
        let ky = rank_key(c, sort, cands[y as int]);
        let kz = rank_key(c, sort, cands[z as int]);
        if bytes_lt(kx, ky) && bytes_lt(ky, kz) {
            lemma_bytes_lt_transitive(kx, ky, kz);
        }
    }
    lemma_increasing_unique(p1, p2, lt);
    assert(s1 =~= s2);
}

/// Two results that both meet `search_outcome` for the same search are
/// equal: a search has one result.
pub proof fn lemma_search_outcome_unique(
    c: Seq<EntryView>,
    query: Seq<char>,
    query_bytes: nat,
    idxs: Seq<Idx>,
    names: Seq<Seq<char>>,
    counts: Map<u32, u32>,
    limit: usize,
    max_typos: Option<u16>,
    sort: Sort,
    r1: Seq<Match>,
    r2: Seq<Match>,
)
    requires
        search_outcome(c, query, query_bytes, idxs, names, counts, limit, max_typos, sort, r1),
        search_outcome(c, query, query_bytes, idxs, names, counts, limit, max_typos, sort, r2),
    ensures
        r1 == r2,
{
    if query.len() == 0 {
        let cands = frecency_hits(c, idxs, counts);
        let s1 = choose|s: Seq<Match>| is_ranking(c, sort, s, cands) && r1 == truncated(s, limit);
        let s2 = choose|s: Seq<Match>| is_ranking(c, sort, s, cands) && r2 == truncated(s, limit);
        lemma_ranking_unique(c, sort, s1, s2, cands);
    } else if query_bytes > MAX_QUERY_LEN {
        assert(r1 =~= r2);
    } else {
        let cands = fuzzy_hits(
            c,
            idxs,
            fuzzy_match(query_upper(query), names, typo_budget(max_typos, query_bytes)),
            counts,
        );
        let s1 = choose|s: Seq<Match>| is_ranking(c, sort, s, cands) && r1 == truncated(s, limit);
        let s2 = choose|s: Seq<Match>| is_ranking(c, sort, s, cands) && r2 == truncated(s, limit);
        lemma_ranking_unique(c, sort, s1, s2, cands);
    }
}

fn push_be_u16(out: &mut Vec<u8>, x: u16)
    ensures
        final(out)@ == old(out)@ + be_u16(x as int),
{
    out.push((x / 256) as u8);
    out.push((x % 256) as u8);
    proof {
        assert(out@ =~= old(out)@ + be_u16(x as int));
    }
}

/// The ranking key of hit `m` (see `rank_key`).
fn make_key(c: &Corpus, m: Match, sort: Sort) -> (k: Vec<u8>)
    requires
        m.idx.0 < c@.len(),
    ensures
        k@ == rank_key(c@, sort, m),
{
    let mut k: Vec<u8> = Vec::new();
    match sort {
        Sort::Relevance => {
            push_be_u16(&mut k, 65535 - m.freq);
            push_be_u16(&mut k, 65535 - m.score);
            proof {
                assert(k@ =~= rank_key(c@, sort, m));
            }
        },
        Sort::Name => {
            let name = entry_name(c, m.idx);
            k = slice_to_vec(name.as_bytes());
        },
        Sort::Codepoint => {
            let cp = codepoint(c, m.idx);
            push_be_u16(&mut k, (cp / 65536) as u16);
            push_be_u16(&mut k, (cp % 65536) as u16);
            proof {
                assert(k@ =~= rank_key(c@, sort, m));
            }
        },
    }
    k
}

/// The hits rearranged into `sort` order.
pub(crate) fn sort_matches(c: &Corpus, matches: Vec<Match>, sort: Sort) -> (r: Vec<Match>)
    requires
        forall|k: int| 0 <= k < matches@.len() ==> (#[trigger] matches@[k]).idx.0 < c@.len(),
    ensures
        is_ranking(c@, sort, r@, matches@),
{
    let n = matches.len();
    let mut keys: Vec<Vec<u8>> = Vec::new();
    let mut i: usize = 0;
    while i < n
        invariant
            n == matches@.len(),
            i <= n,
            keys@.len() == i,
            forall|k: int| 0 <= k < matches@.len() ==> (#[trigger] matches@[k]).idx.0 < c@.len(),
            forall|k: int| 0 <= k < i ==> (#[trigger] keys@[k])@ == rank_key(c@, sort, matches@[k]),
        decreases n - i,
    {
        keys.push(make_key(c, matches[i], sort));
        i = i + 1;
    }
    let ghost ks = keys@.map_values(|k: Vec<u8>| k@);
    let perm = sort_positions(&keys);
    proof {
        assert(perm@.len() == positions(n as nat).len()) by {
            assert(perm@.to_multiset().len() == perm@.len());
            assert(positions(n as nat).to_multiset().len() == positions(n as nat).len());
        }
    }
    let mut out: Vec<Match> = Vec::new();
    let mut j: usize = 0;
    while j < perm.len()
        invariant
            n == matches@.len(),
            perm@.len() == n,
            in_bounds(ks, perm@),
            ks.len() == n,
            j <= n,
            out@.len() == j,
            forall|k: int| 0 <= k < j ==> (#[trigger] out@[k]) == matches@[perm@[k] as int],
        decreases n - j,
    {
        let p = perm[j];
        out.push(matches[p]);
        j = j + 1;
    }
    proof {
        assert(out@ =~= Seq::new(n as nat, |i: int| matches@[perm@[i] as int]));
        assert(is_permutation(perm@, matches@.len()));
        assert forall|a: int, b: int| 0 <= a < b < out@.len() implies ranked_le(
            c@,
            sort,
            #[trigger] out@[a],
            #[trigger] out@[b],
        ) by {
            assert(key_le(ks, perm@[a], perm@[b]));
            assert(ks[perm@[a] as int] == rank_key(c@, sort, matches@[perm@[a] as int]));
            assert(ks[perm@[b] as int] == rank_key(c@, sort, matches@[perm@[b] as int]));
            lemma_rank_key(c@, sort, out@[a], out@[b]);
        }
        lemma_permutation_distinct(perm@, matches@.len());
        assert forall|a: int, b: int|
            0 <= a < b < out@.len() && tied(c@, sort, #[trigger] out@[a], #[trigger] out@[b]) implies perm@[a]
            < perm@[b] by {
            assert(stable_le(ks, perm@[a], perm@[b]));
            assert(ks[perm@[a] as int] == rank_key(c@, sort, matches@[perm@[a] as int]));
            assert(ks[perm@[b] as int] == rank_key(c@, sort, matches@[perm@[b] as int]));
            assert(rank_key(c@, sort, out@[a]) == rank_key(c@, sort, out@[b]));
            crate::text::lemma_bytes_lt_irreflexive(ks[perm@[a] as int]);
        }
        assert(arranged_by(c@, sort, out@, matches@, perm@));
    }
    out
}


/// The first `limit` hits of a ranking.
fn truncate(v: Vec<Match>, limit: usize) -> (r: Vec<Match>)
    ensures
        r@ == truncated(v@, limit),
{
    let mut v = v;
    v.truncate(limit);
    v
}

fn clamp_count(f: u32) -> (r: u16)
    ensures
        r == clamp_freq(f as nat),
{
    if f > 65535 {
        65535
    } else {
        f as u16
    }
}

/// Each hit is for one of the entries `idxs`.
pub open spec fn hits_from(r: Seq<Match>, idxs: Seq<Idx>) -> bool {
    forall|k: int| 0 <= k < r.len() ==> idxs.contains(#[trigger] r[k].idx)
}

proof fn lemma_truncated_from(s: Seq<Match>, limit: usize, idxs: Seq<Idx>)
    requires
        hits_from(s, idxs),
    ensures
        hits_from(truncated(s, limit), idxs),
{
    let t = truncated(s, limit);
    assert forall|k: int| 0 <= k < t.len() implies idxs.contains(#[trigger] t[k].idx) by {
        assert(t[k] == s[k]);
    }
}

proof fn lemma_ranking_from(c: Seq<EntryView>, sort: Sort, s: Seq<Match>, cands: Seq<Match>, idxs: Seq<Idx>)
    requires
        is_ranking(c, sort, s, cands),
        hits_from(cands, idxs),
        cands.len() <= usize::MAX,
    ensures
        hits_from(s, idxs),
{
    let perm = choose|perm: Seq<usize>| arranged_by(c, sort, s, cands, perm);
    assert forall|k: int| 0 <= k < s.len() implies idxs.contains(#[trigger] s[k].idx) by {
        crate::sort::lemma_permutation_bound(perm, cands.len(), k);
        assert(s[k] == cands[perm[k] as int]);
    }
}

proof fn lemma_frecency_hits_from(c: Seq<EntryView>, idxs: Seq<Idx>, counts: Map<u32, u32>)
    ensures
        hits_from(frecency_hits(c, idxs, counts), idxs),
        frecency_hits(c, idxs, counts).len() <= idxs.len(),
    decreases idxs.len(),
{
    if idxs.len() > 0 {
        let rest = idxs.drop_last();
        lemma_frecency_hits_from(c, rest, counts);
        let h = frecency_hits(c, idxs, counts);
        let hr = frecency_hits(c, rest, counts);
        assert forall|k: int| 0 <= k < h.len() implies idxs.contains(#[trigger] h[k].idx) by {
            if k < hr.len() {
                assert(h[k] == hr[k]);
                assert(rest.contains(hr[k].idx));
                let j = choose|j: int| 0 <= j < rest.len() && rest[j] == hr[k].idx;
                assert(idxs[j] == rest[j]);
            } else {
                assert(h[k].idx == idxs[idxs.len() - 1]);
            }
        }
    }
}

proof fn lemma_fuzzy_hits_from(
    c: Seq<EntryView>,
    idxs: Seq<Idx>,
    raw: Seq<(u32, u16)>,
    counts: Map<u32, u32>,
)
    requires
        forall|j: int| 0 <= j < raw.len() ==> (#[trigger] raw[j]).0 < idxs.len(),
    ensures
        hits_from(fuzzy_hits(c, idxs, raw, counts), idxs),
{
    let h = fuzzy_hits(c, idxs, raw, counts);
    assert forall|k: int| 0 <= k < h.len() implies idxs.contains(#[trigger] h[k].idx) by {
        assert(h[k].idx == idxs[raw[k].0 as int]);
    }
}

/// The hit for a looked-up entry: no score, and its pick count clamped to
/// 16 bits.
pub fn lookup_hit(c: &Corpus, idx: Idx, frecency: &Frecency) -> (r: Match)
    requires
        idx.0 < c@.len(),
    ensures
        r == (Match {
            idx,
            score: 0,
            freq: clamp_freq(count_of(frecency.counts(), c@[idx.0 as int].cp)),
        }),
{
    Match { idx, score: 0, freq: clamp_count(frecency.get(codepoint(c, idx))) }
}

/// The picked entries among `indices`, ranked, at most `limit` of them.
fn search_empty(
    c: &Corpus,
    indices: &[Idx],
    frecency: &Frecency,
    limit: usize,
    sort: Sort,
) -> (r: Vec<Match>)
    requires
        forall|k: int| 0 <= k < indices@.len() ==> (#[trigger] indices@[k]).0 < c@.len(),
    ensures
        exists|s: Seq<Match>|
            is_ranking(c@, sort, s, frecency_hits(c@, indices@, frecency.counts())) && r@
                == truncated(s, limit),
        hits_from(r@, indices@),
{
    let mut ranked: Vec<Match> = Vec::new();
    let mut i: usize = 0;
    proof {
        assert(indices@.take(0) =~= Seq::<Idx>::empty());
    }
    while i < indices.len()
        invariant
            i <= indices@.len(),
            forall|k: int| 0 <= k < indices@.len() ==> (#[trigger] indices@[k]).0 < c@.len(),
            ranked@ == frecency_hits(c@, indices@.take(i as int), frecency.counts()),
            forall|k: int| 0 <= k < ranked@.len() ==> (#[trigger] ranked@[k]).idx.0 < c@.len(),
        decreases indices@.len() - i,
    {
        let idx = indices[i];
        let freq = frecency.get(codepoint(c, idx));
        proof {
            let t = indices@.take(i + 1);
            assert(t.drop_last() =~= indices@.take(i as int));
            assert(t.last() == idx);
        }
        if freq > 0 {
            ranked.push(Match { idx, score: 0, freq: clamp_count(freq) });
        }
        i = i + 1;
    }
    proof {
        assert(indices@.take(indices@.len() as int) =~= indices@);
    }
    let ghost cands = ranked@;
    let sorted = sort_matches(c, ranked, sort);
    proof {
        lemma_frecency_hits_from(c@, indices@, frecency.counts());
        lemma_ranking_from(c@, sort, sorted@, cands, indices@);
        lemma_truncated_from(sorted@, limit, indices@);
    }
    truncate(sorted, limit)
}

/// Turns fuzzy matches `raw` (position in `idxs`, score) into hits carrying
/// each entry's pick count, ranks them by `sort` and keeps at most `limit`.
pub fn rank_fuzzy_hits(
    c: &Corpus,
    idxs: &[Idx],
    raw: &Vec<(u32, u16)>,
    frecency: &Frecency,
    limit: usize,
    sort: Sort,
) -> (r: Vec<Match>)
    requires
        forall|j: int| 0 <= j < idxs@.len() ==> (#[trigger] idxs@[j]).0 < c@.len(),
        forall|j: int| 0 <= j < raw@.len() ==> (#[trigger] raw@[j]).0 < idxs@.len(),
    ensures
        exists|s: Seq<Match>|
            is_ranking(c@, sort, s, fuzzy_hits(c@, idxs@, raw@, frecency.counts())) && r@
                == truncated(s, limit),
        hits_from(r@, idxs@),
{
    let ghost hits = fuzzy_hits(c@, idxs@, raw@, frecency.counts());
    let mut matches: Vec<Match> = Vec::new();
    let mut k: usize = 0;
    while k < raw.len()
        invariant
            k <= raw@.len(),
            forall|j: int| 0 <= j < idxs@.len() ==> (#[trigger] idxs@[j]).0 < c@.len(),
            forall|j: int| 0 <= j < raw@.len() ==> (#[trigger] raw@[j]).0 < idxs@.len(),
            hits == fuzzy_hits(c@, idxs@, raw@, frecency.counts()),
            matches@ == hits.take(k as int),
            forall|j: int| 0 <= j < matches@.len() ==> (#[trigger] matches@[j]).idx.0 < c@.len(),
        decreases raw@.len() - k,
    {
        let (pos, score) = raw[k];
        let idx = idxs[pos as usize];
        let freq = clamp_count(frecency.get(codepoint(c, idx)));
        matches.push(Match { idx, score, freq });
        proof {
            assert(matches@ =~= hits.take(k + 1));
        }
        k = k + 1;
    }
    proof {
        assert(matches@ =~= hits);
    }
    let sorted = sort_matches(c, matches, sort);
    let r = truncate(sorted, limit);
    proof {
        assert(is_ranking(c@, sort, sorted@, hits));
        lemma_fuzzy_hits_from(c@, idxs@, raw@, frecency.counts());
        lemma_ranking_from(c@, sort, sorted@, hits, idxs@);
        lemma_truncated_from(sorted@, limit, idxs@);
    }
    r
}

/// Fuzzy search of `query` over `names`, whose entries are `idxs`.
fn search_impl(
    c: &Corpus,
    query: &str,
    names: &[&str],
    idxs: &[Idx],
    frecency: &Frecency,
    limit: usize,
    max_typos: Option<u16>,
    sort: Sort,
) -> (r: Vec<Match>)
    requires
        idxs@.len() == names@.len(),
        names@.len() <= u32::MAX,
        forall|k: int| 0 <= k < idxs@.len() ==> (#[trigger] idxs@[k]).0 < c@.len(),
    ensures
        exists|s: Seq<Match>|
            is_ranking(
                c@,
                sort,
                s,
                fuzzy_hits(
                    c@,
                    idxs@,
                    fuzzy_match(
                        query_upper(query@),
                        names@.map_values(|h: &str| h@),
                        typo_budget(max_typos, query.len() as nat),
                    ),
                    frecency.counts(),
                ),
            ) && r@ == truncated(s, limit),
        hits_from(r@, idxs@),
{
    let qlen = query.len();
    let allowed: u16 = if qlen == 0 {
        0
    } else if qlen - 1 > 65535 {
        65535
    } else {
        (qlen - 1) as u16
    };
    let budget = match max_typos {
        Some(t) => Some(if t < allowed { t } else { allowed }),
        None => None,
    };
    let upper = upper_query(query);
    let needle = upper.as_str();
    let raw = match_list(needle, names, budget);
    proof {
        assert(budget == typo_budget(max_typos, query.len() as nat));
        assert(needle@ == query_upper(query@));
    }
    rank_fuzzy_hits(c, idxs, &raw, frecency, limit, sort)
}

/// What a search of `query` (of `query_bytes` bytes) over the entries
/// `idxs`, named `names`, returns: for an empty query the picked entries,
/// for one longer than `MAX_QUERY_LEN` bytes nothing, otherwise the fuzzy
/// matches of the upper-cased query; ranked by `sort`, at most `limit`.
pub open spec fn search_outcome(
    c: Seq<EntryView>,
    query: Seq<char>,
    query_bytes: nat,
    idxs: Seq<Idx>,
    names: Seq<Seq<char>>,
    counts: Map<u32, u32>,
    limit: usize,
    max_typos: Option<u16>,
    sort: Sort,
    r: Seq<Match>,
) -> bool {
    if query.len() == 0 {
        exists|s: Seq<Match>|
            is_ranking(c, sort, s, frecency_hits(c, idxs, counts)) && r == truncated(s, limit)
    } else if query_bytes > MAX_QUERY_LEN {
        r.len() == 0
    } else {
        exists|s: Seq<Match>|
            is_ranking(
                c,
                sort,
                s,
                fuzzy_hits(
                    c,
                    idxs,
                    fuzzy_match(query_upper(query), names, typo_budget(max_typos, query_bytes)),
                    counts,
                ),
            ) && r == truncated(s, limit)
    }
}

/// A search for an ASCII query is a search for its ASCII upper case: the
/// same results satisfy both, whatever the byte length recorded.
pub proof fn lemma_search_ignores_ascii_case(
    c: Seq<EntryView>,
    query: Seq<char>,
    query_bytes: nat,
    idxs: Seq<Idx>,
    names: Seq<Seq<char>>,
    counts: Map<u32, u32>,
    limit: usize,
    max_typos: Option<u16>,
    sort: Sort,
    r: Seq<Match>,
)
    requires
        is_ascii_chars(query),
    ensures
        search_outcome(c, query, query_bytes, idxs, names, counts, limit, max_typos, sort, r)
            == search_outcome(
            c,
            ascii_upper(query),
            query_bytes,
            idxs,
            names,
            counts,
            limit,
            max_typos,
            sort,
            r,
        ),
{
    let u = ascii_upper(query);
    assert(is_ascii_chars(u));
    assert(ascii_upper(u) =~= u);
    assert(query_upper(u) == query_upper(query));
}

/// Searching for an ASCII query and for its ASCII upper case gives the same
/// result.
pub proof fn lemma_ascii_case_same_result(
    c: Seq<EntryView>,
    query: Seq<char>,
    query_bytes: nat,
    idxs: Seq<Idx>,
    names: Seq<Seq<char>>,
    counts: Map<u32, u32>,
    limit: usize,
    max_typos: Option<u16>,
    sort: Sort,
    r1: Seq<Match>,
    r2: Seq<Match>,
)
    requires
        is_ascii_chars(query),
        search_outcome(c, query, query_bytes, idxs, names, counts, limit, max_typos, sort, r1),
        search_outcome(
            c,
            ascii_upper(query),
            query_bytes,
            idxs,
            names,
            counts,
            limit,
            max_typos,
            sort,
            r2,
        ),
    ensures
        r1 == r2,
{
    lemma_search_ignores_ascii_case(c, query, query_bytes, idxs, names, counts, limit, max_typos, sort, r2);
    lemma_search_outcome_unique(c, query, query_bytes, idxs, names, counts, limit, max_typos, sort, r1, r2);
}

/// Searches the entries `indices` (with names `names`, position by
/// position). An empty query lists the picked entries; a query longer than
/// `MAX_QUERY_LEN` bytes finds nothing; otherwise the upper-cased query is
/// fuzzy-matched against the names. The hits are ranked by `sort` and at
/// most `limit` are returned.
pub fn search_in(
    c: &Corpus,
    query: &str,
    indices: &[Idx],
    names: &[&str],
    frecency: &Frecency,
    limit: usize,
    max_typos: Option<u16>,
    sort: Sort,
) -> (r: Vec<Match>)
    requires
        indices@.len() == names@.len(),
        names@.len() <= u32::MAX,
        forall|k: int| 0 <= k < indices@.len() ==> (#[trigger] indices@[k]).0 < c@.len(),
    ensures
        search_outcome(
            c@,
            query@,
            query.len() as nat,
            indices@,
            names@.map_values(|h: &str| h@),
            frecency.counts(),
            limit,
            max_typos,
            sort,
            r@,
        ),
        hits_from(r@, indices@),
        forall|k: int| 0 <= k < r@.len() ==> (#[trigger] r@[k]).idx.0 < c@.len(),
{
    let r = if query.is_empty() {
        search_empty(c, indices, frecency, limit, sort)
    } else if query.len() > MAX_QUERY_LEN {
        Vec::new()
    } else {
        search_impl(c, query, names, indices, frecency, limit, max_typos, sort)
    };
    proof {
        assert forall|k: int| 0 <= k < r@.len() implies (#[trigger] r@[k]).idx.0 < c@.len() by {
            assert(indices@.contains(r@[k].idx));
        }
    }
    r
}

/// Every entry position, in order.
pub open spec fn all_indices(n: nat) -> Seq<Idx> {
    Seq::new(n, |i: int| Idx(i as u32))
}

/// The names of all entries, in order.
pub open spec fn all_names(c: Seq<EntryView>) -> Seq<Seq<char>> {
    Seq::new(c.len(), |i: int| c[i].name)
}

/// Searches the whole corpus (see `search_in`).
pub fn search_all(
    c: &Corpus,
    query: &str,
    frecency: &Frecency,
    limit: usize,
    max_typos: Option<u16>,
    sort: Sort,
) -> (r: Vec<Match>)
    ensures
        search_outcome(
            c@,
            query@,
            query.len() as nat,
            all_indices(c@.len()),
            all_names(c@),
            frecency.counts(),
            limit,
            max_typos,
            sort,
            r@,
        ),
        hits_from(r@, all_indices(c@.len())),
        forall|k: int| 0 <= k < r@.len() ==> (#[trigger] r@[k]).idx.0 < c@.len(),
{
    let n = num_entries(c);
    let mut indices: Vec<Idx> = Vec::new();
    let mut names: Vec<&str> = Vec::new();
    let mut i: usize = 0;
    while i < n
        invariant
            n == c@.len(),
            n <= u32::MAX,
            i <= n,
            indices@ == all_indices(i as nat),
            names@.len() == i,
            forall|k: int| 0 <= k < i ==> (#[trigger] names@[k])@ == c@[k].name,
        decreases n - i,
    {
        indices.push(Idx(i as u32));
        names.push(entry_name(c, Idx(i as u32)));
        proof {
            assert(indices@ =~= all_indices((i + 1) as nat));
        }
        i = i + 1;
    }
    proof {
        assert(names@.map_values(|h: &str| h@) =~= all_names(c@));
    }
    search_in(c, query, indices.as_slice(), names.as_slice(), frecency, limit, max_typos, sort)
}

} // verus!
