//! A stable merge sort of positions by byte-string keys.

use vstd::prelude::*;
use vstd::seq_lib::*;
use vstd::multiset::*;
use crate::text::{bytes_lt, lemma_bytes_lt_total, lemma_bytes_lt_transitive};

verus! {

broadcast use {group_to_multiset_ensures, group_multiset_axioms};

/// Position `p` may come before position `q`: its key is not greater.
pub open spec fn key_le(keys: Seq<Seq<u8>>, p: usize, q: usize) -> bool {
    !bytes_lt(keys[q as int], keys[p as int])
}

/// The positions are listed in ascending key order.
pub open spec fn sorted_by_keys(keys: Seq<Seq<u8>>, s: Seq<usize>) -> bool {
    forall|i: int, j: int| 0 <= i < j < s.len() ==> key_le(keys, #[trigger] s[i], #[trigger] s[j])
}

/// Position `p` may come before position `q` in a stable sort: its key is
/// smaller, or the keys are equal and `p` is not after `q`.
pub open spec fn stable_le(keys: Seq<Seq<u8>>, p: usize, q: usize) -> bool {
    bytes_lt(keys[p as int], keys[q as int]) || (keys[p as int] == keys[q as int] && p <= q)
}

/// The positions are in ascending key order, equal keys in ascending
/// position order.
pub open spec fn sorted_stably(keys: Seq<Seq<u8>>, s: Seq<usize>) -> bool {
    forall|i: int, j: int| 0 <= i < j < s.len() ==> stable_le(keys, #[trigger] s[i], #[trigger] s[j])
}

/// Every position is a valid index into `keys`.
pub open spec fn in_bounds(keys: Seq<Seq<u8>>, s: Seq<usize>) -> bool {
    forall|i: int| 0 <= i < s.len() ==> (#[trigger] s[i]) < keys.len()
}

/// The positions `0, 1, ..., n - 1`.
pub open spec fn positions(n: nat) -> Seq<usize> {
    Seq::new(n, |i: int| i as usize)
}

/// `perm` lists each of `0 .. n` exactly once.
pub open spec fn is_permutation(perm: Seq<usize>, n: nat) -> bool {
    perm.to_multiset() == positions(n).to_multiset()
}

/// Each entry of a permutation of `0 .. n` is below `n`.
pub proof fn lemma_permutation_bound(perm: Seq<usize>, n: nat, i: int)
    requires
        is_permutation(perm, n),
        n <= usize::MAX,
        0 <= i < perm.len(),
    ensures
        perm[i] < n,
{
    assert(perm.contains(perm[i]));
    assert(positions(n).to_multiset().count(perm[i]) > 0);
    assert(positions(n).contains(perm[i]));
    let j = choose|j: int| 0 <= j < positions(n).len() && positions(n)[j] == perm[i];
    assert(positions(n)[j] == j as usize);
}

/// A permutation of `0 .. n` holds no position twice.
pub proof fn lemma_permutation_distinct(perm: Seq<usize>, n: nat)
    requires
        is_permutation(perm, n),
        n <= usize::MAX,
    ensures
        perm.no_duplicates(),
{
    let p = positions(n);
    assert forall|i: int, j: int| 0 <= i < p.len() && 0 <= j < p.len() && i != j implies p[i]
        != p[j] by {}
    p.lemma_multiset_has_no_duplicates();
    perm.lemma_multiset_has_no_duplicates_conv();
}

proof fn lemma_stable_le_transitive(keys: Seq<Seq<u8>>, p: usize, q: usize, r: usize)
    requires
        stable_le(keys, p, q),
        stable_le(keys, q, r),
    ensures
        stable_le(keys, p, r),
{
    if bytes_lt(keys[p as int], keys[q as int]) && bytes_lt(keys[q as int], keys[r as int]) {
        lemma_bytes_lt_transitive(keys[p as int], keys[q as int], keys[r as int]);
    }
}

proof fn lemma_stable_le_total(keys: Seq<Seq<u8>>, p: usize, q: usize)
    ensures
        stable_le(keys, p, q) || stable_le(keys, q, p),
{
    lemma_bytes_lt_total(keys[p as int], keys[q as int]);
}

proof fn lemma_stable_le_key_le(keys: Seq<Seq<u8>>, p: usize, q: usize)
    requires
        stable_le(keys, p, q),
    ensures
        key_le(keys, p, q),
{
    crate::text::lemma_bytes_lt_asymmetric(keys[p as int], keys[q as int]);
    crate::text::lemma_bytes_lt_irreflexive(keys[p as int]);
}

fn merge(keys: &Vec<Vec<u8>>, a: Vec<usize>, b: Vec<usize>) -> (r: Vec<usize>)
    requires
        in_bounds(keys@.map_values(|k: Vec<u8>| k@), a@),
        in_bounds(keys@.map_values(|k: Vec<u8>| k@), b@),
        sorted_stably(keys@.map_values(|k: Vec<u8>| k@), a@),
        sorted_stably(keys@.map_values(|k: Vec<u8>| k@), b@),
    ensures
        r@.to_multiset() == a@.to_multiset().add(b@.to_multiset()),
        in_bounds(keys@.map_values(|k: Vec<u8>| k@), r@),
        sorted_stably(keys@.map_values(|k: Vec<u8>| k@), r@),
{
    let ghost ks = keys@.map_values(|k: Vec<u8>| k@);
    let mut r: Vec<usize> = Vec::new();
    let mut i: usize = 0;
    let mut j: usize = 0;
    proof {
        assert(a@.take(0) =~= Seq::<usize>::empty());
        assert(b@.take(0) =~= Seq::<usize>::empty());
        assert(r@ =~= Seq::<usize>::empty());
    }
    while i < a.len() || j < b.len()
        invariant
            ks == keys@.map_values(|k: Vec<u8>| k@),
            in_bounds(ks, a@),
            in_bounds(ks, b@),
            sorted_stably(ks, a@),
            sorted_stably(ks, b@),
            i <= a@.len(),
            j <= b@.len(),
            r@.len() == i + j,
            r@.to_multiset() == a@.take(i as int).to_multiset().add(b@.take(j as int).to_multiset()),
            in_bounds(ks, r@),
            sorted_stably(ks, r@),
            r@.len() > 0 && i < a@.len() ==> stable_le(ks, r@.last(), a@[i as int]),
            r@.len() > 0 && j < b@.len() ==> stable_le(ks, r@.last(), b@[j as int]),
        decreases a@.len() + b@.len() - i - j,
    {
        let take_a = if i == a.len() {
            false
        } else if j == b.len() {
            true
        } else {
            let pa = a[i];
            let pb = b[j];
            let ord = crate::text::bytes_order(keys[pa].as_slice(), keys[pb].as_slice());
            ord < 0 || (ord == 0 && pa <= pb)
        };
        let ghost old_r = r@;
        let x;
        if take_a {
            x = a[i];
            proof {
                assert(a@.take(i + 1) =~= a@.take(i as int).push(x));
            }
            i = i + 1;
        } else {
            x = b[j];
            proof {
                assert(b@.take(j + 1) =~= b@.take(j as int).push(x));
                if i < a@.len() {
                    lemma_stable_le_total(ks, a@[i as int], x);
                }
            }
            j = j + 1;
        }
        r.push(x);
        proof {
            assert(r@ =~= old_r.push(x));
            assert forall|p: int, q: int| 0 <= p < q < r@.len() implies stable_le(ks, #[trigger] r@[p], #[trigger] r@[q]) by {
                if q == r@.len() - 1 && p < q {
                    if p < old_r.len() - 1 {
                        lemma_stable_le_transitive(ks, r@[p], old_r.last(), x);
                    }
                }
            }
            if i < a@.len() {
                if take_a {
                    assert(stable_le(ks, x, a@[i as int]));
                }
            }
            if j < b@.len() {
                if !take_a {
                    assert(stable_le(ks, x, b@[j as int]));
                } else {
                    assert(stable_le(ks, x, b@[j as int]));
                }
            }
        }
    }
    proof {
        assert(a@.take(i as int) =~= a@);
        assert(b@.take(j as int) =~= b@);
    }
    r
}

fn merge_sort(keys: &Vec<Vec<u8>>, v: Vec<usize>) -> (r: Vec<usize>)
    requires
        in_bounds(keys@.map_values(|k: Vec<u8>| k@), v@),
    ensures
        r@.to_multiset() == v@.to_multiset(),
        in_bounds(keys@.map_values(|k: Vec<u8>| k@), r@),
        sorted_stably(keys@.map_values(|k: Vec<u8>| k@), r@),
    decreases v@.len(),
{
    if v.len() <= 1 {
        return v;
    }
    let mid = v.len() / 2;
    let mut left = v;
    let right = left.split_off(mid);
    proof {
        assert(v@ =~= left@ + right@);
        lemma_multiset_commutative(left@, right@);
    }
    let l = merge_sort(keys, left);
    let r = merge_sort(keys, right);
    merge(keys, l, r)
}

/// The positions `0 .. keys.len()`, ordered by their keys; positions with
/// equal keys stay in ascending order.
pub fn sort_positions(keys: &Vec<Vec<u8>>) -> (r: Vec<usize>)
    ensures
        is_permutation(r@, keys@.len()),
        in_bounds(keys@.map_values(|k: Vec<u8>| k@), r@),
        sorted_by_keys(keys@.map_values(|k: Vec<u8>| k@), r@),
        sorted_stably(keys@.map_values(|k: Vec<u8>| k@), r@),
{
    let mut v: Vec<usize> = Vec::new();
    let mut i: usize = 0;
    while i < keys.len()
        invariant
            i <= keys@.len(),
            v@ == positions(i as nat),
        decreases keys@.len() - i,
    {
        v.push(i);
        proof {
            assert(v@ =~= positions((i + 1) as nat));
        }
        i = i + 1;
    }
    let r = merge_sort(keys, v);
    proof {
        let ks = keys@.map_values(|k: Vec<u8>| k@);
        assert forall|i: int, j: int| 0 <= i < j < r@.len() implies key_le(
            ks,
            #[trigger] r@[i],
            #[trigger] r@[j],
        ) by {
            lemma_stable_le_key_le(ks, r@[i], r@[j]);
        }
    }
    r
}

} // verus!
