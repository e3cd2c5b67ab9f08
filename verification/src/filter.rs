//! Entry filters: by block ranges, sources, icon sets and categories, and
//! the candidate pools and listings they select.

use std::ops::Range;
use vstd::prelude::*;
use vstd::seq_lib::*;
use crate::Sort;
use crate::block::{Blocks, by_name, entry_range, first_named, name_matches};
use crate::category::{resolve, is_category};
use crate::corpus::{
    Corpus, EntryView, Idx, codepoint, entry_category, entry_name, entry_icon_set, entry_source, num_entries,
    list_sources, list_icon_sets, FIELD_CATEGORY, FIELD_ICON_SET, FIELD_SOURCE,
};
use crate::frecency::Frecency;
use crate::search::{
    all_indices, all_names, arranged_by, is_ranking, search_all, search_in, search_outcome, sort_matches, Match,
};
use crate::sort::{is_permutation, lemma_permutation_bound, positions};
use crate::text::{
    csv_items, lemma_strictly_sorted_unique, split_csv, str_eq, string_views, strictly_sorted,
    to_string, trim, trimmed,
};

verus! {

/// What entries must satisfy to be listed or searched.
pub struct Filter {
    pub ranges: Vec<Range<u32>>,
    pub sources: Vec<String>,
    pub icon_sets: Vec<String>,
    pub categories: Vec<String>,
}

/// `s` is empty or holds `x`.
pub open spec fn allows(s: Seq<String>, x: Seq<char>) -> bool {
    s.len() == 0 || string_views(s).contains(x)
}

/// Entry `e` passes filter `f`.
pub open spec fn passes(e: EntryView, f: Filter) -> bool {
    &&& (f.ranges@.len() == 0 || exists|i: int|
        0 <= i < f.ranges@.len() && (#[trigger] f.ranges@[i]).start <= e.cp < f.ranges@[i].end)
    &&& allows(f.sources@, e.fields[FIELD_SOURCE as int])
    &&& allows(f.icon_sets@, e.fields[FIELD_ICON_SET as int])
    &&& allows(f.categories@, e.fields[FIELD_CATEGORY as int])
}

fn list_allows(list: &Vec<String>, x: &str) -> (r: bool)
    ensures
        r == allows(list@, x@),
{
    if list.len() == 0 {
        return true;
    }
    let mut i: usize = 0;
    while i < list.len()
        invariant
            i <= list@.len(),
            forall|k: int| 0 <= k < i ==> (#[trigger] list@[k])@ != x@,
        decreases list@.len() - i,
    {
        if str_eq(list[i].as_str(), x) {
            proof {
                assert(string_views(list@)[i as int] == x@);
            }
            return true;
        }
        i = i + 1;
    }
    proof {
        if string_views(list@).contains(x@) {
            let k = choose|k: int| 0 <= k < string_views(list@).len() && string_views(list@)[k] == x@;
            assert(list@[k]@ == x@);
        }
    }
    false
}

/// Whether entry `idx` passes filter `f`.
pub fn entry_in_bounds(c: &Corpus, idx: Idx, f: &Filter) -> (r: bool)
    requires
        idx.0 < c@.len(),
    ensures
        r == passes(c@[idx.0 as int], *f),
{
    let cp = codepoint(c, idx);
    let mut in_range = f.ranges.len() == 0;
    let mut i: usize = 0;
    while i < f.ranges.len() && !in_range
        invariant
            i <= f.ranges@.len(),
            in_range == (f.ranges@.len() == 0 || exists|k: int|
                0 <= k < i && (#[trigger] f.ranges@[k]).start <= cp < f.ranges@[k].end),
        decreases f.ranges@.len() - i,
    {
        if f.ranges[i].start <= cp && cp < f.ranges[i].end {
            in_range = true;
        }
        i = i + 1;
    }
    in_range && list_allows(&f.sources, entry_source(c, idx)) && list_allows(
        &f.icon_sets,
        entry_icon_set(c, idx),
    ) && list_allows(&f.categories, entry_category(c, idx))
}

/// `v` followed by the items of `add` it does not hold yet, in order, each
/// once.
pub open spec fn append_new(v: Seq<Seq<char>>, add: Seq<Seq<char>>) -> Seq<Seq<char>>
    decreases add.len(),
{
    if add.len() == 0 {
        v
    } else {
        let w = append_new(v, add.drop_last());
        if w.contains(add.last()) {
            w
        } else {
            w.push(add.last())
        }
    }
}

/// The message for a name that is not among the known ones.
pub open spec fn unknown_item_msg(label: Seq<char>, item: Seq<char>) -> Seq<char> {
    "unknown "@ + label + " '"@ + item + "'"@
}

/// Adds each of `input` to `vec` (unless already there) after checking that
/// it is one of `known`; stops with an error at the first unknown one.
pub fn validate_str_list(
    known: &Vec<String>,
    input: &Vec<String>,
    vec: &mut Vec<String>,
    label: &str,
) -> (r: Result<(), String>)
    ensures
        r is Ok <==> forall|k: int|
            0 <= k < input@.len() ==> string_views(known@).contains(#[trigger] input@[k]@),
        r is Ok ==> string_views(final(vec)@) == append_new(
            string_views(old(vec)@),
            string_views(input@),
        ),
        r matches Err(msg) ==> exists|k: int|
            0 <= k < input@.len() && !string_views(known@).contains(#[trigger] input@[k]@) && (
            forall|j: int| 0 <= j < k ==> string_views(known@).contains(#[trigger] input@[j]@))
                && msg@ == unknown_item_msg(label@, input@[k]@) && string_views(final(vec)@)
                == append_new(string_views(old(vec)@), string_views(input@).take(k)),
{
    let mut i: usize = 0;
    proof {
        assert(string_views(input@).take(0) =~= Seq::<Seq<char>>::empty());
    }
    while i < input.len()
        invariant
            i <= input@.len(),
            forall|k: int| 0 <= k < i ==> string_views(known@).contains(#[trigger] input@[k]@),
            string_views(vec@) == append_new(
                string_views(old(vec)@),
                string_views(input@).take(i as int),
            ),
        decreases input@.len() - i,
    {
        let s = input[i].as_str();
        let mut found = false;
        let mut j: usize = 0;
        while j < known.len() && !found
            invariant
                j <= known@.len(),
                !found ==> forall|k: int| 0 <= k < j ==> (#[trigger] known@[k])@ != s@,
                found ==> string_views(known@).contains(s@),
            decreases known@.len() - j,
        {
            if str_eq(known[j].as_str(), s) {
                found = true;
                proof {
                    assert(string_views(known@)[j as int] == s@);
                }
            }
            j = j + 1;
        }
        if !found {
            proof {
                if string_views(known@).contains(s@) {
                    let k = choose|k: int| 0 <= k < string_views(known@).len() && string_views(known@)[k] == s@;
                    assert(known@[k]@ == s@);
                }
            }
            let mut msg = to_string("unknown ");
            msg.append(label);
            msg.append(" '");
            msg.append(s);
            msg.append("'");
            return Err(msg);
        }
        let ghost before = string_views(vec@);
        let mut present = false;
        let mut k: usize = 0;
        while k < vec.len() && !present
            invariant
                k <= vec@.len(),
                before == string_views(vec@),
                !present ==> forall|m: int| 0 <= m < k ==> (#[trigger] vec@[m])@ != s@,
                present ==> before.contains(s@),
            decreases vec@.len() - k,
        {
            if str_eq(vec[k].as_str(), s) {
                present = true;
                proof {
                    assert(before[k as int] == s@);
                }
            }
            k = k + 1;
        }
        proof {
            let t = string_views(input@).take(i + 1);
            assert(t.drop_last() =~= string_views(input@).take(i as int));
            assert(t.last() == s@);
            if !present && before.contains(s@) {
                let m = choose|m: int| 0 <= m < before.len() && before[m] == s@;
                assert(vec@[m]@ == s@);
            }
        }
        if !present {
            vec.push(to_string(s));
            proof {
                assert(string_views(vec@) =~= before.push(s@));
            }
        }
        i = i + 1;
    }
    proof {
        assert(string_views(input@).take(input@.len() as int) =~= string_views(input@));
    }
    Ok(())
}

/// The entry positions whose codepoints lie in `r`, in order.
pub open spec fn in_range(c: Seq<EntryView>, r: Range<u32>) -> Seq<Idx> {
    all_indices(c.len()).filter(|i: Idx| r.start <= c[i.0 as int].cp < r.end)
}

/// The positions of each range's entries, range after range.
pub open spec fn range_candidates(c: Seq<EntryView>, ranges: Seq<Range<u32>>) -> Seq<Idx>
    decreases ranges.len(),
{
    if ranges.len() == 0 {
        Seq::empty()
    } else {
        range_candidates(c, ranges.drop_last()) + in_range(c, ranges.last())
    }
}

/// The entries a filter selects: those of its ranges (all entries when it
/// has none), range after range, that pass it.
pub open spec fn pool_spec(c: Seq<EntryView>, f: Filter) -> Seq<Idx> {
    let base = if f.ranges@.len() == 0 {
        all_indices(c.len())
    } else {
        range_candidates(c, f.ranges@)
    };
    base.filter(|i: Idx| passes(c[i.0 as int], f))
}

/// The entries filter `f` selects (see `pool_spec`).
pub fn pool(c: &Corpus, f: &Filter) -> (r: Vec<Idx>)
    ensures
        r@ == pool_spec(c@, *f),
        forall|k: int| 0 <= k < r@.len() ==> (#[trigger] r@[k]).0 < c@.len(),
{
    broadcast use Seq::lemma_filter_push;

    let n = num_entries(c);
    let mut base: Vec<Idx> = Vec::new();
    if f.ranges.len() == 0 {
        let mut i: usize = 0;
        while i < n
            invariant
                n == c@.len(),
                n <= u32::MAX,
                i <= n,
                base@ == all_indices(i as nat),
                forall|m: int| 0 <= m < base@.len() ==> (#[trigger] base@[m]).0 < c@.len(),
            decreases n - i,
        {
            base.push(Idx(i as u32));
            proof {
                assert(base@ =~= all_indices((i + 1) as nat));
            }
            i = i + 1;
        }
    } else {
        let mut k: usize = 0;
        proof {
            assert(f.ranges@.take(0) =~= Seq::<Range<u32>>::empty());
        }
        while k < f.ranges.len()
            invariant
                n == c@.len(),
                n <= u32::MAX,
                k <= f.ranges@.len(),
                base@ == range_candidates(c@, f.ranges@.take(k as int)),
                forall|m: int| 0 <= m < base@.len() ==> (#[trigger] base@[m]).0 < c@.len(),
            decreases f.ranges@.len() - k,
        {
            let er = entry_range(c, &f.ranges[k]);
            let ghost before = base@;
            let ghost r = f.ranges@[k as int];
            let mut j: usize = 0;
            proof {
                assert(all_indices(c@.len()).take(0) =~= Seq::<Idx>::empty());
            }
            while j < n
                invariant
                    n == c@.len(),
                    n <= u32::MAX,
                    j <= n,
                    er.start <= er.end <= n,
                    forall|m: int|
                        0 <= m < c@.len() ==> ((er.start <= m < er.end) <==> (r.start
                            <= #[trigger] c@[m].cp < r.end)),
                    base@ == before + all_indices(c@.len()).take(j as int).filter(
                        |i: Idx| r.start <= c@[i.0 as int].cp < r.end,
                    ),
                    forall|m: int| 0 <= m < base@.len() ==> (#[trigger] base@[m]).0 < c@.len(),
                decreases n - j,
            {
                proof {
                    let t = all_indices(c@.len()).take(j + 1);
                    assert(t =~= all_indices(c@.len()).take(j as int).push(Idx(j as u32)));
                }
                if er.start <= j && j < er.end {
                    base.push(Idx(j as u32));
                }
                proof {
                    let t = all_indices(c@.len()).take(j + 1);
                    let p = |i: Idx| r.start <= c@[i.0 as int].cp < r.end;
                    all_indices(c@.len()).take(j as int).lemma_filter_push(Idx(j as u32), p);
                    assert(t =~= all_indices(c@.len()).take(j as int).push(Idx(j as u32)));
                    if er.start <= j && j < er.end {
                        assert(p(Idx(j as u32)));
                        assert(base@ =~= before + t.filter(p));
                    } else {
                        assert(!p(Idx(j as u32)));
                    }
                }
                j = j + 1;
            }
            proof {
                assert(all_indices(c@.len()).take(n as int) =~= all_indices(c@.len()));
                let q = f.ranges@.take(k + 1);
                assert(q.drop_last() =~= f.ranges@.take(k as int));
                assert(q.last() == r);
            }
            k = k + 1;
        }
        proof {
            assert(f.ranges@.take(f.ranges@.len() as int) =~= f.ranges@);
        }
    }
    let ghost pred = |i: Idx| passes(c@[i.0 as int], *f);
    let mut out: Vec<Idx> = Vec::new();
    let mut i: usize = 0;
    proof {
        assert(base@.take(0) =~= Seq::<Idx>::empty());
    }
    while i < base.len()
        invariant
            i <= base@.len(),
            forall|m: int| 0 <= m < base@.len() ==> (#[trigger] base@[m]).0 < c@.len(),
            out@ == base@.take(i as int).filter(pred),
            pred == |i: Idx| passes(c@[i.0 as int], *f),
            forall|m: int| 0 <= m < out@.len() ==> (#[trigger] out@[m]).0 < c@.len(),
        decreases base@.len() - i,
    {
        let idx = base[i];
        proof {
            assert(base@.take(i + 1) =~= base@.take(i as int).push(idx));
            base@.take(i as int).lemma_filter_push(idx, pred);
        }
        if entry_in_bounds(c, idx, f) {
            out.push(idx);
        }
        i = i + 1;
    }
    proof {
        assert(base@.take(base@.len() as int) =~= base@);
    }
    out
}


/// The category codes a pattern stands for: with a trailing `*`, those
/// starting with what precedes it; otherwise the code itself.
pub open spec fn pattern_codes(c: Seq<EntryView>, pattern: Seq<char>, s: Seq<char>) -> bool {
    if pattern.len() > 0 && pattern.last() == '*' {
        is_category(c, s) && pattern.drop_last().is_prefix_of(s)
    } else {
        s == pattern && is_category(c, s)
    }
}

/// The pattern stands for at least one category.
pub open spec fn pattern_ok(c: Seq<EntryView>, pattern: Seq<char>) -> bool {
    exists|s: Seq<char>| pattern_codes(c, pattern, s)
}

/// The error `resolve` gives for a pattern that stands for no category.
pub open spec fn pattern_error(pattern: Seq<char>) -> Seq<char> {
    if pattern.len() > 0 && pattern.last() == '*' {
        crate::category::unknown_pattern_msg(pattern)
    } else {
        crate::category::unknown_category_msg(pattern)
    }
}

/// Some entry has source `s`.
pub open spec fn is_source(c: Seq<EntryView>, s: Seq<char>) -> bool {
    exists|i: int| 0 <= i < c.len() && #[trigger] c[i].fields[FIELD_SOURCE as int] == s
}

/// Some entry has the (non-empty) icon set `s`.
pub open spec fn is_icon_set(c: Seq<EntryView>, s: Seq<char>) -> bool {
    s.len() > 0 && exists|i: int| 0 <= i < c.len() && #[trigger] c[i].fields[FIELD_ICON_SET as int] == s
}

/// The first item of `items` for which `ok` fails, if any.
pub open spec fn first_failure(items: Seq<Seq<char>>, ok: spec_fn(Seq<char>) -> bool) -> Option<int> {
    if exists|k: int| 0 <= k < items.len() && !ok(#[trigger] items[k]) {
        Some(
            choose|k: int|
                0 <= k < items.len() && !ok(#[trigger] items[k]) && forall|j: int|
                    0 <= j < k ==> ok(#[trigger] items[j]),
        )
    } else {
        None
    }
}

/// The message for a block name that matches no block.
pub open spec fn unknown_block_msg(name: Seq<char>) -> Seq<char> {
    "unknown block '"@ + name + "'"@
}

/// Block `name` matches some block.
pub open spec fn block_known(t: Seq<crate::block::Block>, name: Seq<char>) -> bool {
    exists|i: int| 0 <= i < t.len() && name_matches(#[trigger] t[i], name)
}

proof fn lemma_first_failure(items: Seq<Seq<char>>, ok: spec_fn(Seq<char>) -> bool, k: int)
    requires
        0 <= k < items.len(),
        !ok(items[k]),
        forall|j: int| 0 <= j < k ==> ok(#[trigger] items[j]),
    ensures
        first_failure(items, ok) == Some(k),
{
    let w = choose|w: int|
        0 <= w < items.len() && !ok(#[trigger] items[w]) && forall|j: int|
            0 <= j < w ==> ok(#[trigger] items[j]);
    assert(w == k) by {
        if w < k {
            assert(ok(items[w]));
        }
        if k < w {
            assert(ok(items[k]));
        }
    }
}

/// The category codes a pattern stands for, in ascending order.
pub open spec fn resolved_codes(c: Seq<EntryView>, pattern: Seq<char>) -> Seq<Seq<char>> {
    choose|s: Seq<Seq<char>>|
        strictly_sorted(s) && forall|x: Seq<char>| #[trigger] s.contains(x) <==> pattern_codes(c, pattern, x)
}

/// The codes of each pattern in turn (see `resolved_codes`).
pub open spec fn resolved_all(c: Seq<EntryView>, pats: Seq<Seq<char>>) -> Seq<Seq<char>>
    decreases pats.len(),
{
    if pats.len() == 0 {
        Seq::empty()
    } else {
        resolved_all(c, pats.drop_last()) + resolved_codes(c, pats.last())
    }
}

/// Adds to `cats` the categories each of `patterns` stands for (see
/// `resolve`); stops with that pattern's error at the first that stands for
/// none.
fn resolve_patterns(c: &Corpus, patterns: &Vec<String>, cats: &mut Vec<String>) -> (r: Result<
    (),
    String,
>)
    requires
        old(cats)@.len() == 0,
    ensures
        ({
            let pats = string_views(patterns@);
            let fail = first_failure(pats, |p: Seq<char>| pattern_ok(c@, p));
            &&& fail is Some ==> (r matches Err(msg) && msg@ == pattern_error(pats[fail->0]))
            &&& fail is None ==> r is Ok
            &&& r is Ok ==> string_views(final(cats)@) == resolved_all(c@, pats)
            &&& r is Ok ==> forall|s: Seq<char>|
                #![trigger string_views(final(cats)@).contains(s)]
                string_views(final(cats)@).contains(s) <==> exists|k: int|
                    0 <= k < pats.len() && pattern_codes(c@, #[trigger] pats[k], s)
        }),
{
    let ghost pats = string_views(patterns@);
    let mut k: usize = 0;
    proof {
        assert(pats.take(0) =~= Seq::<Seq<char>>::empty());
        assert(string_views(cats@) =~= Seq::<Seq<char>>::empty());
    }
    while k < patterns.len()
        invariant
            pats == string_views(patterns@),
            k <= patterns@.len(),
            string_views(cats@) == resolved_all(c@, pats.take(k as int)),
            forall|j: int| 0 <= j < k ==> pattern_ok(c@, #[trigger] pats[j]),
            forall|s: Seq<char>|
                #![trigger string_views(cats@).contains(s)]
                string_views(cats@).contains(s) <==> exists|j: int|
                    0 <= j < k && pattern_codes(c@, #[trigger] pats[j], s),
        decreases patterns@.len() - k,
    {
        let pat = patterns[k].as_str();
        proof {
            assert(pat@ == pats[k as int]);
        }
        match resolve(c, pat) {
            Ok(v) => {
                let ghost before = string_views(cats@);
                let mut m: usize = 0;
                while m < v.len()
                    invariant
                        m <= v@.len(),
                        string_views(cats@) == before + string_views(v@).take(m as int),
                    decreases v@.len() - m,
                {
                    let ghost prev = cats@;
                    cats.push(to_string(v[m].as_str()));
                    proof {
                        assert(string_views(cats@) =~= string_views(prev).push(v@[m as int]@));
                        assert(string_views(v@).take(m + 1) =~= string_views(v@).take(m as int).push(
                            v@[m as int]@,
                        ));
                    }
                    m = m + 1;
                }
                proof {
                    let sv = string_views(v@);
                    assert(sv.take(sv.len() as int) =~= sv);
                    assert forall|s: Seq<char>|
                        pattern_codes(c@, pats[k as int], s) <==> #[trigger] sv.contains(s) by {
                        if !(pat@.len() > 0 && pat@.last() == '*') && s == pat@ {
                            assert(sv[0] == s);
                        }
                    }
                    assert(sv.len() > 0);
                    assert(sv.contains(sv[0]));
                    assert(pattern_ok(c@, pats[k as int]));
                    assert(strictly_sorted(sv));
                    let rc = resolved_codes(c@, pats[k as int]);
                    assert(strictly_sorted(rc) && forall|x: Seq<char>| #[trigger] rc.contains(x)
                        <==> pattern_codes(c@, pats[k as int], x));
                    lemma_strictly_sorted_unique(sv, rc);
                    let t = pats.take(k + 1);
                    assert(t.drop_last() =~= pats.take(k as int));
                    assert(t.last() == pats[k as int]);
                    assert(string_views(cats@) == resolved_all(c@, pats.take(k + 1)));
                    assert forall|s: Seq<char>|
                        #![trigger string_views(cats@).contains(s)]
                        string_views(cats@).contains(s) <==> exists|j: int|
                            0 <= j < k + 1 && pattern_codes(c@, #[trigger] pats[j], s) by {
                        let all = string_views(cats@);
                        if all.contains(s) {
                            let q = choose|q: int| 0 <= q < all.len() && all[q] == s;
                            if q < before.len() {
                                assert(before[q] == s);
                                assert(before.contains(s));
                            } else {
                                assert(sv[q - before.len()] == s);
                                assert(sv.contains(s));
                            }
                        }
                        if before.contains(s) {
                            let q = choose|q: int| 0 <= q < before.len() && before[q] == s;
                            assert(all[q] == s);
                        }
                        if sv.contains(s) {
                            let q = choose|q: int| 0 <= q < sv.len() && sv[q] == s;
                            assert(all[before.len() + q] == s);
                        }
                    }
                }
            },
            Err(e) => {
                proof {
                    assert(!pattern_ok(c@, pats[k as int])) by {
                        if pattern_ok(c@, pats[k as int]) {
                            let s = choose|s: Seq<char>| pattern_codes(c@, pats[k as int], s);
                            assert(s == pats[k as int] || is_category(c@, s));
                        }
                    }
                    lemma_first_failure(pats, |p: Seq<char>| pattern_ok(c@, p), k as int);
                    assert(e@ == pattern_error(pats[k as int]));
                }
                return Err(e);
            },
        }
        k = k + 1;
    }
    proof {
        assert(first_failure(pats, |p: Seq<char>| pattern_ok(c@, p)) is None);
    }
    proof {
        assert(first_failure(pats, |p: Seq<char>| pattern_ok(c@, p)) is None);
        assert(pats.take(pats.len() as int) =~= pats);
    }
    Ok(())
}

/// Builds the filter for a block name, category patterns, sources and icon
/// sets, checking each against what exists; the first problem is reported.
pub fn resolve_filter(
    c: &Corpus,
    blocks: &Blocks,
    block: Option<&str>,
    categories: &Vec<String>,
    sources: &Vec<String>,
    icon_sets: &Vec<String>,
) -> (r: Result<Filter, String>)
    ensures
        ({
            let pats = string_views(categories@);
            let srcs = string_views(sources@);
            let sets = string_views(icon_sets@);
            let block_ok = match block {
                Some(name) => block_known(blocks@, name@),
                None => true,
            };
            let pat_fail = first_failure(pats, |p: Seq<char>| pattern_ok(c@, p));
            let src_fail = first_failure(srcs, |s: Seq<char>| is_source(c@, s));
            let set_fail = first_failure(sets, |s: Seq<char>| is_icon_set(c@, s));
            &&& !block_ok ==> (r matches Err(msg) && msg@ == unknown_block_msg(block->0@))
            &&& (block_ok && pat_fail is Some) ==> (r matches Err(msg) && msg@ == pattern_error(
                pats[pat_fail->0],
            ))
            &&& (block_ok && pat_fail is None && src_fail is Some) ==> (r matches Err(msg)
                && msg@ == unknown_item_msg("source"@, srcs[src_fail->0]))
            &&& (block_ok && pat_fail is None && src_fail is None && set_fail is Some)
                ==> (r matches Err(msg) && msg@ == unknown_item_msg("icon set"@, sets[set_fail->0]))
            &&& block_ok && pat_fail is None && src_fail is None && set_fail is None ==> r is Ok
            &&& (r matches Ok(f) ==> {
                &&& block is None ==> f.ranges@.len() == 0
                &&& block matches Some(name) ==> f.ranges@.len() == 1 && exists|i: int|
                    first_named(blocks@, name@, i) && #[trigger] blocks@[i].range == f.ranges@[0]
                &&& string_views(f.categories@) == resolved_all(c@, pats)
                &&& forall|s: Seq<char>|
                    #![trigger string_views(f.categories@).contains(s)]
                    string_views(f.categories@).contains(s) <==> exists|k: int|
                        0 <= k < pats.len() && pattern_codes(c@, #[trigger] pats[k], s)
                &&& string_views(f.sources@) == append_new(Seq::empty(), srcs)
                &&& string_views(f.icon_sets@) == append_new(Seq::empty(), sets)
            })
        }),
{
    let mut f = Filter {
        ranges: Vec::new(),
        sources: Vec::new(),
        icon_sets: Vec::new(),
        categories: Vec::new(),
    };
    if let Some(name) = block {
        match by_name(blocks, name) {
            Some(b) => {
                f.ranges.push(b.range.start..b.range.end);
            },
            None => {
                let mut msg = to_string("unknown block '");
                msg.append(name);
                msg.append("'");
                return Err(msg);
            },
        }
    }
    let ghost pats = string_views(categories@);
    match resolve_patterns(c, categories, &mut f.categories) {
        Ok(()) => {},
        Err(e) => {
            return Err(e);
        },
    }
    let known_sources = list_sources(c);
    let ghost srcs = string_views(sources@);
    proof {
        assert(string_views(f.sources@) =~= Seq::<Seq<char>>::empty());
        assert(string_views(f.icon_sets@) =~= Seq::<Seq<char>>::empty());
    }
    match validate_str_list(&known_sources, sources, &mut f.sources, "source") {
        Ok(()) => {},
        Err(e) => {
            proof {
                let k = choose|k: int|
                    0 <= k < sources@.len() && !string_views(known_sources@).contains(
                        #[trigger] sources@[k]@,
                    ) && (forall|j: int|
                        0 <= j < k ==> string_views(known_sources@).contains(
                            #[trigger] sources@[j]@,
                        )) && e@ == unknown_item_msg("source"@, sources@[k]@);
                assert(srcs[k] == sources@[k]@);
                assert forall|j: int| 0 <= j < k implies is_source(c@, #[trigger] srcs[j]) by {
                    assert(string_views(known_sources@).contains(sources@[j]@));
                }
                lemma_first_failure(srcs, |s: Seq<char>| is_source(c@, s), k);
            }
            return Err(e);
        },
    }
    proof {
        assert forall|j: int| 0 <= j < srcs.len() implies is_source(c@, #[trigger] srcs[j]) by {
            assert(string_views(known_sources@).contains(sources@[j]@));
        }
        assert(first_failure(srcs, |s: Seq<char>| is_source(c@, s)) is None);
    }
    let known_sets = list_icon_sets(c);
    let ghost sets = string_views(icon_sets@);
    match validate_str_list(&known_sets, icon_sets, &mut f.icon_sets, "icon set") {
        Ok(()) => {},
        Err(e) => {
            proof {
                let k = choose|k: int|
                    0 <= k < icon_sets@.len() && !string_views(known_sets@).contains(
                        #[trigger] icon_sets@[k]@,
                    ) && (forall|j: int|
                        0 <= j < k ==> string_views(known_sets@).contains(
                            #[trigger] icon_sets@[j]@,
                        )) && e@ == unknown_item_msg("icon set"@, icon_sets@[k]@);
                assert(sets[k] == icon_sets@[k]@);
                assert forall|j: int| 0 <= j < k implies is_icon_set(c@, #[trigger] sets[j]) by {
                    assert(string_views(known_sets@).contains(icon_sets@[j]@));
                }
                lemma_first_failure(sets, |s: Seq<char>| is_icon_set(c@, s), k);
            }
            return Err(e);
        },
    }
    proof {
        assert forall|j: int| 0 <= j < sets.len() implies is_icon_set(c@, #[trigger] sets[j]) by {
            assert(string_views(known_sets@).contains(icon_sets@[j]@));
        }
        assert(first_failure(sets, |s: Seq<char>| is_icon_set(c@, s)) is None);
    }
    Ok(f)
}


/// Hits with no score and no picks, one per position of `s`.
pub open spec fn as_hits(s: Seq<Idx>) -> Seq<Match> {
    s.map_values(|i: Idx| Match { idx: i, score: 0, freq: 0 })
}

/// The entries that pass `f`, in corpus order.
pub open spec fn listed(c: Seq<EntryView>, f: Filter) -> Seq<Idx> {
    all_indices(c.len()).filter(|i: Idx| passes(c[i.0 as int], f))
}

/// Lists the entries that pass `f`: in corpus order under `Sort::Relevance`,
/// otherwise reordered by name or by codepoint.
pub fn list_entries(c: &Corpus, f: &Filter, sort: Sort) -> (r: Vec<Idx>)
    ensures
        sort == Sort::Relevance ==> r@ == listed(c@, *f),
        is_ranking(c@, sort, as_hits(r@), as_hits(listed(c@, *f))),
        forall|k: int| 0 <= k < r@.len() ==> (#[trigger] r@[k]).0 < c@.len(),
{
    let n = num_entries(c);
    let ghost pred = |i: Idx| passes(c@[i.0 as int], *f);
    let mut out: Vec<Idx> = Vec::new();
    let mut i: usize = 0;
    while i < n
        invariant
            n == c@.len(),
            n <= u32::MAX,
            i <= n,
            pred == |i: Idx| passes(c@[i.0 as int], *f),
            out@ == all_indices(c@.len()).take(i as int).filter(pred),
            forall|m: int| 0 <= m < out@.len() ==> (#[trigger] out@[m]).0 < c@.len(),
        decreases n - i,
    {
        let idx = Idx(i as u32);
        proof {
            assert(all_indices(c@.len()).take(i + 1) =~= all_indices(c@.len()).take(i as int).push(idx));
            all_indices(c@.len()).take(i as int).lemma_filter_push(idx, pred);
        }
        if entry_in_bounds(c, idx, f) {
            out.push(idx);
        }
        i = i + 1;
    }
    proof {
        assert(all_indices(c@.len()).take(n as int) =~= all_indices(c@.len()));
    }
    let mut hits: Vec<Match> = Vec::new();
    let mut j: usize = 0;
    while j < out.len()
        invariant
            j <= out@.len(),
            hits@ == as_hits(out@.take(j as int)),
            forall|m: int| 0 <= m < out@.len() ==> (#[trigger] out@[m]).0 < c@.len(),
        decreases out@.len() - j,
    {
        hits.push(Match { idx: out[j], score: 0, freq: 0 });
        proof {
            assert(out@.take(j + 1) =~= out@.take(j as int).push(out@[j as int]));
            assert(as_hits(out@.take(j + 1)) =~= as_hits(out@.take(j as int)).push(
                Match { idx: out@[j as int], score: 0, freq: 0 },
            ));
        }
        j = j + 1;
    }
    proof {
        assert(out@.take(out@.len() as int) =~= out@);
    }
    if sort == Sort::Relevance {
        proof {
            let perm = Seq::new(hits@.len(), |q: int| q as usize);
            assert(is_permutation(perm, hits@.len())) by {
                assert(perm =~= positions(hits@.len()));
            }
            assert(hits@ =~= Seq::new(hits@.len(), |q: int| hits@[perm[q] as int]));
            assert(arranged_by(c@, sort, hits@, hits@, perm));
        }
        return out;
    }
    let ghost h = hits@;
    let sorted = sort_matches(c, hits, sort);
    proof {
        let perm = choose|perm: Seq<usize>| arranged_by(c@, sort, sorted@, h, perm);
        assert forall|q: int| 0 <= q < sorted@.len() implies (#[trigger] sorted@[q]).score == 0
            && sorted@[q].freq == 0 && sorted@[q].idx.0 < c@.len() by {
            lemma_permutation_bound(perm, h.len(), q);
            assert(sorted@[q] == h[perm[q] as int]);
        }
    }
    let mut res: Vec<Idx> = Vec::new();
    let mut k: usize = 0;
    while k < sorted.len()
        invariant
            k <= sorted@.len(),
            as_hits(res@) == sorted@.take(k as int),
            forall|q: int| 0 <= q < sorted@.len() ==> (#[trigger] sorted@[q]).score == 0
                && sorted@[q].freq == 0 && sorted@[q].idx.0 < c@.len(),
            forall|m: int| 0 <= m < res@.len() ==> (#[trigger] res@[m]).0 < c@.len(),
        decreases sorted@.len() - k,
    {
        res.push(sorted[k].idx);
        proof {
            assert(sorted@.take(k + 1) =~= sorted@.take(k as int).push(sorted@[k as int]));
            assert(as_hits(res@) =~= sorted@.take(k + 1));
        }
        k = k + 1;
    }
    proof {
        assert(sorted@.take(sorted@.len() as int) =~= sorted@);
    }
    res
}


/// The filter sets no condition.
pub open spec fn unfiltered(f: Filter) -> bool {
    &&& f.ranges@.len() == 0
    &&& f.sources@.len() == 0
    &&& f.icon_sets@.len() == 0
    &&& f.categories@.len() == 0
}

/// The names of the entries `p`, position by position.
pub open spec fn names_of(c: Seq<EntryView>, p: Seq<Idx>) -> Seq<Seq<char>> {
    p.map_values(|i: Idx| c[i.0 as int].name)
}

/// Searches the entries filter `f` selects: the whole corpus when it sets no
/// condition, nothing when it selects no entry, otherwise its pool.
pub fn search_filtered(
    c: &Corpus,
    query: &str,
    frecency: &Frecency,
    limit: usize,
    max_typos: Option<u16>,
    sort: Sort,
    f: &Filter,
) -> (r: Vec<Match>)
    requires
        pool_spec(c@, *f).len() <= u32::MAX,
    ensures
        unfiltered(*f) ==> search_outcome(
            c@,
            query@,
            query.len() as nat,
            all_indices(c@.len()),
            all_names(c@),
            frecency.counts(),
            limit,
            max_typos,
            sort,
            r@,
        ),
        !unfiltered(*f) && pool_spec(c@, *f).len() == 0 ==> r@.len() == 0,
        !unfiltered(*f) && pool_spec(c@, *f).len() > 0 ==> search_outcome(
            c@,
            query@,
            query.len() as nat,
            pool_spec(c@, *f),
            names_of(c@, pool_spec(c@, *f)),
            frecency.counts(),
            limit,
            max_typos,
            sort,
            r@,
        ),
        forall|k: int| 0 <= k < r@.len() ==> (#[trigger] r@[k]).idx.0 < c@.len(),
        !unfiltered(*f) ==> forall|k: int|
            0 <= k < r@.len() ==> passes(c@[(#[trigger] r@[k]).idx.0 as int], *f),
{
    if f.ranges.len() == 0 && f.sources.len() == 0 && f.icon_sets.len() == 0
        && f.categories.len() == 0 {
        return search_all(c, query, frecency, limit, max_typos, sort);
    }
    let p = pool(c, f);
    if p.len() == 0 {
        return Vec::new();
    }
    let mut names: Vec<&str> = Vec::new();
    let mut i: usize = 0;
    while i < p.len()
        invariant
            i <= p@.len(),
            names@.len() == i,
            forall|k: int| 0 <= k < p@.len() ==> (#[trigger] p@[k]).0 < c@.len(),
            forall|k: int| 0 <= k < i ==> (#[trigger] names@[k])@ == c@[p@[k].0 as int].name,
        decreases p@.len() - i,
    {
        names.push(entry_name(c, p[i]));
        i = i + 1;
    }
    proof {
        assert(names@.map_values(|h: &str| h@) =~= names_of(c@, p@));
    }
    let r = search_in(c, query, p.as_slice(), names.as_slice(), frecency, limit, max_typos, sort);
    proof {
        assert forall|k: int| 0 <= k < r@.len() implies passes(
            c@[(#[trigger] r@[k]).idx.0 as int],
            *f,
        ) by {
            assert(p@.contains(r@[k].idx));
            let j = choose|j: int| 0 <= j < p@.len() && p@[j] == r@[k].idx;
            lemma_pool_passes(c@, *f, j);
        }
    }
    r
}

/// Every entry of a filter's pool passes the filter.
pub proof fn lemma_pool_passes(c: Seq<EntryView>, f: Filter, j: int)
    requires
        0 <= j < pool_spec(c, f).len(),
    ensures
        passes(c[pool_spec(c, f)[j].0 as int], f),
{
    let base = if f.ranges@.len() == 0 {
        all_indices(c.len())
    } else {
        range_candidates(c, f.ranges@)
    };
    let pred = |i: Idx| passes(c[i.0 as int], f);
    base.lemma_filter_pred(pred, j);
}


/// The comma-separated items of an option (see `csv_items`); none when the
/// option is absent.
pub open spec fn option_items(o: Option<&str>) -> Seq<Seq<char>> {
    match o {
        Some(s) => csv_items(s@),
        None => Seq::empty(),
    }
}

/// Each string trimmed.
pub open spec fn trim_all(s: Seq<Seq<char>>) -> Seq<Seq<char>> {
    s.map_values(|x: Seq<char>| trimmed(x))
}

/// `r` is the range of the first block named `name`.
pub open spec fn named_range(t: Seq<crate::block::Block>, name: Seq<char>, r: Range<u32>) -> bool {
    exists|i: int| first_named(t, name, i) && t[i].range == r
}

/// Appends the range of the block named by each of `names` (trimmed);
/// stops with an error at the first name that matches no block.
fn block_ranges(blocks: &Blocks, names: &Vec<String>, ranges: &mut Vec<Range<u32>>) -> (r: Result<
    (),
    String,
>)
    requires
        old(ranges)@.len() == 0,
    ensures
        ({
            let ns = string_views(names@);
            let fail = first_failure(ns, |n: Seq<char>| block_known(blocks@, trimmed(n)));
            &&& fail is Some ==> (r matches Err(msg) && msg@ == unknown_block_msg(ns[fail->0]))
            &&& fail is None ==> r is Ok
            &&& r is Ok ==> final(ranges)@.len() == ns.len() && forall|k: int|
                0 <= k < ns.len() ==> named_range(blocks@, trimmed(ns[k]), #[trigger] final(ranges)@[k])
        }),
{
    let ghost ns = string_views(names@);
    let mut k: usize = 0;
    while k < names.len()
        invariant
            ns == string_views(names@),
            k <= names@.len(),
            ranges@.len() == k,
            forall|j: int| 0 <= j < k ==> block_known(blocks@, trimmed(#[trigger] ns[j])),
            forall|j: int|
                0 <= j < k ==> named_range(blocks@, trimmed(ns[j]), #[trigger] ranges@[j]),
        decreases names@.len() - k,
    {
        let name = names[k].as_str();
        let key = trim(name);
        proof {
            assert(name@ == ns[k as int]);
        }
        match by_name(blocks, key) {
            Some(bl) => {
                let ghost before = ranges@;
                ranges.push(bl.range.start..bl.range.end);
                proof {
                    let i = choose|i: int| first_named(blocks@, key@, i) && #[trigger] blocks@[i] == *bl;
                    assert(named_range(blocks@, key@, ranges@[k as int]));
                    assert(block_known(blocks@, key@));
                    assert forall|j: int| 0 <= j < k + 1 implies named_range(
                        blocks@,
                        trimmed(ns[j]),
                        #[trigger] ranges@[j],
                    ) by {
                        if j < k {
                            assert(ranges@[j] == before[j]);
                        }
                    }
                }
            },
            None => {
                proof {
                    assert(!block_known(blocks@, trimmed(ns[k as int])));
                    lemma_first_failure(ns, |n: Seq<char>| block_known(blocks@, trimmed(n)), k as int);
                }
                let mut msg = to_string("unknown block '");
                msg.append(name);
                msg.append("'");
                return Err(msg);
            },
        }
        k = k + 1;
    }
    proof {
        assert(first_failure(ns, |n: Seq<char>| block_known(blocks@, trimmed(n))) is None);
    }
    Ok(())
}

/// Each of `items`, trimmed.
fn trim_each(items: &Vec<String>) -> (r: Vec<String>)
    ensures
        string_views(r@) == trim_all(string_views(items@)),
{
    let mut out: Vec<String> = Vec::new();
    let mut k: usize = 0;
    while k < items.len()
        invariant
            k <= items@.len(),
            string_views(out@) == trim_all(string_views(items@)).take(k as int),
        decreases items@.len() - k,
    {
        let ghost before = out@;
        out.push(to_string(trim(items[k].as_str())));
        proof {
            assert(string_views(out@) =~= string_views(before).push(trimmed(items@[k as int]@)));
            assert(trim_all(string_views(items@)).take(k + 1) =~= trim_all(string_views(items@)).take(
                k as int,
            ).push(trimmed(items@[k as int]@)));
        }
        k = k + 1;
    }
    proof {
        assert(trim_all(string_views(items@)).take(items@.len() as int) =~= trim_all(
            string_views(items@),
        ));
    }
    out
}

/// The items of an optional comma-separated list.
fn option_list(o: Option<&str>) -> (r: Vec<String>)
    ensures
        string_views(r@) == option_items(o),
{
    match o {
        Some(s) => split_csv(s),
        None => {
            let r: Vec<String> = Vec::new();
            proof {
                assert(string_views(r@) =~= Seq::<Seq<char>>::empty());
            }
            r
        },
    }
}

/// Builds a filter from search options given as comma-separated lists:
/// block names, category patterns, sources and icon sets, plus an inclusive
/// codepoint range. Block names and patterns are checked (block names
/// first); sources and icon sets are taken as given.
pub fn options_filter(
    c: &Corpus,
    blocks: &Blocks,
    block: Option<&str>,
    category: Option<&str>,
    range: Option<(u32, u32)>,
    source: Option<&str>,
    icon_set: Option<&str>,
) -> (r: Result<Filter, String>)
    requires
        range matches Some(p) ==> p.1 < u32::MAX,
    ensures
        ({
            let names = option_items(block);
            let pats = trim_all(option_items(category));
            let bfail = first_failure(names, |n: Seq<char>| block_known(blocks@, trimmed(n)));
            let pfail = first_failure(pats, |p: Seq<char>| pattern_ok(c@, p));
            &&& bfail is Some ==> (r matches Err(msg) && msg@ == unknown_block_msg(
                names[bfail->0],
            ))
            &&& (bfail is None && pfail is Some) ==> (r matches Err(msg) && msg@ == pattern_error(
                pats[pfail->0],
            ))
            &&& (bfail is None && pfail is None) ==> r is Ok
            &&& (r matches Ok(f) ==> {
                &&& f.ranges@.len() == names.len() + if range is Some {
                    1int
                } else {
                    0int
                }
                &&& forall|k: int|
                    0 <= k < names.len() ==> named_range(blocks@, trimmed(names[k]), #[trigger] f.ranges@[k])
                &&& range matches Some(p) ==> f.ranges@[names.len() as int].start == p.0
                    && f.ranges@[names.len() as int].end == p.1 + 1
                &&& string_views(f.categories@) == resolved_all(c@, pats)
                &&& forall|s: Seq<char>|
                    #![trigger string_views(f.categories@).contains(s)]
                    string_views(f.categories@).contains(s) <==> exists|k: int|
                        0 <= k < pats.len() && pattern_codes(c@, #[trigger] pats[k], s)
                &&& string_views(f.sources@) == option_items(source)
                &&& string_views(f.icon_sets@) == option_items(icon_set)
            })
        }),
{
    let mut f = Filter {
        ranges: Vec::new(),
        sources: Vec::new(),
        icon_sets: Vec::new(),
        categories: Vec::new(),
    };
    let names = option_list(block);
    match block_ranges(blocks, &names, &mut f.ranges) {
        Ok(()) => {},
        Err(e) => {
            return Err(e);
        },
    }
    let ghost before = f.ranges@;
    if let Some(p) = range {
        f.ranges.push(p.0..p.1 + 1);
        proof {
            assert forall|k: int| 0 <= k < names@.len() implies f.ranges@[k] == before[k] by {}
        }
    }
    let pats = trim_each(&option_list(category));
    match resolve_patterns(c, &pats, &mut f.categories) {
        Ok(()) => {},
        Err(e) => {
            return Err(e);
        },
    }
    f.sources = option_list(source);
    f.icon_sets = option_list(icon_set);
    Ok(f)
}

} // verus!
