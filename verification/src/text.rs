//! Small verified helpers on strings and byte strings.

use vstd::prelude::*;
use vstd::utf8::*;
use vstd::string::*;

verus! {

broadcast use encode_utf8_decode_utf8;

/// Two byte slices are compared element by element.
pub fn bytes_eq(a: &[u8], b: &[u8]) -> (r: bool)
    ensures
        r == (a@ == b@),
{
    if a.len() != b.len() {
        return false;
    }
    let mut i: usize = 0;
    while i < a.len()
        invariant
            a@.len() == b@.len(),
            i <= a@.len(),
            forall|j: int| 0 <= j < i ==> a@[j] == b@[j],
        decreases a@.len() - i,
    {
        if a[i] != b[i] {
            return false;
        }
        i = i + 1;
    }
    assert(a@ =~= b@);
    true
}

/// Equality of string slices: the same sequence of chars.
pub fn str_eq(a: &str, b: &str) -> (r: bool)
    ensures
        r == (a@ == b@),
{
    let ab = a.as_bytes();
    let bb = b.as_bytes();
    let r = bytes_eq(ab, bb);
    proof {
        if r {
            assert(decode_utf8(encode_utf8(a@)) == a@);
            assert(decode_utf8(encode_utf8(b@)) == b@);
        }
    }
    r
}

} // verus!

verus! {

/// Lexicographic byte order, the order of `str` and `[u8]` in Rust.
pub open spec fn bytes_lt(a: Seq<u8>, b: Seq<u8>) -> bool
    decreases a.len(),
{
    if b.len() == 0 {
        false
    } else if a.len() == 0 {
        true
    } else if a[0] != b[0] {
        a[0] < b[0]
    } else {
        bytes_lt(a.drop_first(), b.drop_first())
    }
}

/// Rust's order on strings: the byte order of their UTF-8 encodings.
pub open spec fn str_lt(a: Seq<char>, b: Seq<char>) -> bool {
    bytes_lt(encode_utf8(a), encode_utf8(b))
}

pub proof fn lemma_bytes_lt_irreflexive(a: Seq<u8>)
    ensures
        !bytes_lt(a, a),
    decreases a.len(),
{
    if a.len() > 0 {
        lemma_bytes_lt_irreflexive(a.drop_first());
    }
}

pub proof fn lemma_bytes_lt_transitive(a: Seq<u8>, b: Seq<u8>, c: Seq<u8>)
    requires
        bytes_lt(a, b),
        bytes_lt(b, c),
    ensures
        bytes_lt(a, c),
    decreases a.len(),
{
    if a.len() > 0 && b.len() > 0 && c.len() > 0 && a[0] == b[0] && b[0] == c[0] {
        lemma_bytes_lt_transitive(a.drop_first(), b.drop_first(), c.drop_first());
    }
}

pub proof fn lemma_bytes_lt_total(a: Seq<u8>, b: Seq<u8>)
    ensures
        a == b || bytes_lt(a, b) || bytes_lt(b, a),
    decreases a.len(),
{
    if a.len() > 0 && b.len() > 0 && a[0] == b[0] {
        lemma_bytes_lt_total(a.drop_first(), b.drop_first());
        if a.drop_first() == b.drop_first() {
            assert(a =~= seq![a[0]] + a.drop_first());
            assert(b =~= seq![b[0]] + b.drop_first());
        }
    } else if a.len() == 0 && b.len() == 0 {
        assert(a =~= b);
    }
}

pub proof fn lemma_bytes_lt_asymmetric(a: Seq<u8>, b: Seq<u8>)
    ensures
        !(bytes_lt(a, b) && bytes_lt(b, a)),
{
    if bytes_lt(a, b) && bytes_lt(b, a) {
        lemma_bytes_lt_transitive(a, b, a);
        lemma_bytes_lt_irreflexive(a);
    }
}

proof fn lemma_bytes_lt_skip(a: Seq<u8>, b: Seq<u8>, i: int)
    requires
        0 <= i <= a.len(),
        i <= b.len(),
        a.take(i) == b.take(i),
    ensures
        bytes_lt(a, b) == bytes_lt(a.skip(i), b.skip(i)),
    decreases i,
{
    if i > 0 {
        assert(a[0] == a.take(i)[0]);
        assert(b[0] == b.take(i)[0]);
        assert(a.drop_first().take(i - 1) =~= a.take(i).drop_first());
        assert(b.drop_first().take(i - 1) =~= b.take(i).drop_first());
        lemma_bytes_lt_skip(a.drop_first(), b.drop_first(), i - 1);
        assert(a.drop_first().skip(i - 1) =~= a.skip(i));
        assert(b.drop_first().skip(i - 1) =~= b.skip(i));
    } else {
        assert(a.skip(0) =~= a);
        assert(b.skip(0) =~= b);
    }
}

/// Three-way comparison of byte strings: negative, zero or positive as `a`
/// sorts before, equal to or after `b`.
pub fn bytes_order(a: &[u8], b: &[u8]) -> (r: i8)
    ensures
        r < 0 <==> bytes_lt(a@, b@),
        r == 0 <==> a@ == b@,
        r > 0 <==> bytes_lt(b@, a@),
{
    let mut i: usize = 0;
    while i < a.len() && i < b.len()
        invariant
            i <= a@.len(),
            i <= b@.len(),
            a@.take(i as int) == b@.take(i as int),
        decreases a@.len() - i,
    {
        if a[i] != b[i] {
            proof {
                lemma_bytes_lt_skip(a@, b@, i as int);
                lemma_bytes_lt_skip(b@, a@, i as int);
                assert(a@.skip(i as int)[0] == a@[i as int]);
                assert(b@.skip(i as int)[0] == b@[i as int]);
            }
            if a[i] < b[i] {
                return -1;
            } else {
                return 1;
            }
        }
        proof {
            assert(a@.take(i + 1) =~= a@.take(i as int).push(a@[i as int]));
            assert(b@.take(i + 1) =~= b@.take(i as int).push(b@[i as int]));
        }
        i = i + 1;
    }
    proof {
        lemma_bytes_lt_skip(a@, b@, i as int);
        lemma_bytes_lt_skip(b@, a@, i as int);
        lemma_bytes_lt_irreflexive(a@);
    }
    if a.len() == b.len() {
        proof {
            assert(a@ =~= a@.take(i as int));
            assert(b@ =~= b@.take(i as int));
        }
        0
    } else if i == a.len() {
        proof {
            assert(a@.skip(i as int).len() == 0);
        }
        -1
    } else {
        proof {
            assert(b@.skip(i as int).len() == 0);
        }
        1
    }
}

/// Three-way comparison of strings in Rust's `str` order.
pub fn str_order(a: &str, b: &str) -> (r: i8)
    ensures
        r < 0 <==> str_lt(a@, b@),
        r == 0 <==> a@ == b@,
        r > 0 <==> str_lt(b@, a@),
{
    let r = bytes_order(a.as_bytes(), b.as_bytes());
    proof {
        if r == 0 {
            assert(decode_utf8(encode_utf8(a@)) == a@);
            assert(decode_utf8(encode_utf8(b@)) == b@);
        }
    }
    r
}

} // verus!

verus! {

/// The chars of each string in a list.
pub open spec fn string_views(v: Seq<String>) -> Seq<Seq<char>> {
    v.map_values(|s: String| s@)
}

/// Every string sorts strictly before the ones after it (so none repeats).
pub open spec fn strictly_sorted(v: Seq<Seq<char>>) -> bool {
    forall|i: int, j: int| 0 <= i < j < v.len() ==> str_lt(#[trigger] v[i], #[trigger] v[j])
}

/// Two strictly sorted lists holding the same strings are equal.
pub proof fn lemma_strictly_sorted_unique(a: Seq<Seq<char>>, b: Seq<Seq<char>>)
    requires
        strictly_sorted(a),
        strictly_sorted(b),
        forall|x: Seq<char>| a.contains(x) <==> b.contains(x),
    ensures
        a == b,
    decreases a.len(),
{
    if a.len() == 0 {
        if b.len() > 0 {
            assert(b.contains(b[0]));
        }
        assert(a =~= b);
    } else if b.len() == 0 {
        assert(a.contains(a[0]));
    } else {
        assert(a.contains(a[0]));
        assert(b.contains(b[0]));
        let i = choose|i: int| 0 <= i < a.len() && a[i] == b[0];
        let j = choose|j: int| 0 <= j < b.len() && b[j] == a[0];
        if i > 0 && j > 0 {
            lemma_bytes_lt_transitive(encode_utf8(a[0]), encode_utf8(a[i]), encode_utf8(b[j]));
            lemma_bytes_lt_irreflexive(encode_utf8(a[0]));
        }
        assert(a[0] == b[0]);
        let ta = a.drop_first();
        let tb = b.drop_first();
        assert forall|x: Seq<char>| ta.contains(x) <==> tb.contains(x) by {
            if ta.contains(x) {
                let p = choose|p: int| 0 <= p < ta.len() && ta[p] == x;
                assert(a[p + 1] == x);
                assert(str_lt(a[0], a[p + 1]));
                lemma_bytes_lt_irreflexive(encode_utf8(a[0]));
                assert(a.contains(x));
                let q = choose|q: int| 0 <= q < b.len() && b[q] == x;
                assert(q != 0);
                assert(tb[q - 1] == x);
            }
            if tb.contains(x) {
                let p = choose|p: int| 0 <= p < tb.len() && tb[p] == x;
                assert(b[p + 1] == x);
                assert(str_lt(b[0], b[p + 1]));
                lemma_bytes_lt_irreflexive(encode_utf8(b[0]));
                assert(b.contains(x));
                let q = choose|q: int| 0 <= q < a.len() && a[q] == x;
                assert(q != 0);
                assert(ta[q - 1] == x);
            }
        }
        assert forall|p: int, q: int| 0 <= p < q < ta.len() implies str_lt(#[trigger] ta[p], #[trigger] ta[q]) by {
            assert(ta[p] == a[p + 1] && ta[q] == a[q + 1]);
        }
        assert forall|p: int, q: int| 0 <= p < q < tb.len() implies str_lt(#[trigger] tb[p], #[trigger] tb[q]) by {
            assert(tb[p] == b[p + 1] && tb[q] == b[q + 1]);
        }
        lemma_strictly_sorted_unique(ta, tb);
        assert(a =~= seq![a[0]] + ta);
        assert(b =~= seq![b[0]] + tb);
    }
}

/// Adds `s` to a strictly sorted list of strings, at its place, unless it
/// is already there.
pub fn insert_sorted_unique(list: &mut Vec<String>, s: &str)
    requires
        strictly_sorted(string_views(old(list)@)),
    ensures
        strictly_sorted(string_views(final(list)@)),
        string_views(final(list)@).to_set() == string_views(old(list)@).to_set().insert(s@),
{
    let ghost old_views = string_views(list@);
    let mut p: usize = 0;
    while p < list.len() && str_order(list[p].as_str(), s) < 0
        invariant
            p <= list@.len(),
            list@ == old(list)@,
            old_views == string_views(list@),
            forall|k: int| 0 <= k < p ==> str_lt(#[trigger] old_views[k], s@),
        decreases list@.len() - p,
    {
        p = p + 1;
    }
    if p < list.len() && str_eq(list[p].as_str(), s) {
        proof {
            assert(string_views(list@).to_set() =~= old_views.to_set().insert(s@)) by {
                assert(old_views[p as int] == s@);
            }
        }
        return;
    }
    proof {
        if p < list@.len() {
            lemma_bytes_lt_total(encode_utf8(old_views[p as int]), encode_utf8(s@));
            assert(old_views[p as int] == list@[p as int]@);
            assert(str_lt(s@, old_views[p as int]));
        }
        assert forall|k: int| p <= k < old_views.len() implies str_lt(s@, #[trigger] old_views[k]) by {
            if k > p {
                assert(str_lt(old_views[p as int], old_views[k]));
                lemma_bytes_lt_transitive(
                    encode_utf8(s@),
                    encode_utf8(old_views[p as int]),
                    encode_utf8(old_views[k]),
                );
            }
        }
    }
    let item = String::from_str(s);
    list.insert(p, item);
    proof {
        let nv = string_views(list@);
        assert(nv =~= old_views.insert(p as int, s@));
        assert(nv.to_set() =~= old_views.to_set().insert(s@)) by {
            assert forall|x: Seq<char>| nv.to_set().contains(x) implies old_views.to_set().insert(
                s@,
            ).contains(x) by {
                let k = choose|k: int| 0 <= k < nv.len() && nv[k] == x;
                if k < p {
                    assert(old_views[k] == x);
                } else if k > p {
                    assert(old_views[k - 1] == x);
                }
            }
            assert forall|x: Seq<char>| old_views.to_set().insert(s@).contains(x) implies nv.to_set().contains(x) by {
                if x == s@ {
                    assert(nv[p as int] == x);
                } else {
                    let k = choose|k: int| 0 <= k < old_views.len() && old_views[k] == x;
                    if k < p {
                        assert(nv[k] == x);
                    } else {
                        assert(nv[k + 1] == x);
                    }
                }
            }
        }
        assert forall|i: int, j: int| 0 <= i < j < nv.len() implies str_lt(#[trigger] nv[i], #[trigger] nv[j]) by {
            if j < p {
            } else if j == p {
            } else if i < p {
                assert(str_lt(old_views[i], s@));
                lemma_bytes_lt_transitive(
                    encode_utf8(old_views[i]),
                    encode_utf8(s@),
                    encode_utf8(old_views[j - 1]),
                );
            } else if i == p {
            } else {
                assert(nv[i] == old_views[i - 1]);
            }
        }
    }
}

} // verus!

verus! {

/// The Unicode White_Space property, which `char::is_whitespace` answers:
/// U+0009..U+000D, U+0020, U+0085, U+00A0, U+1680, U+2000..U+200A,
/// U+2028, U+2029, U+202F, U+205F and U+3000.
pub open spec fn char_is_whitespace(c: char) -> bool {
    let u = c as u32;
    ||| 0x09 <= u <= 0x0D
    ||| u == 0x20
    ||| u == 0x85
    ||| u == 0xA0
    ||| u == 0x1680
    ||| 0x2000 <= u <= 0x200A
    ||| u == 0x2028
    ||| u == 0x2029
    ||| u == 0x202F
    ||| u == 0x205F
    ||| u == 0x3000
}

/// Whether `c` is white space (see `char_is_whitespace`).
fn is_whitespace(c: char) -> (r: bool)
    ensures
        r == char_is_whitespace(c),
{
    let u = c as u32;
    (0x09 <= u && u <= 0x0D) || u == 0x20 || u == 0x85 || u == 0xA0 || u == 0x1680 || (0x2000 <= u
        && u <= 0x200A) || u == 0x2028 || u == 0x2029 || u == 0x202F || u == 0x205F || u == 0x3000
}

/// `s` without its leading whitespace.
pub open spec fn trim_front(s: Seq<char>) -> Seq<char>
    decreases s.len(),
{
    if s.len() > 0 && char_is_whitespace(s[0]) {
        trim_front(s.drop_first())
    } else {
        s
    }
}

/// `s` without its trailing whitespace.
pub open spec fn trim_back(s: Seq<char>) -> Seq<char>
    decreases s.len(),
{
    if s.len() > 0 && char_is_whitespace(s.last()) {
        trim_back(s.drop_last())
    } else {
        s
    }
}

/// `s` without leading and trailing whitespace, as `str::trim` gives it.
pub open spec fn trimmed(s: Seq<char>) -> Seq<char> {
    trim_back(trim_front(s))
}

proof fn lemma_trim_front_skip(s: Seq<char>, a: int)
    requires
        0 <= a <= s.len(),
        forall|k: int| 0 <= k < a ==> char_is_whitespace(#[trigger] s[k]),
    ensures
        trim_front(s) == trim_front(s.skip(a)),
    decreases a,
{
    if a == 0 {
        assert(s.skip(0) =~= s);
    } else {
        assert(s.drop_first().skip(a - 1) =~= s.skip(a));
        lemma_trim_front_skip(s.drop_first(), a - 1);
    }
}

proof fn lemma_trim_back_take(s: Seq<char>, b: int)
    requires
        0 <= b <= s.len(),
        forall|k: int| b <= k < s.len() ==> char_is_whitespace(#[trigger] s[k]),
    ensures
        trim_back(s) == trim_back(s.take(b)),
    decreases s.len() - b,
{
    if b == s.len() {
        assert(s.take(b) =~= s);
    } else {
        assert(s.drop_last().take(b) =~= s.take(b));
        lemma_trim_back_take(s.drop_last(), b);
    }
}

/// `s` with leading and trailing whitespace removed.
pub fn trim(s: &str) -> (r: &str)
    ensures
        r@ == trimmed(s@),
{
    let n = s.unicode_len();
    let mut a: usize = 0;
    while a < n && is_whitespace(s.get_char(a))
        invariant
            n == s@.len(),
            a <= n,
            forall|k: int| 0 <= k < a ==> char_is_whitespace(#[trigger] s@[k]),
        decreases n - a,
    {
        a = a + 1;
    }
    let ghost front = s@.skip(a as int);
    proof {
        lemma_trim_front_skip(s@, a as int);
        assert(trim_front(front) == front);
    }
    let mut b: usize = n;
    while b > a && is_whitespace(s.get_char(b - 1))
        invariant
            n == s@.len(),
            a <= b <= n,
            forall|k: int| b <= k < n ==> char_is_whitespace(#[trigger] s@[k]),
        decreases b,
    {
        b = b - 1;
    }
    proof {
        let bb = (b - a) as int;
        assert forall|k: int| bb <= k < front.len() implies char_is_whitespace(#[trigger] front[k]) by {
            assert(front[k] == s@[k + a]);
        }
        lemma_trim_back_take(front, bb);
        assert(front.take(bb) =~= s@.subrange(a as int, b as int));
        let t = front.take(bb);
        if t.len() > 0 {
            assert(t.last() == s@[b - 1]);
        }
        assert(trim_back(t) == t);
    }
    s.substring_char(a, b)
}

/// The value of a hex digit, either case.
pub open spec fn hex_digit(c: char) -> Option<int> {
    if '0' <= c && c <= '9' {
        Some(c as int - '0' as int)
    } else if 'a' <= c && c <= 'f' {
        Some(c as int - 'a' as int + 10)
    } else if 'A' <= c && c <= 'F' {
        Some(c as int - 'A' as int + 10)
    } else {
        None
    }
}

/// The number a string of hex digits spells (`Some(0)` for none), or `None`
/// when some char is not a hex digit.
pub open spec fn hex_value(s: Seq<char>) -> Option<int>
    decreases s.len(),
{
    if s.len() == 0 {
        Some(0)
    } else {
        match (hex_value(s.drop_last()), hex_digit(s.last())) {
            (Some(v), Some(d)) => Some(v * 16 + d),
            _ => None,
        }
    }
}

/// What `u32::from_str_radix(s, 16)` accepts: an optional `+`, then at least
/// one hex digit, with a value that fits in 32 bits.
pub open spec fn parse_hex_u32(s: Seq<char>) -> Option<u32> {
    let digits = if s.len() > 0 && s[0] == '+' {
        s.drop_first()
    } else {
        s
    };
    if digits.len() == 0 {
        None
    } else {
        match hex_value(digits) {
            Some(v) => if v <= u32::MAX {
                Some(v as u32)
            } else {
                None
            },
            None => None,
        }
    }
}

pub(crate) proof fn lemma_hex_value_nonneg(s: Seq<char>)
    ensures
        hex_value(s) matches Some(v) ==> v >= 0,
    decreases s.len(),
{
    if s.len() > 0 {
        lemma_hex_value_nonneg(s.drop_last());
    }
}

proof fn lemma_hex_value_grows(s: Seq<char>, i: int)
    requires
        0 <= i <= s.len(),
        hex_value(s) is Some,
    ensures
        hex_value(s.take(i)) is Some,
        hex_value(s.take(i))->0 <= hex_value(s)->0,
    decreases s.len() - i,
{
    lemma_hex_value_nonneg(s);
    if i == s.len() {
        assert(s.take(i) =~= s);
    } else {
        assert(s.drop_last().take(i) =~= s.take(i));
        lemma_hex_value_nonneg(s.drop_last());
        lemma_hex_value_grows(s.drop_last(), i);
    }
}

fn hex_digit_value(c: char) -> (r: Option<u32>)
    ensures
        match hex_digit(c) {
            Some(d) => r == Some(d as u32),
            None => r is None,
        },
        r matches Some(d) ==> d < 16,
{
    if '0' <= c && c <= '9' {
        Some((c as u32) - ('0' as u32))
    } else if 'a' <= c && c <= 'f' {
        Some((c as u32) - ('a' as u32) + 10)
    } else if 'A' <= c && c <= 'F' {
        Some((c as u32) - ('A' as u32) + 10)
    } else {
        None
    }
}

/// Parses a base-16 number as `u32::from_str_radix(s, 16)` does.
pub fn parse_hex(s: &str) -> (r: Option<u32>)
    ensures
        r == parse_hex_u32(s@),
{
    let n = s.unicode_len();
    let mut i: usize = 0;
    if n > 0 && s.get_char(0) == '+' {
        i = 1;
    }
    let start = i;
    let ghost digits = s@.skip(start as int);
    proof {
        if start == 1 {
            assert(digits =~= s@.drop_first());
        } else {
            assert(digits =~= s@);
        }
    }
    if start == n {
        return None;
    }
    let mut v: u32 = 0;
    proof {
        assert(digits.take(0) =~= Seq::<char>::empty());
    }
    while i < n
        invariant
            n == s@.len(),
            start <= i <= n,
            start <= 1,
            start < n,
            start == 1 <==> (s@.len() > 0 && s@[0] == '+'),
            digits == s@.skip(start as int),
            digits == (if s@.len() > 0 && s@[0] == '+' { s@.drop_first() } else { s@ }),
            hex_value(digits.take(i - start)) == Some(v as int),
        decreases n - i,
    {
        let c = s.get_char(i);
        proof {
            assert(digits.take(i - start + 1).drop_last() =~= digits.take(i - start));
            assert(digits.take(i - start + 1).last() == c);
        }
        match hex_digit_value(c) {
            None => {
                proof {
                    let k = i - start + 1;
                    assert(hex_value(digits.take(k)) is None);
                    if hex_value(digits) is Some {
                        lemma_hex_value_grows(digits, k);
                    }
                }
                return None;
            },
            Some(d) => {
                if v > (u32::MAX - d) / 16 {
                    proof {
                        let k = i - start + 1;
                        assert(hex_value(digits.take(k)) == Some(v * 16 + d));
                        assert(v * 16 + d > u32::MAX);
                        if hex_value(digits) is Some {
                            lemma_hex_value_grows(digits, k);
                        }
                    }
                    return None;
                }
                v = v * 16 + d;
            },
        }
        i = i + 1;
    }
    proof {
        assert(digits.take(n - start) =~= digits);
    }
    Some(v)
}

} // verus!

verus! {

/// A byte with ASCII upper-case letters mapped to lower case.
pub open spec fn ascii_lower_byte(b: u8) -> u8 {
    if 65 <= b && b <= 90 {
        (b + 32) as u8
    } else {
        b
    }
}

/// `str::eq_ignore_ascii_case`: the same bytes up to ASCII letter case.
pub open spec fn eq_ignore_ascii_case_spec(a: Seq<u8>, b: Seq<u8>) -> bool {
    &&& a.len() == b.len()
    &&& forall|i: int| 0 <= i < a.len() ==> ascii_lower_byte(#[trigger] a[i]) == ascii_lower_byte(b[i])
}

/// Whether two strings are equal up to ASCII letter case.
pub fn eq_ignore_ascii_case(a: &str, b: &str) -> (r: bool)
    ensures
        r == eq_ignore_ascii_case_spec(a.spec_bytes(), b.spec_bytes()),
{
    let x = a.as_bytes();
    let y = b.as_bytes();
    if x.len() != y.len() {
        return false;
    }
    let mut i: usize = 0;
    while i < x.len()
        invariant
            x@ == a.spec_bytes(),
            y@ == b.spec_bytes(),
            x@.len() == y@.len(),
            i <= x@.len(),
            forall|k: int| 0 <= k < i ==> ascii_lower_byte(#[trigger] x@[k]) == ascii_lower_byte(y@[k]),
        decreases x@.len() - i,
    {
        let p = x[i];
        let q = y[i];
        let lp = if 65 <= p && p <= 90 { p + 32 } else { p };
        let lq = if 65 <= q && q <= 90 { q + 32 } else { q };
        if lp != lq {
            return false;
        }
        i = i + 1;
    }
    true
}

} // verus!

verus! {

/// Whether `s` begins with `p`.
pub fn str_starts_with(s: &str, p: &str) -> (r: bool)
    ensures
        r == p@.is_prefix_of(s@),
{
    let n = s.unicode_len();
    let m = p.unicode_len();
    if m > n {
        return false;
    }
    let mut i: usize = 0;
    while i < m
        invariant
            n == s@.len(),
            m == p@.len(),
            m <= n,
            i <= m,
            forall|k: int| 0 <= k < i ==> p@[k] == s@[k],
        decreases m - i,
    {
        if s.get_char(i) != p.get_char(i) {
            return false;
        }
        i = i + 1;
    }
    true
}

/// A new string holding the chars of `s`.
pub fn to_string(s: &str) -> (r: String)
    ensures
        r@ == s@,
{
    String::from_str(s)
}


/// The pieces of `s` between occurrences of `sep`, as `str::split` gives
/// them (an empty string gives one empty piece).
pub open spec fn split_on(s: Seq<char>, sep: char) -> Seq<Seq<char>>
    decreases s.len(),
{
    if s.len() == 0 {
        seq![Seq::empty()]
    } else {
        let r = split_on(s.drop_last(), sep);
        if s.last() == sep {
            r.push(Seq::empty())
        } else {
            r.update(r.len() - 1, r.last().push(s.last()))
        }
    }
}

/// The comma-separated items of `s`, trimmed, without the empty ones.
pub open spec fn csv_items(s: Seq<char>) -> Seq<Seq<char>> {
    split_on(s, ',').map_values(|p: Seq<char>| trimmed(p)).filter(|p: Seq<char>| p.len() > 0)
}

/// Splits `s` at commas, trims each piece and drops the empty ones.
pub fn split_csv(s: &str) -> (r: Vec<String>)
    ensures
        string_views(r@) == csv_items(s@),
{
    broadcast use Seq::lemma_filter_push;

    let n = s.unicode_len();
    let ghost pred = |p: Seq<char>| p.len() > 0;
    let ghost tf = |p: Seq<char>| trimmed(p);
    let mut out: Vec<String> = Vec::new();
    let mut start: usize = 0;
    let mut i: usize = 0;
    proof {
        assert(s@.take(0) =~= Seq::<char>::empty());
        assert(s@.subrange(0, 0) =~= Seq::<char>::empty());
    }
    while i < n
        invariant
            n == s@.len(),
            start <= i <= n,
            pred == |p: Seq<char>| p.len() > 0,
            tf == |p: Seq<char>| trimmed(p),
            split_on(s@.take(i as int), ',').len() > 0,
            split_on(s@.take(i as int), ',').last() == s@.subrange(start as int, i as int),
            string_views(out@) == split_on(s@.take(i as int), ',').drop_last().map_values(tf).filter(
                pred,
            ),
        decreases n - i,
    {
        let ch = s.get_char(i);
        let ghost prev = split_on(s@.take(i as int), ',');
        proof {
            let t = s@.take(i + 1);
            assert(t.drop_last() =~= s@.take(i as int));
            assert(t.last() == ch);
        }
        if ch == ',' {
            let piece = trim(s.substring_char(start, i));
            proof {
                let cur = split_on(s@.take(i + 1), ',');
                assert(cur == prev.push(Seq::empty()));
                assert(cur.drop_last() =~= prev);
                assert(prev =~= prev.drop_last().push(prev.last()));
                assert(prev.map_values(tf) =~= prev.drop_last().map_values(tf).push(tf(prev.last())));
                prev.drop_last().map_values(tf).lemma_filter_push(tf(prev.last()), pred);
                assert(s@.subrange(i + 1, i + 1) =~= Seq::<char>::empty());
            }
            if piece.unicode_len() > 0 {
                let ghost before = out@;
                out.push(to_string(piece));
                proof {
                    assert(string_views(out@) =~= string_views(before).push(piece@));
                }
            }
            start = i + 1;
        } else {
            proof {
                let cur = split_on(s@.take(i + 1), ',');
                assert(cur == prev.update(prev.len() - 1, prev.last().push(ch)));
                assert(cur.drop_last() =~= prev.drop_last());
                assert(cur.last() =~= s@.subrange(start as int, i + 1));
            }
        }
        i = i + 1;
    }
    let piece = trim(s.substring_char(start, n));
    proof {
        let all = split_on(s@, ',');
        assert(s@.take(n as int) =~= s@);
        assert(all =~= all.drop_last().push(all.last()));
        assert(all.map_values(tf) =~= all.drop_last().map_values(tf).push(tf(all.last())));
        all.drop_last().map_values(tf).lemma_filter_push(tf(all.last()), pred);
        assert(all.map_values(tf) =~= all.map_values(|p: Seq<char>| trimmed(p)));
    }
    if piece.unicode_len() > 0 {
        let ghost before = out@;
        out.push(to_string(piece));
        proof {
            assert(string_views(out@) =~= string_views(before).push(piece@));
        }
    }
    out
}


/// The pieces of `s` between occurrences of `sep` (see `split_on`).
pub fn split_str(s: &str, sep: char) -> (r: Vec<String>)
    ensures
        string_views(r@) == split_on(s@, sep),
{
    let n = s.unicode_len();
    let mut out: Vec<String> = Vec::new();
    let mut start: usize = 0;
    let mut i: usize = 0;
    proof {
        assert(s@.take(0) =~= Seq::<char>::empty());
        assert(s@.subrange(0, 0) =~= Seq::<char>::empty());
        assert(string_views(out@) =~= Seq::<Seq<char>>::empty());
    }
    while i < n
        invariant
            n == s@.len(),
            start <= i <= n,
            split_on(s@.take(i as int), sep).len() > 0,
            split_on(s@.take(i as int), sep).last() == s@.subrange(start as int, i as int),
            string_views(out@) == split_on(s@.take(i as int), sep).drop_last(),
        decreases n - i,
    {
        let ch = s.get_char(i);
        let ghost prev = split_on(s@.take(i as int), sep);
        proof {
            let t = s@.take(i + 1);
            assert(t.drop_last() =~= s@.take(i as int));
            assert(t.last() == ch);
        }
        if ch == sep {
            let ghost before = out@;
            out.push(to_string(s.substring_char(start, i)));
            proof {
                let cur = split_on(s@.take(i + 1), sep);
                assert(cur == prev.push(Seq::empty()));
                assert(cur.drop_last() =~= prev);
                assert(prev =~= prev.drop_last().push(prev.last()));
                assert(string_views(out@) =~= string_views(before).push(prev.last()));
                assert(s@.subrange(i + 1, i + 1) =~= Seq::<char>::empty());
            }
            start = i + 1;
        } else {
            proof {
                let cur = split_on(s@.take(i + 1), sep);
                assert(cur == prev.update(prev.len() - 1, prev.last().push(ch)));
                assert(cur.drop_last() =~= prev.drop_last());
                assert(cur.last() =~= s@.subrange(start as int, i + 1));
            }
        }
        i = i + 1;
    }
    let ghost before = out@;
    out.push(to_string(s.substring_char(start, n)));
    proof {
        let all = split_on(s@, sep);
        assert(s@.take(n as int) =~= s@);
        assert(all =~= all.drop_last().push(all.last()));
        assert(string_views(out@) =~= string_views(before).push(all.last()));
    }
    out
}

/// `p` without one trailing carriage return.
pub open spec fn strip_cr(p: Seq<char>) -> Seq<char> {
    if p.len() > 0 && p.last() == '\r' {
        p.drop_last()
    } else {
        p
    }
}

/// The lines of `s` as `str::lines` gives them: split at `\n` (a `\r`
/// before it is dropped), with no empty line after a final line ending.
pub open spec fn text_lines(s: Seq<char>) -> Seq<Seq<char>> {
    let p = split_on(s, '\n');
    let ended = p.drop_last().map_values(|x: Seq<char>| strip_cr(x));
    if p.last().len() == 0 {
        ended
    } else {
        ended.push(p.last())
    }
}

/// The lines of `s` (see `text_lines`).
pub fn text_lines_of(s: &str) -> (r: Vec<String>)
    ensures
        string_views(r@) == text_lines(s@),
{
    let pieces = split_str(s, '\n');
    let ghost p = split_on(s@, '\n');
    proof {
        lemma_split_on_len(s@, '\n');
    }
    let count = pieces.len() - 1;
    let mut out: Vec<String> = Vec::new();
    let mut k: usize = 0;
    while k < count
        invariant
            string_views(pieces@) == p,
            p == split_on(s@, '\n'),
            count == p.len() - 1,
            k <= count,
            string_views(out@) == p.drop_last().map_values(|x: Seq<char>| strip_cr(x)).take(k as int),
        decreases count - k,
    {
        let piece = pieces[k].as_str();
        let m = piece.unicode_len();
        let line = if m > 0 && piece.get_char(m - 1) == '\r' {
            piece.substring_char(0, m - 1)
        } else {
            piece
        };
        let ghost before = out@;
        out.push(to_string(line));
        proof {
            assert(piece@ == p[k as int]);
            if m > 0 && piece@.last() == '\r' {
                assert(line@ =~= piece@.drop_last());
            }
            assert(line@ == strip_cr(p[k as int]));
            let e = p.drop_last().map_values(|x: Seq<char>| strip_cr(x));
            assert(e.take(k + 1) =~= e.take(k as int).push(strip_cr(p[k as int])));
            assert(string_views(out@) =~= string_views(before).push(line@));
        }
        k = k + 1;
    }
    proof {
        let e = p.drop_last().map_values(|x: Seq<char>| strip_cr(x));
        assert(e.take(count as int) =~= e);
        assert(pieces@[count as int]@ == p.last());
    }
    if pieces[count].as_str().unicode_len() > 0 {
        let ghost before = out@;
        out.push(to_string(pieces[count].as_str()));
        proof {
            assert(string_views(out@) =~= string_views(before).push(p.last()));
        }
    }
    out
}

proof fn lemma_split_on_len(s: Seq<char>, sep: char)
    ensures
        split_on(s, sep).len() > 0,
    decreases s.len(),
{
    if s.len() > 0 {
        lemma_split_on_len(s.drop_last(), sep);
    }
}


/// The value of a decimal digit.
pub open spec fn dec_digit(c: char) -> Option<int> {
    if '0' <= c && c <= '9' {
        Some(c as int - '0' as int)
    } else {
        None
    }
}

/// The number a string of decimal digits spells (`Some(0)` for none), or `None`
/// when some char is not a decimal digit.
pub open spec fn dec_value(s: Seq<char>) -> Option<int>
    decreases s.len(),
{
    if s.len() == 0 {
        Some(0)
    } else {
        match (dec_value(s.drop_last()), dec_digit(s.last())) {
            (Some(v), Some(d)) => Some(v * 10 + d),
            _ => None,
        }
    }
}

/// What `str::parse::<u32>` accepts: an optional `+`, then at least
/// one decimal digit, with a value that fits in 32 bits.
pub open spec fn parse_dec_u32(s: Seq<char>) -> Option<u32> {
    let digits = if s.len() > 0 && s[0] == '+' {
        s.drop_first()
    } else {
        s
    };
    if digits.len() == 0 {
        None
    } else {
        match dec_value(digits) {
            Some(v) => if v <= u32::MAX {
                Some(v as u32)
            } else {
                None
            },
            None => None,
        }
    }
}

proof fn lemma_dec_value_nonneg(s: Seq<char>)
    ensures
        dec_value(s) matches Some(v) ==> v >= 0,
    decreases s.len(),
{
    if s.len() > 0 {
        lemma_dec_value_nonneg(s.drop_last());
    }
}

proof fn lemma_dec_value_grows(s: Seq<char>, i: int)
    requires
        0 <= i <= s.len(),
        dec_value(s) is Some,
    ensures
        dec_value(s.take(i)) is Some,
        dec_value(s.take(i))->0 <= dec_value(s)->0,
    decreases s.len() - i,
{
    lemma_dec_value_nonneg(s);
    if i == s.len() {
        assert(s.take(i) =~= s);
    } else {
        assert(s.drop_last().take(i) =~= s.take(i));
        lemma_dec_value_nonneg(s.drop_last());
        lemma_dec_value_grows(s.drop_last(), i);
    }
}

fn dec_digit_value(c: char) -> (r: Option<u32>)
    ensures
        match dec_digit(c) {
            Some(d) => r == Some(d as u32),
            None => r is None,
        },
        r matches Some(d) ==> d < 10,
{
    if '0' <= c && c <= '9' {
        Some((c as u32) - ('0' as u32))
    } else {
        None
    }
}

/// Parses a decimal number as `str::parse::<u32>` does.
pub fn parse_dec(s: &str) -> (r: Option<u32>)
    ensures
        r == parse_dec_u32(s@),
{
    let n = s.unicode_len();
    let mut i: usize = 0;
    if n > 0 && s.get_char(0) == '+' {
        i = 1;
    }
    let start = i;
    let ghost digits = s@.skip(start as int);
    proof {
        if start == 1 {
            assert(digits =~= s@.drop_first());
        } else {
            assert(digits =~= s@);
        }
    }
    if start == n {
        return None;
    }
    let mut v: u32 = 0;
    proof {
        assert(digits.take(0) =~= Seq::<char>::empty());
    }
    while i < n
        invariant
            n == s@.len(),
            start <= i <= n,
            start <= 1,
            start < n,
            start == 1 <==> (s@.len() > 0 && s@[0] == '+'),
            digits == s@.skip(start as int),
            digits == (if s@.len() > 0 && s@[0] == '+' { s@.drop_first() } else { s@ }),
            dec_value(digits.take(i - start)) == Some(v as int),
        decreases n - i,
    {
        let c = s.get_char(i);
        proof {
            assert(digits.take(i - start + 1).drop_last() =~= digits.take(i - start));
            assert(digits.take(i - start + 1).last() == c);
        }
        match dec_digit_value(c) {
            None => {
                proof {
                    let k = i - start + 1;
                    assert(dec_value(digits.take(k)) is None);
                    if dec_value(digits) is Some {
                        lemma_dec_value_grows(digits, k);
                    }
                }
                return None;
            },
            Some(d) => {
                if v > (u32::MAX - d) / 10 {
                    proof {
                        let k = i - start + 1;
                        assert(dec_value(digits.take(k)) == Some(v * 10 + d));
                        assert(v * 10 + d > u32::MAX);
                        if dec_value(digits) is Some {
                            lemma_dec_value_grows(digits, k);
                        }
                    }
                    return None;
                }
                v = v * 10 + d;
            },
        }
        i = i + 1;
    }
    proof {
        assert(digits.take(n - start) =~= digits);
    }
    Some(v)
}

} // verus!
