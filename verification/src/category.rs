//! Unicode general categories present in the corpus, and the resolution of
//! category patterns such as `Lu` or `L*`.

use vstd::prelude::*;
use vstd::string::*;
use crate::corpus::{Corpus, distinct_field_values, FIELD_CATEGORY};
use crate::text::{str_eq, str_starts_with, strictly_sorted, string_views, to_string};

verus! {

/// A general category code with its description.
pub struct Cat {
    pub code: String,
    pub desc: String,
}

/// The description of a general category code ("" if unknown).
pub open spec fn cat_desc(code: Seq<char>) -> Seq<char> {
    if code == "Lu"@ {
        "Uppercase Letter"@
    } else if code == "Ll"@ {
        "Lowercase Letter"@
    } else if code == "Lt"@ {
        "Titlecase Letter"@
    } else if code == "Lm"@ {
        "Modifier Letter"@
    } else if code == "Lo"@ {
        "Other Letter"@
    } else if code == "Mn"@ {
        "Nonspacing Mark"@
    } else if code == "Mc"@ {
        "Spacing Combining Mark"@
    } else if code == "Me"@ {
        "Enclosing Mark"@
    } else if code == "Nd"@ {
        "Decimal Number"@
    } else if code == "Nl"@ {
        "Letter Number"@
    } else if code == "No"@ {
        "Other Number"@
    } else if code == "Pc"@ {
        "Connector Punctuation"@
    } else if code == "Pd"@ {
        "Dash Punctuation"@
    } else if code == "Ps"@ {
        "Open Punctuation"@
    } else if code == "Pe"@ {
        "Close Punctuation"@
    } else if code == "Pi"@ {
        "Initial Punctuation"@
    } else if code == "Pf"@ {
        "Final Punctuation"@
    } else if code == "Po"@ {
        "Other Punctuation"@
    } else if code == "Sm"@ {
        "Math Symbol"@
    } else if code == "Sc"@ {
        "Currency Symbol"@
    } else if code == "Sk"@ {
        "Modifier Symbol"@
    } else if code == "So"@ {
        "Other Symbol"@
    } else if code == "Zs"@ {
        "Space Separator"@
    } else if code == "Zl"@ {
        "Line Separator"@
    } else if code == "Zp"@ {
        "Paragraph Separator"@
    } else if code == "Cc"@ {
        "Control"@
    } else if code == "Cf"@ {
        "Format"@
    } else if code == "Cs"@ {
        "Surrogate"@
    } else if code == "Co"@ {
        "Private Use"@
    } else if code == "Cn"@ {
        "Unassigned"@
    } else {
        ""@
    }
}

/// The description of each of the thirty general categories is its long
/// name in the Unicode Character Database (PropertyValueAliases.txt).
pub proof fn lemma_category_names()
    ensures
        cat_desc("Lu"@) == "Uppercase Letter"@,
        cat_desc("Ll"@) == "Lowercase Letter"@,
        cat_desc("Lt"@) == "Titlecase Letter"@,
        cat_desc("Lm"@) == "Modifier Letter"@,
        cat_desc("Lo"@) == "Other Letter"@,
        cat_desc("Mn"@) == "Nonspacing Mark"@,
        cat_desc("Mc"@) == "Spacing Combining Mark"@,
        cat_desc("Me"@) == "Enclosing Mark"@,
        cat_desc("Nd"@) == "Decimal Number"@,
        cat_desc("Nl"@) == "Letter Number"@,
        cat_desc("No"@) == "Other Number"@,
        cat_desc("Pc"@) == "Connector Punctuation"@,
        cat_desc("Pd"@) == "Dash Punctuation"@,
        cat_desc("Ps"@) == "Open Punctuation"@,
        cat_desc("Pe"@) == "Close Punctuation"@,
        cat_desc("Pi"@) == "Initial Punctuation"@,
        cat_desc("Pf"@) == "Final Punctuation"@,
        cat_desc("Po"@) == "Other Punctuation"@,
        cat_desc("Sm"@) == "Math Symbol"@,
        cat_desc("Sc"@) == "Currency Symbol"@,
        cat_desc("Sk"@) == "Modifier Symbol"@,
        cat_desc("So"@) == "Other Symbol"@,
        cat_desc("Zs"@) == "Space Separator"@,
        cat_desc("Zl"@) == "Line Separator"@,
        cat_desc("Zp"@) == "Paragraph Separator"@,
        cat_desc("Cc"@) == "Control"@,
        cat_desc("Cf"@) == "Format"@,
        cat_desc("Cs"@) == "Surrogate"@,
        cat_desc("Co"@) == "Private Use"@,
        cat_desc("Cn"@) == "Unassigned"@,
{
        reveal_strlit("Lu");
        reveal_strlit("Ll");
        reveal_strlit("Lt");
        reveal_strlit("Lm");
        reveal_strlit("Lo");
        reveal_strlit("Mn");
        reveal_strlit("Mc");
        reveal_strlit("Me");
        reveal_strlit("Nd");
        reveal_strlit("Nl");
        reveal_strlit("No");
        reveal_strlit("Pc");
        reveal_strlit("Pd");
        reveal_strlit("Ps");
        reveal_strlit("Pe");
        reveal_strlit("Pi");
        reveal_strlit("Pf");
        reveal_strlit("Po");
        reveal_strlit("Sm");
        reveal_strlit("Sc");
        reveal_strlit("Sk");
        reveal_strlit("So");
        reveal_strlit("Zs");
        reveal_strlit("Zl");
        reveal_strlit("Zp");
        reveal_strlit("Cc");
        reveal_strlit("Cf");
        reveal_strlit("Cs");
        reveal_strlit("Co");
        reveal_strlit("Cn");
        assert("Lu"@[0] == 'L' && "Lu"@[1] == 'u');
        assert("Ll"@[0] == 'L' && "Ll"@[1] == 'l');
        assert("Lt"@[0] == 'L' && "Lt"@[1] == 't');
        assert("Lm"@[0] == 'L' && "Lm"@[1] == 'm');
        assert("Lo"@[0] == 'L' && "Lo"@[1] == 'o');
        assert("Mn"@[0] == 'M' && "Mn"@[1] == 'n');
        assert("Mc"@[0] == 'M' && "Mc"@[1] == 'c');
        assert("Me"@[0] == 'M' && "Me"@[1] == 'e');
        assert("Nd"@[0] == 'N' && "Nd"@[1] == 'd');
        assert("Nl"@[0] == 'N' && "Nl"@[1] == 'l');
        assert("No"@[0] == 'N' && "No"@[1] == 'o');
        assert("Pc"@[0] == 'P' && "Pc"@[1] == 'c');
        assert("Pd"@[0] == 'P' && "Pd"@[1] == 'd');
        assert("Ps"@[0] == 'P' && "Ps"@[1] == 's');
        assert("Pe"@[0] == 'P' && "Pe"@[1] == 'e');
        assert("Pi"@[0] == 'P' && "Pi"@[1] == 'i');
        assert("Pf"@[0] == 'P' && "Pf"@[1] == 'f');
        assert("Po"@[0] == 'P' && "Po"@[1] == 'o');
        assert("Sm"@[0] == 'S' && "Sm"@[1] == 'm');
        assert("Sc"@[0] == 'S' && "Sc"@[1] == 'c');
        assert("Sk"@[0] == 'S' && "Sk"@[1] == 'k');
        assert("So"@[0] == 'S' && "So"@[1] == 'o');
        assert("Zs"@[0] == 'Z' && "Zs"@[1] == 's');
        assert("Zl"@[0] == 'Z' && "Zl"@[1] == 'l');
        assert("Zp"@[0] == 'Z' && "Zp"@[1] == 'p');
        assert("Cc"@[0] == 'C' && "Cc"@[1] == 'c');
        assert("Cf"@[0] == 'C' && "Cf"@[1] == 'f');
        assert("Cs"@[0] == 'C' && "Cs"@[1] == 's');
        assert("Co"@[0] == 'C' && "Co"@[1] == 'o');
        assert("Cn"@[0] == 'C' && "Cn"@[1] == 'n');
}

/// A code that is no general category has no description, and every
/// category has one.
pub proof fn lemma_category_desc_empty(code: Seq<char>)
    ensures
        cat_desc(code).len() == 0 <==> !(code == "Lu"@ || code == "Ll"@ || code == "Lt"@ || code == "Lm"@ || code == "Lo"@ || code == "Mn"@ || code == "Mc"@ || code == "Me"@ || code == "Nd"@ || code == "Nl"@ || code == "No"@ || code == "Pc"@ || code == "Pd"@ || code == "Ps"@ || code == "Pe"@ || code == "Pi"@ || code == "Pf"@ || code == "Po"@ || code == "Sm"@ || code == "Sc"@ || code == "Sk"@ || code == "So"@ || code == "Zs"@ || code == "Zl"@ || code == "Zp"@ || code == "Cc"@ || code == "Cf"@ || code == "Cs"@ || code == "Co"@ || code == "Cn"@),
{
        reveal_strlit("Lu");
        reveal_strlit("Ll");
        reveal_strlit("Lt");
        reveal_strlit("Lm");
        reveal_strlit("Lo");
        reveal_strlit("Mn");
        reveal_strlit("Mc");
        reveal_strlit("Me");
        reveal_strlit("Nd");
        reveal_strlit("Nl");
        reveal_strlit("No");
        reveal_strlit("Pc");
        reveal_strlit("Pd");
        reveal_strlit("Ps");
        reveal_strlit("Pe");
        reveal_strlit("Pi");
        reveal_strlit("Pf");
        reveal_strlit("Po");
        reveal_strlit("Sm");
        reveal_strlit("Sc");
        reveal_strlit("Sk");
        reveal_strlit("So");
        reveal_strlit("Zs");
        reveal_strlit("Zl");
        reveal_strlit("Zp");
        reveal_strlit("Cc");
        reveal_strlit("Cf");
        reveal_strlit("Cs");
        reveal_strlit("Co");
        reveal_strlit("Cn");
        assert("Lu"@[0] == 'L' && "Lu"@[1] == 'u');
        assert("Ll"@[0] == 'L' && "Ll"@[1] == 'l');
        assert("Lt"@[0] == 'L' && "Lt"@[1] == 't');
        assert("Lm"@[0] == 'L' && "Lm"@[1] == 'm');
        assert("Lo"@[0] == 'L' && "Lo"@[1] == 'o');
        assert("Mn"@[0] == 'M' && "Mn"@[1] == 'n');
        assert("Mc"@[0] == 'M' && "Mc"@[1] == 'c');
        assert("Me"@[0] == 'M' && "Me"@[1] == 'e');
        assert("Nd"@[0] == 'N' && "Nd"@[1] == 'd');
        assert("Nl"@[0] == 'N' && "Nl"@[1] == 'l');
        assert("No"@[0] == 'N' && "No"@[1] == 'o');
        assert("Pc"@[0] == 'P' && "Pc"@[1] == 'c');
        assert("Pd"@[0] == 'P' && "Pd"@[1] == 'd');
        assert("Ps"@[0] == 'P' && "Ps"@[1] == 's');
        assert("Pe"@[0] == 'P' && "Pe"@[1] == 'e');
        assert("Pi"@[0] == 'P' && "Pi"@[1] == 'i');
        assert("Pf"@[0] == 'P' && "Pf"@[1] == 'f');
        assert("Po"@[0] == 'P' && "Po"@[1] == 'o');
        assert("Sm"@[0] == 'S' && "Sm"@[1] == 'm');
        assert("Sc"@[0] == 'S' && "Sc"@[1] == 'c');
        assert("Sk"@[0] == 'S' && "Sk"@[1] == 'k');
        assert("So"@[0] == 'S' && "So"@[1] == 'o');
        assert("Zs"@[0] == 'Z' && "Zs"@[1] == 's');
        assert("Zl"@[0] == 'Z' && "Zl"@[1] == 'l');
        assert("Zp"@[0] == 'Z' && "Zp"@[1] == 'p');
        assert("Cc"@[0] == 'C' && "Cc"@[1] == 'c');
        assert("Cf"@[0] == 'C' && "Cf"@[1] == 'f');
        assert("Cs"@[0] == 'C' && "Cs"@[1] == 's');
        assert("Co"@[0] == 'C' && "Co"@[1] == 'o');
        assert("Cn"@[0] == 'C' && "Cn"@[1] == 'n');
    lemma_category_names();
        reveal_strlit("Close Punctuation");
        reveal_strlit("Connector Punctuation");
        reveal_strlit("Control");
        reveal_strlit("Currency Symbol");
        reveal_strlit("Dash Punctuation");
        reveal_strlit("Decimal Number");
        reveal_strlit("Enclosing Mark");
        reveal_strlit("Final Punctuation");
        reveal_strlit("Format");
        reveal_strlit("Initial Punctuation");
        reveal_strlit("Letter Number");
        reveal_strlit("Line Separator");
        reveal_strlit("Lowercase Letter");
        reveal_strlit("Math Symbol");
        reveal_strlit("Modifier Letter");
        reveal_strlit("Modifier Symbol");
        reveal_strlit("Nonspacing Mark");
        reveal_strlit("Open Punctuation");
        reveal_strlit("Other Letter");
        reveal_strlit("Other Number");
        reveal_strlit("Other Punctuation");
        reveal_strlit("Other Symbol");
        reveal_strlit("Paragraph Separator");
        reveal_strlit("Private Use");
        reveal_strlit("Space Separator");
        reveal_strlit("Spacing Combining Mark");
        reveal_strlit("Surrogate");
        reveal_strlit("Titlecase Letter");
        reveal_strlit("Unassigned");
        reveal_strlit("Uppercase Letter");
        reveal_strlit("");
}

/// Describes a general category code (see `cat_desc`).
pub fn category_description(code: &str) -> (r: &'static str)
    ensures
        r@ == cat_desc(code@),
{
    if str_eq(code, "Lu") {
        "Uppercase Letter"
    } else if str_eq(code, "Ll") {
        "Lowercase Letter"
    } else if str_eq(code, "Lt") {
        "Titlecase Letter"
    } else if str_eq(code, "Lm") {
        "Modifier Letter"
    } else if str_eq(code, "Lo") {
        "Other Letter"
    } else if str_eq(code, "Mn") {
        "Nonspacing Mark"
    } else if str_eq(code, "Mc") {
        "Spacing Combining Mark"
    } else if str_eq(code, "Me") {
        "Enclosing Mark"
    } else if str_eq(code, "Nd") {
        "Decimal Number"
    } else if str_eq(code, "Nl") {
        "Letter Number"
    } else if str_eq(code, "No") {
        "Other Number"
    } else if str_eq(code, "Pc") {
        "Connector Punctuation"
    } else if str_eq(code, "Pd") {
        "Dash Punctuation"
    } else if str_eq(code, "Ps") {
        "Open Punctuation"
    } else if str_eq(code, "Pe") {
        "Close Punctuation"
    } else if str_eq(code, "Pi") {
        "Initial Punctuation"
    } else if str_eq(code, "Pf") {
        "Final Punctuation"
    } else if str_eq(code, "Po") {
        "Other Punctuation"
    } else if str_eq(code, "Sm") {
        "Math Symbol"
    } else if str_eq(code, "Sc") {
        "Currency Symbol"
    } else if str_eq(code, "Sk") {
        "Modifier Symbol"
    } else if str_eq(code, "So") {
        "Other Symbol"
    } else if str_eq(code, "Zs") {
        "Space Separator"
    } else if str_eq(code, "Zl") {
        "Line Separator"
    } else if str_eq(code, "Zp") {
        "Paragraph Separator"
    } else if str_eq(code, "Cc") {
        "Control"
    } else if str_eq(code, "Cf") {
        "Format"
    } else if str_eq(code, "Cs") {
        "Surrogate"
    } else if str_eq(code, "Co") {
        "Private Use"
    } else if str_eq(code, "Cn") {
        "Unassigned"
    } else {
        ""
    }
}

/// Whether `code` is the category of some corpus entry.
pub open spec fn is_category(c: Seq<crate::corpus::EntryView>, code: Seq<char>) -> bool {
    exists|i: int| 0 <= i < c.len() && #[trigger] c[i].fields[FIELD_CATEGORY as int] == code
}

/// The codes of a list of categories.
pub open spec fn cat_codes(v: Seq<Cat>) -> Seq<Seq<char>> {
    v.map_values(|x: Cat| x.code@)
}

/// The categories of the corpus entries, once each, in `str` order of their
/// codes, each with its description.
pub fn list(c: &Corpus) -> (r: Vec<Cat>)
    ensures
        strictly_sorted(cat_codes(r@)),
        forall|s: Seq<char>|
            #![trigger cat_codes(r@).contains(s)]
            cat_codes(r@).contains(s) <==> is_category(c@, s),
        forall|i: int| 0 <= i < r@.len() ==> (#[trigger] r@[i]).desc@ == cat_desc(r@[i].code@),
        c@.len() > 0 ==> r@.len() > 0,
{
    let codes = distinct_field_values(c, FIELD_CATEGORY, false);
    let mut out: Vec<Cat> = Vec::new();
    let mut i: usize = 0;
    while i < codes.len()
        invariant
            i <= codes@.len(),
            out@.len() == i,
            forall|k: int| 0 <= k < i ==> (#[trigger] out@[k]).code@ == codes@[k]@,
            forall|k: int| 0 <= k < i ==> (#[trigger] out@[k]).desc@ == cat_desc(out@[k].code@),
        decreases codes@.len() - i,
    {
        let code = to_string(codes[i].as_str());
        let desc = to_string(category_description(codes[i].as_str()));
        out.push(Cat { code, desc });
        i = i + 1;
    }
    proof {
        assert(cat_codes(out@) =~= string_views(codes@));
        if c@.len() > 0 {
            assert(is_category(c@, c@[0].fields[FIELD_CATEGORY as int]));
            assert(cat_codes(out@).contains(c@[0].fields[FIELD_CATEGORY as int]));
        }
    }
    out
}

/// The message for a wildcard pattern that matches no category.
pub open spec fn unknown_pattern_msg(pattern: Seq<char>) -> Seq<char> {
    "unknown category pattern '"@ + pattern + "'"@
}

/// The message for an exact code that is no category.
pub open spec fn unknown_category_msg(pattern: Seq<char>) -> Seq<char> {
    "unknown category '"@ + pattern + "' (did you mean '"@ + pattern + "*'?)"@
}

/// Resolves a category pattern. `X*` stands for every category whose code
/// starts with `X`; anything else must be a category code itself.
pub fn resolve(c: &Corpus, pattern: &str) -> (r: Result<Vec<String>, String>)
    ensures
        pattern@.len() > 0 && pattern@.last() == '*' ==> {
            let prefix = pattern@.drop_last();
            match r {
                Ok(v) => {
                    &&& v@.len() > 0
                    &&& strictly_sorted(string_views(v@))
                    &&& forall|s: Seq<char>|
                        #![trigger string_views(v@).contains(s)]
                        string_views(v@).contains(s) <==> is_category(c@, s) && prefix.is_prefix_of(s)
                },
                Err(msg) => {
                    &&& msg@ == unknown_pattern_msg(pattern@)
                    &&& forall|s: Seq<char>| is_category(c@, s) ==> !prefix.is_prefix_of(s)
                },
            }
        },
        !(pattern@.len() > 0 && pattern@.last() == '*') ==> match r {
            Ok(v) => string_views(v@) == seq![pattern@] && is_category(c@, pattern@),
            Err(msg) => msg@ == unknown_category_msg(pattern@) && !is_category(c@, pattern@),
        },
{
    let cats = list(c);
    let n = pattern.unicode_len();
    if n > 0 && pattern.get_char(n - 1) == '*' {
        let prefix = pattern.substring_char(0, n - 1);
        proof {
            assert(prefix@ =~= pattern@.drop_last());
        }
        let mut matched: Vec<String> = Vec::new();
        let ghost mut ks: Seq<int> = Seq::empty();
        let mut i: usize = 0;
        while i < cats.len()
            invariant
                strictly_sorted(cat_codes(cats@)),
                prefix@ == pattern@.drop_last(),
                i <= cats@.len(),
                ks.len() == matched@.len(),
                forall|a: int| 0 <= a < ks.len() ==> 0 <= #[trigger] ks[a] < i,
                forall|a: int, b: int| 0 <= a < b < ks.len() ==> #[trigger] ks[a] < #[trigger] ks[b],
                forall|a: int| 0 <= a < ks.len() ==> (#[trigger] matched@[a])@ == cats@[ks[a]].code@,
                forall|s: Seq<char>|
                    #![trigger string_views(matched@).contains(s)]
                    string_views(matched@).contains(s) <==> exists|k: int|
                        0 <= k < i && #[trigger] cats@[k].code@ == s && prefix@.is_prefix_of(s),
            decreases cats@.len() - i,
        {
            let ghost before = matched@;
            if str_starts_with(cats[i].code.as_str(), prefix) {
                matched.push(to_string(cats[i].code.as_str()));
                proof {
                    ks = ks.push(i as int);
                    assert(matched@[matched@.len() - 1] == matched@.last());
                }
            }
            proof {
                assert forall|s: Seq<char>| #![trigger string_views(matched@).contains(s)]
                    string_views(matched@).contains(s) <==> exists|k: int|
                        0 <= k < i + 1 && #[trigger] cats@[k].code@ == s && prefix@.is_prefix_of(s) by {
                    if string_views(matched@).contains(s) {
                        let a = choose|a: int| 0 <= a < string_views(matched@).len() && string_views(matched@)[a] == s;
                        if a < before.len() {
                            assert(string_views(before)[a] == s);
                            assert(string_views(before).contains(s));
                        }
                    }
                    if exists|k: int| 0 <= k < i + 1 && #[trigger] cats@[k].code@ == s && prefix@.is_prefix_of(s) {
                        let k = choose|k: int| 0 <= k < i + 1 && #[trigger] cats@[k].code@ == s && prefix@.is_prefix_of(s);
                        if k < i {
                            assert(string_views(before).contains(s));
                            let a = choose|a: int| 0 <= a < string_views(before).len() && string_views(before)[a] == s;
                            assert(string_views(matched@)[a] == s);
                        } else {
                            assert(string_views(matched@)[matched@.len() - 1] == s);
                        }
                    }
                }
            }
            i = i + 1;
        }
        proof {
            assert forall|a: int, b: int| 0 <= a < b < string_views(matched@).len() implies crate::text::str_lt(
                #[trigger] string_views(matched@)[a],
                #[trigger] string_views(matched@)[b],
            ) by {
                assert(ks[a] < ks[b]);
                assert(cat_codes(cats@)[ks[a]] == cats@[ks[a]].code@);
                assert(cat_codes(cats@)[ks[b]] == cats@[ks[b]].code@);
            }
            assert forall|s: Seq<char>| #![trigger string_views(matched@).contains(s)]
                string_views(matched@).contains(s) <==> is_category(c@, s) && prefix@.is_prefix_of(s) by {
                if exists|k: int| 0 <= k < i && #[trigger] cats@[k].code@ == s && prefix@.is_prefix_of(s) {
                    let k = choose|k: int| 0 <= k < i && #[trigger] cats@[k].code@ == s && prefix@.is_prefix_of(s);
                    assert(cat_codes(cats@)[k] == s);
                    assert(cat_codes(cats@).contains(s));
                }
                if is_category(c@, s) && prefix@.is_prefix_of(s) {
                    assert(cat_codes(cats@).contains(s));
                    let k = choose|k: int| 0 <= k < cat_codes(cats@).len() && cat_codes(cats@)[k] == s;
                    assert(cats@[k].code@ == s);
                }
            }
        }
        if matched.len() == 0 {
            let mut msg = to_string("unknown category pattern '");
            msg.append(pattern);
            msg.append("'");
            proof {
                assert forall|s: Seq<char>| is_category(c@, s) implies !prefix@.is_prefix_of(s) by {
                    if prefix@.is_prefix_of(s) {
                        assert(string_views(matched@).contains(s));
                    }
                }
            }
            return Err(msg);
        }
        Ok(matched)
    } else {
        proof {
            if n > 0 {
                assert(pattern@.last() == pattern@[n - 1]);
            }
        }
        let mut i: usize = 0;
        while i < cats.len()
            invariant
                i <= cats@.len(),
                !(pattern@.len() > 0 && pattern@.last() == '*'),
                forall|s: Seq<char>|
                    #![trigger cat_codes(cats@).contains(s)]
                    cat_codes(cats@).contains(s) <==> is_category(c@, s),
                forall|k: int| 0 <= k < i ==> (#[trigger] cats@[k]).code@ != pattern@,
            decreases cats@.len() - i,
        {
            if str_eq(cats[i].code.as_str(), pattern) {
                let mut v: Vec<String> = Vec::new();
                v.push(to_string(cats[i].code.as_str()));
                proof {
                    assert(string_views(v@) =~= seq![pattern@]);
                    assert(cat_codes(cats@)[i as int] == pattern@);
                    assert(cat_codes(cats@).contains(pattern@));
                }
                return Ok(v);
            }
            i = i + 1;
        }
        let mut msg = to_string("unknown category '");
        msg.append(pattern);
        msg.append("' (did you mean '");
        msg.append(pattern);
        msg.append("*'?)");
        proof {
            if is_category(c@, pattern@) {
                assert(cat_codes(cats@).contains(pattern@));
                let k = choose|k: int| 0 <= k < cat_codes(cats@).len() && cat_codes(cats@)[k] == pattern@;
                assert(cats@[k].code@ == pattern@);
            }
        }
        Err(msg)
    }
}

} // verus!
