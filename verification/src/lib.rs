//! Unicode glyph lookup: a compact codepoint corpus, Unicode blocks,
//! general categories, pick-frequency ("frecency") records and fuzzy name
//! search, all with machine-checked contracts.

pub mod block;
pub mod category;
pub mod corpus;
pub mod filter;
pub mod frecency;
pub mod output;
pub mod search;
pub mod sort;
pub mod table;
pub mod text;

use vstd::prelude::*;

verus! {

/// How search results are ordered.
#[derive(Clone, Copy, Debug, PartialEq, Eq, Structural)]
pub enum Sort {
    Relevance,
    Name,
    Codepoint,
}

/// The order a sort name selects: `relevance` (or `score`), `name` or
/// `codepoint`; `None` for any other name.
pub fn parse_sort(s: &str) -> (r: Option<Sort>)
    ensures
        r == if s@ == "relevance"@ || s@ == "score"@ {
            Some(Sort::Relevance)
        } else if s@ == "name"@ {
            Some(Sort::Name)
        } else if s@ == "codepoint"@ {
            Some(Sort::Codepoint)
        } else {
            None::<Sort>
        },
{
    if text::str_eq(s, "relevance") || text::str_eq(s, "score") {
        Some(Sort::Relevance)
    } else if text::str_eq(s, "name") {
        Some(Sort::Name)
    } else if text::str_eq(s, "codepoint") {
        Some(Sort::Codepoint)
    } else {
        None
    }
}

} // verus!
