//! A word-hyphenation engine in the style of Liang's algorithm.
//!
//! A dictionary of weighted patterns is compiled into a lookup table; a word
//! is scanned against that table to obtain per-position break weights, and the
//! odd-weighted positions become hyphenation points.  Nonstandard points carry
//! a substitution rule that rewrites nearby letters when the hyphen goes in.

use vstd::prelude::*;

mod alternative_parser;
mod chars;
mod data_int;
mod hyph_dict;
mod pyphen;

pub use alternative_parser::AlternativeParser;
pub use data_int::{DataInt, DataIntV, Rule, RuleV};
pub use hyph_dict::{CompileError, HyphDict};
pub use pyphen::{builder::Builder, iter::Iter, Pyphen};

verus! {

/// A language tag with every `-` turned into `_`.
pub open spec fn normalized_tag(language: Seq<char>) -> Seq<char> {
    language.map_values(|c: char| if c == '-' { '_' } else { c })
}

/// The first `k` parts joined with `_` between them.
pub open spec fn joined_parts(parts: Seq<Seq<char>>, k: int) -> Seq<char>
    decreases k,
{
    if k <= 0 {
        Seq::empty()
    } else if k == 1 {
        parts[0]
    } else {
        joined_parts(parts, k - 1) + seq!['_'] + parts[k - 1]
    }
}

/// Whether a candidate tag is among the available ones.
pub open spec fn tag_available(available: Seq<String>, cand: Seq<char>) -> bool {
    exists|i: int| 0 <= i < available.len() && available[i]@ == cand
}

/// The longest available truncation: parts are dropped from the right until a
/// join of what is left is available.
pub open spec fn fallback_from(parts: Seq<Seq<char>>, k: int, available: Seq<String>) -> Option<
    Seq<char>,
>
    decreases k,
{
    if k <= 0 {
        Option::None
    } else if tag_available(available, joined_parts(parts, k)) {
        Option::Some(joined_parts(parts, k))
    } else {
        fallback_from(parts, k - 1, available)
    }
}

/// The fallback of a language tag against a set of available tags, by
/// truncation inheritance: normalize `-` to `_`, then drop `_`-separated
/// parts from the right until an available tag is reached.
pub open spec fn spec_language_fallback(language: Seq<char>, available: Seq<String>) -> Option<
    Seq<char>,
> {
    let parts = chars::split_seq(normalized_tag(language), '_');
    fallback_from(parts, parts.len() as int, available)
}

/// Get a fallback language among the available ones, by normal truncation
/// inheritance.  Answers nothing when no truncation of the tag is available.
pub fn language_fallback(language: &str, available: &Vec<String>) -> (r: Option<String>)
    ensures
        match r {
            Option::Some(s) => spec_language_fallback(language@, available@) == Option::Some(s@),
            Option::None => spec_language_fallback(language@, available@) is None,
        },
{
    let lchars = chars::str_to_chars(language);
    let mut norm: Vec<char> = Vec::new();
    let mut i: usize = 0;
    while i < lchars.len()
        invariant
            i <= lchars@.len(),
            lchars@ == language@,
            norm@.len() == i,
            forall|u: int|
                0 <= u < i ==> norm@[u] == (if language@[u] == '-' {
                    '_'
                } else {
                    language@[u]
                }),
        decreases lchars@.len() - i,
    {
        if lchars[i] == '-' {
            norm.push('_');
        } else {
            norm.push(lchars[i]);
        }
        i = i + 1;
    }
    proof {
        assert(norm@ =~= normalized_tag(language@));
    }
    let parts = chars::split_chars(&norm, '_');
    let ghost pviews = chars::piece_views(parts@);
    let mut k = parts.len();
    proof {
        assert(parts@.len() == pviews.len());
    }
    while k > 0
        invariant
            k <= parts@.len(),
            pviews == chars::piece_views(parts@),
            pviews == chars::split_seq(normalized_tag(language@), '_'),
            fallback_from(pviews, k as int, available@) == spec_language_fallback(
                language@,
                available@,
            ),
        decreases k,
    {
        // build the join of the first k parts
        let mut cand: Vec<char> = chars::sub_chars(&parts[0], 0, parts[0].len());
        proof {
            assert(cand@ =~= pviews[0]);
            assert(cand@ =~= joined_parts(pviews, 1));
        }
        let mut u: usize = 1;
        while u < k
            invariant
                1 <= u <= k <= parts@.len(),
                pviews == chars::piece_views(parts@),
                cand@ == joined_parts(pviews, u as int),
            decreases k - u,
        {
            cand.push('_');
            let piece = &parts[u];
            chars::push_all(&mut cand, piece);
            proof {
                assert(piece@ == pviews[u as int]);
                assert(cand@ =~= joined_parts(pviews, u as int) + seq!['_'] + pviews[u as int]);
            }
            u = u + 1;
        }
        // is it available?
        let mut t: usize = 0;
        while t < available.len()
            invariant
                t <= available@.len(),
                1 <= k,
                cand@ == joined_parts(pviews, k as int),
                fallback_from(pviews, k as int, available@) == spec_language_fallback(
                    language@,
                    available@,
                ),
                forall|w: int| 0 <= w < t ==> (#[trigger] available@[w])@ != cand@,
            decreases available@.len() - t,
        {
            let av = chars::str_to_chars(available[t].as_str());
            if chars::chars_equal(&av, &cand) {
                proof {
                    assert(available@[t as int]@ == cand@);
                    assert(tag_available(available@, joined_parts(pviews, k as int)));
                }
                return Some(chars::chars_to_string(&cand));
            }
            t = t + 1;
        }
        proof {
            assert(!tag_available(available@, joined_parts(pviews, k as int)));
        }
        k = k - 1;
    }
    None
}

} // verus!
