//! Parser of the nonstandard-hyphenation suffix a dictionary line may carry.
//!
//! The suffix has three comma-separated fields: a substitution text, a signed
//! index and an unsigned cut length.  While the base pattern is tokenized the
//! parser is called once per digit slot; it counts the slots down, and on an
//! odd digit it attaches the rule, tagged with the current countdown value.

use vstd::prelude::*;

use crate::chars;
use crate::data_int::{DataInt, Rule, RuleV};

verus! {

/// Parser of a nonstandard hyphenation pattern alternative.
pub struct AlternativeParser {
    change: String,
    index: isize,
    cut: usize,
}

/// The mathematical state of an [`AlternativeParser`].
#[verifier::ext_equal]
pub ghost struct AlternativeParserV {
    pub change: Seq<char>,
    pub index: int,
    pub cut: nat,
}

impl View for AlternativeParser {
    type V = AlternativeParserV;

    closed spec fn view(&self) -> AlternativeParserV {
        AlternativeParserV {
            change: self.change@,
            index: self.index as int,
            cut: self.cut as nat,
        }
    }
}

/// Whether an alternative suffix is well formed against its base pattern:
/// at least three comma-separated fields, a signed index, an unsigned cut,
/// and room to shift the index when the pattern anchors to the word start.
pub open spec fn alt_ok(pattern: Seq<char>, alt: Seq<char>) -> bool {
    let fs = chars::split_seq(alt, ',');
    &&& fs.len() >= 3
    &&& chars::parse_isize_ok(fs[1])
    &&& chars::parse_usize_ok(fs[2])
    &&& (pattern.len() > 0 && pattern[0] == '.' ==> chars::parse_isize_val(fs[1]) + 1
        <= isize::MAX as int)
}

/// The parser state a well-formed suffix produces: the index is shifted up by
/// one when the base pattern starts with the leading boundary marker.
pub open spec fn alt_parser_v(pattern: Seq<char>, alt: Seq<char>) -> AlternativeParserV {
    let fs = chars::split_seq(alt, ',');
    AlternativeParserV {
        change: fs[0],
        index: chars::parse_isize_val(fs[1]) + if pattern.len() > 0 && pattern[0] == '.' {
            1int
        } else {
            0int
        },
        cut: chars::digits_val(fs[2]),
    }
}

/// One countdown step, stopped at the smallest machine value.
pub open spec fn count_down(i: int) -> int {
    if i > isize::MIN as int {
        i - 1
    } else {
        isize::MIN as int
    }
}

impl AlternativeParser {
    /// The parser's countdown is a machine integer.
    pub proof fn lemma_index_in_range(&self)
        ensures
            isize::MIN as int <= self@.index <= isize::MAX as int,
    {
    }

    /// Parse an alternative suffix against its base pattern.  Answers nothing
    /// exactly when the suffix is malformed: fewer than three fields, or a
    /// numeric field that is not a machine-range decimal number.
    pub fn new(pattern: &Vec<char>, alternative: &Vec<char>) -> (r: Option<Self>)
        ensures
            r is Some <==> alt_ok(pattern@, alternative@),
            r matches Some(ap) ==> ap@ == alt_parser_v(pattern@, alternative@),
    {
        let fields = chars::split_chars(alternative, ',');
        proof {
            assert(fields@.len() == chars::split_seq(alternative@, ',').len());
        }
        if fields.len() < 3 {
            return None;
        }
        proof {
            assert(fields@[1]@ == chars::piece_views(fields@)[1]);
            assert(fields@[2]@ == chars::piece_views(fields@)[2]);
            assert(fields@[0]@ == chars::piece_views(fields@)[0]);
        }
        let index0 = match chars::parse_isize_chars(&fields[1]) {
            Some(i) => i,
            None => {
                return None;
            },
        };
        let cut = match chars::parse_usize_chars(&fields[2]) {
            Some(c) => c,
            None => {
                return None;
            },
        };
        let mut index = index0;
        if pattern.len() > 0 && pattern[0] == '.' {
            if index == isize::MAX {
                return None;
            }
            index = index + 1;
        }
        let change = chars::chars_to_string(&fields[0]);
        Some(AlternativeParser { change, index, cut })
    }

    /// Consume one digit slot.  The countdown drops by one on every call; on
    /// an odd digit the returned weight carries the rule, tagged with the
    /// countdown value after the drop.
    pub fn call(&mut self, value: &DataInt) -> (r: DataInt)
        ensures
            final(self)@.change == old(self)@.change,
            final(self)@.cut == old(self)@.cut,
            final(self)@.index == count_down(old(self)@.index),
            r@.value == value@.value,
            r@.data == (if value@.value % 2 == 1 {
                Some(
                    RuleV {
                        change: old(self)@.change,
                        index: count_down(old(self)@.index),
                        cut: old(self)@.cut,
                    },
                )
            } else {
                Option::<RuleV>::None
            }),
    {
        if self.index > isize::MIN {
            self.index = self.index - 1;
        }
        if value.value % 2 != 0 {
            DataInt {
                value: value.value,
                data: Some(
                    Rule { change: self.change.clone(), index: self.index, cut: self.cut },
                ),
            }
        } else {
            DataInt { value: value.value, data: None }
        }
    }
}

} // verus!
