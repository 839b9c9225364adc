//! A break weight with optional nonstandard-hyphenation metadata attached.

use vstd::prelude::*;

verus! {

/// A nonstandard-hyphenation rule: a two-part substitution text of the shape
/// `"left=right"`, an index offset relative to the break position (negative
/// means counted from the end of the word), and how many characters of the
/// original word the substitution deletes.
pub struct Rule {
    pub change: String,
    pub index: isize,
    pub cut: usize,
}

/// The mathematical value of a [`Rule`].
#[verifier::ext_equal]
pub ghost struct RuleV {
    pub change: Seq<char>,
    pub index: int,
    pub cut: nat,
}

impl View for Rule {
    type V = RuleV;

    open spec fn view(&self) -> RuleV {
        RuleV { change: self.change@, index: self.index as int, cut: self.cut as nat }
    }
}

/// An unsigned break weight together with optional rule metadata.  Only the
/// weight's parity decides whether a position is a valid break; the rule, when
/// present, says how the word text is rewritten at that break.
pub struct DataInt {
    pub value: usize,
    pub data: Option<Rule>,
}

/// The mathematical value of a [`DataInt`].
#[verifier::ext_equal]
pub ghost struct DataIntV {
    pub value: nat,
    pub data: Option<RuleV>,
}

impl View for DataInt {
    type V = DataIntV;

    open spec fn view(&self) -> DataIntV {
        DataIntV {
            value: self.value as nat,
            data: match self.data {
                Some(r) => Some(r@),
                None => None,
            },
        }
    }
}

/// The views of a sequence of weights.
pub open spec fn di_views(s: Seq<DataInt>) -> Seq<DataIntV> {
    s.map_values(|d: DataInt| d@)
}

impl DataInt {
    /// Create a new `DataInt`.
    pub fn new(value: usize, data: Option<Rule>) -> (r: Self)
        ensures
            r.value == value,
            r.data == data,
    {
        Self { value, data }
    }

    /// Create a new `DataInt` using the rule metadata of another one.
    pub fn with_ref(value: usize, reference: &DataInt) -> (r: Self)
        ensures
            r@.value == value as nat,
            r@.data == reference@.data,
    {
        let data = match &reference.data {
            Some(rule) => Some(
                Rule { change: rule.change.clone(), index: rule.index, cut: rule.cut },
            ),
            None => None,
        };
        Self { value, data }
    }
}

} // verus!
