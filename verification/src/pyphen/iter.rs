//! Iterator over all hyphenation possibilities of one word, longest first
//! part first.

use vstd::prelude::*;

use crate::data_int::{di_views, DataInt, DataIntV};
use crate::pyphen::{make_pair, spec_pair};

verus! {

/// Iterator over all hyphenation possibilities.  Break points are visited
/// from the largest offset to the smallest, so the candidate with the longest
/// first part comes first.
pub struct Iter {
    word: Vec<char>,
    is_upper: bool,
    positions: Vec<DataInt>,
    k: usize,
}

impl Iter {
    #[verifier::type_invariant]
    closed spec fn inv(&self) -> bool {
        &&& self.k <= self.positions@.len()
        &&& forall|t: int|
            0 <= t < self.positions@.len() ==> (#[trigger] self.positions@[t])@.value
                <= self.word@.len()
    }

    /// The word being hyphenated.
    pub closed spec fn word_v(&self) -> Seq<char> {
        self.word@
    }

    /// Whether the word was all upper case.
    pub closed spec fn upper_v(&self) -> bool {
        self.is_upper
    }

    /// The break points not yet visited, in ascending order; the last one is
    /// visited next.
    pub closed spec fn remaining(&self) -> Seq<DataIntV> {
        di_views(self.positions@).take(self.k as int)
    }

    pub(crate) fn make(word: Vec<char>, is_upper: bool, positions: Vec<DataInt>) -> (r: Iter)
        requires
            forall|t: int|
                0 <= t < positions@.len() ==> (#[trigger] positions@[t])@.value <= word@.len(),
        ensures
            r.word_v() == word@,
            r.upper_v() == is_upper,
            r.remaining() == di_views(positions@),
    {
        let k = positions.len();
        let r = Iter { word, is_upper, positions, k };
        proof {
            assert(r.remaining() =~= di_views(r.positions@));
        }
        r
    }

    /// The next hyphenation candidate: the prefix and suffix of the word at
    /// the largest unvisited break point, or nothing when all are visited.
    pub fn next(&mut self) -> (r: Option<(String, String)>)
        ensures
            old(self).remaining().len() == 0 ==> r is None && final(self).remaining() == old(
                self,
            ).remaining(),
            old(self).remaining().len() > 0 ==> (
            {
                let pr = spec_pair(
                    old(self).word_v(),
                    old(self).remaining().last(),
                    old(self).upper_v(),
                );
                &&& r matches Some(p)
                &&& (r->Some_0.0@, r->Some_0.1@) == pr
                &&& final(self).remaining() == old(self).remaining().drop_last()
            }),
            final(self).word_v() == old(self).word_v(),
            final(self).upper_v() == old(self).upper_v(),
    {
        proof {
            use_type_invariant(&*self);
        }
        if self.k == 0 {
            return None;
        }
        self.k = self.k - 1;
        let pair = make_pair(&self.word, &self.positions[self.k], self.is_upper);
        proof {
            assert(old(self).remaining().last() == self.positions@[self.k as int]@);
            assert(final(self).remaining() =~= old(self).remaining().drop_last());
        }
        Some(pair)
    }
}

} // verus!
