//! Builder for a hyphenation instance: which dictionary to use, the minimum
//! syllable lengths, and whether a cached compiled table may be reused.

use vstd::prelude::*;

use crate::hyph_dict::{spec_compile, CompileError, HyphDict, HyphDictV};
use crate::pyphen::Pyphen;

verus! {

/// Builder struct to create a hyphenation instance.  The name names either a
/// language tag or a dictionary file; resolving it to dictionary text is the
/// caller's part, and [`Builder::build`] compiles that text.
pub struct Builder {
    /// The language tag or file name the dictionary comes from.
    pub name: String,
    /// Whether `name` is a language tag (else it is a file name).
    pub by_lang: bool,
    /// Minimum number of characters in the first syllable.
    pub left: usize,
    /// Minimum number of characters in the last syllable.
    pub right: usize,
    /// Whether a cached compiled table may be reused for the same source.
    pub cache: bool,
}

impl Builder {
    /// Constructs a new Builder for a given language.
    pub fn lang(lang: &str) -> (r: Builder)
        ensures
            r.name@ == lang@,
            r.by_lang == true,
            r.left == 2usize,
            r.right == 2usize,
            r.cache == true,
    {
        Builder { name: String::from_str(lang), by_lang: true, left: 2, right: 2, cache: true }
    }

    /// Constructs a new Builder for a given dictionary file.
    pub fn filename(filename: &str) -> (r: Builder)
        ensures
            r.name@ == filename@,
            r.by_lang == false,
            r.left == 2usize,
            r.right == 2usize,
            r.cache == true,
    {
        Builder { name: String::from_str(filename), by_lang: false, left: 2, right: 2, cache: true }
    }

    /// Sets the minimum number of characters in the first syllable.
    pub fn left(self, left: usize) -> (r: Builder)
        ensures
            r.left == left,
            r.right == self.right,
            r.cache == self.cache,
            r.by_lang == self.by_lang,
            r.name == self.name,
    {
        Builder { left, ..self }
    }

    /// Sets the minimum number of characters in the last syllable.
    pub fn right(self, right: usize) -> (r: Builder)
        ensures
            r.right == right,
            r.left == self.left,
            r.cache == self.cache,
            r.by_lang == self.by_lang,
            r.name == self.name,
    {
        Builder { right, ..self }
    }

    /// Sets whether a cached compiled table may be reused.
    pub fn cache(self, cache: bool) -> (r: Builder)
        ensures
            r.cache == cache,
            r.left == self.left,
            r.right == self.right,
            r.by_lang == self.by_lang,
            r.name == self.name,
    {
        Builder { cache, ..self }
    }

    /// Create a hyphenation instance from dictionary text, with this builder's
    /// syllable bounds.  Fails exactly when the text fails to compile, with
    /// the index of the first malformed line.
    pub fn build(&self, dictionary: &str) -> (r: Result<Pyphen, CompileError>)
        ensures
            r is Ok <==> spec_compile(dictionary@) is Ok,
            r matches Ok(p) ==> p@.left == self.left as nat && p@.right == self.right as nat
                && spec_compile(dictionary@) == Result::<HyphDictV, int>::Ok(p@.dict),
            r matches Err(e) ==> spec_compile(dictionary@) == Result::<HyphDictV, int>::Err(
                e.line as int,
            ),
    {
        match HyphDict::new(dictionary) {
            Ok(hd) => Ok(Pyphen::new(hd, self.left, self.right)),
            Err(e) => Err(e),
        }
    }
}

} // verus!
