//! Patterns over characters: the regular models behind the pattern facet.

use crate::automaton::{accepts, read, Label, Model};
use vstd::prelude::*;

verus! {

/// The characters from `low` to `high`, both included.
pub struct CharRange {
    pub low: char,
    pub high: char,
}

/// A set of characters: those of the ranges or, negated, all the others.
pub struct CharClass {
    pub ranges: Vec<CharRange>,
    pub negated: bool,
}

impl CharClass {
    /// The one character.
    pub fn single(c: char) -> (class: CharClass)
        ensures
            forall|x: char| class.admits(&x) == (x == c),
    {
        let class = CharClass { ranges: vec![CharRange { low: c, high: c }], negated: false };
        assert forall|x: char| class.admits(&x) == (x == c) by {
            if x == c {
                assert(class.ranges@[0].low <= x && x <= class.ranges@[0].high);
            }
        }
        class
    }

    /// The characters from `low` to `high`.
    pub fn range(low: char, high: char) -> (class: CharClass)
        ensures
            forall|x: char| class.admits(&x) == (low <= x && x <= high),
    {
        let class = CharClass { ranges: vec![CharRange { low, high }], negated: false };
        assert forall|x: char| class.admits(&x) == (low <= x && x <= high) by {
            if low <= x && x <= high {
                assert(class.ranges@[0].low <= x && x <= class.ranges@[0].high);
            }
        }
        class
    }

    /// Every character.
    pub fn any() -> (class: CharClass)
        ensures
            forall|x: char| class.admits(&x),
    {
        CharClass { ranges: Vec::new(), negated: true }
    }

    /// Some range holds the character.
    pub open spec fn covers(&self, c: char) -> bool {
        exists|k: int|
            0 <= k < self.ranges@.len() && (#[trigger] self.ranges@[k]).low <= c && c <= self.ranges@[k].high
    }
}

impl Label for CharClass {
    type Item = char;

    open spec fn admits(&self, item: &char) -> bool {
        self.covers(*item) != self.negated
    }

    fn test(&self, item: &char) -> (b: bool) {
        let c = *item;
        let mut k: usize = 0;
        while k < self.ranges.len()
            invariant
                k <= self.ranges.len(),
                c == *item,
                forall|t: int| 0 <= t < k ==> !((#[trigger] self.ranges@[t]).low <= c && c <= self.ranges@[t].high),
            decreases self.ranges.len() - k,
        {
            if self.ranges[k].low <= c && c <= self.ranges[k].high {
                return !self.negated;
            }
            k += 1;
        }
        self.negated
    }
}

/// A regular expression over characters.
pub type Pattern = Model<CharClass>;

/// The whole value is in the pattern's language.
pub fn conforms(p: &Pattern, value: &Vec<char>) -> (b: bool)
    requires
        value@.len() < usize::MAX,
    ensures
        b == accepts(*p, value@),
{
    read(p, value).accepted
}

} // verus!
