//! Conversion of a composition of syllables and characters into phrases.

use vstd::prelude::*;

use crate::zhuyin::Syllable;

pub mod simple;
pub mod chewing;
pub mod kpaths;

verus! {

/// A converted range `start..end` of the composition with its text.
#[derive(Debug, PartialEq, Eq)]
pub struct Interval {
    /// The first symbol of the range.
    pub start: usize,
    /// The end of the range (exclusive).
    pub end: usize,
    /// Whether the text is a phrase, not a character entered directly.
    pub is_phrase: bool,
    /// The text of the range.
    pub phrase: String,
}

/// The abstract value of an interval.
pub type IntervalView = (nat, nat, bool, Seq<char>);

impl View for Interval {
    type V = IntervalView;

    open spec fn view(&self) -> IntervalView {
        (self.start as nat, self.end as nat, self.is_phrase, self.phrase@)
    }
}

/// The views of a sequence of intervals.
pub open spec fn intervals_view(s: Seq<Interval>) -> Seq<IntervalView> {
    s.map_values(|i: Interval| i@)
}

impl Clone for Interval {
    fn clone(&self) -> (r: Interval)
        ensures
            r@ == self@,
    {
        Interval { start: self.start, end: self.end, is_phrase: self.is_phrase, phrase: self.phrase.clone() }
    }
}

impl Interval {
    /// Whether this interval covers `other`.
    pub fn contains(&self, other: &Interval) -> (b: bool)
        ensures
            b == (self.start <= other.start && self.end >= other.end),
    {
        self.start <= other.start && self.end >= other.end
    }

    /// The number of symbols in the interval.
    pub fn len(&self) -> (n: usize)
        requires
            self.start <= self.end,
        ensures
            n == self.end - self.start,
    {
        self.end - self.start
    }

    /// Whether the interval has no symbols.
    pub fn is_empty(&self) -> (b: bool)
        requires
            self.start <= self.end,
        ensures
            b == (self.start == self.end),
    {
        self.len() == 0
    }

    /// Whether the interval shares a symbol with the range `start..end`.
    pub fn intersect_range(&self, start: usize, end: usize) -> (b: bool)
        ensures
            b == intersects(self@, start as nat, end as nat),
    {
        let lo = if self.start > start {
            self.start
        } else {
            start
        };
        let hi = if self.end < end {
            self.end
        } else {
            end
        };
        lo < hi
    }

    /// Whether the interval lies inside the range `start..end`.
    pub fn is_contained_by(&self, start: usize, end: usize) -> (b: bool)
        ensures
            b == (start <= self.start && self.end <= end),
    {
        start <= self.start && self.end <= end
    }
}

/// Whether an interval shares a symbol with the range `start..end`.
pub open spec fn intersects(i: IntervalView, start: nat, end: nat) -> bool {
    (if i.0 > start {
        i.0
    } else {
        start
    }) < (if i.1 < end {
        i.1
    } else {
        end
    })
}

/// A position where phrases must not join.
#[derive(Debug, Clone, Copy, PartialEq, Eq, Structural)]
pub struct Break(pub usize);

/// A position where phrases are joined.
#[derive(Debug, Clone, Copy, PartialEq, Eq, Structural)]
pub struct Glue(pub usize);

/// A smallest unit of input in the pre-edit buffer.
#[derive(Debug, Clone, Copy, PartialEq, Eq, Structural)]
pub enum Symbol {
    /// Chinese syllable
    Syllable(Syllable),
    /// Any direct character
    Char(char),
}

impl Symbol {
    /// Whether the symbol is a syllable.
    pub fn is_syllable(&self) -> (b: bool)
        ensures
            b == (*self is Syllable),
    {
        match self {
            Symbol::Syllable(_) => true,
            Symbol::Char(_) => false,
        }
    }

    /// The syllable of a syllable symbol.
    pub fn as_syllable(&self) -> (s: Syllable)
        requires
            *self is Syllable,
        ensures
            *self == Symbol::Syllable(s),
    {
        match self {
            Symbol::Syllable(syllable) => *syllable,
            Symbol::Char(_) => Syllable::empty(),
        }
    }

    /// Whether the symbol is a character.
    pub fn is_char(&self) -> (b: bool)
        ensures
            b == (*self is Char),
    {
        match self {
            Symbol::Syllable(_) => false,
            Symbol::Char(_) => true,
        }
    }

    /// The character of a character symbol.
    pub fn as_char(&self) -> (c: char)
        requires
            *self is Char,
        ensures
            *self == Symbol::Char(c),
    {
        match self {
            Symbol::Syllable(_) => ' ',
            Symbol::Char(c) => *c,
        }
    }
}

/// The symbols of the pre-edit buffer with the user's selections, breaks
/// and glues.
#[derive(Debug)]
pub struct Composition {
    /// The symbols.
    pub buffer: Vec<Symbol>,
    /// The ranges whose phrase the user selected.
    pub selections: Vec<Interval>,
    /// The positions where phrases must not join.
    pub breaks: Vec<Break>,
    /// The positions where phrases are joined.
    pub glues: Vec<Glue>,
}

/// Whether the composition has a break at position `i`.
pub open spec fn has_break(c: &Composition, i: nat) -> bool {
    exists|k: int| 0 <= k < c.breaks@.len() && c.breaks@[k].0 == i
}

/// Whether the composition has a glue at position `i`.
pub open spec fn has_glue(c: &Composition, i: nat) -> bool {
    exists|k: int| 0 <= k < c.glues@.len() && c.glues@[k].0 == i
}

impl Composition {
    /// An empty composition.
    pub fn new() -> (c: Composition)
        ensures
            c.buffer@.len() == 0,
            c.selections@.len() == 0,
            c.breaks@.len() == 0,
            c.glues@.len() == 0,
    {
        Composition { buffer: Vec::new(), selections: Vec::new(), breaks: Vec::new(), glues: Vec::new() }
    }

    /// Appends a symbol.
    pub fn push(&mut self, sym: Symbol)
        ensures
            final(self).buffer@ == old(self).buffer@.push(sym),
            final(self).selections@ == old(self).selections@,
            final(self).breaks@ == old(self).breaks@,
            final(self).glues@ == old(self).glues@,
    {
        self.buffer.push(sym);
    }

    /// The number of symbols.
    pub fn len(&self) -> (n: usize)
        ensures
            n == self.buffer@.len(),
    {
        self.buffer.len()
    }

    /// Whether there are no symbols.
    pub fn is_empty(&self) -> (b: bool)
        ensures
            b == (self.buffer@.len() == 0),
    {
        self.buffer.len() == 0
    }

    /// Whether there is a break at position `i`.
    pub fn break_at(&self, i: usize) -> (b: bool)
        ensures
            b == has_break(self, i as nat),
    {
        let mut k: usize = 0;
        while k < self.breaks.len()
            invariant
                k <= self.breaks@.len(),
                forall|j: int| 0 <= j < k ==> self.breaks@[j].0 != i,
            decreases self.breaks@.len() - k,
        {
            if self.breaks[k].0 == i {
                return true;
            }
            k = k + 1;
        }
        false
    }

    /// Whether there is a glue at position `i`.
    pub fn glue_at(&self, i: usize) -> (b: bool)
        ensures
            b == has_glue(self, i as nat),
    {
        let mut k: usize = 0;
        while k < self.glues.len()
            invariant
                k <= self.glues@.len(),
                forall|j: int| 0 <= j < k ==> self.glues@[j].0 != i,
            decreases self.glues@.len() - k,
        {
            if self.glues[k].0 == i {
                return true;
            }
            k = k + 1;
        }
        false
    }
}

/// The one-character string of a character, by `char::to_string`. Claims
/// what the standard library documents: the string holds just that
/// character.
#[verifier::external_body]
pub(crate) fn char_to_string(c: char) -> (s: String)
    ensures
        s@ == seq![c],
{
    c.to_string()
}

} // verus!
