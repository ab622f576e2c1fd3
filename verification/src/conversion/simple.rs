//! A conversion that looks up each syllable on its own.

use vstd::prelude::*;

use crate::conversion::{Composition, Interval, IntervalView, Symbol, char_to_string, intersects, intervals_view};
use crate::dictionary::{Dictionary, LookupStrategy};
use crate::zhuyin::{Syllable, bopomofo_text};

verus! {

/// Simple engine does not perform any intelligent conversion.
#[derive(Debug, Default)]
pub struct SimpleEngine;

/// Whether a selection covers the symbol at position `i`.
pub open spec fn selected(sel: Seq<IntervalView>, i: nat) -> bool {
    exists|k: int| 0 <= k < sel.len() && intersects(sel[k], i, i + 1)
}

/// The interval of the symbol at position `i`: a character as itself, a
/// syllable as the first phrase found for it, or its Bopomofo text.
pub open spec fn symbol_interval<D: Dictionary>(dict: &D, i: nat, sym: Symbol) -> IntervalView {
    match sym {
        Symbol::Char(c) => (i, i + 1, false, seq![c]),
        Symbol::Syllable(s) => {
            let found = dict.lookup_view(seq![s@], 1, LookupStrategy::Standard);
            (i, i + 1, true, if found.len() > 0 {
                found[0].0
            } else {
                bopomofo_text(s@)
            })
        },
    }
}

/// The intervals of the first `n` symbols not covered by a selection.
pub open spec fn symbol_intervals<D: Dictionary>(dict: &D, buffer: Seq<Symbol>, sel: Seq<IntervalView>, n: int) -> Seq<
    IntervalView,
>
    decreases n,
{
    if n <= 0 {
        Seq::empty()
    } else {
        symbol_intervals(dict, buffer, sel, n - 1) + if selected(sel, (n - 1) as nat) {
            Seq::empty()
        } else {
            seq![symbol_interval(dict, (n - 1) as nat, buffer[n - 1])]
        }
    }
}

/// Inserts an interval behind the last one that does not start after it.
pub open spec fn insert_by_start(s: Seq<IntervalView>, x: IntervalView) -> Seq<IntervalView>
    decreases s.len(),
{
    if s.len() == 0 {
        seq![x]
    } else if x.0 < s.last().0 {
        insert_by_start(s.drop_last(), x).push(s.last())
    } else {
        s.push(x)
    }
}

/// Intervals in stable order of their start.
pub open spec fn sort_by_start(s: Seq<IntervalView>) -> Seq<IntervalView>
    decreases s.len(),
{
    if s.len() == 0 {
        Seq::empty()
    } else {
        insert_by_start(sort_by_start(s.drop_last()), s.last())
    }
}

/// The result of the simple conversion: the intervals of the symbols not
/// covered by a selection and the selections, ordered by their start.
pub open spec fn simple_conversion<D: Dictionary>(dict: &D, comp: &Composition) -> Seq<IntervalView> {
    sort_by_start(
        symbol_intervals(dict, comp.buffer@, intervals_view(comp.selections@), comp.buffer@.len() as int)
            + intervals_view(comp.selections@),
    )
}

/// Inserts an interval as [`insert_by_start`] says.
fn insert_interval(v: &mut Vec<Interval>, x: Interval)
    ensures
        intervals_view(final(v)@) == insert_by_start(intervals_view(old(v)@), x@),
{
    let ghost s = intervals_view(v@);
    let mut j: usize = v.len();
    assert(s.take(j as int) =~= s);
    assert(s.skip(j as int) =~= Seq::<IntervalView>::empty());
    while j > 0 && x.start < v[j - 1].start
        invariant
            j <= v@.len(),
            s == intervals_view(v@),
            insert_by_start(s, x@) == insert_by_start(s.take(j as int), x@) + s.skip(j as int),
        decreases j,
    {
        proof {
            let t = s.take(j as int);
            assert(t.drop_last() =~= s.take(j - 1));
            assert(t.last() == s[j - 1]);
            assert(s.skip(j - 1) =~= seq![s[j - 1]] + s.skip(j as int));
            assert(insert_by_start(s.take(j - 1), x@).push(s[j - 1]) + s.skip(j as int)
                =~= insert_by_start(s.take(j - 1), x@) + s.skip(j - 1));
        }
        j = j - 1;
    }
    proof {
        if j > 0 {
            assert(s.take(j as int).last() == s[j - 1]);
        } else {
            assert(s.take(0) =~= Seq::<IntervalView>::empty());
        }
    }
    let ghost xv = x@;
    v.insert(j, x);
    assert(intervals_view(v@) =~= s.take(j as int).push(xv) + s.skip(j as int));
}

/// Sorts intervals as [`sort_by_start`] says.
fn sort_intervals(v: &Vec<Interval>) -> (r: Vec<Interval>)
    ensures
        intervals_view(r@) == sort_by_start(intervals_view(v@)),
{
    let ghost s = intervals_view(v@);
    let mut r: Vec<Interval> = Vec::new();
    let mut i: usize = 0;
    assert(s.take(0) =~= Seq::<IntervalView>::empty());
    while i < v.len()
        invariant
            i <= v@.len(),
            s == intervals_view(v@),
            intervals_view(r@) == sort_by_start(s.take(i as int)),
        decreases v@.len() - i,
    {
        proof {
            assert(s.take(i + 1).drop_last() =~= s.take(i as int));
            assert(s.take(i + 1).last() == v@[i as int]@);
        }
        insert_interval(&mut r, v[i].clone());
        i = i + 1;
    }
    assert(s.take(i as int) =~= s);
    r
}

impl SimpleEngine {
    /// Creates the engine.
    pub fn new() -> (e: SimpleEngine) {
        SimpleEngine
    }

    /// Converts each symbol not covered by a selection on its own and adds
    /// the selections, ordered by their start.
    pub fn convert<D: Dictionary>(&self, dict: &D, comp: &Composition) -> (r: Vec<Interval>)
        requires
            comp.buffer@.len() < usize::MAX,
        ensures
            intervals_view(r@) == simple_conversion(dict, comp),
    {
        let ghost sel = intervals_view(comp.selections@);
        let ghost buf = comp.buffer@;
        let mut intervals: Vec<Interval> = Vec::new();
        let mut i: usize = 0;
        while i < comp.buffer.len()
            invariant
                i <= buf.len(),
                buf == comp.buffer@,
                buf.len() < usize::MAX,
                sel == intervals_view(comp.selections@),
                intervals_view(intervals@) == symbol_intervals(dict, buf, sel, i as int),
            decreases buf.len() - i,
        {
            let mut covered = false;
            let mut k: usize = 0;
            while k < comp.selections.len()
                invariant
                    k <= sel.len(),
                    sel == intervals_view(comp.selections@),
                    i < usize::MAX,
                    covered == exists|m: int| 0 <= m < k && intersects(sel[m], i as nat, i as nat + 1),
                decreases sel.len() - k,
            {
                if comp.selections[k].intersect_range(i, i + 1) {
                    covered = true;
                }
                proof {
                    if covered {
                        if !(exists|m: int| 0 <= m < k && intersects(sel[m], i as nat, i as nat + 1)) {
                            assert(intersects(sel[k as int], i as nat, i as nat + 1));
                        }
                    }
                }
                k = k + 1;
            }
            if !covered {
                let sym = comp.buffer[i];
                let it = match sym {
                    Symbol::Char(c) => Interval { start: i, end: i + 1, is_phrase: false, phrase: char_to_string(c) },
                    Symbol::Syllable(s) => {
                        let one = [s];
                        assert(crate::dictionary::trie::syllables_view(one@) =~= seq![s@]);
                        let text = match dict.lookup_first_phrase(&one, LookupStrategy::Standard) {
                            Some(p) => p.phrase,
                            None => s.to_string(),
                        };
                        Interval { start: i, end: i + 1, is_phrase: true, phrase: text }
                    },
                };
                let ghost before = intervals_view(intervals@);
                let ghost iv = it@;
                intervals.push(it);
                assert(iv == symbol_interval(dict, i as nat, buf[i as int]));
                assert(intervals_view(intervals@) =~= before.push(iv));
                assert(symbol_intervals(dict, buf, sel, i + 1) == symbol_intervals(dict, buf, sel, i as int) + seq![iv]);
            } else {
                assert(symbol_intervals(dict, buf, sel, i + 1) =~= symbol_intervals(dict, buf, sel, i as int));
            }
            i = i + 1;
        }
        let ghost pieces = intervals_view(intervals@);
        let mut k: usize = 0;
        while k < comp.selections.len()
            invariant
                k <= sel.len(),
                sel == intervals_view(comp.selections@),
                intervals_view(intervals@) == pieces + sel.take(k as int),
            decreases sel.len() - k,
        {
            let ghost before = intervals_view(intervals@);
            intervals.push(comp.selections[k].clone());
            assert(intervals_view(intervals@) =~= before.push(sel[k as int]));
            assert(sel.take(k + 1) =~= sel.take(k as int).push(sel[k as int]));
            assert(intervals_view(intervals@) =~= pieces + sel.take(k + 1));
            k = k + 1;
        }
        assert(sel.take(k as int) =~= sel);
        sort_intervals(&intervals)
    }
}

/// A conversion of a composition into alternative sequences of intervals,
/// the preferred one first.
pub trait ConversionEngine<D: Dictionary> {
    /// The alternatives the engine gives for a composition.
    spec fn conversions(&self, dict: &D, comp: &Composition) -> Seq<Seq<IntervalView>>;

    /// Converts the composition.
    fn convert_all(&self, dict: &D, comp: &Composition) -> (r: Vec<Vec<Interval>>)
        ensures
            r@.len() == self.conversions(dict, comp).len(),
            forall|i: int| 0 <= i < r@.len() ==> intervals_view(#[trigger] r@[i]@) == self.conversions(dict, comp)[i],
    ;
}

impl<D: Dictionary> ConversionEngine<D> for SimpleEngine {
    open spec fn conversions(&self, dict: &D, comp: &Composition) -> Seq<Seq<IntervalView>> {
        if comp.buffer@.len() < usize::MAX {
            seq![simple_conversion(dict, comp)]
        } else {
            seq![Seq::empty()]
        }
    }

    fn convert_all(&self, dict: &D, comp: &Composition) -> (r: Vec<Vec<Interval>>) {
        let mut r: Vec<Vec<Interval>> = Vec::new();
        if comp.buffer.len() < usize::MAX {
            r.push(self.convert(dict, comp));
        } else {
            r.push(Vec::new());
            assert(intervals_view(r@[0]@) =~= Seq::<IntervalView>::empty());
        }
        r
    }
}

} // verus!
