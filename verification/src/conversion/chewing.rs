//! The phrase search of the Chewing conversion: candidate phrases for each
//! range of the composition, and the joining and trimming of paths.
//!
//! Candidates are ranked by a score that orders them as their log
//! probabilities do: a dictionary phrase scores its frequency, a character
//! or a phrase forced by a selection scores `GLOBAL_TOTAL`, the frequency
//! whose probability is one.

use vstd::prelude::*;

use crate::conversion::{Composition, Interval, IntervalView, Symbol, char_to_string, has_break, has_glue, intersects, intervals_view};
use crate::dictionary::trie::syllables_view;
use crate::dictionary::{Dictionary, LookupStrategy, Phrase, PhraseView};
use crate::zhuyin::Syllable;
use vstd::string::StringExecFns;
use vstd::string::StrSliceExecFns;

verus! {

/// The frequency whose probability is one.
pub const GLOBAL_TOTAL: u64 = 1_000_000_000;

/// The most candidates kept for a range.
pub const MAX_PHRASES: usize = 10;

/// The default Chewing conversion method.
#[derive(Debug)]
pub struct ChewingEngine {
    /// The strategy of dictionary lookups.
    pub lookup_strategy: LookupStrategy,
}

/// Same conversion method as Chewing but uses fuzzy phrase search.
#[derive(Debug)]
pub struct FuzzyChewingEngine {
    /// The engine with fuzzy lookups.
    pub inner: ChewingEngine,
}

impl FuzzyChewingEngine {
    /// Creates a new conversion engine.
    pub fn new() -> (e: FuzzyChewingEngine)
        ensures
            e.inner.lookup_strategy == LookupStrategy::FuzzyPartialPrefix,
    {
        FuzzyChewingEngine { inner: ChewingEngine { lookup_strategy: LookupStrategy::FuzzyPartialPrefix } }
    }
}

/// A candidate for a range: a character entered directly, or a phrase
/// with its score.
#[derive(Debug)]
pub enum PossiblePhrase {
    /// A character entered directly.
    Symbol(char),
    /// A phrase and its score.
    Phrase(Phrase, u64),
}

/// The abstract value of a candidate: whether it is a phrase, its phrase
/// (a character is a phrase of one character) and its score.
pub type CandidateView = (bool, PhraseView, u64);

impl View for PossiblePhrase {
    type V = CandidateView;

    open spec fn view(&self) -> CandidateView {
        match self {
            PossiblePhrase::Symbol(c) => (false, (seq![*c], 0u32, None::<u64>), GLOBAL_TOTAL),
            PossiblePhrase::Phrase(p, s) => (true, p@, *s),
        }
    }
}

/// The views of a sequence of candidates.
pub open spec fn candidates_view(s: Seq<PossiblePhrase>) -> Seq<CandidateView> {
    s.map_values(|c: PossiblePhrase| c@)
}

impl Clone for PossiblePhrase {
    fn clone(&self) -> (r: PossiblePhrase)
        ensures
            r@ == self@,
    {
        match self {
            PossiblePhrase::Symbol(c) => PossiblePhrase::Symbol(*c),
            PossiblePhrase::Phrase(p, s) => PossiblePhrase::Phrase(p.clone(), *s),
        }
    }
}

/// Whether a break forbids joining the symbols of `start..end`.
pub open spec fn break_inside(comp: &Composition, start: nat, end: nat) -> bool {
    exists|i: nat| start < i < end && has_break(comp, i)
}

/// Whether a selection overlaps `start..end` without lying inside it.
pub open spec fn conflicting_selection(sel: Seq<IntervalView>, start: nat, end: nat) -> bool {
    exists|k: int| 0 <= k < sel.len() && intersects(sel[k], start, end) && !(start <= sel[k].0 && sel[k].1 <= end)
}

/// The characters `off..off + len` of a text, as far as it reaches.
pub open spec fn char_window(t: Seq<char>, off: nat, len: nat) -> Seq<char> {
    if off >= t.len() {
        Seq::empty()
    } else if off + len > t.len() {
        t.subrange(off as int, t.len() as int)
    } else {
        t.subrange(off as int, (off + len) as int)
    }
}

/// `a - b`, or 0 when `b` is larger.
pub open spec fn nat_diff(a: nat, b: nat) -> nat {
    if a >= b {
        (a - b) as nat
    } else {
        0
    }
}

/// Whether a phrase for `start..end` agrees with every selection inside the
/// range.
pub open spec fn agrees_with_selections(sel: Seq<IntervalView>, start: nat, end: nat, p: PhraseView) -> bool {
    forall|k: int|
        0 <= k < sel.len() && start <= sel[k].0 && end >= sel[k].1 ==> char_window(
            p.0,
            nat_diff(sel[k].0, start),
            nat_diff(sel[k].1, sel[k].0),
        ) == sel[k].3
}

/// The phrases that agree with the selections, in order, as candidates
/// scored by their frequency.
pub open spec fn agreeing(sel: Seq<IntervalView>, start: nat, end: nat, ps: Seq<PhraseView>) -> Seq<CandidateView>
    decreases ps.len(),
{
    if ps.len() == 0 {
        Seq::empty()
    } else {
        let p = ps.last();
        agreeing(sel, start, end, ps.drop_last()) + if agrees_with_selections(sel, start, end, p) {
            seq![(true, p, p.1 as u64)]
        } else {
            Seq::empty()
        }
    }
}

/// Inserts a candidate behind the last one that does not score lower.
pub open spec fn insert_by_score(s: Seq<CandidateView>, x: CandidateView) -> Seq<CandidateView>
    decreases s.len(),
{
    if s.len() == 0 {
        seq![x]
    } else if x.2 > s.last().2 {
        insert_by_score(s.drop_last(), x).push(s.last())
    } else {
        s.push(x)
    }
}

/// Candidates in stable order of descending score.
pub open spec fn sort_by_score(s: Seq<CandidateView>) -> Seq<CandidateView>
    decreases s.len(),
{
    if s.len() == 0 {
        Seq::empty()
    } else {
        insert_by_score(sort_by_score(s.drop_last()), s.last())
    }
}

/// The first selection of exactly `start..end`, if any.
pub open spec fn exact_selection(sel: Seq<IntervalView>, start: nat, end: nat) -> Option<int> {
    if exists|k: int| 0 <= k < sel.len() && sel[k].0 == start && sel[k].1 == end {
        Some(choose|k: int| 0 <= k < sel.len() && sel[k].0 == start && sel[k].1 == end && forall|j: int| 0 <= j < k ==> !(sel[j].0 == start && sel[j].1 == end))
    } else {
        None
    }
}

/// The syllables of symbols, a character counting as the empty syllable.
pub open spec fn symbols_syllables(s: Seq<Symbol>) -> Seq<u16> {
    s.map_values(|x: Symbol| match x {
        Symbol::Syllable(y) => y@,
        Symbol::Char(_) => 0u16,
    })
}

/// The candidates for the symbols `start..end` of a composition.
pub open spec fn best_phrases<D: Dictionary>(
    dict: &D,
    strategy: LookupStrategy,
    comp: &Composition,
    start: nat,
    end: nat,
) -> Seq<CandidateView> {
    let sel = intervals_view(comp.selections@);
    let syms = comp.buffer@.subrange(start as int, end as int);
    if break_inside(comp, start, end) || conflicting_selection(sel, start, end) {
        Seq::empty()
    } else if syms.len() == 1 && syms[0] is Char {
        seq![(false, (seq![syms[0]->Char_0], 0u32, None::<u64>), GLOBAL_TOTAL)]
    } else if exists|i: int| 0 <= i < syms.len() && syms[i] is Char {
        Seq::empty()
    } else {
        let found = dict.lookup_view(symbols_syllables(syms), usize::MAX as nat, strategy);
        let ranked = sort_by_score(agreeing(sel, start, end, found));
        let kept = if ranked.len() > MAX_PHRASES {
            ranked.take(MAX_PHRASES as int)
        } else {
            ranked
        };
        if kept.len() == 0 {
            match exact_selection(sel, start, end) {
                Some(k) => seq![(true, (sel[k].3, 0u32, None::<u64>), GLOBAL_TOTAL)],
                None => Seq::empty(),
            }
        } else {
            kept
        }
    }
}


/// Whether the characters `off..off + len` of `t`, as far as it reaches,
/// are the text `s`.
fn window_equals(t: &str, off: usize, len: usize, s: &str) -> (b: bool)
    ensures
        b == (char_window(t@, off as nat, len as nat) == s@),
{
    let tl = t.unicode_len();
    let sl = s.unicode_len();
    let w = if off >= tl {
        0
    } else if len > tl - off {
        tl - off
    } else {
        len
    };
    assert(char_window(t@, off as nat, len as nat).len() == w);
    if w != sl {
        return false;
    }
    let mut i: usize = 0;
    while i < w
        invariant
            i <= w,
            w == sl,
            sl == s@.len(),
            tl == t@.len(),
            w > 0 ==> off + w <= tl,
            char_window(t@, off as nat, len as nat).len() == w,
            forall|j: int| 0 <= j < i ==> char_window(t@, off as nat, len as nat)[j] == s@[j],
            forall|j: int| 0 <= j < w ==> char_window(t@, off as nat, len as nat)[j] == t@[off + j],
        decreases w - i,
    {
        if t.get_char(off + i) != s.get_char(i) {
            return false;
        }
        i = i + 1;
    }
    assert(char_window(t@, off as nat, len as nat) =~= s@);
    true
}

/// Inserts a candidate as [`insert_by_score`] says.
fn insert_candidate(v: &mut Vec<PossiblePhrase>, x: PossiblePhrase)
    ensures
        candidates_view(final(v)@) == insert_by_score(candidates_view(old(v)@), x@),
{
    let ghost s = candidates_view(v@);
    let mut j: usize = v.len();
    assert(s.take(j as int) =~= s);
    assert(s.skip(j as int) =~= Seq::<CandidateView>::empty());
    while j > 0 && score(&x) > score(&v[j - 1])
        invariant
            j <= v@.len(),
            s == candidates_view(v@),
            insert_by_score(s, x@) == insert_by_score(s.take(j as int), x@) + s.skip(j as int),
        decreases j,
    {
        proof {
            let t = s.take(j as int);
            assert(t.drop_last() =~= s.take(j - 1));
            assert(t.last() == s[j - 1]);
            assert(s.skip(j - 1) =~= seq![s[j - 1]] + s.skip(j as int));
            assert(insert_by_score(s.take(j - 1), x@).push(s[j - 1]) + s.skip(j as int)
                =~= insert_by_score(s.take(j - 1), x@) + s.skip(j - 1));
        }
        j = j - 1;
    }
    proof {
        if j > 0 {
            assert(s.take(j as int).last() == s[j - 1]);
        } else {
            assert(s.take(0) =~= Seq::<CandidateView>::empty());
        }
    }
    let ghost xv = x@;
    v.insert(j, x);
    assert(candidates_view(v@) =~= s.take(j as int).push(xv) + s.skip(j as int));
}

/// The score of a candidate.
pub(crate) fn score(c: &PossiblePhrase) -> (s: u64)
    ensures
        s == c@.2,
{
    match c {
        PossiblePhrase::Symbol(_) => GLOBAL_TOTAL,
        PossiblePhrase::Phrase(_, s) => *s,
    }
}

impl ChewingEngine {
    /// Creates a new conversion engine.
    pub fn new() -> (e: ChewingEngine)
        ensures
            e.lookup_strategy == LookupStrategy::Standard,
    {
        ChewingEngine { lookup_strategy: LookupStrategy::Standard }
    }

    /// Whether a break lies strictly inside `start..end`.
    fn breaks_inside(comp: &Composition, start: usize, end: usize) -> (b: bool)
        requires
            start < end,
        ensures
            b == break_inside(comp, start as nat, end as nat),
    {
        let mut i = start + 1;
        if i >= end {
            return false;
        }
        while i < end
            invariant
                start < i <= end,
                forall|j: nat| start < j < i ==> !has_break(comp, j),
            decreases end - i,
        {
            if comp.break_at(i) {
                return true;
            }
            i = i + 1;
        }
        false
    }

    /// Whether a selection overlaps `start..end` without lying inside it.
    fn conflicts(comp: &Composition, start: usize, end: usize) -> (b: bool)
        ensures
            b == conflicting_selection(intervals_view(comp.selections@), start as nat, end as nat),
    {
        let ghost sel = intervals_view(comp.selections@);
        let mut k: usize = 0;
        while k < comp.selections.len()
            invariant
                k <= sel.len(),
                sel == intervals_view(comp.selections@),
                forall|m: int| 0 <= m < k ==> !(intersects(sel[m], start as nat, end as nat) && !(start <= sel[m].0 && sel[m].1 <= end)),
            decreases sel.len() - k,
        {
            if comp.selections[k].intersect_range(start, end) && !comp.selections[k].is_contained_by(start, end) {
                assert(intersects(sel[k as int], start as nat, end as nat) && !(start <= sel[k as int].0 && sel[k as int].1 <= end));
                return true;
            }
            k = k + 1;
        }
        false
    }

    /// Whether a phrase for `start..end` agrees with the selections inside
    /// the range.
    fn agrees(comp: &Composition, start: usize, end: usize, p: &Phrase) -> (b: bool)
        ensures
            b == agrees_with_selections(intervals_view(comp.selections@), start as nat, end as nat, p@),
    {
        let ghost sel = intervals_view(comp.selections@);
        let mut k: usize = 0;
        while k < comp.selections.len()
            invariant
                k <= sel.len(),
                sel == intervals_view(comp.selections@),
                forall|m: int|
                    0 <= m < k && start <= sel[m].0 && end >= sel[m].1 ==> char_window(
                        p@.0,
                        nat_diff(sel[m].0, start as nat),
                        nat_diff(sel[m].1, sel[m].0),
                    ) == sel[m].3,
            decreases sel.len() - k,
        {
            let s = &comp.selections[k];
            if start <= s.start && end >= s.end {
                let len = if s.start <= s.end {
                    s.end - s.start
                } else {
                    0
                };
                if !window_equals(p.phrase.as_str(), s.start - start, len, s.phrase.as_str()) {
                    proof {
                        assert(sel[k as int] == s@);
                        assert(nat_diff(sel[k as int].0, start as nat) == s.start - start);
                        assert(nat_diff(sel[k as int].1, sel[k as int].0) == len);
                        assert(!(char_window(p@.0, nat_diff(sel[k as int].0, start as nat), nat_diff(sel[k as int].1, sel[k as int].0)) == sel[k as int].3));
                    }
                    return false;
                }
            }
            k = k + 1;
        }
        true
    }

    /// The phrase forced by the first selection of exactly `start..end`, if
    /// any.
    fn forced_selection(comp: &Composition, start: usize, end: usize) -> (r: Vec<PossiblePhrase>)
        ensures
            candidates_view(r@) == match exact_selection(intervals_view(comp.selections@), start as nat, end as nat) {
                Some(k) => seq![(true, (intervals_view(comp.selections@)[k].3, 0u32, None::<u64>), GLOBAL_TOTAL)],
                None => Seq::<CandidateView>::empty(),
            },
    {
        let ghost sel = intervals_view(comp.selections@);
        let mut ranked: Vec<PossiblePhrase> = Vec::new();
        let mut m: usize = 0;
        while m < comp.selections.len()
            invariant
                m <= sel.len(),
                sel == intervals_view(comp.selections@),
                ranked@.len() == 0,
                forall|j: int| 0 <= j < m ==> !(sel[j].0 == start && sel[j].1 == end),
            decreases sel.len() - m,
        {
            if comp.selections[m].start == start && comp.selections[m].end == end {
                let p = Phrase { phrase: comp.selections[m].phrase.clone(), freq: 0, last_used: None };
                ranked.push(PossiblePhrase::Phrase(p, GLOBAL_TOTAL));
                assert(candidates_view(ranked@)[0] == (true, (sel[m as int].3, 0u32, None::<u64>), GLOBAL_TOTAL));
                proof {
                    assert(sel[m as int].0 == start && sel[m as int].1 == end);
                    let c = choose|c: int| 0 <= c < sel.len() && sel[c].0 == start && sel[c].1 == end && forall|j: int| 0 <= j < c ==> !(sel[j].0 == start && sel[j].1 == end);
                    if c != m {
                        if c < m {
                            assert(!(sel[c].0 == start && sel[c].1 == end));
                        } else {
                            assert(!(sel[m as int].0 == start && sel[m as int].1 == end));
                        }
                    }
                    assert(candidates_view(ranked@) =~= seq![(true, (sel[m as int].3, 0u32, None::<u64>), GLOBAL_TOTAL)]);
                }
                return ranked;
            }
            m = m + 1;
        }
        assert(candidates_view(ranked@) =~= Seq::<CandidateView>::empty());
        ranked
    }

    /// The candidates for the symbols `start..end` ([`best_phrases`]).
    pub fn find_best_phrases<D: Dictionary>(&self, dict: &D, start: usize, end: usize, comp: &Composition) -> (r: Vec<
        PossiblePhrase,
    >)
        requires
            start < end <= comp.buffer@.len(),
        ensures
            candidates_view(r@) == best_phrases(dict, self.lookup_strategy, comp, start as nat, end as nat),
    {
        let ghost sel = intervals_view(comp.selections@);
        let ghost syms = comp.buffer@.subrange(start as int, end as int);
        if Self::breaks_inside(comp, start, end) || Self::conflicts(comp, start, end) {
            return Vec::new();
        }
        assert(syms.len() == end - start);
        if end - start == 1 {
            assert(syms[0] == comp.buffer@[start as int]);
        }
        if end - start == 1 && comp.buffer[start].is_char() {
            let c = comp.buffer[start].as_char();
            let mut r = Vec::new();
            r.push(PossiblePhrase::Symbol(c));
            assert(syms[0] == comp.buffer@[start as int]);
            assert(candidates_view(r@) =~= best_phrases(dict, self.lookup_strategy, comp, start as nat, end as nat));
            return r;
        }
        let mut syllables: Vec<Syllable> = Vec::new();
        let mut i = start;
        while i < end
            invariant
                start <= i <= end,
                end <= comp.buffer@.len(),
                syms == comp.buffer@.subrange(start as int, end as int),
                syllables_view(syllables@) == symbols_syllables(syms.take(i - start)),
                forall|j: int| 0 <= j < i - start ==> !(syms[j] is Char),
                !(syms.len() == 1 && syms[0] is Char),
            decreases end - i,
        {
            match comp.buffer[i] {
                Symbol::Char(_) => {
                    proof {
                        assert(syms[i - start] == comp.buffer@[i as int]);
                        if end - start == 1 {
                            assert(syms.len() == 1);
                        }
                    }
                    return Vec::new();
                },
                Symbol::Syllable(s) => {
                    let ghost before = syllables_view(syllables@);
                    syllables.push(s);
                    proof {
                        assert(syllables_view(syllables@) =~= before.push(s@));
                        assert(symbols_syllables(syms.take(i + 1 - start)) =~= symbols_syllables(syms.take(i - start)).push(s@));
                        assert(syms[i - start] == comp.buffer@[i as int]);
                        assert(syms.take(i + 1 - start) =~= syms.take(i - start).push(syms[i - start]));
                        assert(syllables_view(syllables@) =~= symbols_syllables(syms.take(i + 1 - start)));
                    }
                },
            }
            i = i + 1;
        }
        assert(syms.take(end - start) =~= syms);
        assert(!(exists|j: int| 0 <= j < syms.len() && syms[j] is Char));
        let found = dict.lookup_all_phrases(syllables.as_slice(), self.lookup_strategy);
        let ghost fv = crate::dictionary::phrases_view(found@);
        let mut ranked: Vec<PossiblePhrase> = Vec::new();
        let mut k: usize = 0;
        assert(fv.take(0) =~= Seq::<PhraseView>::empty());
        while k < found.len()
            invariant
                k <= found@.len(),
                fv == crate::dictionary::phrases_view(found@),
                sel == intervals_view(comp.selections@),
                candidates_view(ranked@) == sort_by_score(agreeing(sel, start as nat, end as nat, fv.take(k as int))),
            decreases found@.len() - k,
        {
            proof {
                assert(fv.take(k + 1).drop_last() =~= fv.take(k as int));
                assert(fv.take(k + 1).last() == found@[k as int]@);
            }
            if Self::agrees(comp, start, end, &found[k]) {
                let p = found[k].clone();
                let sc = p.freq as u64;
                proof {
                    let a = agreeing(sel, start as nat, end as nat, fv.take(k as int));
                    let x = (true, found@[k as int]@, found@[k as int]@.1 as u64);
                    assert(agreeing(sel, start as nat, end as nat, fv.take(k + 1)) == a + seq![x]);
                    assert((a + seq![x]).drop_last() =~= a);
                }
                insert_candidate(&mut ranked, PossiblePhrase::Phrase(p, sc));
            } else {
                proof {
                    assert(agreeing(sel, start as nat, end as nat, fv.take(k + 1)) =~= agreeing(sel, start as nat, end as nat, fv.take(k as int)));
                }
            }
            k = k + 1;
        }
        assert(fv.take(k as int) =~= fv);
        if ranked.len() > MAX_PHRASES {
            ranked.truncate(MAX_PHRASES);
        }
        if ranked.len() == 0 {
            return Self::forced_selection(comp, start, end);
        }
        ranked
    }
}


/// The candidates for a range of the composition.
#[derive(Debug)]
pub struct Edge {
    /// The first symbol of the range.
    pub start: usize,
    /// The end of the range (exclusive).
    pub end: usize,
    /// The candidates, the best first.
    pub phrases: Vec<PossiblePhrase>,
}

/// The abstract value of an edge.
pub type EdgeView = (nat, nat, Seq<CandidateView>);

/// The views of a sequence of edges.
pub open spec fn edges_view(s: Seq<Edge>) -> Seq<EdgeView> {
    s.map_values(|e: Edge| (e.start as nat, e.end as nat, candidates_view(e.phrases@)))
}

/// The edges from `start` to the ends `start + 1..=end` with candidates.
pub open spec fn edges_row<D: Dictionary>(
    dict: &D,
    strategy: LookupStrategy,
    comp: &Composition,
    start: nat,
    end: nat,
) -> Seq<EdgeView>
    decreases end,
{
    if end <= start {
        Seq::empty()
    } else {
        let b = best_phrases(dict, strategy, comp, start, end);
        edges_row(dict, strategy, comp, start, (end - 1) as nat) + if b.len() > 0 {
            seq![(start, end, b)]
        } else {
            Seq::empty()
        }
    }
}

/// The edges with candidates starting before `upto`, by start, then by
/// end.
pub open spec fn all_edges<D: Dictionary>(dict: &D, strategy: LookupStrategy, comp: &Composition, upto: nat) -> Seq<
    EdgeView,
>
    decreases upto,
{
    if upto == 0 {
        Seq::empty()
    } else {
        all_edges(dict, strategy, comp, (upto - 1) as nat) + edges_row(
            dict,
            strategy,
            comp,
            (upto - 1) as nat,
            comp.buffer@.len(),
        )
    }
}

impl ChewingEngine {
    /// The edges of all ranges of the composition that have candidates
    /// ([`all_edges`]).
    pub fn find_edges<D: Dictionary>(&self, dict: &D, comp: &Composition) -> (r: Vec<Edge>)
        requires
            comp.buffer@.len() < usize::MAX,
        ensures
            edges_view(r@) == all_edges(dict, self.lookup_strategy, comp, comp.buffer@.len()),
    {
        let n = comp.buffer.len();
        let mut edges: Vec<Edge> = Vec::new();
        let mut start: usize = 0;
        while start < n
            invariant
                start <= n,
                n == comp.buffer@.len(),
                n < usize::MAX,
                edges_view(edges@) == all_edges(dict, self.lookup_strategy, comp, start as nat),
            decreases n - start,
        {
            let ghost before = edges_view(edges@);
            let mut end = start + 1;
            assert(edges_row(dict, self.lookup_strategy, comp, start as nat, start as nat) =~= Seq::<EdgeView>::empty());
            assert(before =~= before + edges_row(dict, self.lookup_strategy, comp, start as nat, (end - 1) as nat));
            while end <= n
                invariant
                    start < end <= n + 1,
                    n == comp.buffer@.len(),
                    n < usize::MAX,
                    edges_view(edges@) == before + edges_row(dict, self.lookup_strategy, comp, start as nat, (end - 1) as nat),
                decreases n + 1 - end,
            {
                let phrases = self.find_best_phrases(dict, start, end, comp);
                if phrases.len() > 0 {
                    let ghost prev = edges_view(edges@);
                    let ghost ev = (start as nat, end as nat, candidates_view(phrases@));
                    edges.push(Edge { start, end, phrases });
                    assert(edges_view(edges@) =~= prev.push(ev));
                    assert(edges_view(edges@) =~= before + edges_row(dict, self.lookup_strategy, comp, start as nat, end as nat));
                } else {
                    assert(edges_row(dict, self.lookup_strategy, comp, start as nat, end as nat) =~= edges_row(dict, self.lookup_strategy, comp, start as nat, (end - 1) as nat));
                }
                end = end + 1;
            }
            start = start + 1;
        }
        edges
    }
}

/// Adds an interval to converted intervals: two phrases meeting at a glue
/// are joined into one.
pub open spec fn glue_step(comp: &Composition, acc: Seq<IntervalView>, x: IntervalView) -> Seq<IntervalView> {
    if acc.len() == 0 {
        seq![x]
    } else {
        let last = acc.last();
        if !last.2 || !x.2 {
            acc.push(x)
        } else if has_glue(comp, last.1) {
            acc.drop_last().push((last.0, x.1, true, last.3 + x.3))
        } else {
            acc.push(x)
        }
    }
}

/// Adds an interval to converted intervals ([`glue_step`]).
pub fn glue_fn(comp: &Composition, acc: &mut Vec<Interval>, interval: Interval)
    ensures
        intervals_view(final(acc)@) == glue_step(comp, intervals_view(old(acc)@), interval@),
{
    let ghost a = intervals_view(acc@);
    let ghost x = interval@;
    if acc.len() == 0 {
        acc.push(interval);
        assert(intervals_view(acc@) =~= seq![x]);
        return;
    }
    let n = acc.len();
    if !acc[n - 1].is_phrase || !interval.is_phrase {
        acc.push(interval);
        assert(intervals_view(acc@) =~= a.push(x));
        return;
    }
    if comp.glue_at(acc[n - 1].end) {
        let last = acc.pop().unwrap();
        let mut phrase = last.phrase;
        phrase.append(interval.phrase.as_str());
        acc.push(Interval { start: last.start, end: interval.end, is_phrase: true, phrase });
        assert(intervals_view(acc@) =~= a.drop_last().push((a.last().0, x.1, true, a.last().3 + x.3)));
    } else {
        acc.push(interval);
        assert(intervals_view(acc@) =~= a.push(x));
    }
}

/// A candidate chosen for a range.
#[derive(Debug)]
pub struct PossibleInterval {
    /// The first symbol of the range.
    pub start: usize,
    /// The end of the range (exclusive).
    pub end: usize,
    /// The chosen candidate.
    pub phrase: PossiblePhrase,
}

/// The abstract value of a chosen candidate.
pub type ChoiceView = (nat, nat, CandidateView);

/// A way to convert the whole composition: its chosen candidates in order.
#[derive(Debug)]
pub struct PossiblePath {
    /// The chosen candidates.
    pub intervals: Vec<PossibleInterval>,
}

/// The abstract value of a path.
pub type PathView = Seq<ChoiceView>;

impl View for PossiblePath {
    type V = PathView;

    open spec fn view(&self) -> PathView {
        choices_view(self.intervals@)
    }
}

/// The abstract values of chosen candidates.
pub open spec fn choices_view(s: Seq<PossibleInterval>) -> PathView {
    s.map_values(|i: PossibleInterval| (i.start as nat, i.end as nat, i.phrase@))
}


/// The interval of a chosen candidate: a phrase stays a phrase, a
/// character entered directly stays a character.
pub open spec fn choice_interval(c: ChoiceView) -> IntervalView {
    (c.0, c.1, c.2.0, c.2.1.0)
}

/// The intervals of converted candidates, each added in turn by
/// [`glue_step`].
pub open spec fn glue_all(comp: &Composition, xs: Seq<IntervalView>) -> Seq<IntervalView>
    decreases xs.len(),
{
    if xs.len() == 0 {
        Seq::empty()
    } else {
        glue_step(comp, glue_all(comp, xs.drop_last()), xs.last())
    }
}

impl PossibleInterval {
    /// The interval of this chosen candidate ([`choice_interval`]).
    pub fn to_interval(&self) -> (r: Interval)
        ensures
            r@ == choice_interval((self.start as nat, self.end as nat, self.phrase@)),
    {
        match &self.phrase {
            PossiblePhrase::Symbol(c) => Interval {
                start: self.start,
                end: self.end,
                is_phrase: false,
                phrase: char_to_string(*c),
            },
            PossiblePhrase::Phrase(p, _) => Interval {
                start: self.start,
                end: self.end,
                is_phrase: true,
                phrase: p.phrase.clone(),
            },
        }
    }
}

/// The intervals of a path, joined where glues stand between phrases
/// ([`glue_all`]).
pub fn glue_path(comp: &Composition, path: &PossiblePath) -> (r: Vec<Interval>)
    ensures
        intervals_view(r@) == glue_all(comp, path@.map_values(|c: ChoiceView| choice_interval(c))),
{
    let ghost xs = path@.map_values(|c: ChoiceView| choice_interval(c));
    let mut acc: Vec<Interval> = Vec::new();
    let mut i: usize = 0;
    while i < path.intervals.len()
        invariant
            i <= path.intervals@.len(),
            xs == path@.map_values(|c: ChoiceView| choice_interval(c)),
            xs.len() == path.intervals@.len(),
            intervals_view(acc@) == glue_all(comp, xs.take(i as int)),
        decreases path.intervals@.len() - i,
    {
        let it = path.intervals[i].to_interval();
        assert(it@ == xs[i as int]);
        assert(xs.take(i + 1).drop_last() =~= xs.take(i as int));
        glue_fn(comp, &mut acc, it);
        i = i + 1;
    }
    assert(xs.take(i as int) =~= xs);
    acc
}

/// The views of a sequence of paths.
pub open spec fn paths_view(s: Seq<PossiblePath>) -> Seq<PathView> {
    s.map_values(|p: PossiblePath| p@)
}

/// Whether the chosen candidates of `bigs` from `big` on cover those of
/// `smls` from `sml` on, matching them in order.
pub open spec fn covers_from(bigs: PathView, smls: PathView, big: nat, sml: nat) -> bool
    decreases smls.len() - sml, bigs.len() - big,
{
    if sml >= smls.len() {
        true
    } else if big < bigs.len() && bigs[big as int].0 < smls[sml as int].1 {
        if bigs[big as int].0 <= smls[sml as int].0 && bigs[big as int].1 >= smls[sml as int].1 {
            covers_from(bigs, smls, big, sml + 1)
        } else {
            covers_from(bigs, smls, big + 1, sml)
        }
    } else {
        false
    }
}

impl PossiblePath {
    /// Whether the ranges of this path cover the ranges of `other` in order
    /// ([`covers_from`]).
    pub fn contains(&self, other: &PossiblePath) -> (b: bool)
        ensures
            b == covers_from(self@, other@, 0, 0),
    {
        let ghost bv = self@;
        let ghost sv = other@;
        let mut big: usize = 0;
        let mut sml: usize = 0;
        while sml < other.intervals.len()
            invariant
                bv == self@,
                sv == other@,
                sml <= sv.len(),
                big <= bv.len(),
                covers_from(bv, sv, 0, 0) == covers_from(bv, sv, big as nat, sml as nat),
            decreases sv.len() - sml, bv.len() - big,
        {
            let o = &other.intervals[sml];
            if big < self.intervals.len() && self.intervals[big].start < o.end {
                let b = &self.intervals[big];
                if b.start <= o.start && b.end >= o.end {
                    sml = sml + 1;
                } else {
                    big = big + 1;
                }
            } else {
                return false;
            }
        }
        true
    }
}

/// Keeping the kept paths against a candidate path: a kept path that
/// covers the candidate keeps it out, together with every later kept path;
/// a kept path that the candidate covers leaves.
pub open spec fn trim_against(kept: Seq<PathView>, cand: PathView, n: nat) -> (Seq<PathView>, bool)
    decreases n,
{
    if n == 0 {
        (Seq::empty(), false)
    } else {
        let prev = trim_against(kept, cand, (n - 1) as nat);
        let p = kept[n - 1];
        if prev.1 || covers_from(p, cand, 0, 0) {
            (prev.0.push(p), true)
        } else if covers_from(cand, p, 0, 0) {
            (prev.0, false)
        } else {
            (prev.0.push(p), false)
        }
    }
}

/// The paths left after trimming each in turn against those before.
pub open spec fn trim_all(paths: Seq<PathView>) -> Seq<PathView>
    decreases paths.len(),
{
    if paths.len() == 0 {
        Seq::empty()
    } else {
        let kept = trim_all(paths.drop_last());
        let t = trim_against(kept, paths.last(), kept.len());
        if t.1 {
            t.0
        } else {
            t.0.push(paths.last())
        }
    }
}

/// The paths kept against a candidate are among the kept paths.
proof fn lemma_trim_against_from(kept: Seq<PathView>, cand: PathView, n: nat, q: PathView)
    requires
        n <= kept.len(),
        trim_against(kept, cand, n).0.contains(q),
    ensures
        kept.contains(q),
    decreases n,
{
    let prev = trim_against(kept, cand, (n - 1) as nat);
    let t = trim_against(kept, cand, n).0;
    let j = choose|j: int| 0 <= j < t.len() && t[j] == q;
    if j < prev.0.len() && t[j] == prev.0[j] {
        assert(prev.0.contains(q));
        lemma_trim_against_from(kept, cand, (n - 1) as nat, q);
    } else {
        assert(kept[n - 1] == q);
    }
}

/// Trimming keeps only paths it was given.
pub proof fn lemma_trim_all_from(paths: Seq<PathView>, q: PathView)
    requires
        trim_all(paths).contains(q),
    ensures
        paths.contains(q),
    decreases paths.len(),
{
    let init = paths.drop_last();
    let kept = trim_all(init);
    let t = trim_against(kept, paths.last(), kept.len());
    let r = trim_all(paths);
    let j = choose|j: int| 0 <= j < r.len() && r[j] == q;
    if j < t.0.len() && r[j] == t.0[j] {
        assert(t.0.contains(q));
        lemma_trim_against_from(kept, paths.last(), kept.len(), q);
        lemma_trim_all_from(init, q);
        let i = choose|i: int| 0 <= i < init.len() && init[i] == q;
        assert(paths[i] == q);
    } else {
        assert(paths[paths.len() - 1] == q);
    }
}

/// A candidate that a kept path covers leaves at least that path kept.
proof fn lemma_trim_against_keeps(kept: Seq<PathView>, cand: PathView, n: nat)
    requires
        n <= kept.len(),
    ensures
        trim_against(kept, cand, n).1 ==> trim_against(kept, cand, n).0.len() >= 1,
    decreases n,
{
    if n > 0 {
        lemma_trim_against_keeps(kept, cand, (n - 1) as nat);
    }
}

/// Trimming keeps at least one of at least one path.
pub proof fn lemma_trim_all_nonempty(paths: Seq<PathView>)
    ensures
        paths.len() >= 1 ==> trim_all(paths).len() >= 1,
    decreases paths.len(),
{
    if paths.len() >= 1 {
        let kept = trim_all(paths.drop_last());
        lemma_trim_against_keeps(kept, paths.last(), kept.len());
    }
}

impl ChewingEngine {
    /// Trims the paths that other paths cover ([`trim_all`]); at least one
    /// path stays of at least one.
    pub fn trim_paths(&self, paths: Vec<PossiblePath>) -> (r: Vec<PossiblePath>)
        ensures
            paths_view(r@) == trim_all(paths_view(paths@)),
            paths@.len() >= 1 ==> r@.len() >= 1,
    {
        proof {
            lemma_trim_all_nonempty(paths_view(paths@));
        }
        let ghost pv = paths_view(paths@);
        let pl = paths.len();
        let mut trimmed: Vec<PossiblePath> = Vec::new();
        let mut rest = paths;
        let mut i: usize = 0;
        assert(pv.skip(0) =~= pv);
        assert(pv.take(0) =~= Seq::<PathView>::empty());
        while rest.len() > 0
            invariant
                i + rest@.len() == pv.len(),
                pv.len() == pl,
                paths_view(rest@) == pv.skip(i as int),
                paths_view(trimmed@) == trim_all(pv.take(i as int)),
            decreases rest@.len(),
        {
            let ghost ro = rest@;
            let candidate = rest.remove(0);
            proof {
                assert(paths_view(ro)[0] == ro[0]@);
                assert(paths_view(ro)[0] == pv.skip(i as int)[0]);
                assert(candidate@ == pv[i as int]);
                assert(paths_view(rest@) =~= paths_view(ro).drop_first());
                assert(pv.take(i + 1).drop_last() =~= pv.take(i as int));
                assert(pv.take(i + 1).last() == pv[i as int]);
            }
            let ghost kv = paths_view(trimmed@);
            let kl = trimmed.len();
            let mut drop_candidate = false;
            let mut keeper: Vec<PossiblePath> = Vec::new();
            let mut old_kept = trimmed;
            let mut j: usize = 0;
            assert(kv.skip(0) =~= kv);
            while old_kept.len() > 0
                invariant
                    j + old_kept@.len() == kv.len(),
                    kv.len() == kl,
                    paths_view(old_kept@) == kv.skip(j as int),
                    (paths_view(keeper@), drop_candidate) == trim_against(kv, candidate@, j as nat),
                decreases old_kept@.len(),
            {
                let ghost ko = old_kept@;
                let p = old_kept.remove(0);
                proof {
                    assert(paths_view(ko)[0] == ko[0]@);
                    assert(paths_view(ko)[0] == kv.skip(j as int)[0]);
                    assert(p@ == kv[j as int]);
                    assert(paths_view(old_kept@) =~= paths_view(ko).drop_first());
                }
                let ghost pw = p@;
                let ghost kp = paths_view(keeper@);
                if drop_candidate || p.contains(&candidate) {
                    drop_candidate = true;
                    keeper.push(p);
                    assert(paths_view(keeper@) =~= kp.push(pw));
                } else if candidate.contains(&p) {
                } else {
                    keeper.push(p);
                    assert(paths_view(keeper@) =~= kp.push(pw));
                }
                proof {
                    assert(paths_view(old_kept@) =~= kv.skip(j + 1));
                }
                j = j + 1;
            }
            if !drop_candidate {
                let ghost kp = paths_view(keeper@);
                let ghost cw = candidate@;
                keeper.push(candidate);
                assert(paths_view(keeper@) =~= kp.push(cw));
            }
            trimmed = keeper;
            proof {
                assert(paths_view(rest@) =~= pv.skip(i + 1));
            }
            i = i + 1;
        }
        assert(pv.take(i as int) =~= pv);
        trimmed
    }
}

/// Whether the range `start..end` cuts through the range `s..e`: they
/// share a symbol, but `s..e` does not lie inside `start..end`.
pub open spec fn cuts_through(start: nat, end: nat, s: nat, e: nat) -> bool {
    &&& s < end
    &&& start < e
    &&& s < e
    &&& start < end
    &&& !(start <= s && e <= end)
}

/// A range that cuts through a range the user selected has no candidates,
/// so no conversion splits a selected phrase.
pub proof fn law_cut_selection_has_no_candidates<D: Dictionary>(
    dict: &D,
    strategy: LookupStrategy,
    comp: &Composition,
    start: nat,
    end: nat,
    k: int,
)
    requires
        0 <= k < comp.selections@.len(),
        cuts_through(start, end, comp.selections@[k].start as nat, comp.selections@[k].end as nat),
    ensures
        best_phrases(dict, strategy, comp, start, end) == Seq::<CandidateView>::empty(),
{
    let sel = intervals_view(comp.selections@);
    assert(sel[k] == comp.selections@[k]@);
    assert(intersects(sel[k], start, end));
    assert(conflicting_selection(sel, start, end));
}

} // verus!
