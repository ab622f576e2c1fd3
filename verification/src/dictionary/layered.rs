//! A collection of dictionaries that returns the union of the lookup
//! results.

use vstd::prelude::*;

use crate::dictionary::trie::{Trie, syllables_view};
use crate::dictionary::trie_buf::{TrieBuf, add_effect, first_n, remove_effect, update_effect};
use crate::dictionary::trie_walk::{EntryView, entries_view};
use crate::dictionary::{
    Dictionary, DictionaryInfo, DictionaryInfoView, DictionaryMut, LookupStrategy, Phrase, PhraseView,
    UpdateDictionaryError, phrases_view,
};
use crate::zhuyin::Syllable;
use vstd::string::StrSliceExecFns;

verus! {

/// A dictionary of one of the supported kinds.
#[derive(Debug)]
pub enum AnyDictionary {
    /// A read-only trie dictionary.
    TrieDictionary(Trie),
    /// A mutable dictionary buffering changes over a trie.
    TrieBufDictionary(TrieBuf),
}

impl Dictionary for AnyDictionary {
    open spec fn lookup_view(&self, syls: Seq<u16>, first: nat, strategy: LookupStrategy) -> Seq<PhraseView> {
        match self {
            AnyDictionary::TrieDictionary(d) => d.lookup_view(syls, first, strategy),
            AnyDictionary::TrieBufDictionary(d) => d.lookup_view(syls, first, strategy),
        }
    }

    open spec fn entries_spec(&self) -> Seq<EntryView> {
        match self {
            AnyDictionary::TrieDictionary(d) => d.entries_spec(),
            AnyDictionary::TrieBufDictionary(d) => d.entries_spec(),
        }
    }

    open spec fn about_view(&self) -> DictionaryInfoView {
        match self {
            AnyDictionary::TrieDictionary(d) => d.about_view(),
            AnyDictionary::TrieBufDictionary(d) => d.about_view(),
        }
    }

    fn lookup_first_n_phrases(&self, syllables: &[Syllable], first: usize, strategy: LookupStrategy) -> (r: Vec<
        Phrase,
    >) {
        match self {
            AnyDictionary::TrieDictionary(d) => Dictionary::lookup_first_n_phrases(d, syllables, first, strategy),
            AnyDictionary::TrieBufDictionary(d) => Dictionary::lookup_first_n_phrases(d, syllables, first, strategy),
        }
    }

    fn entries(&self) -> (r: Vec<(Vec<Syllable>, Phrase)>) {
        match self {
            AnyDictionary::TrieDictionary(d) => Dictionary::entries(d),
            AnyDictionary::TrieBufDictionary(d) => Dictionary::entries(d),
        }
    }

    fn about(&self) -> (r: DictionaryInfo) {
        match self {
            AnyDictionary::TrieDictionary(d) => Dictionary::about(d),
            AnyDictionary::TrieBufDictionary(d) => Dictionary::about(d),
        }
    }
}

/// What adding a phrase does to a dictionary: a read-only trie refuses it
/// and stays; a buffered dictionary changes as [`add_effect`] says.
pub open spec fn any_add_effect(o: AnyDictionary, n: AnyDictionary, syls: Seq<u16>, p: PhraseView, ok: bool) -> bool {
    match o {
        AnyDictionary::TrieDictionary(_) => !ok && n == o,
        AnyDictionary::TrieBufDictionary(d) => n matches AnyDictionary::TrieBufDictionary(e) && add_effect(d, e, syls, p, ok),
    }
}

/// What setting a phrase's frequency and time does to a dictionary: a
/// read-only trie refuses it and stays; a buffered dictionary accepts it and
/// changes as [`update_effect`] says.
pub open spec fn any_update_effect(
    o: AnyDictionary,
    n: AnyDictionary,
    syls: Seq<u16>,
    text: Seq<char>,
    freq: u32,
    time: u64,
    ok: bool,
) -> bool {
    match o {
        AnyDictionary::TrieDictionary(_) => !ok && n == o,
        AnyDictionary::TrieBufDictionary(d) => ok && (n matches AnyDictionary::TrieBufDictionary(e) && update_effect(
            d,
            e,
            syls,
            text,
            freq,
            time,
        )),
    }
}

/// What removing a phrase does to a dictionary: a read-only trie refuses it
/// and stays; a buffered dictionary accepts it and changes as
/// [`remove_effect`] says.
pub open spec fn any_remove_effect(o: AnyDictionary, n: AnyDictionary, syls: Seq<u16>, text: Seq<char>, ok: bool) -> bool {
    match o {
        AnyDictionary::TrieDictionary(_) => !ok && n == o,
        AnyDictionary::TrieBufDictionary(d) => ok && (n matches AnyDictionary::TrieBufDictionary(e) && remove_effect(
            d,
            e,
            syls,
            text,
        )),
    }
}

impl AnyDictionary {
    /// Whether the dictionary can be updated.
    pub open spec fn is_mutable(&self) -> bool {
        self is TrieBufDictionary
    }
}

impl DictionaryMut for AnyDictionary {
    open spec fn mut_wf(&self) -> bool {
        match self {
            AnyDictionary::TrieDictionary(_) => true,
            AnyDictionary::TrieBufDictionary(d) => d.mut_wf(),
        }
    }

    fn reopen(&mut self) -> (r: Result<(), UpdateDictionaryError>)
        ensures
            r is Ok <==> old(self).is_mutable(),
    {
        match self {
            AnyDictionary::TrieDictionary(_) => Err(UpdateDictionaryError::new()),
            AnyDictionary::TrieBufDictionary(d) => DictionaryMut::reopen(d),
        }
    }

    fn flush(&mut self) -> (r: Result<(), UpdateDictionaryError>)
        ensures
            r is Ok <==> old(self).is_mutable(),
    {
        match self {
            AnyDictionary::TrieDictionary(_) => Err(UpdateDictionaryError::new()),
            AnyDictionary::TrieBufDictionary(d) => DictionaryMut::flush(d),
        }
    }

    fn add_phrase(&mut self, syllables: &[Syllable], phrase: Phrase) -> (r: Result<(), UpdateDictionaryError>)
        ensures
            !old(self).is_mutable() ==> r is Err && *final(self) == *old(self),
            any_add_effect(*old(self), *final(self), syllables_view(syllables@), phrase@, r is Ok),
    {
        match self {
            AnyDictionary::TrieDictionary(_) => Err(UpdateDictionaryError::new()),
            AnyDictionary::TrieBufDictionary(d) => DictionaryMut::add_phrase(d, syllables, phrase),
        }
    }

    fn update_phrase(&mut self, syllables: &[Syllable], phrase: Phrase, user_freq: u32, time: u64) -> (r: Result<
        (),
        UpdateDictionaryError,
    >)
        ensures
            !old(self).is_mutable() ==> r is Err && *final(self) == *old(self),
            any_update_effect(*old(self), *final(self), syllables_view(syllables@), phrase@.0, user_freq, time, r is Ok),
    {
        match self {
            AnyDictionary::TrieDictionary(_) => Err(UpdateDictionaryError::new()),
            AnyDictionary::TrieBufDictionary(d) => DictionaryMut::update_phrase(d, syllables, phrase, user_freq, time),
        }
    }

    fn remove_phrase(&mut self, syllables: &[Syllable], phrase_str: &str) -> (r: Result<(), UpdateDictionaryError>)
        ensures
            !old(self).is_mutable() ==> r is Err && *final(self) == *old(self),
            any_remove_effect(*old(self), *final(self), syllables_view(syllables@), phrase_str@, r is Ok),
    {
        match self {
            AnyDictionary::TrieDictionary(_) => Err(UpdateDictionaryError::new()),
            AnyDictionary::TrieBufDictionary(d) => DictionaryMut::remove_phrase(d, syllables, phrase_str),
        }
    }
}

/// The later of two last used times.
pub open spec fn later_time(a: Option<u64>, b: Option<u64>) -> Option<u64> {
    match (a, b) {
        (Some(x), Some(y)) => Some(if x >= y { x } else { y }),
        (Some(x), None) => Some(x),
        (None, Some(y)) => Some(y),
        (None, None) => None,
    }
}

/// Merges a phrase into phrases with distinct texts: a phrase with the same
/// text gets the frequency added (wrapping around at `u32::MAX`) and the
/// later last used time; otherwise the phrase is appended.
pub open spec fn merge_sum(acc: Seq<PhraseView>, p: PhraseView) -> Seq<PhraseView> {
    if exists|k: int| 0 <= k < acc.len() && acc[k].0 == p.0 {
        let k = choose|k: int| 0 <= k < acc.len() && acc[k].0 == p.0;
        acc.update(k, (acc[k].0, acc[k].1.wrapping_add(p.1), later_time(acc[k].2, p.2)))
    } else {
        acc.push(p)
    }
}

/// Merges phrases in order with [`merge_sum`].
pub open spec fn merge_all_sum(ps: Seq<PhraseView>) -> Seq<PhraseView>
    decreases ps.len(),
{
    if ps.len() == 0 {
        Seq::empty()
    } else {
        merge_sum(merge_all_sum(ps.drop_last()), ps.last())
    }
}

/// The phrases of all dictionaries for `syls`, dictionary by dictionary.
pub open spec fn layered_found(ds: Seq<AnyDictionary>, syls: Seq<u16>, strategy: LookupStrategy) -> Seq<PhraseView>
    decreases ds.len(),
{
    if ds.len() == 0 {
        Seq::empty()
    } else {
        layered_found(ds.drop_last(), syls, strategy) + ds.last().lookup_view(syls, usize::MAX as nat, strategy)
    }
}

/// The entries of all dictionaries, dictionary by dictionary.
pub open spec fn layered_entries(ds: Seq<AnyDictionary>) -> Seq<EntryView>
    decreases ds.len(),
{
    if ds.len() == 0 {
        Seq::empty()
    } else {
        layered_entries(ds.drop_last()) + ds.last().entries_spec()
    }
}

/// A collection of dictionaries that returns the union of the lookup
/// results.
#[derive(Debug)]
pub struct Layered {
    sys_dict: Vec<AnyDictionary>,
    user_dict: AnyDictionary,
}

/// Merges phrases with [`merge_all_sum`].
pub fn merge_phrases_sum(ps: &Vec<Phrase>) -> (r: Vec<Phrase>)
    ensures
        phrases_view(r@) == merge_all_sum(phrases_view(ps@)),
        crate::dictionary::trie::distinct_texts(phrases_view(r@)),
{
    let ghost pv = phrases_view(ps@);
    let mut acc: Vec<Phrase> = Vec::new();
    let mut i: usize = 0;
    assert(pv.take(0) =~= Seq::<PhraseView>::empty());
    while i < ps.len()
        invariant
            i <= ps@.len(),
            pv == phrases_view(ps@),
            phrases_view(acc@) == merge_all_sum(pv.take(i as int)),
            crate::dictionary::trie::distinct_texts(phrases_view(acc@)),
        decreases ps@.len() - i,
    {
        proof {
            assert(pv.take(i + 1).drop_last() =~= pv.take(i as int));
            assert(pv.take(i + 1).last() == pv[i as int]);
        }
        let p = &ps[i];
        let ghost av = phrases_view(acc@);
        let mut k: usize = 0;
        while k < acc.len()
            invariant
                k <= acc@.len(),
                av == phrases_view(acc@),
                forall|j: int| 0 <= j < k ==> av[j].0 != p@.0,
            ensures
                k <= acc@.len(),
                forall|j: int| 0 <= j < k ==> av[j].0 != p@.0,
                k < acc@.len() ==> av[k as int].0 == p@.0,
            decreases acc@.len() - k,
        {
            if acc[k].phrase == p.phrase {
                break;
            }
            k = k + 1;
        }
        if k < acc.len() {
            proof {
                let c = choose|c: int| 0 <= c < av.len() && av[c].0 == p@.0;
                if c != k {
                    if c < k {
                        assert(av[c].0 != av[k as int].0);
                    } else {
                        assert(av[k as int].0 != av[c].0);
                    }
                }
            }
            let freq = acc[k].freq.wrapping_add(p.freq);
            let last_used = match (acc[k].last_used, p.last_used) {
                (Some(x), Some(y)) => Some(if x >= y { x } else { y }),
                (Some(x), None) => Some(x),
                (None, Some(y)) => Some(y),
                (None, None) => None,
            };
            let text = acc[k].phrase.clone();
            let merged = Phrase { phrase: text, freq, last_used };
            acc.set(k, merged);
            assert(phrases_view(acc@) =~= av.update(k as int, (av[k as int].0, av[k as int].1.wrapping_add(p@.1), later_time(av[k as int].2, p@.2))));
        } else {
            acc.push(p.clone());
            assert(phrases_view(acc@) =~= av.push(p@));
            assert(!(exists|c: int| 0 <= c < av.len() && av[c].0 == p@.0));
        }
        i = i + 1;
    }
    assert(pv.take(i as int) =~= pv);
    acc
}

impl Layered {
    /// The system dictionaries followed by the user dictionary.
    pub open spec fn layers(&self) -> Seq<AnyDictionary> {
        self.system_view().push(self.user_view())
    }

    /// The user dictionary.
    pub closed spec fn user_view(&self) -> AnyDictionary {
        self.user_dict
    }

    /// The system dictionaries.
    pub closed spec fn system_view(&self) -> Seq<AnyDictionary> {
        self.sys_dict@
    }

    /// The result of looking up `syls`: the phrases of all dictionaries in
    /// order, merged by text.
    pub open spec fn lookup_spec(&self, syls: Seq<u16>, strategy: LookupStrategy) -> Seq<PhraseView> {
        merge_all_sum(layered_found(self.layers(), syls, strategy))
    }

    /// Creates a new `Layered` with the list of dictionaries.
    pub fn new(sys_dict: Vec<AnyDictionary>, user_dict: AnyDictionary) -> (d: Layered)
        ensures
            d.layers() == sys_dict@.push(user_dict),
            d.user_view() == user_dict,
    {
        Layered { sys_dict, user_dict }
    }

    /// The user dictionary.
    pub fn user_dict(&mut self) -> (r: &mut AnyDictionary)
        ensures
            *r == old(self).user_view(),
            final(self).user_view() == *final(r),
            final(self).layers() == old(self).layers().update(old(self).layers().len() - 1, *final(r)),
    {
        &mut self.user_dict
    }

    /// Looks up phrases in all dictionaries: phrases are ordered by their
    /// first appearance; a phrase in several dictionaries gets the sum of
    /// their frequencies and the latest last used time.
    pub fn lookup(&self, syllables: &[Syllable], strategy: LookupStrategy) -> (r: Vec<Phrase>)
        ensures
            phrases_view(r@) == self.lookup_spec(syllables_view(syllables@), strategy),
    {
        let ghost syls = syllables_view(syllables@);
        let ghost ds = self.layers();
        let mut all: Vec<Phrase> = Vec::new();
        let mut i: usize = 0;
        assert(ds.take(0) =~= Seq::<AnyDictionary>::empty());
        while i < self.sys_dict.len()
            invariant
                i <= self.sys_dict@.len(),
                ds == self.layers(),
                ds.len() == self.sys_dict@.len() + 1,
                syls == syllables_view(syllables@),
                phrases_view(all@) == layered_found(ds.take(i as int), syls, strategy),
            decreases self.sys_dict@.len() - i,
        {
            let found = self.sys_dict[i].lookup_all_phrases(syllables, strategy);
            proof {
                assert(ds[i as int] == self.sys_dict@[i as int]);
                assert(ds.take(i + 1).drop_last() =~= ds.take(i as int));
            }
            append_phrases(&mut all, &found);
            i = i + 1;
        }
        let found = self.user_dict.lookup_all_phrases(syllables, strategy);
        proof {
            assert(ds[i as int] == self.user_dict);
            assert(ds.take(i + 1).drop_last() =~= ds.take(i as int));
            assert(ds.take(i + 1) =~= ds);
        }
        append_phrases(&mut all, &found);
        merge_phrases_sum(&all)
    }

    /// Returns all entries of all dictionaries; duplicates are kept.
    pub fn entries(&self) -> (r: Vec<(Vec<Syllable>, Phrase)>)
        ensures
            entries_view(r@) == layered_entries(self.layers()),
    {
        let ghost ds = self.layers();
        let mut all: Vec<(Vec<Syllable>, Phrase)> = Vec::new();
        let mut i: usize = 0;
        assert(ds.take(0) =~= Seq::<AnyDictionary>::empty());
        while i < self.sys_dict.len()
            invariant
                i <= self.sys_dict@.len(),
                ds == self.layers(),
                ds.len() == self.sys_dict@.len() + 1,
                entries_view(all@) == layered_entries(ds.take(i as int)),
            decreases self.sys_dict@.len() - i,
        {
            let mut es = Dictionary::entries(&self.sys_dict[i]);
            proof {
                assert(ds[i as int] == self.sys_dict@[i as int]);
                assert(ds.take(i + 1).drop_last() =~= ds.take(i as int));
            }
            let ghost before = entries_view(all@);
            let ghost ev = entries_view(es@);
            all.append(&mut es);
            assert(entries_view(all@) =~= before + ev);
            i = i + 1;
        }
        let mut es = Dictionary::entries(&self.user_dict);
        proof {
            assert(ds[i as int] == self.user_dict);
            assert(ds.take(i + 1).drop_last() =~= ds.take(i as int));
            assert(ds.take(i + 1) =~= ds);
        }
        let ghost before = entries_view(all@);
        let ghost ev = entries_view(es@);
        all.append(&mut es);
        assert(entries_view(all@) =~= before + ev);
        all
    }
}

/// Appends copies of phrases.
fn append_phrases(all: &mut Vec<Phrase>, found: &Vec<Phrase>)
    ensures
        phrases_view(final(all)@) == phrases_view(old(all)@) + phrases_view(found@),
{
    let ghost before = phrases_view(all@);
    let mut j: usize = 0;
    while j < found.len()
        invariant
            j <= found@.len(),
            phrases_view(all@) == before + phrases_view(found@).take(j as int),
        decreases found@.len() - j,
    {
        let ghost prev = phrases_view(all@);
        let c = found[j].clone();
        all.push(c);
        assert(phrases_view(all@) =~= prev.push(found@[j as int]@));
        assert(phrases_view(found@).take(j + 1) =~= phrases_view(found@).take(j as int).push(found@[j as int]@));
        assert(phrases_view(all@) =~= before + phrases_view(found@).take(j + 1));
        j = j + 1;
    }
    assert(phrases_view(found@).take(j as int) =~= phrases_view(found@));
}

impl Dictionary for Layered {
    open spec fn lookup_view(&self, syls: Seq<u16>, first: nat, strategy: LookupStrategy) -> Seq<PhraseView> {
        first_n(self.lookup_spec(syls, strategy), first)
    }

    open spec fn entries_spec(&self) -> Seq<EntryView> {
        layered_entries(self.layers())
    }

    open spec fn about_view(&self) -> DictionaryInfoView {
        (seq!['B', 'u', 'i', 'l', 't', '-', 'i', 'n', ' ', 'L', 'a', 'y', 'e', 'r', 'e', 'd'], Seq::empty(), Seq::empty(), Seq::empty(), Seq::empty())
    }

    fn lookup_first_n_phrases(&self, syllables: &[Syllable], first: usize, strategy: LookupStrategy) -> (r: Vec<
        Phrase,
    >) {
        let mut all = self.lookup(syllables, strategy);
        if first < all.len() {
            all.truncate(first);
        }
        assert(phrases_view(all@) =~= first_n(self.lookup_spec(syllables_view(syllables@), strategy), first as nat));
        all
    }

    fn entries(&self) -> (r: Vec<(Vec<Syllable>, Phrase)>) {
        Layered::entries(self)
    }

    fn about(&self) -> (r: DictionaryInfo) {
        let mut info = DictionaryInfo::empty();
        info.name = layered_name();
        info
    }
}

/// The name of a layered dictionary.
fn layered_name() -> (s: String)
    ensures
        s@ == seq!['B', 'u', 'i', 'l', 't', '-', 'i', 'n', ' ', 'L', 'a', 'y', 'e', 'r', 'e', 'd'],
{
    let name = "Built-in Layered";
    proof {
        reveal_strlit("Built-in Layered");
    }
    let s = name.to_owned();
    assert(s@ =~= seq!['B', 'u', 'i', 'l', 't', '-', 'i', 'n', ' ', 'L', 'a', 'y', 'e', 'r', 'e', 'd']);
    s
}

impl DictionaryMut for Layered {
    open spec fn mut_wf(&self) -> bool {
        self.user_view().mut_wf()
    }

    fn reopen(&mut self) -> (r: Result<(), UpdateDictionaryError>)
        ensures
            r is Ok <==> old(self).user_view().is_mutable(),
    {
        DictionaryMut::reopen(&mut self.user_dict)
    }

    fn flush(&mut self) -> (r: Result<(), UpdateDictionaryError>)
        ensures
            r is Ok <==> old(self).user_view().is_mutable(),
    {
        DictionaryMut::flush(&mut self.user_dict)
    }

    fn add_phrase(&mut self, syllables: &[Syllable], phrase: Phrase) -> (r: Result<(), UpdateDictionaryError>)
        ensures
            phrase@.0.len() == 0 ==> r is Ok && *final(self) == *old(self),
            phrase@.0.len() > 0 && !old(self).user_view().is_mutable() ==> r is Err,
            phrase@.0.len() > 0 ==> final(self).system_view() == old(self).system_view() && any_add_effect(
                old(self).user_view(),
                final(self).user_view(),
                syllables_view(syllables@),
                phrase@,
                r is Ok,
            ),
    {
        if phrase.phrase.as_str().unicode_len() == 0 {
            return Ok(());
        }
        DictionaryMut::add_phrase(&mut self.user_dict, syllables, phrase)
    }

    fn update_phrase(&mut self, syllables: &[Syllable], phrase: Phrase, user_freq: u32, time: u64) -> (r: Result<
        (),
        UpdateDictionaryError,
    >)
        ensures
            phrase@.0.len() == 0 ==> r is Ok && *final(self) == *old(self),
            phrase@.0.len() > 0 && !old(self).user_view().is_mutable() ==> r is Err,
            phrase@.0.len() > 0 ==> final(self).system_view() == old(self).system_view() && any_update_effect(
                old(self).user_view(),
                final(self).user_view(),
                syllables_view(syllables@),
                phrase@.0,
                user_freq,
                time,
                r is Ok,
            ),
    {
        if phrase.phrase.as_str().unicode_len() == 0 {
            return Ok(());
        }
        DictionaryMut::update_phrase(&mut self.user_dict, syllables, phrase, user_freq, time)
    }

    fn remove_phrase(&mut self, syllables: &[Syllable], phrase_str: &str) -> (r: Result<(), UpdateDictionaryError>)
        ensures
            !old(self).user_view().is_mutable() ==> r is Err,
            final(self).system_view() == old(self).system_view(),
            any_remove_effect(old(self).user_view(), final(self).user_view(), syllables_view(syllables@), phrase_str@, r is Ok),
    {
        DictionaryMut::remove_phrase(&mut self.user_dict, syllables, phrase_str)
    }
}

/// An add that the user dictionary refuses leaves every lookup of a layered
/// dictionary as it was.
pub proof fn law_refused_add_keeps_lookups(
    o: Layered,
    n: Layered,
    syls: Seq<u16>,
    p: PhraseView,
    other: Seq<u16>,
    strategy: LookupStrategy,
)
    requires
        n.system_view() == o.system_view(),
        any_add_effect(o.user_view(), n.user_view(), syls, p, false),
    ensures
        n.lookup_spec(other, strategy) == o.lookup_spec(other, strategy),
{
    assert(n.user_view() == o.user_view());
    assert(n.layers() =~= o.layers());
}

} // verus!
