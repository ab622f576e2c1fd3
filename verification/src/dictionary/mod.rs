//! Systems and user phrase dictionaries.

use vstd::prelude::*;

pub mod trie_format;
pub mod trie;
pub mod layout;
pub mod trie_walk;
pub mod trie_buf;
pub mod layered;
pub mod usage;
pub mod loader;
pub mod uhash;

use crate::zhuyin::Syllable;

verus! {

/// The abstract value of a phrase: its text, frequency and last used time.
pub type PhraseView = (Seq<char>, u32, Option<u64>);

/// A type containing a phrase string and its frequency.
///
/// Phrases are ordered by their frequency first, then by their phrase
/// string (see [`compare_phrases`]).
#[derive(Debug, PartialEq, Eq, Hash)]
pub struct Phrase {
    /// The phrase text.
    pub phrase: String,
    /// The frequency of the phrase.
    pub freq: u32,
    /// The last time this phrase was selected as user phrase.
    pub last_used: Option<u64>,
}

impl View for Phrase {
    type V = PhraseView;

    open spec fn view(&self) -> PhraseView {
        (self.phrase@, self.freq, self.last_used)
    }
}

/// The views of a sequence of phrases.
pub open spec fn phrases_view(s: Seq<Phrase>) -> Seq<PhraseView> {
    s.map_values(|p: Phrase| p@)
}

impl Clone for Phrase {
    fn clone(&self) -> (r: Phrase)
        ensures
            r@ == self@,
    {
        Phrase { phrase: self.phrase.clone(), freq: self.freq, last_used: self.last_used }
    }
}

impl Phrase {
    /// Creates a new `Phrase`.
    pub fn new(phrase: &str, freq: u32) -> (p: Phrase)
        ensures
            p@ == (phrase@, freq, None::<u64>),
    {
        Phrase { phrase: phrase.to_owned(), freq, last_used: None }
    }

    /// Sets the last used time of the phrase.
    pub fn with_time(self, last_used: u64) -> (p: Phrase)
        ensures
            p@ == (self@.0, self@.1, Some(last_used)),
    {
        Phrase { phrase: self.phrase, freq: self.freq, last_used: Some(last_used) }
    }

    /// Returns the frequency of the phrase.
    pub fn freq(&self) -> (f: u32)
        ensures
            f == self@.1,
    {
        self.freq
    }

    /// Returns the last time this phrase was selected as user phrase.
    ///
    /// The time is a counter increased by one for each keystroke.
    pub fn last_used(&self) -> (t: Option<u64>)
        ensures
            t == self@.2,
    {
        self.last_used
    }

    /// Returns the inner str of the phrase.
    pub fn as_str(&self) -> (s: &str)
        ensures
            s@ == self@.0,
    {
        self.phrase.as_str()
    }

    /// Returns the phrase string.
    pub fn to_string(&self) -> (s: String)
        ensures
            s@ == self@.0,
    {
        self.phrase.clone()
    }
}

impl From<(String, u32)> for Phrase {
    /// A phrase with the text and frequency, and no last used time.
    fn from(tuple: (String, u32)) -> (p: Phrase) {
        Phrase { phrase: tuple.0, freq: tuple.1, last_used: None }
    }
}

impl vstd::std_specs::convert::FromSpecImpl<(String, u32)> for Phrase {
    open spec fn obeys_from_spec() -> bool {
        true
    }

    open spec fn from_spec(tuple: (String, u32)) -> Phrase {
        Phrase { phrase: tuple.0, freq: tuple.1, last_used: None }
    }
}

impl From<(String, u32, u64)> for Phrase {
    /// A phrase with the text, frequency and last used time.
    fn from(tuple: (String, u32, u64)) -> (p: Phrase) {
        Phrase { phrase: tuple.0, freq: tuple.1, last_used: Some(tuple.2) }
    }
}

impl vstd::std_specs::convert::FromSpecImpl<(String, u32, u64)> for Phrase {
    open spec fn obeys_from_spec() -> bool {
        true
    }

    open spec fn from_spec(tuple: (String, u32, u64)) -> Phrase {
        Phrase { phrase: tuple.0, freq: tuple.1, last_used: Some(tuple.2) }
    }
}

impl<'a> From<(&'a str, u32)> for Phrase {
    /// A phrase with the text and frequency, and no last used time.
    fn from(tuple: (&'a str, u32)) -> (p: Phrase)
        ensures
            p@ == (tuple.0@, tuple.1, None::<u64>),
    {
        Phrase::new(tuple.0, tuple.1)
    }
}

impl<'a> vstd::std_specs::convert::FromSpecImpl<(&'a str, u32)> for Phrase {
    open spec fn obeys_from_spec() -> bool {
        false
    }

    open spec fn from_spec(tuple: (&'a str, u32)) -> Phrase {
        choose|p: Phrase| #[trigger] p@ == (tuple.0@, tuple.1, None::<u64>)
    }
}

impl<'a> From<(&'a str, u32, u64)> for Phrase {
    /// A phrase with the text, frequency and last used time.
    fn from(tuple: (&'a str, u32, u64)) -> (p: Phrase)
        ensures
            p@ == (tuple.0@, tuple.1, Some(tuple.2)),
    {
        Phrase::new(tuple.0, tuple.1).with_time(tuple.2)
    }
}

impl<'a> vstd::std_specs::convert::FromSpecImpl<(&'a str, u32, u64)> for Phrase {
    open spec fn obeys_from_spec() -> bool {
        false
    }

    open spec fn from_spec(tuple: (&'a str, u32, u64)) -> Phrase {
        choose|p: Phrase| #[trigger] p@ == (tuple.0@, tuple.1, Some(tuple.2))
    }
}

impl From<Phrase> for (String, u32) {
    /// The text and frequency of a phrase.
    fn from(phrase: Phrase) -> (r: (String, u32)) {
        (phrase.phrase, phrase.freq)
    }
}

impl vstd::std_specs::convert::FromSpecImpl<Phrase> for (String, u32) {
    open spec fn obeys_from_spec() -> bool {
        true
    }

    open spec fn from_spec(phrase: Phrase) -> (String, u32) {
        (phrase.phrase, phrase.freq)
    }
}

impl From<Phrase> for String {
    /// The text of a phrase.
    fn from(phrase: Phrase) -> (r: String) {
        phrase.phrase
    }
}

impl vstd::std_specs::convert::FromSpecImpl<Phrase> for String {
    open spec fn obeys_from_spec() -> bool {
        true
    }

    open spec fn from_spec(phrase: Phrase) -> String {
        phrase.phrase
    }
}

/// Converting a phrase to its text and frequency and back gives the same
/// text, frequency and no last used time.
pub proof fn law_phrase_tuple_round_trip(p: Phrase)
    ensures
        <Phrase as vstd::std_specs::convert::FromSpec<(String, u32)>>::from_spec(
            <(String, u32) as vstd::std_specs::convert::FromSpec<Phrase>>::from_spec(p),
        )@ == (p@.0, p@.1, None::<u64>),
{
}

/// The result of comparing two values.
#[derive(Debug, Clone, Copy, PartialEq, Eq, Structural)]
pub enum Cmp {
    /// The first value is smaller.
    Less,
    /// Both values are equal.
    Equal,
    /// The first value is greater.
    Greater,
}

/// Lexicographic comparison of byte strings (the order of Rust's `str`).
pub open spec fn bytes_order(a: Seq<u8>, b: Seq<u8>) -> Cmp
    decreases a.len(),
{
    if a.len() == 0 && b.len() == 0 {
        Cmp::Equal
    } else if a.len() == 0 {
        Cmp::Less
    } else if b.len() == 0 {
        Cmp::Greater
    } else if a[0] < b[0] {
        Cmp::Less
    } else if a[0] > b[0] {
        Cmp::Greater
    } else {
        bytes_order(a.drop_first(), b.drop_first())
    }
}

/// Lexicographic comparison of the UTF-8 encodings of two strings.
pub open spec fn str_order(a: Seq<char>, b: Seq<char>) -> Cmp {
    bytes_order(vstd::utf8::encode_utf8(a), vstd::utf8::encode_utf8(b))
}

/// Phrases are compared by their frequency first, followed by their phrase
/// string.
pub open spec fn phrase_order(a: PhraseView, b: PhraseView) -> Cmp {
    if a.1 < b.1 {
        Cmp::Less
    } else if a.1 > b.1 {
        Cmp::Greater
    } else {
        str_order(a.0, b.0)
    }
}

/// Compares two byte strings lexicographically.
pub fn compare_bytes(a: &[u8], b: &[u8]) -> (c: Cmp)
    ensures
        c == bytes_order(a@, b@),
{
    let mut i: usize = 0;
    assert(a@.skip(0) =~= a@);
    assert(b@.skip(0) =~= b@);
    while i < a.len() && i < b.len()
        invariant
            i <= a@.len(),
            i <= b@.len(),
            a@.subrange(0, i as int) == b@.subrange(0, i as int),
            bytes_order(a@, b@) == bytes_order(a@.skip(i as int), b@.skip(i as int)),
        decreases a@.len() - i,
    {
        if a[i] < b[i] {
            return Cmp::Less;
        }
        if a[i] > b[i] {
            return Cmp::Greater;
        }
        proof {
            assert(a@.skip(i as int).drop_first() =~= a@.skip(i + 1));
            assert(b@.skip(i as int).drop_first() =~= b@.skip(i + 1));
            assert(a@.subrange(0, i + 1) =~= a@.subrange(0, i as int).push(a@[i as int]));
            assert(b@.subrange(0, i + 1) =~= b@.subrange(0, i as int).push(b@[i as int]));
        }
        i = i + 1;
    }
    proof {
        if i < a@.len() {
            assert(b@.skip(i as int).len() == 0);
        } else if i < b@.len() {
            assert(a@.skip(i as int).len() == 0);
        } else {
            assert(a@.skip(i as int).len() == 0);
            assert(b@.skip(i as int).len() == 0);
        }
    }
    if i < a.len() {
        Cmp::Greater
    } else if i < b.len() {
        Cmp::Less
    } else {
        Cmp::Equal
    }
}

/// Compares two strings by the byte order of their UTF-8 encodings.
pub fn compare_str(a: &str, b: &str) -> (c: Cmp)
    ensures
        c == str_order(a@, b@),
{
    compare_bytes(a.as_bytes(), b.as_bytes())
}

/// Compares two phrases by their frequency first, followed by their
/// phrase string.
pub fn compare_phrases(a: &Phrase, b: &Phrase) -> (c: Cmp)
    ensures
        c == phrase_order(a@, b@),
{
    if a.freq < b.freq {
        Cmp::Less
    } else if a.freq > b.freq {
        Cmp::Greater
    } else {
        compare_str(a.phrase.as_str(), b.phrase.as_str())
    }
}

/// A collection of metadata of a dictionary.
#[derive(Debug, Default)]
pub struct DictionaryInfo {
    /// The name of the dictionary.
    pub name: String,
    /// The copyright information of the dictionary.
    pub copyright: String,
    /// The license information of the dictionary.
    pub license: String,
    /// The version of the dictionary.
    pub version: String,
    /// The name of the software used to generate the dictionary.
    pub software: String,
}

/// The abstract value of the dictionary metadata.
pub type DictionaryInfoView = (Seq<char>, Seq<char>, Seq<char>, Seq<char>, Seq<char>);

impl View for DictionaryInfo {
    type V = DictionaryInfoView;

    open spec fn view(&self) -> DictionaryInfoView {
        (self.name@, self.copyright@, self.license@, self.version@, self.software@)
    }
}

impl Clone for DictionaryInfo {
    fn clone(&self) -> (r: DictionaryInfo)
        ensures
            r@ == self@,
    {
        DictionaryInfo {
            name: self.name.clone(),
            copyright: self.copyright.clone(),
            license: self.license.clone(),
            version: self.version.clone(),
            software: self.software.clone(),
        }
    }
}

/// Metadata with all fields empty.
pub open spec fn empty_info_view() -> DictionaryInfoView {
    (Seq::empty(), Seq::empty(), Seq::empty(), Seq::empty(), Seq::empty())
}

impl DictionaryInfo {
    /// Metadata with all fields empty.
    pub fn empty() -> (r: DictionaryInfo)
        ensures
            r@ == empty_info_view(),
    {
        DictionaryInfo {
            name: String::new(),
            copyright: String::new(),
            license: String::new(),
            version: String::new(),
            software: String::new(),
        }
    }
}

/// The error type which is returned from building a dictionary.
#[derive(Debug)]
pub struct BuildDictionaryError {
    /// What went wrong.
    pub kind: BuildErrorKind,
}

/// The reasons a dictionary cannot be built.
#[derive(Debug, Clone, Copy, PartialEq, Eq, Structural)]
pub enum BuildErrorKind {
    /// An entry or the metadata is too large for the file format.
    TooLarge,
    /// The dictionary could not be written.
    Io,
}

/// The error type which is returned from updating a dictionary.
#[derive(Debug)]
pub struct UpdateDictionaryError {
    /// Whether the update was refused because the phrase already exists.
    pub duplicate: bool,
}

impl UpdateDictionaryError {
    /// An update error without further detail.
    pub fn new() -> (e: UpdateDictionaryError)
        ensures
            !e.duplicate,
    {
        UpdateDictionaryError { duplicate: false }
    }
}

/// The error type which is returned when a phrase to add already exists.
#[derive(Debug, Clone, Copy, PartialEq, Eq, Structural)]
pub struct DuplicatePhraseError;

/// The lookup strategy hint for dictionary.
///
/// If the dictionary supports the lookup strategy it should try to use.
/// Otherwise fallback to standard.
#[derive(Default, Debug, Clone, Copy, PartialEq, Eq, Structural)]
pub enum LookupStrategy {
    /// The native lookup strategy supported by the dictionary.
    #[default]
    Standard,
    /// Try to fuzzy match partial syllables using only prefix.
    FuzzyPartialPrefix,
}


/// A collection of phrases looked up by their syllables.
///
/// Lookups return phrases in a stable order for the same input.
pub trait Dictionary {
    /// The phrases a lookup of the packed syllables `syls` returns, for at
    /// least `first` phrases where the dictionary has them.
    spec fn lookup_view(&self, syls: Seq<u16>, first: nat, strategy: LookupStrategy) -> Seq<PhraseView>;

    /// All entries of the dictionary, in the order they are enumerated.
    spec fn entries_spec(&self) -> Seq<crate::dictionary::trie_walk::EntryView>;

    /// The metadata of the dictionary.
    spec fn about_view(&self) -> DictionaryInfoView;

    /// Returns the first phrases matched by the syllables.
    fn lookup_first_n_phrases(&self, syllables: &[Syllable], first: usize, strategy: LookupStrategy) -> (r: Vec<
        Phrase,
    >)
        ensures
            phrases_view(r@) == self.lookup_view(
                crate::dictionary::trie::syllables_view(syllables@),
                first as nat,
                strategy,
            ),
    ;

    /// Returns the first phrase matched by the syllables.
    fn lookup_first_phrase(&self, syllables: &[Syllable], strategy: LookupStrategy) -> (r: Option<Phrase>)
        ensures
            ({
                let v = self.lookup_view(crate::dictionary::trie::syllables_view(syllables@), 1, strategy);
                &&& r is None <==> v.len() == 0
                &&& r matches Some(p) ==> p@ == v[0]
            }),
    {
        let v = self.lookup_first_n_phrases(syllables, 1, strategy);
        if v.len() == 0 {
            None
        } else {
            Some(v[0].clone())
        }
    }

    /// Returns all phrases matched by the syllables.
    fn lookup_all_phrases(&self, syllables: &[Syllable], strategy: LookupStrategy) -> (r: Vec<Phrase>)
        ensures
            phrases_view(r@) == self.lookup_view(
                crate::dictionary::trie::syllables_view(syllables@),
                usize::MAX as nat,
                strategy,
            ),
    {
        self.lookup_first_n_phrases(syllables, usize::MAX, strategy)
    }

    /// Returns all entries of the dictionary.
    fn entries(&self) -> (r: Vec<(Vec<Syllable>, Phrase)>)
        ensures
            crate::dictionary::trie_walk::entries_view(r@) == self.entries_spec(),
    ;

    /// Returns information about the dictionary instance.
    fn about(&self) -> (r: DictionaryInfo)
        ensures
            r@ == self.about_view(),
    ;
}

/// An interface for updating dictionaries.
pub trait DictionaryMut {
    /// The dictionary's internal consistency.
    spec fn mut_wf(&self) -> bool;

    /// Reopens the dictionary if it was changed by a different process.
    fn reopen(&mut self) -> (r: Result<(), UpdateDictionaryError>)
        requires
            old(self).mut_wf(),
        ensures
            final(self).mut_wf(),
    ;

    /// Flushes all the changes back to the storage.
    fn flush(&mut self) -> (r: Result<(), UpdateDictionaryError>)
        requires
            old(self).mut_wf(),
        ensures
            final(self).mut_wf(),
    ;

    /// Adds a phrase; fails when the phrase already exists for the
    /// syllables.
    fn add_phrase(&mut self, syllables: &[Syllable], phrase: Phrase) -> (r: Result<(), UpdateDictionaryError>)
        requires
            old(self).mut_wf(),
        ensures
            final(self).mut_wf(),
    ;

    /// Sets the frequency and last used time of a phrase, adding it when
    /// missing.
    fn update_phrase(&mut self, syllables: &[Syllable], phrase: Phrase, user_freq: u32, time: u64) -> (r: Result<
        (),
        UpdateDictionaryError,
    >)
        requires
            old(self).mut_wf(),
        ensures
            final(self).mut_wf(),
    ;

    /// Removes a phrase.
    fn remove_phrase(&mut self, syllables: &[Syllable], phrase_str: &str) -> (r: Result<(), UpdateDictionaryError>)
        requires
            old(self).mut_wf(),
        ensures
            final(self).mut_wf(),
    ;
}

/// An interface for building dictionaries.
pub trait DictionaryBuilder {
    /// The builder's internal consistency.
    spec fn builder_wf(&self) -> bool;

    /// Sets the dictionary metadata.
    fn set_info(&mut self, info: DictionaryInfo) -> (r: Result<(), BuildDictionaryError>)
        requires
            old(self).builder_wf(),
        ensures
            final(self).builder_wf(),
    ;

    /// Inserts an entry.
    fn insert(&mut self, syllables: &[Syllable], phrase: Phrase) -> (r: Result<(), BuildDictionaryError>)
        requires
            old(self).builder_wf(),
        ensures
            final(self).builder_wf(),
    ;

    /// Encodes the dictionary file.
    fn build(&self) -> (r: Result<Vec<u8>, BuildDictionaryError>)
        requires
            self.builder_wf(),
    ;
}

} // verus!
