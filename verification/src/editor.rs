//! The state of the input editor: its options, modes, composition and
//! conversion.

use vstd::prelude::*;

use crate::conversion::simple::ConversionEngine;
use crate::conversion::{Composition, Interval, IntervalView, Symbol, intervals_view};
use crate::dictionary::Dictionary;
use crate::dictionary::trie_buf::same_text;
use crate::zhuyin::Syllable;
use vstd::string::StringExecFns;

verus! {

/// The input language.
#[derive(Debug, Clone, Copy, PartialEq, Eq, Structural)]
pub enum LanguageMode {
    /// Phonetic input of Chinese.
    Chinese,
    /// Direct input of English.
    English,
}

/// The width of entered characters.
#[derive(Debug, Clone, Copy, PartialEq, Eq, Structural)]
pub enum CharacterForm {
    /// Half width characters.
    Halfwidth,
    /// Full width characters.
    Fullwidth,
}

/// Where a learned user phrase is taken from the cursor.
#[derive(Debug, Clone, Copy, PartialEq, Eq, Structural)]
pub enum UserPhraseAddDirection {
    /// After the cursor.
    Forward,
    /// Before the cursor.
    Backward,
}

/// The options of the editor.
#[derive(Debug, Clone, Copy, PartialEq, Eq, Structural)]
pub struct EditorOptions {
    /// Whether symbols are entered by easy symbol input.
    pub easy_symbol_input: bool,
    /// Whether escape clears the whole buffer.
    pub esc_clear_all_buffer: bool,
    /// Whether space selects candidates.
    pub space_is_select_key: bool,
    /// Whether the cursor moves after a selection.
    pub auto_shift_cursor: bool,
    /// Whether phrases are chosen backwards from the cursor.
    pub phrase_choice_rearward: bool,
    /// Whether committed phrases are learned.
    pub auto_learn_phrase: bool,
    /// The number of symbols after which the buffer is committed.
    pub auto_commit_threshold: usize,
    /// The number of candidates on a page.
    pub candidates_per_page: usize,
    /// The input language.
    pub language_mode: LanguageMode,
    /// The width of entered characters.
    pub character_form: CharacterForm,
    /// Where a learned user phrase is taken from.
    pub user_phrase_add_dir: UserPhraseAddDirection,
}

impl EditorOptions {
    /// The default options.
    pub open spec fn default_options_spec() -> EditorOptions {
        EditorOptions {
            easy_symbol_input: false,
            esc_clear_all_buffer: false,
            space_is_select_key: false,
            auto_shift_cursor: true,
            phrase_choice_rearward: false,
            auto_learn_phrase: true,
            auto_commit_threshold: 16,
            candidates_per_page: 10,
            language_mode: LanguageMode::Chinese,
            character_form: CharacterForm::Halfwidth,
            user_phrase_add_dir: UserPhraseAddDirection::Backward,
        }
    }

    /// The default options.
    pub fn default_options() -> (o: EditorOptions)
        ensures
            !o.easy_symbol_input,
            !o.esc_clear_all_buffer,
            !o.space_is_select_key,
            o.auto_shift_cursor,
            !o.phrase_choice_rearward,
            o.auto_learn_phrase,
            o.auto_commit_threshold == 16,
            o.candidates_per_page == 10,
            o.language_mode == LanguageMode::Chinese,
            o.character_form == CharacterForm::Halfwidth,
            o.user_phrase_add_dir == UserPhraseAddDirection::Backward,
    {
        EditorOptions {
            easy_symbol_input: false,
            esc_clear_all_buffer: false,
            space_is_select_key: false,
            auto_shift_cursor: true,
            phrase_choice_rearward: false,
            auto_learn_phrase: true,
            auto_commit_threshold: 16,
            candidates_per_page: 10,
            language_mode: LanguageMode::Chinese,
            character_form: CharacterForm::Halfwidth,
            user_phrase_add_dir: UserPhraseAddDirection::Backward,
        }
    }
}

/// Indicates the state change of the editor.
#[derive(Debug, Clone, Copy, PartialEq, Eq, Structural)]
pub enum EditorKeyBehavior {
    /// The key has no effect so it was ignored.
    Ignore,
    /// The key caused a conversion update.
    Commit,
    /// The key is an error.
    Bell,
    /// The key changed the editing state so was absorbed.
    Absorb,
}

/// The syllable being entered.
#[derive(Debug, Clone, Copy)]
pub struct SyllableEditor {
    /// The syllable read so far.
    pub syllable: Syllable,
}

/// The candidates offered while selecting, and the page shown.
#[derive(Debug)]
pub struct Selecting {
    /// The candidates.
    pub candidates: Vec<String>,
    /// The page shown.
    pub page_no: usize,
}

/// The state of the editor, with the behavior of the last key.
#[derive(Debug)]
pub enum EditorState {
    /// Entering symbols.
    Entering(EditorKeyBehavior),
    /// Entering a syllable.
    EnteringSyllable(EditorKeyBehavior),
    /// Selecting a candidate.
    Selecting(EditorKeyBehavior, Selecting),
    /// Highlighting a range.
    Highlighting(EditorKeyBehavior),
    /// A state that no key leads out of.
    Invalid,
}

/// The editor: the composition, the syllable being entered, the
/// conversion and the options.
pub struct Editor<C: ConversionEngine<D>, D: Dictionary> {
    com: Composition,
    cursor: usize,
    syl: SyllableEditor,
    conv: C,
    dict: D,
    options: EditorOptions,
    state: EditorState,
    nth_conversion: usize,
    commit_buffer: String,
}

/// The texts of intervals joined.
pub open spec fn joined_text(s: Seq<IntervalView>) -> Seq<char>
    decreases s.len(),
{
    if s.len() == 0 {
        Seq::empty()
    } else {
        joined_text(s.drop_last()) + s.last().3
    }
}

/// The candidates from page `page` on.
pub open spec fn from_page(c: Seq<Seq<char>>, page: nat, per_page: nat) -> Seq<Seq<char>> {
    if page * per_page >= c.len() {
        Seq::empty()
    } else {
        c.skip((page * per_page) as int)
    }
}

/// The number of pages of candidates.
pub open spec fn page_count(n: nat, per_page: nat) -> nat {
    if per_page == 0 {
        0
    } else {
        n / per_page + if n % per_page == 0 {
            0nat
        } else {
            1nat
        }
    }
}

/// The texts of strings.
pub open spec fn strings_view(s: Seq<String>) -> Seq<Seq<char>> {
    s.map_values(|x: String| x@)
}

impl<C: ConversionEngine<D>, D: Dictionary> Editor<C, D> {
    /// The options.
    pub closed spec fn options_view(&self) -> EditorOptions {
        self.options
    }

    /// The composition.
    pub closed spec fn composition(&self) -> &Composition {
        &self.com
    }

    /// The cursor position.
    pub closed spec fn cursor_view(&self) -> nat {
        self.cursor as nat
    }

    /// The syllable being entered.
    pub closed spec fn syllable_view(&self) -> u16 {
        self.syl.syllable@
    }

    /// The committed text.
    pub closed spec fn commit_view(&self) -> Seq<char> {
        self.commit_buffer@
    }

    /// The behavior of the last key.
    pub closed spec fn last_behavior(&self) -> EditorKeyBehavior {
        match self.state {
            EditorState::Entering(b) => b,
            EditorState::EnteringSyllable(b) => b,
            EditorState::Selecting(b, _) => b,
            EditorState::Highlighting(b) => b,
            EditorState::Invalid => EditorKeyBehavior::Ignore,
        }
    }

    /// The candidates and page while selecting.
    pub closed spec fn selecting_view(&self) -> Option<(Seq<Seq<char>>, nat)> {
        match self.state {
            EditorState::Selecting(_, s) => Some((strings_view(s.candidates@), s.page_no as nat)),
            _ => None,
        }
    }

    /// The intervals shown: the alternative chosen among the conversions,
    /// or none when there are not that many.
    pub closed spec fn shown(&self) -> Seq<IntervalView> {
        let alts = self.conv.conversions(&self.dict, &self.com);
        if self.nth_conversion < alts.len() {
            alts[self.nth_conversion as int]
        } else {
            Seq::empty()
        }
    }

    /// Whether `other` has the composition, cursor, committed text, state
    /// and shown intervals of this editor.
    pub open spec fn keeps_text_state(&self, other: &Self) -> bool {
        &&& self.composition() == other.composition()
        &&& self.cursor_view() == other.cursor_view()
        &&& self.commit_view() == other.commit_view()
        &&& self.last_behavior() == other.last_behavior()
        &&& self.selecting_view() == other.selecting_view()
        &&& self.shown() == other.shown()
    }

    /// Creates an editor with empty buffers, default options, and the
    /// entering state.
    pub fn new(conv: C, dict: D) -> (e: Editor<C, D>)
        ensures
            e.composition().buffer@.len() == 0,
            e.cursor_view() == 0,
            e.syllable_view() == 0,
            e.commit_view().len() == 0,
            e.options_view() == EditorOptions::default_options_spec(),
            e.last_behavior() == EditorKeyBehavior::Ignore,
            e.selecting_view() is None,
    {
        Editor {
            com: Composition::new(),
            cursor: 0,
            syl: SyllableEditor { syllable: Syllable::empty() },
            conv,
            dict,
            options: EditorOptions::default_options(),
            state: EditorState::Entering(EditorKeyBehavior::Ignore),
            nth_conversion: 0,
            commit_buffer: String::new(),
        }
    }

    /// Clears the composition, the syllable and the committed text.
    pub fn clear(&mut self)
        ensures
            final(self).composition().buffer@.len() == 0,
            final(self).cursor_view() == 0,
            final(self).syllable_view() == 0,
            final(self).commit_view().len() == 0,
            final(self).options_view() == old(self).options_view(),
            final(self).last_behavior() == old(self).last_behavior(),
            final(self).selecting_view() == old(self).selecting_view(),
    {
        self.com = Composition::new();
        self.cursor = 0;
        self.syl = SyllableEditor { syllable: Syllable::empty() };
        self.commit_buffer = String::new();
    }

    /// Clears the syllable being entered.
    pub fn clear_syllable_editor(&mut self)
        ensures
            final(self).syllable_view() == 0,
            final(self).options_view() == old(self).options_view(),
            final(self).keeps_text_state(old(self)),
    {
        self.syl = SyllableEditor { syllable: Syllable::empty() };
    }

    /// Replaces the syllable editor.
    pub fn set_syllable_editor(&mut self, syl: SyllableEditor)
        ensures
            final(self).syllable_view() == syl.syllable@,
            final(self).options_view() == old(self).options_view(),
            final(self).keeps_text_state(old(self)),
    {
        self.syl = syl;
    }

    /// The input language.
    pub fn language_mode(&self) -> (m: LanguageMode)
        ensures
            m == self.options_view().language_mode,
    {
        self.options.language_mode
    }

    /// Sets the input language and clears the syllable being entered.
    pub fn set_language_mode(&mut self, language_mode: LanguageMode)
        ensures
            final(self).options_view() == (EditorOptions { language_mode, ..old(self).options_view() }),
            final(self).syllable_view() == 0,
            final(self).keeps_text_state(old(self)),
    {
        self.syl = SyllableEditor { syllable: Syllable::empty() };
        self.options.language_mode = language_mode;
    }

    /// The width of entered characters.
    pub fn character_form(&self) -> (f: CharacterForm)
        ensures
            f == self.options_view().character_form,
    {
        self.options.character_form
    }

    /// Sets the width of entered characters.
    pub fn set_character_form(&mut self, charactor_form: CharacterForm)
        ensures
            final(self).options_view() == (EditorOptions { character_form: charactor_form, ..old(self).options_view() }),
            final(self).syllable_view() == old(self).syllable_view(),
            final(self).keeps_text_state(old(self)),
    {
        self.options.character_form = charactor_form;
    }

    /// The behavior of the last key.
    pub fn last_key_behavior(&self) -> (b: EditorKeyBehavior)
        ensures
            b == self.last_behavior(),
    {
        match &self.state {
            EditorState::Entering(b) => *b,
            EditorState::EnteringSyllable(b) => *b,
            EditorState::Selecting(b, _) => *b,
            EditorState::Highlighting(b) => *b,
            EditorState::Invalid => EditorKeyBehavior::Ignore,
        }
    }

    /// Whether a syllable is being entered.
    pub fn entering_syllable(&self) -> (b: bool)
        ensures
            b == (self.syllable_view() != 0),
    {
        !self.syl.syllable.is_empty()
    }

    /// The cursor position.
    pub fn cursor(&self) -> (c: usize)
        ensures
            c == self.cursor_view(),
    {
        self.cursor
    }

    /// The intervals shown ([`Self::shown`]).
    pub fn intervals(&self) -> (r: Vec<Interval>)
        ensures
            intervals_view(r@) == self.shown(),
    {
        let mut alts = self.conv.convert_all(&self.dict, &self.com);
        if self.nth_conversion < alts.len() {
            let r = alts.swap_remove(self.nth_conversion);
            r
        } else {
            let r: Vec<Interval> = Vec::new();
            assert(intervals_view(r@) =~= Seq::<IntervalView>::empty());
            r
        }
    }

    /// The text shown: the texts of the intervals shown, joined.
    pub fn display(&self) -> (s: String)
        ensures
            s@ == joined_text(self.shown()),
    {
        let intervals = self.intervals();
        let ghost iv = intervals_view(intervals@);
        let mut s = String::new();
        let mut i: usize = 0;
        assert(iv.take(0) =~= Seq::<IntervalView>::empty());
        while i < intervals.len()
            invariant
                i <= intervals@.len(),
                iv == intervals_view(intervals@),
                s@ == joined_text(iv.take(i as int)),
            decreases intervals@.len() - i,
        {
            s.append(intervals[i].phrase.as_str());
            proof {
                assert(iv.take(i + 1).drop_last() =~= iv.take(i as int));
                assert(iv.take(i + 1).last() == intervals@[i as int]@);
            }
            i = i + 1;
        }
        assert(iv.take(i as int) =~= iv);
        s
    }

    /// The committed text.
    pub fn display_commit(&self) -> (s: &str)
        ensures
            s@ == self.commit_view(),
    {
        self.commit_buffer.as_str()
    }

    /// The syllable being entered.
    pub fn syllable_buffer(&self) -> (s: Syllable)
        ensures
            s@ == self.syllable_view(),
    {
        self.syl.syllable
    }

    /// The symbols of the composition.
    pub fn symbols(&self) -> (s: &[Symbol])
        ensures
            s@ == self.composition().buffer@,
    {
        self.com.buffer.as_slice()
    }

    /// The number of symbols.
    pub fn len(&self) -> (n: usize)
        ensures
            n == self.composition().buffer@.len(),
    {
        self.com.buffer.len()
    }

    /// The candidates from the current page on, while selecting.
    pub fn paginated_candidates(&self) -> (r: Result<Vec<String>, ()>)
        ensures
            match self.selecting_view() {
                Some((c, page)) => r matches Ok(v) && strings_view(v@) == from_page(
                    c,
                    page,
                    self.options_view().candidates_per_page as nat,
                ),
                None => r is Err,
            },
    {
        match &self.state {
            EditorState::Selecting(_, sub) => {
                let ghost c = strings_view(sub.candidates@);
                let per = self.options.candidates_per_page;
                let mut out: Vec<String> = Vec::new();
                let cn = sub.candidates.len();
                assert(c.len() == cn);
                let first_index = match sub.page_no.checked_mul(per) {
                    Some(f) => f,
                    None => {
                        assert(strings_view(out@) =~= from_page(c, sub.page_no as nat, per as nat));
                        return Ok(out);
                    },
                };
                if first_index >= sub.candidates.len() {
                    assert(strings_view(out@) =~= from_page(c, sub.page_no as nat, per as nat));
                    return Ok(out);
                }
                let mut i = first_index;
                let ghost first = i;
                while i < sub.candidates.len()
                    invariant
                        first <= i <= sub.candidates@.len(),
                        c == strings_view(sub.candidates@),
                        strings_view(out@) == c.subrange(first as int, i as int),
                    decreases sub.candidates@.len() - i,
                {
                    let ghost prev = strings_view(out@);
                    out.push(sub.candidates[i].clone());
                    assert(strings_view(out@) =~= prev.push(c[i as int]));
                    assert(strings_view(out@) =~= c.subrange(first as int, i + 1));
                    i = i + 1;
                }
                assert(strings_view(out@) =~= from_page(c, sub.page_no as nat, per as nat));
                Ok(out)
            },
            _ => Err(()),
        }
    }

    /// All candidates, while selecting.
    pub fn all_candidates(&self) -> (r: Result<Vec<String>, ()>)
        ensures
            match self.selecting_view() {
                Some((c, _)) => r matches Ok(v) && strings_view(v@) == c,
                None => r is Err,
            },
    {
        match &self.state {
            EditorState::Selecting(_, sub) => {
                let ghost c = strings_view(sub.candidates@);
                let mut out: Vec<String> = Vec::new();
                let mut i: usize = 0;
                while i < sub.candidates.len()
                    invariant
                        i <= sub.candidates@.len(),
                        c == strings_view(sub.candidates@),
                        strings_view(out@) == c.take(i as int),
                    decreases sub.candidates@.len() - i,
                {
                    let ghost prev = strings_view(out@);
                    out.push(sub.candidates[i].clone());
                    assert(strings_view(out@) =~= prev.push(c[i as int]));
                    assert(strings_view(out@) =~= c.take(i + 1));
                    i = i + 1;
                }
                assert(c.take(i as int) =~= c);
                Ok(out)
            },
            _ => Err(()),
        }
    }

    /// The current page, while selecting.
    pub fn current_page_no(&self) -> (r: Result<usize, ()>)
        ensures
            match self.selecting_view() {
                Some((_, page)) => r matches Ok(p) && p == page,
                None => r is Err,
            },
    {
        match &self.state {
            EditorState::Selecting(_, sub) => Ok(sub.page_no),
            _ => Err(()),
        }
    }

    /// The number of pages of candidates, while selecting.
    pub fn total_page(&self) -> (r: Result<usize, ()>)
        ensures
            match self.selecting_view() {
                Some((c, _)) => r matches Ok(p) && p == page_count(c.len(), self.options_view().candidates_per_page as nat),
                None => r is Err,
            },
    {
        match &self.state {
            EditorState::Selecting(_, sub) => {
                let per = self.options.candidates_per_page;
                if per == 0 {
                    return Ok(0);
                }
                let n = sub.candidates.len();
                let extra: usize = if n % per == 0 {
                    0
                } else {
                    1
                };
                assert(n / per < n || n / per == n);
                assert(n / per <= n) by (nonlinear_arith)
                    requires
                        per > 0,
                ;
                if n / per == usize::MAX {
                    assert(per == 1) by (nonlinear_arith)
                        requires
                            per > 0,
                            n / per == usize::MAX,
                            n <= usize::MAX,
                    ;
                }
                let pages = n / per + extra;
                Ok(pages)
            },
            _ => Err(()),
        }
    }

    /// Switches between half and full width characters.
    pub fn switch_character_form(&mut self)
        ensures
            final(self).options_view() == (EditorOptions {
                character_form: match old(self).options_view().character_form {
                    CharacterForm::Halfwidth => CharacterForm::Fullwidth,
                    CharacterForm::Fullwidth => CharacterForm::Halfwidth,
                },
                ..old(self).options_view()
            }),
            final(self).syllable_view() == old(self).syllable_view(),
            final(self).keeps_text_state(old(self)),
    {
        self.options.character_form = match self.options.character_form {
            CharacterForm::Halfwidth => CharacterForm::Fullwidth,
            CharacterForm::Fullwidth => CharacterForm::Halfwidth,
        };
    }

    /// Switches between Chinese and English input.
    pub fn switch_language_mode(&mut self)
        ensures
            final(self).options_view() == (EditorOptions {
                language_mode: match old(self).options_view().language_mode {
                    LanguageMode::English => LanguageMode::Chinese,
                    LanguageMode::Chinese => LanguageMode::English,
                },
                ..old(self).options_view()
            }),
            final(self).syllable_view() == old(self).syllable_view(),
            final(self).keeps_text_state(old(self)),
    {
        self.options.language_mode = match self.options.language_mode {
            LanguageMode::English => LanguageMode::Chinese,
            LanguageMode::Chinese => LanguageMode::English,
        };
    }

    /// The options.
    pub fn editor_options(&self) -> (o: EditorOptions)
        ensures
            o == self.options_view(),
    {
        self.options
    }

    /// Replaces the options.
    pub fn set_editor_options(&mut self, options: EditorOptions)
        ensures
            final(self).options_view() == options,
            final(self).syllable_view() == old(self).syllable_view(),
            final(self).keeps_text_state(old(self)),
    {
        self.options = options;
    }
}

/// The number of symbols covered by the first `k` intervals.
pub open spec fn covered(s: Seq<IntervalView>, k: int) -> int
    decreases k,
{
    if k <= 0 {
        0
    } else {
        covered(s, k - 1) + (s[k - 1].1 - s[k - 1].0)
    }
}

/// The number of leading intervals committed, from `k` on: the fewest after
/// which no more than `threshold` symbols stay, or all of them.
pub open spec fn commit_count(s: Seq<IntervalView>, threshold: nat, k: nat) -> nat
    decreases s.len() - k,
{
    if k >= s.len() || covered(s, s.len() as int) - covered(s, k as int) <= threshold {
        k
    } else {
        commit_count(s, threshold, k + 1)
    }
}

proof fn lemma_covered_grows(s: Seq<IntervalView>, i: int, j: int)
    requires
        0 <= i <= j <= s.len(),
        forall|k: int| 0 <= k < s.len() ==> (#[trigger] s[k]).0 <= s[k].1,
    ensures
        covered(s, i) <= covered(s, j),
    decreases j - i,
{
    if i < j {
        lemma_covered_grows(s, i, j - 1);
    }
}

impl<C: ConversionEngine<D>, D: Dictionary> Editor<C, D> {
    /// Whether the shown intervals are well formed for an automatic commit
    /// ([`Editor::try_auto_commit`]): each starts at or before its end and
    /// together they cover no more symbols than the buffer holds.
    pub fn auto_commit_ready(&self) -> (b: bool)
        ensures
            b == ((forall|k: int| 0 <= k < self.shown().len() ==> (#[trigger] self.shown()[k]).0 <= self.shown()[k].1)
                && covered(self.shown(), self.shown().len() as int) <= self.composition().buffer@.len()),
    {
        let intervals = self.intervals();
        let ghost s = intervals_view(intervals@);
        let n = intervals.len();
        let blen = self.com.buffer.len();
        let mut total: usize = 0;
        let mut i: usize = 0;
        while i < n
            invariant
                s == intervals_view(intervals@),
                s == self.shown(),
                blen == self.composition().buffer@.len(),
                n == s.len(),
                i <= n,
                forall|k: int| 0 <= k < i ==> (#[trigger] s[k]).0 <= s[k].1,
                total == covered(s, i as int),
                total <= blen,
            decreases n - i,
        {
            assert(s[i as int] == intervals@[i as int]@);
            if intervals[i].start > intervals[i].end {
                return false;
            }
            let len = intervals[i].end - intervals[i].start;
            if len > blen - total {
                proof {
                    if forall|k: int| 0 <= k < s.len() ==> (#[trigger] s[k]).0 <= s[k].1 {
                        lemma_covered_grows(s, i + 1, n as int);
                    }
                }
                return false;
            }
            total = total + len;
            i = i + 1;
        }
        true
    }

    /// Commits leading intervals while more symbols than the auto commit
    /// threshold are shown: when they are, the texts of the fewest leading
    /// intervals after which no more than the threshold stay
    /// ([`commit_count`]) become the committed text, their symbols leave
    /// the composition, and the state is entering after a commit.
    pub fn try_auto_commit(&mut self)
        requires
            forall|k: int| 0 <= k < old(self).shown().len() ==> (#[trigger] old(self).shown()[k]).0 <= old(self).shown()[k].1,
            covered(old(self).shown(), old(self).shown().len() as int) <= old(self).composition().buffer@.len(),
        ensures
            ({
                let s = old(self).shown();
                let thr = old(self).options_view().auto_commit_threshold as nat;
                if covered(s, s.len() as int) <= thr {
                    *final(self) == *old(self)
                } else {
                    let k = commit_count(s, thr, 1);
                    &&& final(self).commit_view() == joined_text(s.take(k as int))
                    &&& final(self).composition().buffer@ == old(self).composition().buffer@.skip(covered(s, k as int))
                    &&& final(self).composition().selections@ == old(self).composition().selections@
                    &&& final(self).composition().breaks@ == old(self).composition().breaks@
                    &&& final(self).composition().glues@ == old(self).composition().glues@
                    &&& final(self).last_behavior() == EditorKeyBehavior::Commit
                    &&& final(self).selecting_view() is None
                    &&& final(self).cursor_view() == old(self).cursor_view()
                    &&& final(self).syllable_view() == old(self).syllable_view()
                    &&& final(self).options_view() == old(self).options_view()
                }
            }),
    {
        let intervals = self.intervals();
        let ghost s = intervals_view(intervals@);
        let n = intervals.len();
        let thr = self.options.auto_commit_threshold;
        let blen = self.com.buffer.len();
        let mut total: usize = 0;
        let mut i: usize = 0;
        while i < n
            invariant
                s == intervals_view(intervals@),
                n == s.len(),
                i <= n,
                forall|k: int| 0 <= k < s.len() ==> (#[trigger] s[k]).0 <= s[k].1,
                covered(s, n as int) <= blen,
                total == covered(s, i as int),
            decreases n - i,
        {
            proof {
                lemma_covered_grows(s, i + 1, n as int);
            }
            assert(s[i as int] == intervals@[i as int]@);
            total = total + intervals[i].len();
            i = i + 1;
        }
        if total <= thr {
            return;
        }
        let mut commit = String::new();
        let mut remove: usize = 0;
        let mut k: usize = 0;
        let mut stop = false;
        assert(s.take(0) =~= Seq::<IntervalView>::empty());
        while k < n && !stop
            invariant
                s == intervals_view(intervals@),
                n == s.len(),
                k <= n,
                forall|x: int| 0 <= x < s.len() ==> (#[trigger] s[x]).0 <= s[x].1,
                total == covered(s, n as int),
                total > thr,
                remove == covered(s, k as int),
                commit@ == joined_text(s.take(k as int)),
                !stop ==> commit_count(s, thr as nat, 1) == commit_count(s, thr as nat, if k == 0 {
                    1
                } else {
                    k as nat
                }),
                !stop && k > 0 ==> !(total - remove <= thr),
                stop ==> k >= 1 && commit_count(s, thr as nat, 1) == k,
            decreases n - k, if stop {
                0int
            } else {
                1int
            },
        {
            proof {
                lemma_covered_grows(s, k + 1, n as int);
            }
            assert(s[k as int] == intervals@[k as int]@);
            commit.append(intervals[k].phrase.as_str());
            remove = remove + intervals[k].len();
            proof {
                assert(s.take(k + 1).drop_last() =~= s.take(k as int));
                assert(s.take(k + 1).last() == s[k as int]);
            }
            let ghost k0 = k;
            k = k + 1;
            proof {
                if k0 > 0 {
                    assert(commit_count(s, thr as nat, k0 as nat) == commit_count(s, thr as nat, k as nat));
                }
            }
            if total - remove <= thr {
                assert(commit_count(s, thr as nat, k as nat) == k);
                stop = true;
            }
        }
        proof {
            if !stop {
                assert(k == n);
                assert(commit_count(s, thr as nat, k as nat) == k);
            }
            lemma_covered_grows(s, k as int, n as int);
        }
        let rest = vstd::slice::slice_to_vec(vstd::slice::slice_subrange(self.com.buffer.as_slice(), remove, blen));
        self.com.buffer = rest;
        self.commit_buffer = commit;
        self.state = EditorState::Entering(EditorKeyBehavior::Commit);
    }
}

/// Switching the character form twice gives the options back.
pub proof fn law_switch_character_form_twice(o: EditorOptions)
    ensures
        ({
            let once = EditorOptions {
                character_form: match o.character_form {
                    CharacterForm::Halfwidth => CharacterForm::Fullwidth,
                    CharacterForm::Fullwidth => CharacterForm::Halfwidth,
                },
                ..o
            };
            let twice = EditorOptions {
                character_form: match once.character_form {
                    CharacterForm::Halfwidth => CharacterForm::Fullwidth,
                    CharacterForm::Fullwidth => CharacterForm::Halfwidth,
                },
                ..once
            };
            twice == o
        }),
{
}

/// An integer option of [`EditorOptions`].
#[derive(Debug, Clone, Copy, PartialEq, Eq, Structural)]
pub enum IntOption {
    /// `chewing.user_phrase_add_direction`: the direction of learned phrases.
    UserPhraseAddDirection,
    /// `chewing.disable_auto_learn_phrase`: whether committed phrases are not learned.
    DisableAutoLearnPhrase,
    /// `chewing.auto_shift_cursor`: whether the cursor moves after a selection.
    AutoShiftCursor,
    /// `chewing.candidates_per_page`: the number of candidates on a page.
    CandidatesPerPage,
    /// `chewing.language_mode`: the input language.
    LanguageMode,
    /// `chewing.easy_symbol_input`: whether symbols are entered by easy symbol input.
    EasySymbolInput,
    /// `chewing.esc_clear_all_buffer`: whether escape clears the whole buffer.
    EscClearAllBuffer,
    /// `chewing.auto_commit_threshold`: the number of symbols after which the buffer is committed.
    AutoCommitThreshold,
    /// `chewing.phrase_choice_rearward`: whether phrases are chosen backwards from the cursor.
    PhraseChoiceRearward,
    /// `chewing.character_form`: the width of entered characters.
    CharacterForm,
    /// `chewing.space_is_select_key`: whether space selects candidates.
    SpaceIsSelectKey,
}

/// The integer option that `name` names, if any.
pub open spec fn int_option(name: Seq<char>) -> Option<IntOption> {
    if name == "chewing.user_phrase_add_direction"@ {
        Some(IntOption::UserPhraseAddDirection)
    } else if name == "chewing.disable_auto_learn_phrase"@ {
        Some(IntOption::DisableAutoLearnPhrase)
    } else if name == "chewing.auto_shift_cursor"@ {
        Some(IntOption::AutoShiftCursor)
    } else if name == "chewing.candidates_per_page"@ {
        Some(IntOption::CandidatesPerPage)
    } else if name == "chewing.language_mode"@ {
        Some(IntOption::LanguageMode)
    } else if name == "chewing.easy_symbol_input"@ {
        Some(IntOption::EasySymbolInput)
    } else if name == "chewing.esc_clear_all_buffer"@ {
        Some(IntOption::EscClearAllBuffer)
    } else if name == "chewing.auto_commit_threshold"@ {
        Some(IntOption::AutoCommitThreshold)
    } else if name == "chewing.phrase_choice_rearward"@ {
        Some(IntOption::PhraseChoiceRearward)
    } else if name == "chewing.character_form"@ {
        Some(IntOption::CharacterForm)
    } else if name == "chewing.space_is_select_key"@ {
        Some(IntOption::SpaceIsSelectKey)
    } else {
        None
    }
}

/// Finds the integer option that `name` names.
pub fn find_int_option(name: &str) -> (r: Option<IntOption>)
    ensures
        r == int_option(name@),
{
    if same_text(name, "chewing.user_phrase_add_direction") {
        Some(IntOption::UserPhraseAddDirection)
    } else if same_text(name, "chewing.disable_auto_learn_phrase") {
        Some(IntOption::DisableAutoLearnPhrase)
    } else if same_text(name, "chewing.auto_shift_cursor") {
        Some(IntOption::AutoShiftCursor)
    } else if same_text(name, "chewing.candidates_per_page") {
        Some(IntOption::CandidatesPerPage)
    } else if same_text(name, "chewing.language_mode") {
        Some(IntOption::LanguageMode)
    } else if same_text(name, "chewing.easy_symbol_input") {
        Some(IntOption::EasySymbolInput)
    } else if same_text(name, "chewing.esc_clear_all_buffer") {
        Some(IntOption::EscClearAllBuffer)
    } else if same_text(name, "chewing.auto_commit_threshold") {
        Some(IntOption::AutoCommitThreshold)
    } else if same_text(name, "chewing.phrase_choice_rearward") {
        Some(IntOption::PhraseChoiceRearward)
    } else if same_text(name, "chewing.character_form") {
        Some(IntOption::CharacterForm)
    } else if same_text(name, "chewing.space_is_select_key") {
        Some(IntOption::SpaceIsSelectKey)
    } else {
        None
    }
}

/// Whether the integer option `name` of [`EditorOptions`] accepts `value`:
/// never a negative value; 1 to 10 candidates per page; an automatic
/// commit threshold of 0 to 39; 0 or 1 for the others, the direction of
/// learned phrases (0 forward, 1 backward), the language (0 English, 1
/// Chinese), the character form (0 half width, 1 full width) and the
/// yes-or-no settings. A name that is no integer option
/// ([`int_option`]) accepts nothing.
pub open spec fn option_value_valid(name: Seq<char>, value: i32) -> bool {
    &&& value >= 0
    &&& match int_option(name) {
        None => false,
        Some(IntOption::CandidatesPerPage) => 1 <= value <= 10,
        Some(IntOption::AutoCommitThreshold) => value <= 39,
        Some(_) => value <= 1,
    }
}

/// The options with the integer option `k` set to `value`.
pub open spec fn with_int_option(o: EditorOptions, k: IntOption, value: i32) -> EditorOptions {
    match k {
        IntOption::UserPhraseAddDirection => EditorOptions {
            user_phrase_add_dir: if value == 0 {
                UserPhraseAddDirection::Forward
            } else {
                UserPhraseAddDirection::Backward
            },
            ..o
        },
        IntOption::DisableAutoLearnPhrase => EditorOptions { auto_learn_phrase: value == 0, ..o },
        IntOption::AutoShiftCursor => EditorOptions { auto_shift_cursor: value > 0, ..o },
        IntOption::CandidatesPerPage => EditorOptions { candidates_per_page: value as usize, ..o },
        IntOption::LanguageMode => EditorOptions {
            language_mode: if value == 1 {
                LanguageMode::Chinese
            } else {
                LanguageMode::English
            },
            ..o
        },
        IntOption::EasySymbolInput => EditorOptions { easy_symbol_input: value > 0, ..o },
        IntOption::EscClearAllBuffer => EditorOptions { esc_clear_all_buffer: value > 0, ..o },
        IntOption::AutoCommitThreshold => EditorOptions { auto_commit_threshold: value as usize, ..o },
        IntOption::PhraseChoiceRearward => EditorOptions { phrase_choice_rearward: value > 0, ..o },
        IntOption::CharacterForm => EditorOptions {
            character_form: if value == 1 {
                CharacterForm::Fullwidth
            } else {
                CharacterForm::Halfwidth
            },
            ..o
        },
        IntOption::SpaceIsSelectKey => EditorOptions { space_is_select_key: value > 0, ..o },
    }
}

/// The options with the integer option `name` set to `value`; the options
/// as they are for a name that is no integer option.
pub open spec fn option_set(o: EditorOptions, name: Seq<char>, value: i32) -> EditorOptions {
    match int_option(name) {
        None => o,
        Some(k) => with_int_option(o, k, value),
    }
}

/// The options with the integer option `k` set to `value`.
fn set_option_value(options: &mut EditorOptions, k: IntOption, value: i32)
    requires
        0 <= value,
    ensures
        *final(options) == with_int_option(*old(options), k, value),
{
    match k {
        IntOption::UserPhraseAddDirection => {
            options.user_phrase_add_dir = if value == 0 {
                UserPhraseAddDirection::Forward
            } else {
                UserPhraseAddDirection::Backward
            };
        },
        IntOption::DisableAutoLearnPhrase => {
            options.auto_learn_phrase = value == 0;
        },
        IntOption::AutoShiftCursor => {
            options.auto_shift_cursor = value > 0;
        },
        IntOption::CandidatesPerPage => {
            options.candidates_per_page = value as usize;
        },
        IntOption::LanguageMode => {
            options.language_mode = if value == 1 {
                LanguageMode::Chinese
            } else {
                LanguageMode::English
            };
        },
        IntOption::EasySymbolInput => {
            options.easy_symbol_input = value > 0;
        },
        IntOption::EscClearAllBuffer => {
            options.esc_clear_all_buffer = value > 0;
        },
        IntOption::AutoCommitThreshold => {
            options.auto_commit_threshold = value as usize;
        },
        IntOption::PhraseChoiceRearward => {
            options.phrase_choice_rearward = value > 0;
        },
        IntOption::CharacterForm => {
            options.character_form = if value == 1 {
                CharacterForm::Fullwidth
            } else {
                CharacterForm::Halfwidth
            };
        },
        IntOption::SpaceIsSelectKey => {
            options.space_is_select_key = value > 0;
        },
    }
}

/// Sets the integer option `name` of the options to `value`. A name that
/// is no integer option of the options, or a value that the option does
/// not accept ([`option_value_valid`]), is refused and leaves the options
/// as they were.
pub fn set_int_option(options: &mut EditorOptions, name: &str, value: i32) -> (r: Result<(), ()>)
    ensures
        r is Err <==> !option_value_valid(name@, value),
        r is Err ==> *final(options) == *old(options),
        r is Ok ==> *final(options) == option_set(*old(options), name@, value),
{
    if value < 0 {
        return Err(());
    }
    let k = match find_int_option(name) {
        Some(k) => k,
        None => {
            return Err(());
        },
    };
    let ok = match k {
        IntOption::CandidatesPerPage => 1 <= value && value <= 10,
        IntOption::AutoCommitThreshold => value <= 39,
        _ => value <= 1,
    };
    if !ok {
        return Err(());
    }
    set_option_value(options, k, value);
    Ok(())
}

/// With `per_page` candidates on a page, the pages of `n` candidates are
/// the fewest that hold them all: that many full pages hold at least `n`,
/// one page fewer holds fewer than `n`, and every candidate lies on a page
/// numbered below the count.
pub proof fn law_page_count_covers(n: nat, per_page: nat)
    requires
        per_page > 0,
    ensures
        page_count(n, per_page) * per_page >= n,
        page_count(n, per_page) > 0 ==> (page_count(n, per_page) - 1) * per_page < n,
        forall|i: nat| i < n ==> #[trigger] (i / per_page) < page_count(n, per_page),
{
    let p = page_count(n, per_page);
    let q = n / per_page;
    let r = n % per_page;
    vstd::arithmetic::div_mod::lemma_fundamental_div_mod(n as int, per_page as int);
    vstd::arithmetic::div_mod::lemma_mod_pos_bound(n as int, per_page as int);
    assert(n == per_page * q + r);
    if r == 0 {
        assert(p == q);
        assert(p * per_page == n) by (nonlinear_arith)
            requires
                n == per_page * q + r,
                r == 0,
                p == q,
        ;
        if p > 0 {
            assert((p - 1) * per_page < n) by (nonlinear_arith)
                requires
                    p * per_page == n,
                    per_page > 0,
                    p > 0,
            ;
        }
    } else {
        assert(p == q + 1);
        assert(p * per_page >= n) by (nonlinear_arith)
            requires
                n == per_page * q + r,
                r < per_page,
                p == q + 1,
        ;
        assert((p - 1) * per_page < n) by (nonlinear_arith)
            requires
                n == per_page * q + r,
                r > 0,
                p == q + 1,
        ;
    }
    assert forall|i: nat| i < n implies #[trigger] (i / per_page) < p by {
        vstd::arithmetic::div_mod::lemma_fundamental_div_mod(i as int, per_page as int);
        vstd::arithmetic::div_mod::lemma_mod_pos_bound(i as int, per_page as int);
        let a = i / per_page;
        assert(a < p) by (nonlinear_arith)
            requires
                i == per_page * a + i % per_page,
                0 <= i % per_page,
                i < n,
                n <= p * per_page,
                per_page > 0,
        ;
    }
}

} // verus!
