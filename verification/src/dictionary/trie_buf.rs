//! A mutable dictionary: a read-only trie with a buffer of added and
//! removed phrases.

use vstd::prelude::*;

use crate::dictionary::trie::{Trie, TrieBuilder, syllables_view, trie_lookup, written_by};
use crate::dictionary::trie_walk::{EntryView, entries_view, trie_entries};
use crate::dictionary::{
    BuildDictionaryError, Cmp, Dictionary, DictionaryBuilder, DictionaryInfo, DictionaryInfoView,
    DictionaryMut, LookupStrategy, Phrase, PhraseView, UpdateDictionaryError, bytes_order,
    compare_bytes, compare_str, empty_info_view, phrases_view, str_order,
};
use crate::zhuyin::Syllable;
use vstd::string::StringExecFns;

verus! {

/// A buffered phrase: its syllables, text, frequency and last used time.
pub type BufEntryView = (Seq<u16>, Seq<char>, u32, u64);

/// The key of a buffered phrase: its syllables and text.
pub type PhraseKeyView = (Seq<u16>, Seq<char>);

/// A phrase in the buffer of a [`TrieBuf`].
#[derive(Debug)]
pub struct BufEntry {
    /// The syllables of the phrase.
    pub syllables: Vec<Syllable>,
    /// The phrase text.
    pub phrase: String,
    /// The frequency of the phrase.
    pub freq: u32,
    /// The last time the phrase was used.
    pub last_used: u64,
}

impl View for BufEntry {
    type V = BufEntryView;

    open spec fn view(&self) -> BufEntryView {
        (syllables_view(self.syllables@), self.phrase@, self.freq, self.last_used)
    }
}

/// The views of a sequence of buffered phrases.
pub open spec fn buf_view(s: Seq<BufEntry>) -> Seq<BufEntryView> {
    s.map_values(|e: BufEntry| e@)
}

/// The key of a buffered phrase.
pub open spec fn entry_key(e: BufEntryView) -> PhraseKeyView {
    (e.0, e.1)
}

/// Lexicographic comparison of syllable sequences.
pub open spec fn u16s_order(a: Seq<u16>, b: Seq<u16>) -> Cmp
    decreases a.len(),
{
    if a.len() == 0 && b.len() == 0 {
        Cmp::Equal
    } else if a.len() == 0 {
        Cmp::Less
    } else if b.len() == 0 {
        Cmp::Greater
    } else if a[0] < b[0] {
        Cmp::Less
    } else if a[0] > b[0] {
        Cmp::Greater
    } else {
        u16s_order(a.drop_first(), b.drop_first())
    }
}

/// The order of keys: by syllables, then by text.
pub open spec fn key_less(a: PhraseKeyView, b: PhraseKeyView) -> bool {
    u16s_order(a.0, b.0) == Cmp::Less || (a.0 == b.0 && str_order(a.1, b.1) == Cmp::Less)
}

/// Inserts a buffered phrase before the first one whose key is greater.
pub open spec fn insert_entry(s: Seq<BufEntryView>, x: BufEntryView) -> Seq<BufEntryView>
    decreases s.len(),
{
    if s.len() == 0 {
        seq![x]
    } else if key_less(entry_key(x), entry_key(s[0])) {
        seq![x] + s
    } else {
        seq![s[0]] + insert_entry(s.drop_first(), x)
    }
}

/// Whether some buffered phrase has the key.
pub open spec fn has_key(s: Seq<BufEntryView>, key: PhraseKeyView) -> bool {
    exists|k: int| 0 <= k < s.len() && entry_key(s[k]) == key
}

/// The position of the buffered phrase with the key.
pub open spec fn key_pos(s: Seq<BufEntryView>, key: PhraseKeyView) -> int {
    choose|k: int| 0 <= k < s.len() && entry_key(s[k]) == key
}

/// Sets a buffered phrase: replaces the one with its key, or inserts it.
pub open spec fn upsert_entry(s: Seq<BufEntryView>, x: BufEntryView) -> Seq<BufEntryView> {
    if has_key(s, entry_key(x)) {
        s.update(key_pos(s, entry_key(x)), x)
    } else {
        insert_entry(s, x)
    }
}

/// Removes the buffered phrase with the key, if any.
pub open spec fn remove_entry(s: Seq<BufEntryView>, key: PhraseKeyView) -> Seq<BufEntryView> {
    if has_key(s, key) {
        s.remove(key_pos(s, key))
    } else {
        s
    }
}

/// Whether no two buffered phrases share a key.
pub open spec fn distinct_keys(s: Seq<BufEntryView>) -> bool {
    forall|a: int, b: int| 0 <= a < b < s.len() ==> entry_key(s[a]) != entry_key(s[b])
}

/// Whether a text comes before the greatest one-character text, U+10FFFF,
/// in UTF-8 byte order.
pub open spec fn below_max_text(t: Seq<char>) -> bool {
    bytes_order(vstd::utf8::encode_utf8(t), seq![0xF4u8, 0x8Fu8, 0xBFu8, 0xBFu8]) == Cmp::Less
}

/// The buffered phrases of `syls`, in buffer order.
pub open spec fn buf_phrases(s: Seq<BufEntryView>, syls: Seq<u16>) -> Seq<PhraseView>
    decreases s.len(),
{
    if s.len() == 0 {
        Seq::empty()
    } else {
        let e = s.last();
        buf_phrases(s.drop_last(), syls) + if e.0 == syls && below_max_text(e.1) {
            seq![(e.1, e.2, Some(e.3))]
        } else {
            Seq::empty()
        }
    }
}

/// The phrases whose key with `syls` is not removed.
pub open spec fn unburied(grave: Seq<PhraseKeyView>, syls: Seq<u16>, ps: Seq<PhraseView>) -> Seq<PhraseView>
    decreases ps.len(),
{
    if ps.len() == 0 {
        Seq::empty()
    } else {
        let p = ps.last();
        unburied(grave, syls, ps.drop_last()) + if grave.contains((syls, p.0)) {
            Seq::empty()
        } else {
            seq![p]
        }
    }
}

/// Merges a phrase into phrases with distinct texts: a phrase with the same
/// text is replaced when the new one has a greater frequency.
pub open spec fn merge_max(acc: Seq<PhraseView>, p: PhraseView) -> Seq<PhraseView> {
    if exists|k: int| 0 <= k < acc.len() && acc[k].0 == p.0 {
        let k = choose|k: int| 0 <= k < acc.len() && acc[k].0 == p.0;
        if p.1 > acc[k].1 {
            acc.update(k, p)
        } else {
            acc
        }
    } else {
        acc.push(p)
    }
}

/// Merges phrases in order with [`merge_max`].
pub open spec fn merge_all_max(ps: Seq<PhraseView>) -> Seq<PhraseView>
    decreases ps.len(),
{
    if ps.len() == 0 {
        Seq::empty()
    } else {
        merge_max(merge_all_max(ps.drop_last()), ps.last())
    }
}

/// The entries whose key is not removed.
pub open spec fn unburied_entries(grave: Seq<PhraseKeyView>, es: Seq<EntryView>) -> Seq<EntryView>
    decreases es.len(),
{
    if es.len() == 0 {
        Seq::empty()
    } else {
        let e = es.last();
        unburied_entries(grave, es.drop_last()) + if grave.contains((e.0, e.1.0)) {
            Seq::empty()
        } else {
            seq![e]
        }
    }
}

/// The buffered phrases as entries, in buffer order.
pub open spec fn buf_entries(s: Seq<BufEntryView>) -> Seq<EntryView> {
    s.map_values(|e: BufEntryView| (e.0, (e.1, e.2, Some(e.3))))
}

/// Metadata with another software.
pub open spec fn with_software(i: DictionaryInfoView, software: Seq<char>) -> DictionaryInfoView {
    (i.0, i.1, i.2, i.3, software)
}

/// The phrases for `syls` of a builder into which entries were inserted in
/// turn, each replacing the phrase of the same text.
pub open spec fn built_model(es: Seq<EntryView>, syls: Seq<u16>) -> Seq<PhraseView>
    decreases es.len(),
{
    if es.len() == 0 {
        Seq::empty()
    } else {
        let prev = built_model(es.drop_last(), syls);
        if es.last().0 == syls {
            crate::dictionary::trie::upsert_phrase(prev, es.last().1)
        } else {
            prev
        }
    }
}

/// The most nodes that inserting the entries into a builder can add: one
/// per syllable and a leaf per entry.
pub open spec fn entries_nodes(es: Seq<EntryView>) -> nat
    decreases es.len(),
{
    if es.len() == 0 {
        0
    } else {
        entries_nodes(es.drop_last()) + es.last().0.len() + 1
    }
}

/// The greatest length of an entry's encoded phrase.
pub open spec fn entries_max_der(es: Seq<EntryView>) -> nat
    decreases es.len(),
{
    if es.len() == 0 {
        0
    } else {
        let prev = entries_max_der(es.drop_last());
        let d = crate::dictionary::trie_format::phrase_der(es.last().1).len();
        if d > prev {
            d
        } else {
            prev
        }
    }
}

/// Whether the file of a builder filled with the entries under these
/// metadata is sure to be written: each phrase is encodable, the builder
/// gets fewer than 0xffff nodes, as many phrases as there are entries, each
/// as long as the longest, fit a leaf, and the index, that much phrase data
/// per node and the metadata stay well inside the DER length limit.
pub open spec fn entries_fit(es: Seq<EntryView>, info: DictionaryInfoView) -> bool {
    let n = 1 + entries_nodes(es);
    let b = es.len() * entries_max_der(es);
    &&& forall|k: int| 0 <= k < es.len() ==> crate::dictionary::trie_format::phrase_encodable((#[trigger] es[k]).1)
    &&& n < 0xffff
    &&& b <= 0xffff
    &&& 8 * n + n * b + crate::dictionary::trie_format::info_der(info).len() + 32 <= crate::der::MAX_DER_LEN
}

/// A prefix of the entries adds no more nodes than all of them.
proof fn lemma_entries_nodes_prefix(es: Seq<EntryView>, i: int)
    requires
        0 <= i <= es.len(),
    ensures
        entries_nodes(es.take(i)) <= entries_nodes(es),
    decreases es.len(),
{
    if i == es.len() {
        assert(es.take(i) =~= es);
    } else {
        assert(es.take(i) =~= es.drop_last().take(i));
        lemma_entries_nodes_prefix(es.drop_last(), i);
    }
}

/// Every entry's encoded phrase is at most the greatest length.
proof fn lemma_entries_max_der(es: Seq<EntryView>, k: int)
    requires
        0 <= k < es.len(),
    ensures
        crate::dictionary::trie_format::phrase_der(es[k].1).len() <= entries_max_der(es),
    decreases es.len(),
{
    if k < es.len() - 1 {
        assert(es.drop_last()[k] == es[k]);
        lemma_entries_max_der(es.drop_last(), k);
    }
}

/// The phrases stored for syllables after inserting entries are at most as
/// many as the entries, and each is the phrase of an entry.
proof fn lemma_built_model_bounds(es: Seq<EntryView>, syls: Seq<u16>)
    ensures
        built_model(es, syls).len() <= es.len(),
        forall|j: int|
            0 <= j < built_model(es, syls).len() ==> exists|k: int| 0 <= k < es.len() && #[trigger] built_model(es, syls)[j] == es[k].1,
    decreases es.len(),
{
    if es.len() > 0 {
        let init = es.drop_last();
        lemma_built_model_bounds(init, syls);
        let prev = built_model(init, syls);
        let m = built_model(es, syls);
        assert forall|j: int| 0 <= j < m.len() implies exists|k: int| 0 <= k < es.len() && #[trigger] m[j] == es[k].1 by {
            if es.last().0 == syls && m[j] == es.last().1 {
                assert(m[j] == es[es.len() - 1].1);
            } else {
                assert(j < prev.len() && m[j] == prev[j]);
                let k = choose|k: int| 0 <= k < init.len() && #[trigger] prev[j] == init[k].1;
                assert(es[k] == init[k]);
            }
        }
    }
}

/// Whether no entry has an empty syllable.
pub open spec fn nonzero_entries(es: Seq<EntryView>) -> bool {
    forall|k: int| 0 <= k < es.len() ==> forall|j: int| 0 <= j < (#[trigger] es[k]).0.len() ==> es[k].0[j] != 0
}

/// Whether `bytes` are a file that a builder writes after taking the
/// metadata of the buffer `d` under the software `software` and its
/// entries in turn.
pub open spec fn saved_file(d: TrieBuf, software: Seq<char>, bytes: Seq<u8>) -> bool {
    exists|b: TrieBuilder|
        b.wf() && b.info_view() == with_software(d.about_spec(), software) && (forall|syls: Seq<u16>|
            #[trigger] b.model(syls) == built_model(d.entries_all(), syls)) && (nonzero_entries(d.entries_all())
            ==> b.no_empty_syllables()) && written_by(b, bytes)
}

/// What a buffer saves, read back, has its metadata under the new software
/// and gives, for syllables none of which is empty, the phrases built from
/// its entries in turn, in their sorted order; provided no entry has an
/// empty syllable.
pub proof fn law_saved_file_lookup(d: TrieBuf, software: Seq<char>, bytes: Seq<u8>, t: Trie, syls: Seq<u16>)
    requires
        saved_file(d, software, bytes),
        bytes == crate::dictionary::trie_format::file_der(t.info_view(), t.index_view(), t.data_view()),
        crate::dictionary::trie_format::file_encodable(t.info_view(), t.index_view(), t.data_view()),
        nonzero_entries(d.entries_all()),
        forall|i: int| 0 <= i < syls.len() ==> #[trigger] syls[i] != 0,
    ensures
        t.info_view() == with_software(d.about_spec(), software),
        trie_lookup(t.index_view(), t.data_view(), syls, usize::MAX as nat, LookupStrategy::Standard)
            == crate::dictionary::layout::sort_phrases(built_model(d.entries_all(), syls)),
{
    let b = choose|b: TrieBuilder|
        b.wf() && b.info_view() == with_software(d.about_spec(), software) && (forall|syls: Seq<u16>|
            #[trigger] b.model(syls) == built_model(d.entries_all(), syls)) && (nonzero_entries(d.entries_all())
            ==> b.no_empty_syllables()) && written_by(b, bytes);
    crate::dictionary::trie::law_read_back_written(b, bytes, t, syls);
}

/// A builder into which an entry was inserted has a phrase of its text for
/// its syllables.
pub proof fn lemma_built_model_text(es: Seq<EntryView>, syls: Seq<u16>, k: int)
    requires
        0 <= k < es.len(),
        es[k].0 == syls,
    ensures
        exists|j: int| 0 <= j < built_model(es, syls).len() && #[trigger] built_model(es, syls)[j].0 == es[k].1.0,
    decreases es.len(),
{
    let init = es.drop_last();
    let prev = built_model(init, syls);
    let p = es.last().1;
    if k == es.len() - 1 {
        if exists|i: int| 0 <= i < prev.len() && prev[i].0 == p.0 {
            let i = choose|i: int| 0 <= i < prev.len() && prev[i].0 == p.0;
            assert(built_model(es, syls) == prev.update(i, p));
            assert(built_model(es, syls)[i].0 == p.0);
        } else {
            assert(built_model(es, syls) == prev.push(p));
            assert(built_model(es, syls)[prev.len() as int].0 == p.0);
        }
    } else {
        assert(init[k] == es[k]);
        lemma_built_model_text(init, syls, k);
        let j = choose|j: int| 0 <= j < prev.len() && #[trigger] prev[j].0 == es[k].1.0;
        if es.last().0 == syls {
            if exists|i: int| 0 <= i < prev.len() && prev[i].0 == p.0 {
                let i = choose|i: int| 0 <= i < prev.len() && prev[i].0 == p.0;
                assert(built_model(es, syls) == prev.update(i, p));
                assert(built_model(es, syls)[j].0 == es[k].1.0);
            } else {
                assert(built_model(es, syls) == prev.push(p));
                assert(built_model(es, syls)[j].0 == es[k].1.0);
            }
        } else {
            assert(built_model(es, syls)[j].0 == es[k].1.0);
        }
    }
}

/// An entry whose key is not removed stays.
pub proof fn lemma_unburied_entries_contains(grave: Seq<PhraseKeyView>, es: Seq<EntryView>, k: int)
    requires
        0 <= k < es.len(),
        !grave.contains((es[k].0, es[k].1.0)),
    ensures
        unburied_entries(grave, es).contains(es[k]),
    decreases es.len(),
{
    let init = es.drop_last();
    let u = unburied_entries(grave, init);
    if k == es.len() - 1 {
        assert(unburied_entries(grave, es) == u + seq![es[k]]);
        assert(unburied_entries(grave, es)[u.len() as int] == es[k]);
    } else {
        assert(init[k] == es[k]);
        lemma_unburied_entries_contains(grave, init, k);
        let j = choose|j: int| 0 <= j < u.len() && u[j] == es[k];
        let e = es.last();
        let tail = if grave.contains((e.0, e.1.0)) {
            Seq::<EntryView>::empty()
        } else {
            seq![e]
        };
        assert(unburied_entries(grave, es) == u + tail);
        assert(unburied_entries(grave, es)[j] == es[k]);
    }
}

/// A buffered phrase whose key is not removed, saved by the buffer and
/// read back, is found by a lookup of its syllables; provided no entry has
/// an empty syllable.
pub proof fn law_saved_phrase_is_found(d: TrieBuf, software: Seq<char>, bytes: Seq<u8>, t: Trie, x: BufEntryView)
    requires
        saved_file(d, software, bytes),
        bytes == crate::dictionary::trie_format::file_der(t.info_view(), t.index_view(), t.data_view()),
        crate::dictionary::trie_format::file_encodable(t.info_view(), t.index_view(), t.data_view()),
        nonzero_entries(d.entries_all()),
        d.buffer().contains(x),
        !d.removed().contains(entry_key(x)),
    ensures
        exists|k: int|
            0 <= k < trie_lookup(t.index_view(), t.data_view(), x.0, usize::MAX as nat, LookupStrategy::Standard).len()
                && #[trigger] trie_lookup(t.index_view(), t.data_view(), x.0, usize::MAX as nat, LookupStrategy::Standard)[k].0
                == x.1,
{
    let tp = match d.trie_view() {
        Some(tr) => trie_entries(tr.index_view(), tr.data_view()),
        None => Seq::empty(),
    };
    let be = buf_entries(d.buffer());
    let all = tp + be;
    let i = choose|i: int| 0 <= i < d.buffer().len() && d.buffer()[i] == x;
    let e = (x.0, (x.1, x.2, Some(x.3)));
    assert(be[i] == e);
    assert(all[tp.len() + i] == e);
    assert(d.entries_all() == unburied_entries(d.removed(), all));
    lemma_unburied_entries_contains(d.removed(), all, tp.len() + i);
    let es = d.entries_all();
    let k = choose|k: int| 0 <= k < es.len() && es[k] == e;
    assert forall|j: int| 0 <= j < x.0.len() implies #[trigger] x.0[j] != 0 by {
        assert(es[k].0[j] != 0);
    }
    law_saved_file_lookup(d, software, bytes, t, x.0);
    lemma_built_model_text(es, x.0, k);
    let bm = built_model(es, x.0);
    let j = choose|j: int| 0 <= j < bm.len() && #[trigger] bm[j].0 == x.1;
    assert(bm.contains(bm[j]));
    crate::dictionary::layout::lemma_sort_phrases_contains(bm, bm[j]);
    let sp = crate::dictionary::layout::sort_phrases(bm);
    let m = choose|m: int| 0 <= m < sp.len() && sp[m] == bm[j];
    assert(sp[m].0 == x.1);
}

/// What adding a phrase does to a buffer: it is refused, and nothing
/// changes, exactly when a phrase of its text is found for the syllables;
/// otherwise the phrase, with its last use time or 0, is set in the buffer
/// and the buffer is changed.
pub open spec fn add_effect(o: TrieBuf, n: TrieBuf, syls: Seq<u16>, p: PhraseView, ok: bool) -> bool {
    let dup = exists|k: int|
        0 <= k < o.found(syls, LookupStrategy::Standard).len() && #[trigger] o.found(syls, LookupStrategy::Standard)[k].0
            == p.0;
    &&& !ok <==> dup
    &&& !ok ==> n == o
    &&& ok ==> {
        &&& n.buffer() == upsert_entry(
            o.buffer(),
            (syls, p.0, p.1, match p.2 {
                Some(t) => t,
                None => 0,
            }),
        )
        &&& n.removed() == o.removed()
        &&& n.trie_view() == o.trie_view()
        &&& n.is_dirty()
    }
}

/// What setting a phrase's frequency and time does to a buffer: the
/// entry is set in the buffer and the buffer is changed.
pub open spec fn update_effect(o: TrieBuf, n: TrieBuf, syls: Seq<u16>, text: Seq<char>, freq: u32, time: u64) -> bool {
    &&& n.buffer() == upsert_entry(o.buffer(), (syls, text, freq, time))
    &&& n.removed() == o.removed()
    &&& n.trie_view() == o.trie_view()
    &&& n.is_dirty()
}

/// What removing a phrase does to a buffer: its entry leaves the buffer,
/// its key is marked removed and the buffer is changed.
pub open spec fn remove_effect(o: TrieBuf, n: TrieBuf, syls: Seq<u16>, text: Seq<char>) -> bool {
    &&& n.buffer() == remove_entry(o.buffer(), (syls, text))
    &&& n.removed() == o.removed().push((syls, text))
    &&& n.trie_view() == o.trie_view()
    &&& n.is_dirty()
}

/// The metadata of a fresh user dictionary.
pub open spec fn fresh_user_info(software: Seq<char>) -> DictionaryInfoView {
    ("我的詞庫"@, "Unknown"@, "Unknown"@, "0.0.0"@, software)
}

/// A mutable dictionary backed by an optional trie and a buffer of
/// phrases, kept in key order, and of removed keys.
#[derive(Debug)]
pub struct TrieBuf {
    trie: Option<Trie>,
    btree: Vec<BufEntry>,
    graveyard: Vec<(Vec<Syllable>, String)>,
    dirty: bool,
}

/// The view of a removed key.
pub open spec fn grave_view(s: Seq<(Vec<Syllable>, String)>) -> Seq<PhraseKeyView> {
    s.map_values(|k: (Vec<Syllable>, String)| (syllables_view(k.0@), k.1@))
}

/// Whether two syllable slices hold the same syllables.
pub fn same_syllables(a: &[Syllable], b: &[Syllable]) -> (r: bool)
    ensures
        r == (syllables_view(a@) == syllables_view(b@)),
{
    if a.len() != b.len() {
        proof {
            assert(syllables_view(a@).len() != syllables_view(b@).len());
        }
        return false;
    }
    let mut i: usize = 0;
    while i < a.len()
        invariant
            i <= a@.len(),
            a@.len() == b@.len(),
            forall|j: int| 0 <= j < i ==> a@[j]@ == b@[j]@,
        decreases a@.len() - i,
    {
        if a[i].to_u16() != b[i].to_u16() {
            proof {
                assert(syllables_view(a@)[i as int] != syllables_view(b@)[i as int]);
            }
            return false;
        }
        i = i + 1;
    }
    assert(syllables_view(a@) =~= syllables_view(b@));
    true
}

/// Compares two syllable slices lexicographically.
pub fn compare_syllables(a: &[Syllable], b: &[Syllable]) -> (c: Cmp)
    ensures
        c == u16s_order(syllables_view(a@), syllables_view(b@)),
{
    let ghost av = syllables_view(a@);
    let ghost bv = syllables_view(b@);
    let mut i: usize = 0;
    assert(av.skip(0) =~= av);
    assert(bv.skip(0) =~= bv);
    while i < a.len() && i < b.len()
        invariant
            i <= a@.len(),
            i <= b@.len(),
            av == syllables_view(a@),
            bv == syllables_view(b@),
            u16s_order(av, bv) == u16s_order(av.skip(i as int), bv.skip(i as int)),
        decreases a@.len() - i,
    {
        let x = a[i].to_u16();
        let y = b[i].to_u16();
        if x < y {
            return Cmp::Less;
        }
        if x > y {
            return Cmp::Greater;
        }
        proof {
            assert(av.skip(i as int).drop_first() =~= av.skip(i + 1));
            assert(bv.skip(i as int).drop_first() =~= bv.skip(i + 1));
        }
        i = i + 1;
    }
    proof {
        if i < a@.len() {
            assert(bv.skip(i as int).len() == 0);
        } else if i < b@.len() {
            assert(av.skip(i as int).len() == 0);
        } else {
            assert(av.skip(i as int).len() == 0);
            assert(bv.skip(i as int).len() == 0);
        }
    }
    if i < a.len() {
        Cmp::Greater
    } else if i < b.len() {
        Cmp::Less
    } else {
        Cmp::Equal
    }
}

/// Equal comparison means equal byte strings.
pub proof fn lemma_bytes_order_equal(a: Seq<u8>, b: Seq<u8>)
    ensures
        (bytes_order(a, b) == Cmp::Equal) == (a == b),
    decreases a.len(),
{
    if a.len() > 0 && b.len() > 0 && a[0] == b[0] {
        lemma_bytes_order_equal(a.drop_first(), b.drop_first());
        if a.drop_first() == b.drop_first() {
            assert(a =~= seq![a[0]] + a.drop_first());
            assert(b =~= seq![b[0]] + b.drop_first());
        }
        if a == b {
            assert(a.drop_first() =~= b.drop_first());
        }
    } else if a.len() == 0 && b.len() == 0 {
        assert(a =~= b);
    } else if a.len() > 0 && b.len() > 0 {
        assert(a[0] != b[0]);
    } else {
        assert(a.len() != b.len());
    }
}

/// Whether two strings are equal.
pub fn same_text(a: &str, b: &str) -> (r: bool)
    ensures
        r == (a@ == b@),
{
    let c = compare_str(a, b);
    proof {
        lemma_bytes_order_equal(vstd::utf8::encode_utf8(a@), vstd::utf8::encode_utf8(b@));
        vstd::utf8::encode_utf8_decode_utf8(a@);
        vstd::utf8::encode_utf8_decode_utf8(b@);
    }
    c == Cmp::Equal
}

/// Whether the key (`syls`, `text`) comes before the key of `e`.
fn key_less_exec(syls: &[Syllable], text: &str, e: &BufEntry) -> (r: bool)
    ensures
        r == key_less((syllables_view(syls@), text@), entry_key(e@)),
{
    proof {
        lemma_u16s_order_equal(syllables_view(syls@), syllables_view(e.syllables@));
    }
    match compare_syllables(syls, e.syllables.as_slice()) {
        Cmp::Less => true,
        Cmp::Greater => false,
        Cmp::Equal => {
            proof {
                lemma_u16s_order_equal(syllables_view(syls@), syllables_view(e.syllables@));
            }
            compare_str(text, e.phrase.as_str()) == Cmp::Less
        },
    }
}

/// Equal comparison means equal sequences.
pub proof fn lemma_u16s_order_equal(a: Seq<u16>, b: Seq<u16>)
    ensures
        (u16s_order(a, b) == Cmp::Equal) == (a == b),
    decreases a.len(),
{
    if a.len() > 0 && b.len() > 0 && a[0] == b[0] {
        lemma_u16s_order_equal(a.drop_first(), b.drop_first());
        if a.drop_first() == b.drop_first() {
            assert(a =~= seq![a[0]] + a.drop_first());
            assert(b =~= seq![b[0]] + b.drop_first());
        }
        if a == b {
            assert(a.drop_first() =~= b.drop_first());
        }
    } else if a.len() == 0 && b.len() == 0 {
        assert(a =~= b);
    } else if a.len() > 0 && b.len() > 0 {
        assert(a[0] != b[0]);
    } else {
        assert(a.len() != b.len());
    }
}

/// The position of the buffered phrase with the key (`syls`, `text`).
fn find_key(v: &Vec<BufEntry>, syls: &[Syllable], text: &str) -> (r: Option<usize>)
    requires
        distinct_keys(buf_view(v@)),
    ensures
        r is Some <==> has_key(buf_view(v@), (syllables_view(syls@), text@)),
        r matches Some(k) ==> k == key_pos(buf_view(v@), (syllables_view(syls@), text@)) && k < v@.len(),
{
    let ghost s = buf_view(v@);
    let ghost key = (syllables_view(syls@), text@);
    let mut k: usize = 0;
    while k < v.len()
        invariant
            k <= v@.len(),
            s == buf_view(v@),
            distinct_keys(s),
            key == (syllables_view(syls@), text@),
            forall|j: int| 0 <= j < k ==> entry_key(s[j]) != key,
        decreases v@.len() - k,
    {
        let ss = same_syllables(syls, v[k].syllables.as_slice());
        let st = same_text(text, v[k].phrase.as_str());
        proof {
            assert(s[k as int] == v@[k as int]@);
            assert(entry_key(s[k as int]).0 == syllables_view(v@[k as int].syllables@));
            assert(entry_key(s[k as int]).1 == v@[k as int].phrase@);
            assert(ss == (syllables_view(syls@) == syllables_view(v@[k as int].syllables@)));
            assert(st == (text@ == v@[k as int].phrase@));
        }
        if ss && st {
            proof {
                assert(entry_key(s[k as int]) == key);
                let c = key_pos(s, key);
                if c != k {
                    if c < k {
                        assert(entry_key(s[c]) != entry_key(s[k as int]));
                    } else {
                        assert(entry_key(s[k as int]) != entry_key(s[c]));
                    }
                }
            }
            return Some(k);
        }
        k = k + 1;
    }
    None
}

/// Inserts a buffered phrase as [`insert_entry`] says.
fn insert_sorted_entry(v: &mut Vec<BufEntry>, e: BufEntry)
    ensures
        buf_view(final(v)@) == insert_entry(buf_view(old(v)@), e@),
{
    let ghost s = buf_view(v@);
    let mut j: usize = 0;
    assert(s.skip(0) =~= s);
    assert(s.take(0) =~= Seq::<BufEntryView>::empty());
    while j < v.len() && !key_less_exec(e.syllables.as_slice(), e.phrase.as_str(), &v[j])
        invariant
            j <= v@.len(),
            s == buf_view(v@),
            insert_entry(s, e@) == s.take(j as int) + insert_entry(s.skip(j as int), e@),
        decreases v@.len() - j,
    {
        proof {
            let t = s.skip(j as int);
            assert(t.drop_first() =~= s.skip(j + 1));
            assert(s.take(j + 1) =~= s.take(j as int) + seq![s[j as int]]);
            assert(insert_entry(t, e@) == seq![s[j as int]] + insert_entry(s.skip(j + 1), e@));
        }
        j = j + 1;
    }
    let ghost ev = e@;
    v.insert(j, e);
    assert(buf_view(v@) =~= s.take(j as int) + (seq![ev] + s.skip(j as int)));
}

impl TrieBuf {
    /// The trie under the buffer.
    pub closed spec fn trie_view(&self) -> Option<Trie> {
        self.trie
    }

    /// The buffered phrases, in key order.
    pub closed spec fn buffer(&self) -> Seq<BufEntryView> {
        buf_view(self.btree@)
    }

    /// The removed keys.
    pub closed spec fn removed(&self) -> Seq<PhraseKeyView> {
        grave_view(self.graveyard@)
    }

    /// Whether the buffer has changed since it was last saved.
    pub closed spec fn is_dirty(&self) -> bool {
        self.dirty
    }

    /// The buffer's internal consistency: no two buffered phrases share a
    /// key.
    pub closed spec fn wf(&self) -> bool {
        distinct_keys(buf_view(self.btree@))
    }

    /// The phrases of the trie for `syls`, all of them.
    pub open spec fn trie_part(&self, syls: Seq<u16>, strategy: LookupStrategy) -> Seq<PhraseView> {
        match self.trie_view() {
            Some(t) => trie_lookup(t.index_view(), t.data_view(), syls, usize::MAX as nat, strategy),
            None => Seq::empty(),
        }
    }

    /// The phrases found for `syls` before merging: the trie's, then the
    /// buffered ones, without removed keys.
    pub open spec fn found(&self, syls: Seq<u16>, strategy: LookupStrategy) -> Seq<PhraseView> {
        unburied(self.removed(), syls, self.trie_part(syls, strategy) + buf_phrases(self.buffer(), syls))
    }

    /// The result of looking up `syls`: the found phrases merged by text.
    pub open spec fn lookup_spec(&self, syls: Seq<u16>, strategy: LookupStrategy) -> Seq<PhraseView> {
        merge_all_max(self.found(syls, strategy))
    }

    /// The metadata of the dictionary: the trie's, or empty metadata.
    pub open spec fn about_spec(&self) -> DictionaryInfoView {
        match self.trie_view() {
            Some(t) => t.info_view(),
            None => empty_info_view(),
        }
    }

    /// All entries: the trie's, then the buffered ones, without removed
    /// keys.
    pub open spec fn entries_all(&self) -> Seq<EntryView> {
        unburied_entries(
            self.removed(),
            (match self.trie_view() {
                Some(t) => trie_entries(t.index_view(), t.data_view()),
                None => Seq::empty(),
            }) + buf_entries(self.buffer()),
        )
    }

    /// Opens a buffer over a trie.
    pub fn from_trie(trie: Trie) -> (d: TrieBuf)
        ensures
            d.wf(),
            d.trie_view() == Some(trie),
            d.buffer() == Seq::<BufEntryView>::empty(),
            d.removed() == Seq::<PhraseKeyView>::empty(),
            !d.is_dirty(),
    {
        let d = TrieBuf { trie: Some(trie), btree: Vec::new(), graveyard: Vec::new(), dirty: false };
        assert(d.buffer() =~= Seq::<BufEntryView>::empty());
        assert(d.removed() =~= Seq::<PhraseKeyView>::empty());
        d
    }

    /// Creates a pure in memory dictionary.
    pub fn new_in_memory() -> (d: TrieBuf)
        ensures
            d.wf(),
            d.trie_view() is None,
            d.buffer() == Seq::<BufEntryView>::empty(),
            d.removed() == Seq::<PhraseKeyView>::empty(),
            !d.is_dirty(),
    {
        let d = TrieBuf { trie: None, btree: Vec::new(), graveyard: Vec::new(), dirty: false };
        assert(d.buffer() =~= Seq::<BufEntryView>::empty());
        assert(d.removed() =~= Seq::<PhraseKeyView>::empty());
        d
    }

    /// Whether the key (`syls`, `text`) is removed.
    fn is_buried(&self, syls: &[Syllable], text: &str) -> (r: bool)
        ensures
            r == self.removed().contains((syllables_view(syls@), text@)),
    {
        let ghost g = self.removed();
        let ghost key = (syllables_view(syls@), text@);
        let mut k: usize = 0;
        while k < self.graveyard.len()
            invariant
                k <= self.graveyard@.len(),
                g == grave_view(self.graveyard@),
                key == (syllables_view(syls@), text@),
                forall|j: int| 0 <= j < k ==> g[j] != key,
            decreases self.graveyard@.len() - k,
        {
            if same_syllables(syls, self.graveyard[k].0.as_slice()) && same_text(text, self.graveyard[k].1.as_str()) {
                assert(g[k as int] == key);
                return true;
            }
            k = k + 1;
        }
        false
    }

    /// The phrases found for the syllables before merging ([`Self::found`]).
    fn found_phrases(&self, syllables: &[Syllable], strategy: LookupStrategy) -> (r: Vec<Phrase>)
        ensures
            phrases_view(r@) == self.found(syllables_view(syllables@), strategy),
    {
        let ghost syls = syllables_view(syllables@);
        let mut all: Vec<Phrase> = match &self.trie {
            Some(t) => t.lookup_all_phrases(syllables, strategy),
            None => Vec::new(),
        };
        assert(phrases_view(all@) =~= self.trie_part(syls, strategy));
        let ghost tp = phrases_view(all@);
        let ghost s = self.buffer();
        let max_text: [u8; 4] = [0xF4, 0x8F, 0xBF, 0xBF];
        assert(max_text@ =~= seq![0xF4u8, 0x8Fu8, 0xBFu8, 0xBFu8]);
        let mut i: usize = 0;
        assert(s.take(0) =~= Seq::<BufEntryView>::empty());
        while i < self.btree.len()
            invariant
                i <= self.btree@.len(),
                s == buf_view(self.btree@),
                syls == syllables_view(syllables@),
                max_text@ == seq![0xF4u8, 0x8Fu8, 0xBFu8, 0xBFu8],
                phrases_view(all@) == tp + buf_phrases(s.take(i as int), syls),
            decreases self.btree@.len() - i,
        {
            let e = &self.btree[i];
            proof {
                assert(s.take(i + 1).drop_last() =~= s.take(i as int));
                assert(s.take(i + 1).last() == e@);
            }
            let ss = same_syllables(e.syllables.as_slice(), syllables);
            let below = compare_bytes(e.phrase.as_str().as_bytes(), &max_text) == Cmp::Less;
            proof {
                assert(s[i as int] == e@);
                assert(ss == (e@.0 == syls));
                assert(below == below_max_text(e@.1));
            }
            if ss && below {
                let p = Phrase { phrase: e.phrase.clone(), freq: e.freq, last_used: Some(e.last_used) };
                assert(p@ == (e@.1, e@.2, Some(e@.3)));
                let ghost old_all = phrases_view(all@);
                let ghost pv = p@;
                all.push(p);
                assert(phrases_view(all@) =~= old_all.push(pv));
                assert(buf_phrases(s.take(i + 1), syls) == buf_phrases(s.take(i as int), syls) + seq![pv]);
                assert(phrases_view(all@) =~= tp + buf_phrases(s.take(i + 1), syls));
            } else {
                assert(buf_phrases(s.take(i + 1), syls) =~= buf_phrases(s.take(i as int), syls));
            }
            i = i + 1;
        }
        assert(s.take(i as int) =~= s);
        let ghost ps = phrases_view(all@);
        let mut out: Vec<Phrase> = Vec::new();
        let mut k: usize = 0;
        assert(ps.take(0) =~= Seq::<PhraseView>::empty());
        while k < all.len()
            invariant
                k <= all@.len(),
                ps == phrases_view(all@),
                syls == syllables_view(syllables@),
                phrases_view(out@) == unburied(self.removed(), syls, ps.take(k as int)),
            decreases all@.len() - k,
        {
            proof {
                assert(ps.take(k + 1).drop_last() =~= ps.take(k as int));
                assert(ps.take(k + 1).last() == all@[k as int]@);
            }
            if !self.is_buried(syllables, all[k].phrase.as_str()) {
                out.push(all[k].clone());
                assert(phrases_view(out@) =~= unburied(self.removed(), syls, ps.take(k + 1)));
            } else {
                assert(unburied(self.removed(), syls, ps.take(k + 1)) =~= unburied(self.removed(), syls, ps.take(k as int)));
            }
            k = k + 1;
        }
        assert(ps.take(k as int) =~= ps);
        out
    }

    /// Looks up the syllables: the phrases of the trie, then the buffered
    /// ones, without removed keys, merged by text keeping the first of the
    /// greatest frequency.
    pub fn lookup(&self, syllables: &[Syllable], strategy: LookupStrategy) -> (r: Vec<Phrase>)
        ensures
            phrases_view(r@) == self.lookup_spec(syllables_view(syllables@), strategy),
    {
        let found = self.found_phrases(syllables, strategy);
        merge_phrases_max(&found)
    }

    /// Returns all entries: those of the trie, then the buffered phrases in
    /// key order, without removed keys.
    pub fn entries(&self) -> (r: Vec<(Vec<Syllable>, Phrase)>)
        ensures
            entries_view(r@) == unburied_entries(
                self.removed(),
                (match self.trie_view() {
                    Some(t) => trie_entries(t.index_view(), t.data_view()),
                    None => Seq::empty(),
                }) + buf_entries(self.buffer()),
            ),
    {
        let mut all: Vec<(Vec<Syllable>, Phrase)> = match &self.trie {
            Some(t) => t.entries(),
            None => Vec::new(),
        };
        let ghost tp = entries_view(all@);
        let ghost s = self.buffer();
        let mut i: usize = 0;
        assert(buf_entries(s.take(0)) =~= Seq::<EntryView>::empty());
        while i < self.btree.len()
            invariant
                i <= self.btree@.len(),
                s == buf_view(self.btree@),
                entries_view(all@) == tp + buf_entries(s.take(i as int)),
            decreases self.btree@.len() - i,
        {
            let e = &self.btree[i];
            let sy = e.syllables.clone();
            assert(sy@ =~= e.syllables@);
            let ph = Phrase { phrase: e.phrase.clone(), freq: e.freq, last_used: Some(e.last_used) };
            let ghost old_all = entries_view(all@);
            let ghost ev = (syllables_view(sy@), ph@);
            proof {
                assert(s[i as int] == e@);
                assert(ev == (s[i as int].0, (s[i as int].1, s[i as int].2, Some(s[i as int].3))));
            }
            all.push((sy, ph));
            assert(entries_view(all@) =~= old_all.push(ev));
            assert(buf_entries(s.take(i + 1)) =~= buf_entries(s.take(i as int)).push((s[i as int].0, (s[i as int].1, s[i as int].2, Some(s[i as int].3)))));
            assert(entries_view(all@) =~= tp + buf_entries(s.take(i + 1)));
            i = i + 1;
        }
        assert(s.take(i as int) =~= s);
        let ghost es = entries_view(all@);
        let mut out: Vec<(Vec<Syllable>, Phrase)> = Vec::new();
        let mut k: usize = 0;
        assert(es.take(0) =~= Seq::<EntryView>::empty());
        while k < all.len()
            invariant
                k <= all@.len(),
                es == entries_view(all@),
                entries_view(out@) == unburied_entries(self.removed(), es.take(k as int)),
            decreases all@.len() - k,
        {
            proof {
                assert(es.take(k + 1).drop_last() =~= es.take(k as int));
                assert(es.take(k + 1).last() == es[k as int]);
            }
            if !self.is_buried(all[k].0.as_slice(), all[k].1.phrase.as_str()) {
                let sy = all[k].0.clone();
                assert(sy@ =~= all@[k as int].0@);
                out.push((sy, all[k].1.clone()));
                assert(entries_view(out@) =~= unburied_entries(self.removed(), es.take(k + 1)));
            } else {
                assert(unburied_entries(self.removed(), es.take(k + 1)) =~= unburied_entries(self.removed(), es.take(k as int)));
            }
            k = k + 1;
        }
        assert(es.take(k as int) =~= es);
        out
    }

    /// Returns information about the dictionary: the trie's, or empty
    /// metadata without a trie.
    pub fn about(&self) -> (r: DictionaryInfo)
        ensures
            r@ == match self.trie_view() {
                Some(t) => t.info_view(),
                None => empty_info_view(),
            },
    {
        match &self.trie {
            Some(t) => t.about(),
            None => DictionaryInfo::empty(),
        }
    }

    /// Adds a phrase to the buffer.
    ///
    /// Fails, changing nothing, when a phrase with the same text is found
    /// for the syllables.
    pub fn add_phrase(&mut self, syllables: &[Syllable], phrase: Phrase) -> (r: Result<(), UpdateDictionaryError>)
        requires
            old(self).wf(),
        ensures
            final(self).wf(),
            ({
                let syls = syllables_view(syllables@);
                let dup = exists|k: int|
                    0 <= k < old(self).found(syls, LookupStrategy::Standard).len() && #[trigger] old(
                        self,
                    ).found(syls, LookupStrategy::Standard)[k].0 == phrase@.0;
                &&& r is Err <==> dup
                &&& r is Err ==> *final(self) == *old(self)
                &&& r is Ok ==> {
                    &&& final(self).buffer() == upsert_entry(
                        old(self).buffer(),
                        (syls, phrase@.0, phrase@.1, match phrase@.2 {
                            Some(t) => t,
                            None => 0,
                        }),
                    )
                    &&& final(self).removed() == old(self).removed()
                    &&& final(self).trie_view() == old(self).trie_view()
                    &&& final(self).is_dirty()
                }
            }),
    {
        let found = self.found_phrases(syllables, LookupStrategy::Standard);
        let mut k: usize = 0;
        while k < found.len()
            invariant
                self.wf(),
                phrases_view(found@) == self.found(syllables_view(syllables@), LookupStrategy::Standard),
                k <= found@.len(),
                forall|j: int| 0 <= j < k ==> found@[j]@.0 != phrase@.0,
            decreases found@.len() - k,
        {
            if found[k].phrase == phrase.phrase {
                proof {
                    let syls = syllables_view(syllables@);
                    assert(self.found(syls, LookupStrategy::Standard)[k as int].0 == phrase@.0);
                }
                return Err(UpdateDictionaryError { duplicate: true });
            }
            k = k + 1;
        }
        proof {
            let syls = syllables_view(syllables@);
            assert forall|j: int| 0 <= j < self.found(syls, LookupStrategy::Standard).len() implies #[trigger] self.found(
                syls,
                LookupStrategy::Standard,
            )[j].0 != phrase@.0 by {
                assert(self.found(syls, LookupStrategy::Standard)[j] == found@[j]@);
            }
        }
        let time = match phrase.last_used {
            Some(t) => t,
            None => 0,
        };
        let sy = vstd::slice::slice_to_vec(syllables);
        self.set_entry(sy, phrase.phrase, phrase.freq, time);
        Ok(())
    }

    /// Sets the buffered phrase with the key (`syllables`, `text`).
    fn set_entry(&mut self, syllables: Vec<Syllable>, text: String, freq: u32, time: u64)
        requires
            old(self).wf(),
        ensures
            final(self).wf(),
            final(self).buffer() == upsert_entry(old(self).buffer(), (syllables_view(syllables@), text@, freq, time)),
            final(self).removed() == old(self).removed(),
            final(self).trie_view() == old(self).trie_view(),
            final(self).is_dirty(),
    {
        let ghost s = self.buffer();
        let ghost x: BufEntryView = (syllables_view(syllables@), text@, freq, time);
        match find_key(&self.btree, syllables.as_slice(), text.as_str()) {
            Some(k) => {
                self.btree[k].freq = freq;
                self.btree[k].last_used = time;
                proof {
                    assert(buf_view(self.btree@) =~= s.update(k as int, x));
                    assert forall|a: int, b: int| 0 <= a < b < buf_view(self.btree@).len() implies entry_key(
                        buf_view(self.btree@)[a],
                    ) != entry_key(buf_view(self.btree@)[b]) by {
                        assert(entry_key(buf_view(self.btree@)[a]) == entry_key(s[a]));
                        assert(entry_key(buf_view(self.btree@)[b]) == entry_key(s[b]));
                    }
                }
            },
            None => {
                let e = BufEntry { syllables, phrase: text, freq, last_used: time };
                insert_sorted_entry(&mut self.btree, e);
                proof {
                    lemma_insert_entry_keys(s, x);
                }
            },
        }
        self.dirty = true;
    }

    /// Sets the frequency and last used time of a phrase in the buffer.
    pub fn update_phrase(&mut self, syllables: &[Syllable], phrase: Phrase, user_freq: u32, time: u64) -> (r: Result<
        (),
        UpdateDictionaryError,
    >)
        requires
            old(self).wf(),
        ensures
            r is Ok,
            final(self).wf(),
            final(self).buffer() == upsert_entry(
                old(self).buffer(),
                (syllables_view(syllables@), phrase@.0, user_freq, time),
            ),
            final(self).removed() == old(self).removed(),
            final(self).trie_view() == old(self).trie_view(),
            final(self).is_dirty(),
    {
        let sy = vstd::slice::slice_to_vec(syllables);
        self.set_entry(sy, phrase.phrase, user_freq, time);
        Ok(())
    }

    /// Removes a phrase from the buffer and marks its key as removed.
    pub fn remove_phrase(&mut self, syllables: &[Syllable], phrase_str: &str) -> (r: Result<
        (),
        UpdateDictionaryError,
    >)
        requires
            old(self).wf(),
        ensures
            r is Ok,
            final(self).wf(),
            final(self).buffer() == remove_entry(old(self).buffer(), (syllables_view(syllables@), phrase_str@)),
            final(self).removed() == old(self).removed().push((syllables_view(syllables@), phrase_str@)),
            final(self).trie_view() == old(self).trie_view(),
            final(self).is_dirty(),
    {
        let ghost s = self.buffer();
        let ghost key = (syllables_view(syllables@), phrase_str@);
        match find_key(&self.btree, syllables, phrase_str) {
            Some(k) => {
                self.btree.remove(k);
                proof {
                    assert(buf_view(self.btree@) =~= s.remove(k as int));
                    assert forall|a: int, b: int| 0 <= a < b < buf_view(self.btree@).len() implies entry_key(
                        buf_view(self.btree@)[a],
                    ) != entry_key(buf_view(self.btree@)[b]) by {
                        let a2 = if a < k { a } else { a + 1 };
                        let b2 = if b < k { b } else { b + 1 };
                        assert(buf_view(self.btree@)[a] == s[a2]);
                        assert(buf_view(self.btree@)[b] == s[b2]);
                    }
                }
            },
            None => {},
        }
        let sy = vstd::slice::slice_to_vec(syllables);
        let ghost g = self.removed();
        self.graveyard.push((sy, phrase_str.to_owned()));
        assert(self.removed() =~= g.push(key));
        self.dirty = true;
        Ok(())
    }

    /// Reopens the dictionary; an in-memory buffer has nothing to reload.
    pub fn reopen(&mut self) -> (r: Result<(), UpdateDictionaryError>)
        ensures
            r is Ok,
            *final(self) == *old(self),
    {
        Ok(())
    }

    /// The bytes of a trie dictionary file holding all entries of the
    /// buffer, with the metadata of the trie and `software` as its software.
    pub fn snapshot(&self, software: String) -> (r: Result<Vec<u8>, BuildDictionaryError>)
        ensures
            r matches Ok(bytes) ==> saved_file(*self, software@, bytes@),
            r matches Err(e) ==> e.kind == crate::dictionary::BuildErrorKind::TooLarge,
            entries_fit(self.entries_all(), with_software(self.about_spec(), software@)) ==> r is Ok,
    {
        let mut builder = TrieBuilder::new();
        let mut info = self.about();
        info.software = software;
        let _ = builder.set_info(info);
        let entries = self.entries();
        let ghost ev = entries_view(entries@);
        assert(ev.take(0) =~= Seq::<EntryView>::empty());
        let mut i: usize = 0;
        while i < entries.len()
            invariant
                builder.wf(),
                i <= entries@.len(),
                ev == entries_view(entries@),
                builder.info_view() == with_software(self.about_spec(), software@),
                forall|syls: Seq<u16>| #[trigger] builder.model(syls) == built_model(ev.take(i as int), syls),
                nonzero_entries(ev.take(i as int)) ==> builder.no_empty_syllables(),
                builder.nodes().len() <= 1 + entries_nodes(ev.take(i as int)),
                ev == self.entries_all(),
            decreases entries@.len() - i,
        {
            let ghost bo = builder;
            proof {
                if nonzero_entries(ev.take(i + 1)) {
                    assert forall|k: int| 0 <= k < ev.take(i as int).len() implies forall|j: int|
                        0 <= j < (#[trigger] ev.take(i as int)[k]).0.len() ==> ev.take(i as int)[k].0[j] != 0 by {
                        assert(ev.take(i as int)[k] == ev.take(i + 1)[k]);
                    }
                    assert(ev.take(i + 1)[i as int] == ev[i as int]);
                    assert forall|j: int| 0 <= j < entries@[i as int].0@.len() implies #[trigger] entries@[i as int].0@[j]@
                        != 0 by {
                        assert(ev[i as int].0[j] == entries@[i as int].0@[j]@);
                    }
                }
            }
            proof {
                assert(ev.take(i + 1).drop_last() =~= ev.take(i as int));
                assert(ev.take(i + 1).last() == ev[i as int]);
                assert(ev[i as int].0.len() == entries@[i as int].0@.len());
                if entries_fit(ev, builder.info_view()) {
                    lemma_entries_nodes_prefix(ev, i + 1);
                }
            }
            let p = entries[i].1.clone();
            match builder.insert(entries[i].0.as_slice(), p) {
                Ok(()) => {},
                Err(e) => {
                    return Err(e);
                },
            }
            proof {
                assert(ev.take(i + 1).drop_last() =~= ev.take(i as int));
                assert(ev.take(i + 1).last() == ev[i as int]);
                assert(ev[i as int] == (syllables_view(entries@[i as int].0@), entries@[i as int].1@));
                assert forall|syls: Seq<u16>| #[trigger] builder.model(syls) == built_model(ev.take(i + 1), syls) by {
                    assert(bo.model(syls) == built_model(ev.take(i as int), syls));
                }
            }
            i = i + 1;
        }
        assert(ev.take(i as int) =~= ev);
        proof {
            if entries_fit(ev, builder.info_view()) {
                let c = ev.len();
                let m = entries_max_der(ev);
                let nn = builder.nodes().len();
                let big = 1 + entries_nodes(ev);
                assert(nn * (c * m) <= big * (c * m)) by (nonlinear_arith)
                    requires
                        nn <= big,
                ;
                assert forall|syls: Seq<u16>| #[trigger] builder.model(syls).len() <= c by {
                    lemma_built_model_bounds(ev, syls);
                }
                assert forall|syls: Seq<u16>, j: int|
                    0 <= j < builder.model(syls).len() implies crate::dictionary::trie_format::phrase_encodable(
                    #[trigger] builder.model(syls)[j],
                ) && crate::dictionary::trie_format::phrase_der(builder.model(syls)[j]).len() <= m by {
                    lemma_built_model_bounds(ev, syls);
                    let k = choose|k: int| 0 <= k < ev.len() && #[trigger] built_model(ev, syls)[j] == ev[k].1;
                    lemma_entries_max_der(ev, k);
                }
                builder.lemma_fits_by_model(c, m);
            }
        }
        let r = builder.write();
        proof {
            if r is Ok {
                assert(written_by(builder, r->Ok_0@));
            }
        }
        r
    }

    /// The file of an empty user dictionary, named "我的詞庫", with unknown
    /// copyright and license, version 0.0.0 and `software` as its software.
    ///
    /// It is written whenever the metadata fits the DER length limit with
    /// room for the empty index and phrase data.
    pub fn fresh_file(software: String) -> (r: Result<Vec<u8>, BuildDictionaryError>)
        ensures
            r matches Ok(bytes) ==> exists|b: TrieBuilder|
                b.wf() && b.info_view() == fresh_user_info(software@) && (forall|syls: Seq<u16>|
                    #[trigger] b.model(syls) == Seq::<PhraseView>::empty()) && written_by(b, bytes@),
            r matches Err(e) ==> e.kind == crate::dictionary::BuildErrorKind::TooLarge,
            crate::dictionary::trie_format::info_der(fresh_user_info(software@)).len() + 40
                <= crate::der::MAX_DER_LEN ==> r is Ok,
    {
        let info = DictionaryInfo {
            name: String::from_str("我的詞庫"),
            copyright: String::from_str("Unknown"),
            license: String::from_str("Unknown"),
            version: String::from_str("0.0.0"),
            software,
        };
        let mut builder = TrieBuilder::new();
        let _ = builder.set_info(info);
        proof {
            let a = builder.nodes();
            assert(crate::dictionary::trie::arena_data_len(a, 0) == 0);
            assert(crate::dictionary::trie::arena_data_len(a, 1) == 0);
        }
        let r = builder.write();
        proof {
            if r is Ok {
                assert(written_by(builder, r->Ok_0@));
            }
        }
        r
    }

    /// Puts a freshly read trie under the buffer. After a save of this
    /// buffer (`saved`) that nothing has changed since, the buffered phrases
    /// and removed keys are in the trie and are dropped.
    pub fn reload(&mut self, trie: Trie, saved: bool)
        ensures
            final(self).trie_view() == Some(trie),
            final(self).is_dirty() == old(self).is_dirty(),
            (saved && !old(self).is_dirty()) ==> final(self).buffer() == Seq::<BufEntryView>::empty()
                && final(self).removed() == Seq::<PhraseKeyView>::empty() && final(self).wf(),
            !(saved && !old(self).is_dirty()) ==> final(self).buffer() == old(self).buffer() && final(self).removed()
                == old(self).removed() && final(self).wf() == old(self).wf(),
    {
        self.trie = Some(trie);
        if saved && !self.dirty {
            self.btree = Vec::new();
            self.graveyard = Vec::new();
            assert(self.buffer() =~= Seq::<BufEntryView>::empty());
            assert(self.removed() =~= Seq::<PhraseKeyView>::empty());
        }
    }

    /// Whether the buffer over a trie has changes to save.
    pub fn needs_checkpoint(&self) -> (b: bool)
        ensures
            b == (self.trie_view() is Some && self.is_dirty()),
    {
        self.trie.is_some() && self.dirty
    }

    /// Marks the buffer as saved.
    pub fn mark_saved(&mut self)
        ensures
            !final(self).is_dirty(),
            final(self).buffer() == old(self).buffer(),
            final(self).removed() == old(self).removed(),
            final(self).trie_view() == old(self).trie_view(),
            final(self).wf() == old(self).wf(),
    {
        self.dirty = false;
    }
}

/// Inserting a phrase whose key is absent keeps the keys distinct.
proof fn lemma_insert_entry_keys(s: Seq<BufEntryView>, x: BufEntryView)
    requires
        distinct_keys(s),
        !has_key(s, entry_key(x)),
    ensures
        distinct_keys(insert_entry(s, x)),
        insert_entry(s, x).len() == s.len() + 1,
        insert_entry(s, x).to_multiset() == s.to_multiset().insert(x),
    decreases s.len(),
{
    broadcast use vstd::seq_lib::group_to_multiset_ensures;
    if s.len() == 0 {
        assert(insert_entry(s, x) =~= seq![x]);
        assert(seq![x] =~= Seq::<BufEntryView>::empty().push(x));
    } else if key_less(entry_key(x), entry_key(s[0])) {
        let r = seq![x] + s;
        assert forall|a: int, b: int| 0 <= a < b < r.len() implies entry_key(r[a]) != entry_key(r[b]) by {
            if a == 0 {
                assert(r[b] == s[b - 1]);
            } else {
                assert(r[a] == s[a - 1] && r[b] == s[b - 1]);
            }
        }
        vstd::seq_lib::lemma_multiset_commutative(seq![x], s);
        assert(seq![x] =~= Seq::<BufEntryView>::empty().push(x));
    } else {
        let t = s.drop_first();
        assert forall|a: int, b: int| 0 <= a < b < t.len() implies entry_key(t[a]) != entry_key(t[b]) by {
            assert(t[a] == s[a + 1] && t[b] == s[b + 1]);
        }
        assert(!has_key(t, entry_key(x))) by {
            if has_key(t, entry_key(x)) {
                let k = choose|k: int| 0 <= k < t.len() && entry_key(t[k]) == entry_key(x);
                assert(entry_key(s[k + 1]) == entry_key(x));
            }
        }
        lemma_insert_entry_keys(t, x);
        let it = insert_entry(t, x);
        let r = seq![s[0]] + it;
        assert forall|a: int, b: int| 0 <= a < b < r.len() implies entry_key(r[a]) != entry_key(r[b]) by {
            if a == 0 {
                assert(r[b] == it[b - 1]);
                assert(it.to_multiset().count(it[b - 1]) > 0);
                assert(it.contains(it[b - 1]));
                if it[b - 1] == x {
                    assert(entry_key(s[0]) != entry_key(x));
                } else {
                    assert(t.to_multiset().insert(x).count(it[b - 1]) > 0);
                    assert(t.to_multiset().count(it[b - 1]) > 0);
                    assert(t.contains(it[b - 1]));
                    let k = choose|k: int| 0 <= k < t.len() && t[k] == it[b - 1];
                    assert(s[k + 1] == t[k]);
                }
            } else {
                assert(r[a] == it[a - 1] && r[b] == it[b - 1]);
            }
        }
        vstd::seq_lib::lemma_multiset_commutative(seq![s[0]], it);
        vstd::seq_lib::lemma_multiset_commutative(seq![s[0]], t);
        assert(s =~= seq![s[0]] + t);
    }
}

/// Merges phrases with [`merge_all_max`].
pub fn merge_phrases_max(ps: &Vec<Phrase>) -> (r: Vec<Phrase>)
    ensures
        phrases_view(r@) == merge_all_max(phrases_view(ps@)),
        crate::dictionary::trie::distinct_texts(phrases_view(r@)),
{
    let ghost pv = phrases_view(ps@);
    let mut acc: Vec<Phrase> = Vec::new();
    let mut i: usize = 0;
    assert(pv.take(0) =~= Seq::<PhraseView>::empty());
    while i < ps.len()
        invariant
            i <= ps@.len(),
            pv == phrases_view(ps@),
            phrases_view(acc@) == merge_all_max(pv.take(i as int)),
            crate::dictionary::trie::distinct_texts(phrases_view(acc@)),
        decreases ps@.len() - i,
    {
        proof {
            assert(pv.take(i + 1).drop_last() =~= pv.take(i as int));
            assert(pv.take(i + 1).last() == pv[i as int]);
        }
        let p = &ps[i];
        let ghost av = phrases_view(acc@);
        let mut k: usize = 0;
        while k < acc.len()
            invariant
                k <= acc@.len(),
                av == phrases_view(acc@),
                forall|j: int| 0 <= j < k ==> av[j].0 != p@.0,
            ensures
                k <= acc@.len(),
                forall|j: int| 0 <= j < k ==> av[j].0 != p@.0,
                k < acc@.len() ==> av[k as int].0 == p@.0,
            decreases acc@.len() - k,
        {
            if acc[k].phrase == p.phrase {
                break;
            }
            k = k + 1;
        }
        if k < acc.len() {
            proof {
                assert(av[k as int].0 == p@.0);
                let c = choose|c: int| 0 <= c < av.len() && av[c].0 == p@.0;
                if c != k {
                    if c < k {
                        assert(av[c].0 != av[k as int].0);
                    } else {
                        assert(av[k as int].0 != av[c].0);
                    }
                }
            }
            if p.freq > acc[k].freq {
                acc.set(k, p.clone());
                assert(phrases_view(acc@) =~= av.update(k as int, p@));
            }
        } else {
            acc.push(p.clone());
            assert(phrases_view(acc@) =~= av.push(p@));
            assert(!(exists|c: int| 0 <= c < av.len() && av[c].0 == p@.0));
        }
        i = i + 1;
    }
    assert(pv.take(i as int) =~= pv);
    acc
}


/// The first `first` elements of a sequence, or all of them.
pub open spec fn first_n<T>(s: Seq<T>, first: nat) -> Seq<T> {
    if first < s.len() {
        s.take(first as int)
    } else {
        s
    }
}

impl Dictionary for TrieBuf {
    open spec fn lookup_view(&self, syls: Seq<u16>, first: nat, strategy: LookupStrategy) -> Seq<PhraseView> {
        first_n(self.lookup_spec(syls, strategy), first)
    }

    open spec fn entries_spec(&self) -> Seq<EntryView> {
        unburied_entries(
            self.removed(),
            (match self.trie_view() {
                Some(t) => trie_entries(t.index_view(), t.data_view()),
                None => Seq::empty(),
            }) + buf_entries(self.buffer()),
        )
    }

    open spec fn about_view(&self) -> DictionaryInfoView {
        match self.trie_view() {
            Some(t) => t.info_view(),
            None => empty_info_view(),
        }
    }

    fn lookup_first_n_phrases(&self, syllables: &[Syllable], first: usize, strategy: LookupStrategy) -> (r: Vec<
        Phrase,
    >) {
        let mut all = self.lookup(syllables, strategy);
        if first < all.len() {
            all.truncate(first);
        }
        assert(phrases_view(all@) =~= first_n(self.lookup_spec(syllables_view(syllables@), strategy), first as nat));
        all
    }

    fn entries(&self) -> (r: Vec<(Vec<Syllable>, Phrase)>) {
        TrieBuf::entries(self)
    }

    fn about(&self) -> (r: DictionaryInfo) {
        TrieBuf::about(self)
    }
}

impl DictionaryMut for TrieBuf {
    open spec fn mut_wf(&self) -> bool {
        self.wf()
    }

    fn reopen(&mut self) -> (r: Result<(), UpdateDictionaryError>)
        ensures
            r matches Ok(_),
            *final(self) == *old(self),
    {
        TrieBuf::reopen(self)
    }

    fn flush(&mut self) -> (r: Result<(), UpdateDictionaryError>)
        ensures
            r matches Ok(_),
            *final(self) == *old(self),
    {
        Ok(())
    }

    fn add_phrase(&mut self, syllables: &[Syllable], phrase: Phrase) -> (r: Result<(), UpdateDictionaryError>)
        ensures
            add_effect(*old(self), *final(self), syllables_view(syllables@), phrase@, r is Ok),
    {
        TrieBuf::add_phrase(self, syllables, phrase)
    }

    fn update_phrase(&mut self, syllables: &[Syllable], phrase: Phrase, user_freq: u32, time: u64) -> (r: Result<
        (),
        UpdateDictionaryError,
    >)
        ensures
            r is Ok,
            update_effect(*old(self), *final(self), syllables_view(syllables@), phrase@.0, user_freq, time),
    {
        TrieBuf::update_phrase(self, syllables, phrase, user_freq, time)
    }

    fn remove_phrase(&mut self, syllables: &[Syllable], phrase_str: &str) -> (r: Result<(), UpdateDictionaryError>)
        ensures
            r is Ok,
            remove_effect(*old(self), *final(self), syllables_view(syllables@), phrase_str@),
    {
        TrieBuf::remove_phrase(self, syllables, phrase_str)
    }
}


/// The texts of merged phrases are the texts of the phrases merged.
pub proof fn lemma_merge_texts(ps: Seq<PhraseView>, t: Seq<char>)
    ensures
        (exists|k: int| 0 <= k < merge_all_max(ps).len() && #[trigger] merge_all_max(ps)[k].0 == t) <==> (exists|
            j: int,
        | 0 <= j < ps.len() && #[trigger] ps[j].0 == t),
    decreases ps.len(),
{
    if ps.len() > 0 {
        let init = ps.drop_last();
        let p = ps.last();
        lemma_merge_texts(init, t);
        let acc = merge_all_max(init);
        let m = merge_all_max(ps);
        assert(m == merge_max(acc, p));
        if exists|j: int| 0 <= j < ps.len() && #[trigger] ps[j].0 == t {
            let j = choose|j: int| 0 <= j < ps.len() && #[trigger] ps[j].0 == t;
            if j < init.len() {
                assert(init[j].0 == t);
                let k = choose|k: int| 0 <= k < acc.len() && #[trigger] acc[k].0 == t;
                if exists|c: int| 0 <= c < acc.len() && acc[c].0 == p.0 {
                    let c = choose|c: int| 0 <= c < acc.len() && acc[c].0 == p.0;
                    if p.1 > acc[c].1 {
                        if k == c {
                            assert(m[c].0 == t);
                        } else {
                            assert(m[k].0 == t);
                        }
                    } else {
                        assert(m[k].0 == t);
                    }
                } else {
                    assert(m[k].0 == t);
                }
            } else {
                assert(p.0 == t);
                if exists|c: int| 0 <= c < acc.len() && acc[c].0 == p.0 {
                    let c = choose|c: int| 0 <= c < acc.len() && acc[c].0 == p.0;
                    if p.1 > acc[c].1 {
                        assert(m[c].0 == t);
                    } else {
                        assert(m[c].0 == t);
                    }
                } else {
                    assert(m[acc.len() as int].0 == t);
                }
            }
        }
        if exists|k: int| 0 <= k < m.len() && #[trigger] m[k].0 == t {
            let k = choose|k: int| 0 <= k < m.len() && #[trigger] m[k].0 == t;
            if exists|c: int| 0 <= c < acc.len() && acc[c].0 == p.0 {
                let c = choose|c: int| 0 <= c < acc.len() && acc[c].0 == p.0;
                if p.1 > acc[c].1 && k == c {
                    assert(ps[ps.len() - 1].0 == t);
                } else {
                    assert(acc[k].0 == t);
                    let j = choose|j: int| 0 <= j < init.len() && #[trigger] init[j].0 == t;
                    assert(ps[j].0 == t);
                }
            } else {
                if k < acc.len() {
                    assert(acc[k].0 == t);
                    let j = choose|j: int| 0 <= j < init.len() && #[trigger] init[j].0 == t;
                    assert(ps[j].0 == t);
                } else {
                    assert(ps[ps.len() - 1].0 == t);
                }
            }
        }
    }
}

/// A phrase is kept unless its key with `syls` is removed.
pub proof fn lemma_unburied(grave: Seq<PhraseKeyView>, syls: Seq<u16>, ps: Seq<PhraseView>, q: PhraseView)
    ensures
        unburied(grave, syls, ps).contains(q) <==> (ps.contains(q) && !grave.contains((syls, q.0))),
    decreases ps.len(),
{
    if ps.len() > 0 {
        let init = ps.drop_last();
        lemma_unburied(grave, syls, init, q);
        let u = unburied(grave, syls, init);
        assert(ps =~= init.push(ps.last()));
        if grave.contains((syls, ps.last().0)) {
            assert(unburied(grave, syls, ps) == u + Seq::<PhraseView>::empty());
            assert(u + Seq::<PhraseView>::empty() =~= u);
            if ps.contains(q) && !grave.contains((syls, q.0)) {
                let j = choose|j: int| 0 <= j < ps.len() && ps[j] == q;
                assert(j != ps.len() - 1);
                assert(init[j] == q);
            }
        } else {
            assert(unburied(grave, syls, ps) == u + seq![ps.last()]);
            if unburied(grave, syls, ps).contains(q) {
                let j = choose|j: int| 0 <= j < unburied(grave, syls, ps).len() && unburied(grave, syls, ps)[j] == q;
                if j < u.len() {
                    assert(u[j] == q);
                } else {
                    assert(q == ps.last());
                }
            }
            if ps.contains(q) && !grave.contains((syls, q.0)) {
                let j = choose|j: int| 0 <= j < ps.len() && ps[j] == q;
                if j < init.len() {
                    assert(init[j] == q);
                    let i = choose|i: int| 0 <= i < u.len() && u[i] == q;
                    assert(unburied(grave, syls, ps)[i] == q);
                } else {
                    assert(unburied(grave, syls, ps)[u.len() as int] == q);
                }
            }
        }
    }
}

/// Every buffered phrase of `syls` below the greatest text is listed.
pub proof fn lemma_buf_phrases_contains(s: Seq<BufEntryView>, syls: Seq<u16>, k: int)
    requires
        0 <= k < s.len(),
        s[k].0 == syls,
        below_max_text(s[k].1),
    ensures
        buf_phrases(s, syls).contains((s[k].1, s[k].2, Some(s[k].3))),
    decreases s.len(),
{
    let init = s.drop_last();
    if k == s.len() - 1 {
        let b = buf_phrases(init, syls);
        assert(buf_phrases(s, syls)[b.len() as int] == (s[k].1, s[k].2, Some(s[k].3)));
    } else {
        assert(init[k] == s[k]);
        lemma_buf_phrases_contains(init, syls, k);
        let b = buf_phrases(init, syls);
        let j = choose|j: int| 0 <= j < b.len() && b[j] == (s[k].1, s[k].2, Some(s[k].3));
        assert(buf_phrases(s, syls)[j] == b[j]);
    }
}

/// A buffered phrase is present after it is set.
pub proof fn lemma_upsert_contains(s: Seq<BufEntryView>, x: BufEntryView)
    ensures
        upsert_entry(s, x).contains(x),
    decreases s.len(),
{
    if has_key(s, entry_key(x)) {
        let k = key_pos(s, entry_key(x));
        assert(upsert_entry(s, x)[k] == x);
    } else {
        lemma_insert_contains(s, x);
    }
}

/// An inserted phrase is present.
pub proof fn lemma_insert_contains(s: Seq<BufEntryView>, x: BufEntryView)
    ensures
        insert_entry(s, x).contains(x),
    decreases s.len(),
{
    if s.len() == 0 {
        assert(insert_entry(s, x)[0] == x);
    } else if key_less(entry_key(x), entry_key(s[0])) {
        assert(insert_entry(s, x)[0] == x);
    } else {
        lemma_insert_contains(s.drop_first(), x);
        let r = insert_entry(s.drop_first(), x);
        let j = choose|j: int| 0 <= j < r.len() && r[j] == x;
        assert(insert_entry(s, x)[j + 1] == x);
    }
}

/// A phrase set in the buffer of a dictionary is found by a lookup of its
/// syllables, unless its key was removed before or its text is not below
/// U+10FFFF.
pub proof fn law_set_phrase_is_found(o: TrieBuf, n: TrieBuf, x: BufEntryView, strategy: LookupStrategy)
    requires
        n.buffer() == upsert_entry(o.buffer(), x),
        n.removed() == o.removed(),
        n.trie_view() == o.trie_view(),
        below_max_text(x.1),
        !o.removed().contains((x.0, x.1)),
    ensures
        exists|k: int| 0 <= k < n.lookup_spec(x.0, strategy).len() && #[trigger] n.lookup_spec(x.0, strategy)[k].0 == x.1,
{
    let s = n.buffer();
    lemma_upsert_contains(o.buffer(), x);
    let k = choose|k: int| 0 <= k < s.len() && s[k] == x;
    lemma_buf_phrases_contains(s, x.0, k);
    let q = (x.1, x.2, Some(x.3));
    let all = n.trie_part(x.0, strategy) + buf_phrases(s, x.0);
    let b = buf_phrases(s, x.0);
    let j = choose|j: int| 0 <= j < b.len() && b[j] == q;
    assert(all[n.trie_part(x.0, strategy).len() + j] == q);
    lemma_unburied(n.removed(), x.0, all, q);
    let f = n.found(x.0, strategy);
    let i = choose|i: int| 0 <= i < f.len() && f[i] == q;
    assert(f[i].0 == x.1);
    lemma_merge_texts(f, x.1);
    let m = merge_all_max(f);
    let k = choose|k: int| 0 <= k < m.len() && #[trigger] m[k].0 == x.1;
    assert(n.lookup_spec(x.0, strategy)[k].0 == x.1);
}

/// A lookup never returns a phrase whose key with the looked up syllables
/// was removed.
pub proof fn law_removed_phrase_is_not_found(d: TrieBuf, syls: Seq<u16>, t: Seq<char>, strategy: LookupStrategy)
    requires
        d.removed().contains((syls, t)),
    ensures
        forall|k: int| 0 <= k < d.lookup_spec(syls, strategy).len() ==> #[trigger] d.lookup_spec(syls, strategy)[k].0 != t,
{
    let f = d.found(syls, strategy);
    lemma_merge_texts(f, t);
    if exists|j: int| 0 <= j < f.len() && #[trigger] f[j].0 == t {
        let j = choose|j: int| 0 <= j < f.len() && #[trigger] f[j].0 == t;
        lemma_unburied(d.removed(), syls, d.trie_part(syls, strategy) + buf_phrases(d.buffer(), syls), f[j]);
        assert(f.contains(f[j]));
    }
}

/// Every buffered phrase of `syls` comes from an entry of the buffer.
proof fn lemma_buf_phrases_elem(s: Seq<BufEntryView>, syls: Seq<u16>, e: PhraseView)
    requires
        buf_phrases(s, syls).contains(e),
    ensures
        exists|k: int| 0 <= k < s.len() && s[k].0 == syls && e == (s[k].1, s[k].2, Some(s[k].3)),
    decreases s.len(),
{
    let init = s.drop_last();
    let b = buf_phrases(init, syls);
    let j = choose|j: int| 0 <= j < buf_phrases(s, syls).len() && buf_phrases(s, syls)[j] == e;
    if j < b.len() {
        assert(b[j] == e);
        lemma_buf_phrases_elem(init, syls, e);
        let k = choose|k: int| 0 <= k < init.len() && init[k].0 == syls && e == (init[k].1, init[k].2, Some(init[k].3));
        assert(s[k] == init[k]);
    } else {
        let k = s.len() - 1;
        assert(s[k] == s.last());
    }
}

/// An element of a buffer with an inserted phrase is that phrase or was
/// there before.
proof fn lemma_insert_elems(s: Seq<BufEntryView>, x: BufEntryView, y: BufEntryView)
    requires
        insert_entry(s, x).contains(y),
    ensures
        y == x || s.contains(y),
    decreases s.len(),
{
    let r = insert_entry(s, x);
    let j = choose|j: int| 0 <= j < r.len() && r[j] == y;
    if s.len() == 0 {
    } else if key_less(entry_key(x), entry_key(s[0])) {
        if j > 0 {
            assert(s[j - 1] == y);
        }
    } else {
        if j == 0 {
            assert(s[0] == y);
        } else {
            let t = insert_entry(s.drop_first(), x);
            assert(t[j - 1] == y);
            lemma_insert_elems(s.drop_first(), x, y);
            if s.drop_first().contains(y) {
                let i = choose|i: int| 0 <= i < s.drop_first().len() && s.drop_first()[i] == y;
                assert(s[i + 1] == y);
            }
        }
    }
}

/// Merging keeps only phrases that were there.
proof fn lemma_merge_elems(ps: Seq<PhraseView>, y: PhraseView)
    requires
        merge_all_max(ps).contains(y),
    ensures
        ps.contains(y),
    decreases ps.len(),
{
    let init = ps.drop_last();
    let p = ps.last();
    let acc = merge_all_max(init);
    let m = merge_all_max(ps);
    let j = choose|j: int| 0 <= j < m.len() && m[j] == y;
    if y == p {
        assert(ps[ps.len() - 1] == y);
    } else {
        if exists|k: int| 0 <= k < acc.len() && acc[k].0 == p.0 {
            let k = choose|k: int| 0 <= k < acc.len() && acc[k].0 == p.0;
            assert(acc[j] == y);
        } else {
            assert(acc[j] == y);
        }
        lemma_merge_elems(init, y);
        let i = choose|i: int| 0 <= i < init.len() && init[i] == y;
        assert(ps[i] == y);
    }
}

/// A phrase that is the only one of its text is kept by merging.
proof fn lemma_merge_unique(ps: Seq<PhraseView>, q: PhraseView)
    requires
        ps.contains(q),
        forall|j: int| 0 <= j < ps.len() && (#[trigger] ps[j]).0 == q.0 ==> ps[j] == q,
    ensures
        merge_all_max(ps).contains(q),
    decreases ps.len(),
{
    let init = ps.drop_last();
    let p = ps.last();
    let acc = merge_all_max(init);
    let m = merge_all_max(ps);
    assert(m == merge_max(acc, p));
    assert forall|j: int| 0 <= j < init.len() && (#[trigger] init[j]).0 == q.0 implies init[j] == q by {
        assert(ps[j] == init[j]);
    }
    if p == q {
        if exists|k: int| 0 <= k < acc.len() && acc[k].0 == p.0 {
            let k = choose|k: int| 0 <= k < acc.len() && acc[k].0 == p.0;
            assert(acc.contains(acc[k]));
            lemma_merge_elems(init, acc[k]);
            let i = choose|i: int| 0 <= i < init.len() && init[i] == acc[k];
            assert(acc[k] == q);
            assert(m[k] == q);
        } else {
            assert(m[acc.len() as int] == q);
        }
    } else {
        let i = choose|i: int| 0 <= i < ps.len() && ps[i] == q;
        assert(i != ps.len() - 1);
        assert(init[i] == q);
        assert(p.0 != q.0);
        lemma_merge_unique(init, q);
        let c = choose|c: int| 0 <= c < acc.len() && acc[c] == q;
        if exists|k: int| 0 <= k < acc.len() && acc[k].0 == p.0 {
            let k = choose|k: int| 0 <= k < acc.len() && acc[k].0 == p.0;
            assert(k != c);
            assert(m[c] == q);
        } else {
            assert(m[c] == q);
        }
    }
}

/// A phrase added to a buffer is found by a lookup of its syllables with
/// its frequency and its last use time (0 when it has none), unless its key
/// was removed before or its text is not below U+10FFFF.
pub proof fn law_added_phrase_is_found(o: TrieBuf, n: TrieBuf, syls: Seq<u16>, p: PhraseView)
    requires
        add_effect(o, n, syls, p, true),
        below_max_text(p.0),
        !o.removed().contains((syls, p.0)),
    ensures
        n.lookup_spec(syls, LookupStrategy::Standard).contains(
            (p.0, p.1, Some(
                match p.2 {
                    Some(t) => t,
                    None => 0,
                },
            )),
        ),
{
    let st = LookupStrategy::Standard;
    let x: BufEntryView = (syls, p.0, p.1, match p.2 {
        Some(t) => t,
        None => 0,
    });
    let q = (x.1, x.2, Some(x.3));
    let fo = o.found(syls, st);
    let tp = o.trie_part(syls, st);
    assert(n.trie_part(syls, st) == tp);
    // What the old buffer finds never has the added text.
    assert forall|e: PhraseView| (tp + buf_phrases(o.buffer(), syls)).contains(e) && e.0 == p.0 implies false by {
        lemma_unburied(o.removed(), syls, tp + buf_phrases(o.buffer(), syls), e);
        let k = choose|k: int| 0 <= k < fo.len() && fo[k] == e;
        assert(fo[k].0 == p.0);
    }
    if has_key(o.buffer(), entry_key(x)) {
        let k = key_pos(o.buffer(), entry_key(x));
        lemma_buf_phrases_contains(o.buffer(), syls, k);
        let e = (o.buffer()[k].1, o.buffer()[k].2, Some(o.buffer()[k].3));
        let b = buf_phrases(o.buffer(), syls);
        let j = choose|j: int| 0 <= j < b.len() && b[j] == e;
        assert((tp + b)[tp.len() + j] == e);
        assert((tp + b).contains(e));
        assert(e.0 == p.0);
        assert(false);
    }
    assert(n.buffer() == insert_entry(o.buffer(), x));
    let all = tp + buf_phrases(n.buffer(), syls);
    let fnew = n.found(syls, st);
    lemma_upsert_contains(o.buffer(), x);
    let kx = choose|kx: int| 0 <= kx < n.buffer().len() && n.buffer()[kx] == x;
    lemma_buf_phrases_contains(n.buffer(), syls, kx);
    let bn = buf_phrases(n.buffer(), syls);
    let jq = choose|j: int| 0 <= j < bn.len() && bn[j] == q;
    assert(all[tp.len() + jq] == q);
    lemma_unburied(n.removed(), syls, all, q);
    assert forall|j: int| 0 <= j < fnew.len() && (#[trigger] fnew[j]).0 == q.0 implies fnew[j] == q by {
        let e = fnew[j];
        assert(fnew.contains(e));
        lemma_unburied(n.removed(), syls, all, e);
        let i = choose|i: int| 0 <= i < all.len() && all[i] == e;
        if i < tp.len() {
            assert((tp + buf_phrases(o.buffer(), syls))[i] == e);
            assert((tp + buf_phrases(o.buffer(), syls)).contains(e));
        } else {
            assert(bn[i - tp.len()] == e);
            lemma_buf_phrases_elem(n.buffer(), syls, e);
            let k = choose|k: int| 0 <= k < n.buffer().len() && n.buffer()[k].0 == syls && e == (
                n.buffer()[k].1,
                n.buffer()[k].2,
                Some(n.buffer()[k].3),
            );
            let y = n.buffer()[k];
            lemma_insert_elems(o.buffer(), x, y);
            if y != x {
                let ko = choose|ko: int| 0 <= ko < o.buffer().len() && o.buffer()[ko] == y;
                assert(below_max_text(y.1));
                lemma_buf_phrases_contains(o.buffer(), syls, ko);
                let b = buf_phrases(o.buffer(), syls);
                let jb = choose|jb: int| 0 <= jb < b.len() && b[jb] == e;
                assert((tp + b)[tp.len() + jb] == e);
                assert((tp + b).contains(e));
            }
        }
    }
    lemma_merge_unique(fnew, q);
}

} // verus!
