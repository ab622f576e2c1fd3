//! A read-only dictionary using a pre-built trie index, and the builder that
//! writes it.
//!
//! The index is a sequence of 8 byte records in BFS order, all integers big
//! endian. The first record is the root. An internal node record holds the
//! record index of its first child (32 bits), the number of children (16
//! bits) and the packed syllable (16 bits, 0 for the root). A leaf record
//! holds the offset of its phrase elements in the phrase data (32 bits),
//! their length in bytes (16 bits) and a reserved zero (16 bits). A node's
//! leaf, if any, is its first child.

use vstd::prelude::*;

use crate::dictionary::layout::{push_record, sort_leaf_phrases};
use crate::dictionary::trie_buf::first_n;
use crate::dictionary::trie_format::{decode_file, decoded_phrases, read_phrases};
use crate::dictionary::{DictionaryInfo, LookupStrategy, Phrase, PhraseView, phrases_view};
use crate::zhuyin::{Syllable, syllable_starts_with, valid_syllable_value};

verus! {

/// The size of an index record in bytes.
pub const RECORD_SIZE: usize = 8;

/// A big-endian 16-bit value at byte offset `off`.
pub open spec fn be16_at(b: Seq<u8>, off: int) -> nat {
    (b[off] as nat) * 256 + (b[off + 1] as nat)
}

/// A big-endian 32-bit value at byte offset `off`.
pub open spec fn be32_at(b: Seq<u8>, off: int) -> nat {
    be16_at(b, off) * 65536 + be16_at(b, off + 2)
}

/// The first field (child begin, or data begin of a leaf) of record `r`.
pub open spec fn rec_begin(index: Seq<u8>, r: nat) -> nat {
    be32_at(index, 8 * r as int)
}

/// The second field (child count, or data length of a leaf) of record `r`.
pub open spec fn rec_len(index: Seq<u8>, r: nat) -> nat {
    be16_at(index, 8 * r as int + 4)
}

/// The third field (syllable, or reserved zero of a leaf) of record `r`.
pub open spec fn rec_syl(index: Seq<u8>, r: nat) -> nat {
    be16_at(index, 8 * r as int + 6)
}

/// Whether the children of record `r` form a non-empty range of records
/// inside the index.
pub open spec fn children_in_bounds(index: Seq<u8>, r: nat) -> bool {
    rec_len(index, r) > 0 && 8 * (rec_begin(index, r) + rec_len(index, r)) <= index.len()
}

/// Whether a node syllable matches a looked up syllable.
pub open spec fn syllable_matches(node: nat, syl: u16, strategy: LookupStrategy) -> bool {
    match strategy {
        LookupStrategy::Standard => node == syl,
        LookupStrategy::FuzzyPartialPrefix => node != 0 && node < 0x10000 && valid_syllable_value(
            node as u16,
        ) && syllable_starts_with(node as u16, syl),
    }
}

/// The children of record `r` whose syllable matches `syl`, in order.
pub open spec fn matching_children(index: Seq<u8>, r: nat, syl: u16, strategy: LookupStrategy) -> Seq<
    nat,
> {
    Seq::new(rec_len(index, r), |k: int| (rec_begin(index, r) + k) as nat).filter(
        |c: nat| syllable_matches(rec_syl(index, c), syl, strategy),
    )
}

/// One search step: the matching children of all threads in order, or
/// `None` when some thread has no children inside the index.
pub open spec fn search_step(index: Seq<u8>, threads: Seq<nat>, syl: u16, strategy: LookupStrategy) -> Option<
    Seq<nat>,
>
    decreases threads.len(),
{
    if threads.len() == 0 {
        Some(Seq::empty())
    } else if !children_in_bounds(index, threads[0]) {
        None
    } else {
        match search_step(index, threads.drop_first(), syl, strategy) {
            None => None,
            Some(rest) => Some(matching_children(index, threads[0], syl, strategy) + rest),
        }
    }
}

/// The nodes reached by following `syls` from `threads`, or `None` when the
/// search fails or runs out of nodes.
pub open spec fn search_walk(index: Seq<u8>, threads: Seq<nat>, syls: Seq<u16>, strategy: LookupStrategy) -> Option<
    Seq<nat>,
>
    decreases syls.len(),
{
    if syls.len() == 0 {
        Some(threads)
    } else {
        match search_step(index, threads, syls[0], strategy) {
            None => None,
            Some(next) => if next.len() == 0 {
                None
            } else {
                search_walk(index, next, syls.drop_first(), strategy)
            },
        }
    }
}

/// Collects the phrases of the leaves of `threads` after `acc`, stopping once
/// more than `first` phrases are collected, or `None` when the index or data
/// is out of bounds.
pub open spec fn collect_leaves(
    index: Seq<u8>,
    data: Seq<u8>,
    threads: Seq<nat>,
    first: nat,
    acc: Seq<PhraseView>,
) -> Option<Seq<PhraseView>>
    decreases threads.len(),
{
    if threads.len() == 0 {
        Some(acc)
    } else {
        let t = threads[0];
        if !children_in_bounds(index, t) {
            None
        } else {
            let leaf = rec_begin(index, t);
            if rec_syl(index, leaf) != 0 {
                collect_leaves(index, data, threads.drop_first(), first, acc)
            } else {
                let db = rec_begin(index, leaf);
                let de = db + rec_len(index, leaf);
                if !(db < de && de <= data.len()) {
                    None
                } else {
                    let acc2 = acc + decoded_phrases(data.subrange(db as int, de as int));
                    if acc2.len() > first {
                        Some(acc2)
                    } else {
                        collect_leaves(index, data, threads.drop_first(), first, acc2)
                    }
                }
            }
        }
    }
}

/// The result of looking up `syls` in a trie index with its phrase data.
pub open spec fn trie_lookup(
    index: Seq<u8>,
    data: Seq<u8>,
    syls: Seq<u16>,
    first: nat,
    strategy: LookupStrategy,
) -> Seq<PhraseView> {
    if index.len() < 8 || rec_len(index, 0) == 0 {
        Seq::empty()
    } else {
        match search_walk(index, seq![0nat], syls, strategy) {
            None => Seq::empty(),
            Some(threads) => match collect_leaves(index, data, threads, first, Seq::empty()) {
                None => Seq::empty(),
                Some(r) => r,
            },
        }
    }
}

/// The packed values of a sequence of syllables.
pub open spec fn syllables_view(s: Seq<Syllable>) -> Seq<u16> {
    s.map_values(|x: Syllable| x@)
}

/// Reads a big-endian 16-bit value.
fn read_be16(b: &[u8], off: usize) -> (v: u64)
    requires
        off + 2 <= b@.len(),
    ensures
        v == be16_at(b@, off as int),
{
    (b[off] as u64) * 256 + (b[off + 1] as u64)
}

/// Reads a big-endian 32-bit value.
fn read_be32(b: &[u8], off: usize) -> (v: u64)
    requires
        off + 4 <= b@.len(),
    ensures
        v == be32_at(b@, off as int),
        v < 0x1_0000_0000,
{
    assert(b@.len() == b.len());
    let hi = read_be16(b, off);
    let lo = read_be16(b, off + 2);
    hi * 65536 + lo
}

/// A read-only dictionary using a pre-built trie index.
#[derive(Debug)]
pub struct Trie {
    info: DictionaryInfo,
    index: Vec<u8>,
    phrase_seq: Vec<u8>,
    fuzzy_search: bool,
}

impl Trie {
    /// The index bytes.
    pub closed spec fn index_view(&self) -> Seq<u8> {
        self.index@
    }

    /// The phrase data bytes.
    pub closed spec fn data_view(&self) -> Seq<u8> {
        self.phrase_seq@
    }

    /// The dictionary metadata.
    pub closed spec fn info_view(&self) -> crate::dictionary::DictionaryInfoView {
        self.info@
    }

    /// Whether fuzzy search is enabled.
    pub closed spec fn fuzzy_view(&self) -> bool {
        self.fuzzy_search
    }

    /// Creates a dictionary from the bytes of a dictionary file.
    ///
    /// Returns `None` unless the bytes are the encoding of a dictionary file.
    pub fn from_bytes(bytes: &[u8], fuzzy_search: bool) -> (r: Option<Trie>)
        ensures
            r matches Some(t) ==> {
                &&& bytes@ == crate::dictionary::trie_format::file_der(
                    t.info_view(),
                    t.index_view(),
                    t.data_view(),
                )
                &&& crate::dictionary::trie_format::file_encodable(
                    t.info_view(),
                    t.index_view(),
                    t.data_view(),
                )
                &&& t.fuzzy_view() == fuzzy_search
            },
            forall|i: crate::dictionary::DictionaryInfoView, x: Seq<u8>, d: Seq<u8>|
                crate::dictionary::trie_format::file_encodable(i, x, d) && bytes@
                    == #[trigger] crate::dictionary::trie_format::file_der(i, x, d) ==> (r matches Some(
                    t,
                ) && t.info_view() == i && t.index_view() == x && t.data_view() == d),
    {
        match decode_file(bytes) {
            None => None,
            Some((info, index, phrase_seq)) => Some(Trie { info, index, phrase_seq, fuzzy_search }),
        }
    }

    /// Enables or disables fuzzy search.
    pub fn enable_fuzzy_search(&mut self, fuzzy_search: bool)
        ensures
            final(self).fuzzy_view() == fuzzy_search,
            final(self).index_view() == old(self).index_view(),
            final(self).data_view() == old(self).data_view(),
            final(self).info_view() == old(self).info_view(),
    {
        self.fuzzy_search = fuzzy_search;
    }

    /// Returns information about the dictionary.
    pub fn about(&self) -> (r: DictionaryInfo)
        ensures
            r@ == self.info_view(),
    {
        self.info.clone()
    }

    /// Returns the first `first` phrases matched by the syllables.
    ///
    /// The result uses a stable order for the same input.
    pub fn lookup_first_n_phrases(&self, syllables: &[Syllable], first: usize, strategy: LookupStrategy) -> (r: Vec<
        Phrase,
    >)
        ensures
            phrases_view(r@) == first_n(
                trie_lookup(self.index_view(), self.data_view(), syllables_view(syllables@), first as nat, strategy),
                first as nat,
            ),
    {
        let mut found = lookup_in_index(self.index.as_slice(), self.phrase_seq.as_slice(), syllables, first, strategy);
        let ghost all = found@;
        found.truncate(first);
        proof {
            assert(phrases_view(found@) =~= first_n(phrases_view(all), first as nat));
        }
        found
    }

    /// Returns all phrases matched by the syllables.
    pub fn lookup_all_phrases(&self, syllables: &[Syllable], strategy: LookupStrategy) -> (r: Vec<
        Phrase,
    >)
        ensures
            phrases_view(r@) == trie_lookup(
                self.index_view(),
                self.data_view(),
                syllables_view(syllables@),
                usize::MAX as nat,
                strategy,
            ),
    {
        lookup_in_index(self.index.as_slice(), self.phrase_seq.as_slice(), syllables, usize::MAX, strategy)
    }
}

/// Looks up `syllables` in a trie index with its phrase data.
pub fn lookup_in_index(
    index: &[u8],
    data: &[u8],
    syllables: &[Syllable],
    first: usize,
    strategy: LookupStrategy,
) -> (r: Vec<Phrase>)
    ensures
        phrases_view(r@) == trie_lookup(
            index@,
            data@,
            syllables_view(syllables@),
            first as nat,
            strategy,
        ),
{
    if index.len() < RECORD_SIZE {
        return Vec::new();
    }
    if read_be16(index, 4) == 0 {
        return Vec::new();
    }
    let mut threads: Vec<u64> = Vec::new();
    threads.push(0);
    let mut i: usize = 0;
    let ghost syls = syllables_view(syllables@);
    assert(syls.skip(0) =~= syls);
    assert(nats_view(threads@) =~= seq![0nat]);
    while i < syllables.len()
        invariant
            i <= syllables@.len(),
            syls == syllables_view(syllables@),
            syls.len() == syllables@.len(),
            threads@.len() > 0,
            records_in_bounds(index@, nats_view(threads@)),
            search_walk(index@, seq![0nat], syls, strategy) == search_walk(
                index@,
                nats_view(threads@),
                syls.skip(i as int),
                strategy,
            ),
        decreases syllables@.len() - i,
    {
        let syl = syllables[i].to_u16();
        match search_step_exec(index, &threads, syl, strategy) {
            None => {
                proof {
                    assert(syls.skip(i as int)[0] == syl);
                }
                return Vec::new();
            },
            Some(next) => {
                if next.len() == 0 {
                    proof {
                        assert(syls.skip(i as int)[0] == syl);
                    }
                    return Vec::new();
                }
                proof {
                    assert(syls.skip(i as int)[0] == syl);
                    assert(syls.skip(i as int).drop_first() =~= syls.skip(i + 1));
                }
                threads = next;
            },
        }
        i = i + 1;
    }
    assert(syls.skip(i as int) =~= Seq::<u16>::empty());
    match collect_leaves_exec(index, data, &threads, first) {
        None => Vec::new(),
        Some(r) => r,
    }
}

/// Reads the field values of record `r`.
fn read_record(index: &[u8], r: u64) -> (res: Option<(u64, u64, u64)>)
    ensures
        res is Some <==> 8 * r + 8 <= index@.len(),
        res matches Some((b, l, s)) ==> b == rec_begin(index@, r as nat) && l == rec_len(
            index@,
            r as nat,
        ) && s == rec_syl(index@, r as nat) && b < 0x1_0000_0000 && l < 0x10000 && s < 0x10000,
{
    assert(index@.len() == index.len());
    if r >= 0x1FFF_FFFF_FFFF_FFFF || 8 * r + 8 > index.len() as u64 {
        return None;
    }
    let off = (8 * r) as usize;
    let b = read_be32(index, off);
    let l = read_be16(index, off + 4);
    let s = read_be16(index, off + 6);
    Some((b, l, s))
}

/// Whether a node syllable matches a looked up syllable.
fn syllable_matches_exec(node: u64, syl: u16, strategy: LookupStrategy) -> (b: bool)
    requires
        node < 0x10000,
    ensures
        b == syllable_matches(node as nat, syl, strategy),
{
    match strategy {
        LookupStrategy::Standard => node == syl as u64,
        LookupStrategy::FuzzyPartialPrefix => {
            if node == 0 {
                return false;
            }
            match Syllable::try_from_u16(node as u16) {
                None => false,
                Some(s) => s.starts_with(Syllable { value: syl }),
            }
        },
    }
}

/// The matching children of all threads, in order.
pub open spec fn step_concat(index: Seq<u8>, threads: Seq<nat>, syl: u16, strategy: LookupStrategy) -> Seq<
    nat,
>
    decreases threads.len(),
{
    if threads.len() == 0 {
        Seq::empty()
    } else {
        matching_children(index, threads[0], syl, strategy) + step_concat(
            index,
            threads.drop_first(),
            syl,
            strategy,
        )
    }
}

/// A search step succeeds exactly when all threads have children in
/// bounds, with the concatenated matching children.
proof fn lemma_search_step(index: Seq<u8>, threads: Seq<nat>, syl: u16, strategy: LookupStrategy)
    ensures
        (forall|m: int| 0 <= m < threads.len() ==> children_in_bounds(index, #[trigger] threads[m]))
            ==> search_step(index, threads, syl, strategy) == Some(
            step_concat(index, threads, syl, strategy),
        ),
        (exists|m: int| 0 <= m < threads.len() && !children_in_bounds(index, #[trigger] threads[m]))
            ==> search_step(index, threads, syl, strategy) is None,
    decreases threads.len(),
{
    if threads.len() > 0 {
        let rest = threads.drop_first();
        lemma_search_step(index, rest, syl, strategy);
        if exists|m: int| 0 <= m < threads.len() && !children_in_bounds(index, #[trigger] threads[m]) {
            let m = choose|m: int| 0 <= m < threads.len() && !children_in_bounds(index, #[trigger] threads[m]);
            if m > 0 {
                assert(rest[m - 1] == threads[m]);
            }
        }
        if forall|m: int| 0 <= m < threads.len() ==> children_in_bounds(index, #[trigger] threads[m]) {
            assert(children_in_bounds(index, threads[0]));
            assert forall|m: int| 0 <= m < rest.len() implies children_in_bounds(index, #[trigger] rest[m]) by {
                assert(rest[m] == threads[m + 1]);
            }
        }
    }
}

/// Appending a thread appends its matching children.
proof fn lemma_step_concat_push(
    index: Seq<u8>,
    threads: Seq<nat>,
    t: nat,
    syl: u16,
    strategy: LookupStrategy,
)
    ensures
        step_concat(index, threads.push(t), syl, strategy) == step_concat(
            index,
            threads,
            syl,
            strategy,
        ) + matching_children(index, t, syl, strategy),
    decreases threads.len(),
{
    if threads.len() == 0 {
        assert(threads.push(t).drop_first() =~= Seq::<nat>::empty());
        assert(step_concat(index, Seq::<nat>::empty(), syl, strategy) == Seq::<nat>::empty());
        assert(step_concat(index, threads, syl, strategy) == Seq::<nat>::empty());
        assert(step_concat(index, threads.push(t), syl, strategy) =~= matching_children(
            index,
            t,
            syl,
            strategy,
        ));
    } else {
        lemma_step_concat_push(index, threads.drop_first(), t, syl, strategy);
        assert(threads.push(t).drop_first() =~= threads.drop_first().push(t));
        assert(step_concat(index, threads.push(t), syl, strategy) =~= step_concat(
            index,
            threads,
            syl,
            strategy,
        ) + matching_children(index, t, syl, strategy));
    }
}

/// Whether all given records lie inside the index.
pub open spec fn records_in_bounds(index: Seq<u8>, threads: Seq<nat>) -> bool {
    forall|m: int| 0 <= m < threads.len() ==> 8 * #[trigger] threads[m] + 8 <= index.len()
}

/// The views of a vector of record indices.
pub open spec fn nats_view(v: Seq<u64>) -> Seq<nat> {
    v.map_values(|t: u64| t as nat)
}

/// One search step over all threads.
fn search_step_exec(index: &[u8], threads: &Vec<u64>, syl: u16, strategy: LookupStrategy) -> (r:
    Option<Vec<u64>>)
    requires
        records_in_bounds(index@, nats_view(threads@)),
    ensures
        r matches Some(v) ==> records_in_bounds(index@, nats_view(v@)),
        search_step(index@, nats_view(threads@), syl, strategy) == match r {
            Some(v) => Some(nats_view(v@)),
            None => None::<Seq<nat>>,
        },
{
    let ghost tv = nats_view(threads@);
    let mut out: Vec<u64> = Vec::new();
    let mut k: usize = 0;
    while k < threads.len()
        invariant
            k <= threads@.len(),
            tv == nats_view(threads@),
            tv.len() == threads@.len(),
            forall|m: int| 0 <= m < k ==> children_in_bounds(index@, #[trigger] tv[m]),
            nats_view(out@) == step_concat(index@, tv.subrange(0, k as int), syl, strategy),
            records_in_bounds(index@, tv),
            records_in_bounds(index@, nats_view(out@)),
        decreases threads@.len() - k,
    {
        let t = threads[k];
        assert(tv[k as int] == t as nat);
        let rec = read_record(index, t);
        let (b, l) = match rec {
            None => {
                proof {
                    lemma_search_step(index@, tv, syl, strategy);
                }
                return None;
            },
            Some((b, l, _)) => (b, l),
        };
        if l == 0 || 8 * (b + l) > index.len() as u64 {
            proof {
                lemma_search_step(index@, tv, syl, strategy);
            }
            return None;
        }
        let ghost out0 = nats_view(out@);
        let mut c: u64 = 0;
        let ghost all = Seq::new(l as nat, |m: int| (b + m) as nat);
        assert(all.subrange(0, 0) =~= Seq::<nat>::empty());
        assert(nats_view(out@) =~= out0 + all.subrange(0, 0).filter(
            |x: nat| syllable_matches(rec_syl(index@, x), syl, strategy),
        ));
        while c < l
            invariant
                c <= l,
                8 * (b + l) <= index@.len(),
                l < 0x10000,
                b < 0x1_0000_0000,
                all == Seq::new(l as nat, |m: int| (b + m) as nat),
                nats_view(out@) == out0 + all.subrange(0, c as int).filter(
                    |x: nat| syllable_matches(rec_syl(index@, x), syl, strategy),
                ),
                records_in_bounds(index@, nats_view(out@)),
            decreases l - c,
        {
            let child = b + c;
            let cr = read_record(index, child);
            let s = match cr {
                None => {
                    return None;
                },
                Some((_, _, s)) => s,
            };
            let m = syllable_matches_exec(s, syl, strategy);
            proof {
                let f = |x: nat| syllable_matches(rec_syl(index@, x), syl, strategy);
                assert(all.subrange(0, c + 1) =~= all.subrange(0, c as int).push(child as nat));
                reveal(Seq::filter);
                assert(all.subrange(0, c as int).push(child as nat).drop_last() =~= all.subrange(0, c as int));
            }
            if m {
                let ghost prev = out@;
                out.push(child);
                assert(nats_view(out@) =~= nats_view(prev).push(child as nat)) by {
                    assert(out@.drop_last() == prev);
                }
            }
            c = c + 1;
        }
        proof {
            assert(all.subrange(0, l as int) =~= all);
            assert(tv.subrange(0, k + 1) =~= tv.subrange(0, k as int).push(t as nat));
            lemma_step_concat_push(index@, tv.subrange(0, k as int), t as nat, syl, strategy);
            assert(rec_begin(index@, t as nat) == b);
            assert(rec_len(index@, t as nat) == l);
            assert(all =~= Seq::new(rec_len(index@, t as nat), |m: int| (rec_begin(index@, t as nat) + m) as nat));
        }
        k = k + 1;
    }
    proof {
        assert(tv.subrange(0, k as int) =~= tv);
        lemma_search_step(index@, tv, syl, strategy);
    }
    Some(out)
}

/// Collects the phrases of the leaves of all threads.
fn collect_leaves_exec(index: &[u8], data: &[u8], threads: &Vec<u64>, first: usize) -> (r: Option<
    Vec<Phrase>,
>)
    requires
        records_in_bounds(index@, nats_view(threads@)),
    ensures
        collect_leaves(index@, data@, nats_view(threads@), first as nat, Seq::empty()) == match r {
            Some(v) => Some(phrases_view(v@)),
            None => None::<Seq<PhraseView>>,
        },
{
    let ghost tv = nats_view(threads@);
    let mut acc: Vec<Phrase> = Vec::new();
    let mut k: usize = 0;
    assert(tv.skip(0) =~= tv);
    assert(phrases_view(acc@) =~= Seq::<PhraseView>::empty());
    while k < threads.len()
        invariant
            k <= threads@.len(),
            tv == nats_view(threads@),
            tv.len() == threads@.len(),
            records_in_bounds(index@, tv),
            collect_leaves(index@, data@, tv, first as nat, Seq::empty()) == collect_leaves(
                index@,
                data@,
                tv.skip(k as int),
                first as nat,
                phrases_view(acc@),
            ),
        decreases threads@.len() - k,
    {
        let t = threads[k];
        let ghost rest = tv.skip(k as int);
        assert(rest[0] == t as nat);
        assert(rest.drop_first() =~= tv.skip(k + 1));
        let (b, l) = match read_record(index, t) {
            None => return None,
            Some((b, l, _)) => (b, l),
        };
        if l == 0 || 8 * (b + l) > index.len() as u64 {
            return None;
        }
        let (db, dl, reserved) = match read_record(index, b) {
            None => {
                assert(false);
                return None;
            },
            Some(x) => x,
        };
        if reserved != 0 {
            k = k + 1;
            continue;
        }
        if dl == 0 || db + dl > data.len() as u64 {
            return None;
        }
        let chunk = vstd::slice::slice_subrange(data, db as usize, (db + dl) as usize);
        let found = read_phrases(chunk);
        let ghost prev = phrases_view(acc@);
        let mut found = found;
        acc.append(&mut found);
        assert(phrases_view(acc@) =~= prev + decoded_phrases(
            data@.subrange(db as int, (db + dl) as int),
        ));
        if acc.len() > first {
            return Some(acc);
        }
        k = k + 1;
    }
    assert(tv.skip(k as int) =~= Seq::<nat>::empty());
    Some(acc)
}

/// A node of the trie under construction.
///
/// An internal node has a syllable (the root has none) and children; a leaf
/// node has no syllable and holds the phrases of its parent's syllables.
#[derive(Debug, PartialEq)]
pub struct TrieBuilderNode {
    /// The position of the node in the builder's arena.
    pub id: usize,
    /// The syllable of an internal node.
    pub syllable: Option<Syllable>,
    /// The internal child nodes.
    pub children: Vec<usize>,
    /// The leaf child node, if any.
    pub leaf_id: Option<usize>,
    /// The phrases of a leaf node.
    pub phrases: Vec<Phrase>,
}

/// A builder to create a dictionary that can be loaded as a [`Trie`]
/// dictionary.
pub struct TrieBuilder {
    arena: Vec<TrieBuilderNode>,
    info: DictionaryInfo,
    /// The syllables on the way from the root to each node.
    paths: Ghost<Seq<Seq<u16>>>,
    /// The parent of each node (the root is its own parent).
    parents: Ghost<Seq<nat>>,
}

/// Whether two phrases in a sequence never share their text.
pub open spec fn distinct_texts(ps: Seq<PhraseView>) -> bool {
    forall|a: int, b: int| 0 <= a < b < ps.len() ==> ps[a].0 != ps[b].0
}

/// Inserts a phrase into a leaf's phrases: a phrase with the same text is
/// replaced, otherwise the phrase is appended.
pub open spec fn upsert_phrase(ps: Seq<PhraseView>, p: PhraseView) -> Seq<PhraseView> {
    if exists|k: int| 0 <= k < ps.len() && ps[k].0 == p.0 {
        let k = choose|k: int| 0 <= k < ps.len() && ps[k].0 == p.0;
        ps.update(k, p)
    } else {
        ps.push(p)
    }
}

/// The packed syllable of node `i` of an arena (0 for the root and leaves).
pub open spec fn arena_syl(arena: Seq<TrieBuilderNode>, i: int) -> u16 {
    match arena[i].syllable {
        Some(s) => s@,
        None => 0,
    }
}

/// Whether record `p` of a written index describes node `order[p]` of the
/// arena: an internal node by its syllable and the range of its children's
/// records (its leaf first, then its children by ascending syllable), a leaf
/// by the range of its phrases' elements in the phrase data.
pub open spec fn node_record_ok(
    arena: Seq<TrieBuilderNode>,
    order: Seq<usize>,
    index: Seq<u8>,
    data: Seq<u8>,
    p: int,
) -> bool {
    let id = order[p] as int;
    let node = arena[id];
    let b = rec_begin(index, p as nat) as int;
    let len = rec_len(index, p as nat) as int;
    if arena_internal(arena, id) {
        let lead: int = if node.leaf_id is Some {
            1
        } else {
            0
        };
        &&& rec_syl(index, p as nat) == arena_syl(arena, id)
        &&& b + len <= order.len()
        &&& lead <= len
        &&& (node.leaf_id matches Some(l) ==> order[b] == l)
        &&& forall|k: int| lead <= k < len ==> node.children@.contains(#[trigger] order[b + k])
        &&& forall|j: int|
            0 <= j < node.children@.len() ==> order.subrange(b + lead, b + len).contains(
                #[trigger] node.children@[j],
            )
        &&& forall|k1: int, k2: int|
            lead <= k1 < k2 < len ==> arena_syl(arena, #[trigger] order[b + k1] as int) < arena_syl(
                arena,
                #[trigger] order[b + k2] as int,
            )
    } else {
        &&& rec_syl(index, p as nat) == 0
        &&& b + len <= data.len()
        &&& data.subrange(b, b + len) == crate::dictionary::trie_format::phrases_der(
            crate::dictionary::layout::sort_phrases(phrases_view(node.phrases@)),
        )
        &&& forall|k: int|
            0 <= k < crate::dictionary::layout::sort_phrases(phrases_view(node.phrases@)).len()
                ==> crate::dictionary::trie_format::phrase_encodable(
                #[trigger] crate::dictionary::layout::sort_phrases(phrases_view(node.phrases@))[k],
            )
    }
}

/// Whether `index` and `data` hold a record for each node in `order`, the
/// root first, each record as [`node_record_ok`] says.
pub open spec fn bfs_layout(arena: Seq<TrieBuilderNode>, order: Seq<usize>, index: Seq<u8>, data: Seq<u8>) -> bool {
    &&& order.len() >= 1
    &&& order[0] == 0
    &&& index.len() == 8 * order.len()
    &&& forall|q: int| 0 <= q < order.len() ==> (#[trigger] order[q]) < arena.len()
    &&& forall|q: int| 0 <= q < order.len() ==> #[trigger] node_record_ok(arena, order, index, data, q)
}

/// Whether `bytes` are a dictionary file that [`TrieBuilder::write`] may
/// give for the builder `b`.
pub open spec fn written_by(b: TrieBuilder, bytes: Seq<u8>) -> bool {
    exists|order: Seq<usize>, index: Seq<u8>, data: Seq<u8>|
        bfs_layout(b.nodes(), order, index, data) && crate::dictionary::trie_format::file_encodable(b.info_view(), index, data)
            && bytes == crate::dictionary::trie_format::file_der(b.info_view(), index, data)
}

/// Records keep what they say when the order, index and data grow.
proof fn lemma_record_extend(
    arena: Seq<TrieBuilderNode>,
    o1: Seq<usize>,
    i1: Seq<u8>,
    d1: Seq<u8>,
    o2: Seq<usize>,
    i2: Seq<u8>,
    d2: Seq<u8>,
    p: int,
)
    requires
        0 <= p,
        8 * p + 8 <= i1.len(),
        0 <= p < o1.len(),
        o1.len() <= o2.len(),
        i1.len() <= i2.len(),
        d1.len() <= d2.len(),
        forall|i: int| 0 <= i < o1.len() ==> o2[i] == o1[i],
        forall|i: int| 0 <= i < i1.len() ==> i2[i] == i1[i],
        forall|i: int| 0 <= i < d1.len() ==> d2[i] == d1[i],
        node_record_ok(arena, o1, i1, d1, p),
    ensures
        node_record_ok(arena, o2, i2, d2, p),
{
    let id = o1[p] as int;
    assert(o2[p] == o1[p]);
    assert(rec_begin(i2, p as nat) == rec_begin(i1, p as nat));
    assert(rec_len(i2, p as nat) == rec_len(i1, p as nat));
    assert(rec_syl(i2, p as nat) == rec_syl(i1, p as nat));
    let b = rec_begin(i1, p as nat) as int;
    let len = rec_len(i1, p as nat) as int;
    if arena_internal(arena, id) {
        let node = arena[id];
        let lead: int = if node.leaf_id is Some {
            1
        } else {
            0
        };
        if node.leaf_id is Some {
            assert(o2[b] == o1[b]);
        }
        assert forall|k: int| lead <= k < len implies node.children@.contains(#[trigger] o2[b + k]) by {
            assert(o2[b + k] == o1[b + k]);
        }
        assert(o2.subrange(b + lead, b + len) =~= o1.subrange(b + lead, b + len));
        assert forall|k1: int, k2: int| lead <= k1 < k2 < len implies arena_syl(
            arena,
            #[trigger] o2[b + k1] as int,
        ) < arena_syl(arena, #[trigger] o2[b + k2] as int) by {
            assert(o2[b + k1] == o1[b + k1]);
            assert(o2[b + k2] == o1[b + k2]);
            assert(arena_syl(arena, o1[b + k1] as int) < arena_syl(arena, o1[b + k2] as int));
        }
        assert(rec_syl(i2, p as nat) == arena_syl(arena, id));
        assert(b + len <= o2.len());
        assert(lead <= len);
        assert(node.leaf_id matches Some(l) ==> o2[b] == l);
        assert(node_record_ok(arena, o2, i2, d2, p));
    } else {
        assert(d2.subrange(b, b + len) =~= d1.subrange(b, b + len));
        assert(node_record_ok(arena, o2, i2, d2, p));
    }
}

/// A sequence of distinct numbers below `n` has at most `n` elements.
proof fn lemma_distinct_bounded(s: Seq<usize>, n: nat)
    requires
        s.no_duplicates(),
        forall|i: int| 0 <= i < s.len() ==> (#[trigger] s[i]) < n,
    ensures
        s.len() <= n,
    decreases n,
{
    if n == 0 {
        if s.len() > 0 {
            assert(s[0] < 0);
        }
    } else if exists|j: int| 0 <= j < s.len() && s[j] == n - 1 {
        let j = choose|j: int| 0 <= j < s.len() && s[j] == n - 1;
        let t = s.remove(j);
        assert forall|a: int, b: int| 0 <= a < t.len() && 0 <= b < t.len() && a != b implies t[a] != t[b] by {
            let a2 = if a < j { a } else { a + 1 };
            let b2 = if b < j { b } else { b + 1 };
            assert(t[a] == s[a2] && t[b] == s[b2]);
        }
        assert forall|i: int| 0 <= i < t.len() implies (#[trigger] t[i]) < (n - 1) as nat by {
            let i2 = if i < j { i } else { i + 1 };
            assert(t[i] == s[i2]);
        }
        lemma_distinct_bounded(t, (n - 1) as nat);
    } else {
        assert forall|i: int| 0 <= i < s.len() implies (#[trigger] s[i]) < (n - 1) as nat by {}
        lemma_distinct_bounded(s, (n - 1) as nat);
    }
}

/// Whether node `i` of an arena is an internal node.
pub open spec fn arena_internal(arena: Seq<TrieBuilderNode>, i: int) -> bool {
    i == 0 || arena[i].syllable is Some
}

/// The internal node of an arena whose path is `syls`, if any.
pub open spec fn arena_node_for(arena: Seq<TrieBuilderNode>, paths: Seq<Seq<u16>>, syls: Seq<u16>) -> Option<
    int,
> {
    if exists|i: int| 0 <= i < arena.len() && arena_internal(arena, i) && paths[i] == syls {
        Some(choose|i: int| 0 <= i < arena.len() && arena_internal(arena, i) && paths[i] == syls)
    } else {
        None
    }
}

/// The phrases of the leaf under the internal node whose path is `syls`.
pub open spec fn arena_model(arena: Seq<TrieBuilderNode>, paths: Seq<Seq<u16>>, syls: Seq<u16>) -> Seq<
    PhraseView,
> {
    match arena_node_for(arena, paths, syls) {
        Some(i) => match arena[i].leaf_id {
            Some(l) => phrases_view(arena[l as int].phrases@),
            None => Seq::empty(),
        },
        None => Seq::empty(),
    }
}

/// The number of leading syllables of `syls`, counting on from `j`, whose
/// paths have internal nodes in an arena.
pub open spec fn known_from(arena: Seq<TrieBuilderNode>, paths: Seq<Seq<u16>>, syls: Seq<u16>, j: nat) -> nat
    decreases syls.len() - j,
{
    if j < syls.len() && arena_node_for(arena, paths, syls.take(j + 1 as int)) is Some {
        known_from(arena, paths, syls, j + 1)
    } else {
        j
    }
}

/// Whether `arena` is the arena `a` with `steps` internal nodes appended for
/// the syllables of `t` from position `d` on, the first a new last child of
/// node `top` and each further one the only child of the one before.
#[verifier::opaque]
spec fn grown_arena(a: Seq<TrieBuilderNode>, arena: Seq<TrieBuilderNode>, t: Seq<u16>, d: int, top: int, steps: int) -> bool {
    let n0 = a.len() as int;
    &&& arena.len() == n0 + steps
    &&& forall|x: int| 0 <= x < n0 && x != top ==> #[trigger] arena[x] == a[x]
    &&& arena[top].children@ == (if steps > 0 {
        a[top].children@.push(n0 as usize)
    } else {
        a[top].children@
    })
    &&& arena[top].syllable == a[top].syllable
    &&& arena[top].phrases@ == a[top].phrases@
    &&& arena[top].leaf_id == a[top].leaf_id
    &&& forall|g: int|
        0 <= g < steps ==> {
            let nd = #[trigger] arena[n0 + g];
            &&& (nd.syllable matches Some(sy) && sy@ == t[d + g])
            &&& nd.children@ == (if g + 1 < steps {
                seq![(n0 + g + 1) as usize]
            } else {
                Seq::<usize>::empty()
            })
            &&& nd.leaf_id is None
            &&& nd.phrases@.len() == 0
        }
}

/// Whether `b` is the arena `a` (with paths `paths`) after inserting the
/// phrase `p` for the syllables `t`: the internal nodes for the syllables
/// past the longest known prefix ([`known_from`]) are appended in order, the
/// first as a new last child of the deepest known node and each further one
/// as the only child of the one before, then a leaf holding only `p` under
/// the last of them when it has no leaf; otherwise `p` is set in the
/// existing leaf ([`upsert_phrase`]). Nothing else changes.
#[verifier::opaque]
pub open spec fn insert_shape(
    a: Seq<TrieBuilderNode>,
    paths: Seq<Seq<u16>>,
    b: Seq<TrieBuilderNode>,
    t: Seq<u16>,
    p: PhraseView,
) -> bool {
    let n0 = a.len() as int;
    let d = known_from(a, paths, t, 0) as int;
    let top = arena_node_for(a, paths, t.take(d))->0;
    let grow = t.len() - d;
    if grow == 0 && a[top].leaf_id is Some {
        let l = a[top].leaf_id->0 as int;
        &&& b.len() == n0
        &&& forall|x: int| 0 <= x < n0 && x != l ==> #[trigger] b[x] == a[x]
        &&& b[l].syllable == a[l].syllable
        &&& b[l].children@ == a[l].children@
        &&& b[l].leaf_id == a[l].leaf_id
        &&& phrases_view(b[l].phrases@) == upsert_phrase(phrases_view(a[l].phrases@), p)
    } else {
        let leaf = n0 + grow;
        &&& b.len() == leaf + 1
        &&& forall|x: int| 0 <= x < n0 && x != top ==> #[trigger] b[x] == a[x]
        &&& b[top].syllable == a[top].syllable
        &&& b[top].phrases@ == a[top].phrases@
        &&& b[top].children@ == (if grow > 0 {
            a[top].children@.push(n0 as usize)
        } else {
            a[top].children@
        })
        &&& b[top].leaf_id == (if grow == 0 {
            Some(leaf as usize)
        } else {
            a[top].leaf_id
        })
        &&& forall|g: int|
            0 <= g < grow ==> {
                let nd = #[trigger] b[n0 + g];
                &&& (nd.syllable matches Some(sy) && sy@ == t[d + g])
                &&& nd.children@ == (if g + 1 < grow {
                    seq![(n0 + g + 1) as usize]
                } else {
                    Seq::<usize>::empty()
                })
                &&& nd.leaf_id == (if g + 1 == grow {
                    Some(leaf as usize)
                } else {
                    None
                })
                &&& nd.phrases@.len() == 0
            }
        &&& b[leaf].syllable is None
        &&& b[leaf].children@.len() == 0
        &&& b[leaf].leaf_id is None
        &&& phrases_view(b[leaf].phrases@) == seq![p]
    }
}

/// Whether the paths `ps` are the paths `ps0` followed, up to `n` paths,
/// by the prefixes of `t` after its first `d` syllables in turn, the whole
/// of `t` repeated at the end: the paths of the internal nodes and the
/// leaf that inserting for `t` appends.
#[verifier::opaque]
pub open spec fn appended_paths(ps0: Seq<Seq<u16>>, ps: Seq<Seq<u16>>, t: Seq<u16>, d: int, n: int) -> bool {
    &&& ps.len() == n
    &&& forall|x: int| 0 <= x < ps0.len() ==> #[trigger] ps[x] == ps0[x]
    &&& forall|x: int|
        ps0.len() <= x < n ==> #[trigger] ps[x] == t.take(
            if x - ps0.len() + d + 1 <= t.len() {
                x - ps0.len() + d + 1
            } else {
                t.len() as int
            },
        )
}

/// The paths after the walk and the leaf are appended as
/// [`appended_paths`] says.
proof fn lemma_paths_finish(ps0: Seq<Seq<u16>>, mid: Seq<Seq<u16>>, b: Seq<Seq<u16>>, t: Seq<u16>, d: int, m: int, n: int)
    requires
        0 <= d <= t.len(),
        m == ps0.len() + (t.len() - d),
        mid.len() == m,
        mid.subrange(0, ps0.len() as int) == ps0,
        forall|g: int| 0 <= g < t.len() - d ==> #[trigger] mid[ps0.len() + g] == t.take(d + g + 1),
        b.len() == n,
        m <= n <= m + 1,
        forall|x: int| 0 <= x < m ==> #[trigger] b[x] == mid[x],
        n > m ==> b[m] == t,
    ensures
        appended_paths(ps0, b, t, d, n),
{
    reveal(appended_paths);
    assert(t.take(t.len() as int) =~= t);
    assert forall|x: int| 0 <= x < ps0.len() implies #[trigger] b[x] == ps0[x] by {
        assert(mid.subrange(0, ps0.len() as int)[x] == mid[x]);
    }
    assert forall|x: int| ps0.len() <= x < n implies #[trigger] b[x] == t.take(
        if x - ps0.len() + d + 1 <= t.len() {
            x - ps0.len() + d + 1
        } else {
            t.len() as int
        },
    ) by {
        if x < m {
            let g = x - ps0.len();
            assert(mid[ps0.len() + g] == t.take(d + g + 1));
        }
    }
}

/// What a grown arena says of its appended node `g` and of node `top`.
proof fn lemma_grown_node(a: Seq<TrieBuilderNode>, arena: Seq<TrieBuilderNode>, t: Seq<u16>, d: int, top: int, steps: int, g: int)
    requires
        grown_arena(a, arena, t, d, top, steps),
        0 <= g < steps,
    ensures
        arena.len() == a.len() + steps,
        arena[a.len() + g].syllable matches Some(sy) && sy@ == t[d + g],
        g + 1 < steps ==> arena[a.len() + g].children@ == seq![(a.len() + g + 1) as usize],
        arena[top].children@ == a[top].children@.push(a.len() as usize),
{
    reveal(grown_arena);
}

/// The last appended node of a grown arena has no children and no leaf.
proof fn lemma_grown_last(a: Seq<TrieBuilderNode>, arena: Seq<TrieBuilderNode>, t: Seq<u16>, d: int, top: int, steps: int)
    requires
        grown_arena(a, arena, t, d, top, steps),
        steps > 0,
    ensures
        arena.len() == a.len() + steps,
        arena[a.len() + steps - 1].children@.len() == 0,
        arena[a.len() + steps - 1].leaf_id is None,
{
    reveal(grown_arena);
    let g = steps - 1;
    assert(arena[a.len() + g].children@ == Seq::<usize>::empty());
}

/// Appending the internal node for the next syllable under the last node
/// (under `top` for the first) grows the arena by one step.
proof fn lemma_grow_step(
    a: Seq<TrieBuilderNode>,
    before: Seq<TrieBuilderNode>,
    after: Seq<TrieBuilderNode>,
    t: Seq<u16>,
    d: int,
    top: int,
    s: int,
    parent: int,
    syl: Syllable,
)
    requires
        0 <= top < a.len(),
        0 <= s,
        s == 0 ==> before == a && parent == top,
        s > 0 ==> grown_arena(a, before, t, d, top, s) && parent == a.len() + s - 1,
        before.len() == a.len() + s,
        after.len() == before.len() + 1,
        forall|x: int| 0 <= x < before.len() && x != parent ==> #[trigger] after[x] == before[x],
        after[parent].children@ == before[parent].children@.push(before.len() as usize),
        after[parent].syllable == before[parent].syllable,
        after[parent].phrases@ == before[parent].phrases@,
        after[parent].leaf_id == before[parent].leaf_id,
        after[before.len() as int].syllable == Some(syl),
        syl@ == t[d + s],
        after[before.len() as int].children@.len() == 0,
        after[before.len() as int].leaf_id is None,
        after[before.len() as int].phrases@.len() == 0,
    ensures
        grown_arena(a, after, t, d, top, s + 1),
{
    reveal(grown_arena);
    let n0 = a.len() as int;
    if s > 0 {
        lemma_grown_last(a, before, t, d, top, s);
        reveal(grown_arena);
    }
    assert forall|g: int| 0 <= g < s + 1 implies {
        let nd = #[trigger] after[n0 + g];
        &&& (nd.syllable matches Some(sy) && sy@ == t[d + g])
        &&& nd.children@ == (if g + 1 < s + 1 {
            seq![(n0 + g + 1) as usize]
        } else {
            Seq::<usize>::empty()
        })
        &&& nd.leaf_id is None
        &&& nd.phrases@.len() == 0
    } by {
        if g == s {
            assert(after[n0 + g].children@ =~= Seq::<usize>::empty());
        } else if g == s - 1 {
            assert(after[n0 + g].children@ =~= seq![(n0 + g + 1) as usize]);
        } else {
            assert(after[n0 + g] == before[n0 + g]);
        }
    }
    if s > 0 {
        assert(after[top] == before[top]);
    }
    assert forall|x: int| 0 <= x < n0 && x != top implies #[trigger] after[x] == a[x] by {
        assert(after[x] == before[x]);
    }
}

/// Whether `b` is `mid` after giving node `node` a leaf when it has none
/// and setting `p` in that leaf ([`upsert_phrase`]).
#[verifier::opaque]
spec fn leaf_set(mid: Seq<TrieBuilderNode>, b: Seq<TrieBuilderNode>, node: int, p: PhraseView) -> bool {
    if mid[node].leaf_id is Some {
        let l = mid[node].leaf_id->0 as int;
        &&& 0 <= l < mid.len()
        &&& b.len() == mid.len()
        &&& forall|i: int| 0 <= i < mid.len() && i != l ==> #[trigger] b[i] == mid[i]
        &&& b[l].syllable == mid[l].syllable
        &&& b[l].children@ == mid[l].children@
        &&& b[l].leaf_id == mid[l].leaf_id
        &&& phrases_view(b[l].phrases@) == upsert_phrase(phrases_view(mid[l].phrases@), p)
    } else {
        let l = mid.len() as int;
        &&& b.len() == l + 1
        &&& forall|x: int| 0 <= x < l && x != node ==> #[trigger] b[x] == mid[x]
        &&& b[node].children@ == mid[node].children@
        &&& b[node].syllable == mid[node].syllable
        &&& b[node].phrases@ == mid[node].phrases@
        &&& b[node].leaf_id == Some(l as usize)
        &&& b[l].syllable is None
        &&& b[l].children@.len() == 0
        &&& b[l].leaf_id is None
        &&& phrases_view(b[l].phrases@) == seq![p]
    }
}

/// Adding the leaf, when needed, and setting the phrase in it after the
/// walk gives the shape that [`insert_shape`] states.
proof fn lemma_insert_finish(
    a: Seq<TrieBuilderNode>,
    paths: Seq<Seq<u16>>,
    mid: Seq<TrieBuilderNode>,
    b: Seq<TrieBuilderNode>,
    t: Seq<u16>,
    d: int,
    top: int,
    node: int,
    p: PhraseView,
)
    requires
        d == known_from(a, paths, t, 0),
        0 <= d <= t.len(),
        top == arena_node_for(a, paths, t.take(d))->0,
        0 <= top < a.len(),
        t.len() == d ==> mid == a && node == top,
        t.len() > d ==> grown_arena(a, mid, t, d, top, t.len() - d) && node == a.len() + (t.len() - d) - 1,
        leaf_set(mid, b, node, p),
        mid.len() < usize::MAX,
    ensures
        insert_shape(a, paths, b, t, p),
{
    reveal(insert_shape);
    reveal(grown_arena);
    reveal(leaf_set);
    let n0 = a.len() as int;
    let grow = t.len() - d;
    if grow > 0 {
        lemma_grown_last(a, mid, t, d, top, grow);
        reveal(grown_arena);
    }
    if grow == 0 && a[top].leaf_id is Some {
    } else {
        let leaf = n0 + grow;
        assert(mid.len() == leaf);
        assert(mid[node].leaf_id is None);
        assert forall|x: int| 0 <= x < n0 && x != top implies #[trigger] b[x] == a[x] by {
            assert(b[x] == mid[x]);
        }
        assert forall|g: int| 0 <= g < grow implies {
            let nd = #[trigger] b[n0 + g];
            &&& (nd.syllable matches Some(sy) && sy@ == t[d + g])
            &&& nd.children@ == (if g + 1 < grow {
                seq![(n0 + g + 1) as usize]
            } else {
                Seq::<usize>::empty()
            })
            &&& nd.leaf_id == (if g + 1 == grow {
                Some(leaf as usize)
            } else {
                None
            })
            &&& nd.phrases@.len() == 0
        } by {
            if g + 1 < grow {
                assert(b[n0 + g] == mid[n0 + g]);
            }
        }
        if grow > 0 {
            assert(b[top] == mid[top]);
        }
    }
}

/// Replacing the phrases of the leaf `l` under the internal node `node`
/// keeps the builder consistent and changes only what is stored for the
/// path of `node`.
#[verifier::rlimit(60)]
proof fn lemma_leaf_update(o: TrieBuilder, n: TrieBuilder, node: int, l: int)
    requires
        o.wf(),
        n.paths@ == o.paths@,
        n.parents@ == o.parents@,
        n.arena@.len() == o.arena@.len(),
        0 <= node < o.arena@.len(),
        0 <= l < o.arena@.len(),
        o.is_internal(node),
        o.arena@[node].leaf_id == Some(l as usize),
        forall|i: int| 0 <= i < o.arena@.len() && i != l ==> #[trigger] n.arena@[i] == o.arena@[i],
        n.arena@[l].id == o.arena@[l].id,
        n.arena@[l].syllable == o.arena@[l].syllable,
        n.arena@[l].children@ == o.arena@[l].children@,
        n.arena@[l].leaf_id == o.arena@[l].leaf_id,
        distinct_texts(phrases_view(n.arena@[l].phrases@)),
    ensures
        n.wf(),
        forall|syls: Seq<u16>|
            #[trigger] n.model(syls) == if syls == o.paths@[node] {
                phrases_view(n.arena@[l].phrases@)
            } else {
                o.model(syls)
            },
{
    assert(!o.is_internal(l));
    assert forall|i: int| 0 <= i < n.arena@.len() implies #[trigger] n.is_internal(i) == o.is_internal(i) by {}
    assert forall|i: int| 0 <= i < n.arena@.len() implies #[trigger] n.syl_of(i) == o.syl_of(i) by {}
    assert forall|i: int| 0 <= i < n.arena@.len() implies (#[trigger] n.arena@[i]).children@ == o.arena@[i].children@ && n.arena@[i].leaf_id == o.arena@[i].leaf_id by {}
    assert forall|i: int| 0 <= i < n.arena@.len() && n.is_internal(i) implies (#[trigger] n.arena@[i]).phrases@.len() == 0 by {
        assert(i != l);
    }
    assert forall|i: int|
        0 <= i < n.arena@.len() && !n.is_internal(i) implies (#[trigger] n.arena@[i]).children@.len() == 0
        && n.arena@[i].leaf_id is None && 0 < n.parents@[i] + 1 && n.parents@[i] < i
        && n.arena@[n.parents@[i] as int].leaf_id == Some(i as usize)
        && distinct_texts(phrases_view(n.arena@[i].phrases@)) by {
    }
    assert forall|syls: Seq<u16>|
        #[trigger] n.model(syls) == if syls == o.paths@[node] {
            phrases_view(n.arena@[l].phrases@)
        } else {
            o.model(syls)
        } by {
        assert(n.node_for(syls) == o.node_for(syls));
        if let Some(j) = o.node_for(syls) {
            if syls == o.paths@[node] {
                assert(j == node);
            } else {
                assert(j != node);
                if let Some(lj) = o.arena@[j].leaf_id {
                    assert(lj != l);
                }
            }
        } else {
            if syls == o.paths@[node] {
                assert(false);
            }
        }
    }
}

impl TrieBuilder {
    /// The nodes of the builder.
    pub closed spec fn nodes(&self) -> Seq<TrieBuilderNode> {
        self.arena@
    }

    /// The syllables on the way from the root to each node.
    pub closed spec fn node_paths(&self) -> Seq<Seq<u16>> {
        self.paths@
    }

    /// Whether node `i` is an internal node.
    pub closed spec fn is_internal(&self, i: int) -> bool {
        arena_internal(self.arena@, i)
    }

    /// The packed syllable of node `i` (0 for the root and leaves).
    pub closed spec fn syl_of(&self, i: int) -> u16 {
        arena_syl(self.arena@, i)
    }

    /// The builder's internal consistency.
    pub closed spec fn wf(&self) -> bool {
        let n = self.arena@.len();
        let paths = self.paths@;
        let parents = self.parents@;
        &&& n >= 1
        &&& n < usize::MAX
        &&& paths.len() == n
        &&& parents.len() == n
        &&& self.arena@[0].syllable is None
        &&& paths[0] == Seq::<u16>::empty()
        &&& forall|i: int| 0 <= i < n ==> (#[trigger] self.arena@[i]).id == i
        &&& forall|i: int, k: int|
            0 <= i < n && 0 <= k < self.arena@[i].children@.len() ==> {
                let c = #[trigger] self.arena@[i].children@[k];
                &&& i < c < n
                &&& self.arena@[c as int].syllable is Some
                &&& parents[c as int] == i
                &&& paths[c as int] == paths[i].push(self.syl_of(c as int))
            }
        &&& forall|i: int, k1: int, k2: int|
            0 <= i < n && 0 <= k1 < k2 < self.arena@[i].children@.len() ==> self.syl_of(
                #[trigger] self.arena@[i].children@[k1] as int,
            ) != self.syl_of(#[trigger] self.arena@[i].children@[k2] as int)
        &&& forall|i: int|
            0 <= i < n && (#[trigger] self.arena@[i]).leaf_id is Some ==> {
                let l = self.arena@[i].leaf_id->0 as int;
                &&& i < l < n
                &&& self.is_internal(i)
                &&& !self.is_internal(l)
                &&& parents[l] == i
                &&& paths[l] == paths[i]
            }
        &&& forall|i: int|
            0 <= i < n && !self.is_internal(i) ==> (#[trigger] self.arena@[i]).children@.len() == 0
                && self.arena@[i].leaf_id is None && 0 < parents[i] + 1 && parents[i] < i
                && self.arena@[parents[i] as int].leaf_id == Some(i as usize)
                && distinct_texts(phrases_view(self.arena@[i].phrases@))
        &&& forall|i: int|
            0 <= i < n && self.is_internal(i) ==> (#[trigger] self.arena@[i]).phrases@.len() == 0
        &&& forall|j: int|
            0 < j < n && #[trigger] self.is_internal(j) ==> {
                let p = parents[j] as int;
                &&& 0 <= p < j
                &&& self.is_internal(p)
                &&& self.arena@[p].children@.contains(j as usize)
            }
        &&& forall|i: int, j: int|
            0 <= i < n && 0 <= j < n && self.is_internal(i) && self.is_internal(j) && #[trigger] paths[i]
                == #[trigger] paths[j] ==> i == j
    }

    /// The internal node reached by `syls`, if any.
    pub closed spec fn node_for(&self, syls: Seq<u16>) -> Option<int> {
        arena_node_for(self.arena@, self.paths@, syls)
    }

    /// The phrases stored for `syls`, in insertion order.
    pub closed spec fn model(&self, syls: Seq<u16>) -> Seq<PhraseView> {
        arena_model(self.arena@, self.paths@, syls)
    }

    /// The dictionary metadata to write.
    pub closed spec fn info_view(&self) -> crate::dictionary::DictionaryInfoView {
        self.info@
    }

    /// Creates a new `TrieBuilder` with an empty root node.
    pub fn new() -> (b: TrieBuilder)
        ensures
            b.wf(),
            forall|syls: Seq<u16>| #[trigger] b.model(syls) == Seq::<PhraseView>::empty(),
            b.info_view() == crate::dictionary::empty_info_view(),
            b.no_empty_syllables(),
            b.nodes().len() == 1,
            b.nodes()[0].id == 0,
            b.nodes()[0].syllable is None,
            b.nodes()[0].children@.len() == 0,
            b.nodes()[0].leaf_id is None,
            b.nodes()[0].phrases@.len() == 0,
            b.node_paths() == seq![Seq::<u16>::empty()],
    {
        let root = TrieBuilderNode {
            id: 0,
            syllable: None,
            children: Vec::new(),
            leaf_id: None,
            phrases: Vec::new(),
        };
        let mut arena = Vec::new();
        arena.push(root);
        let ghost paths: Seq<Seq<u16>> = seq![Seq::<u16>::empty()];
        let ghost parents: Seq<nat> = seq![0nat];
        let b = TrieBuilder {
            arena,
            info: DictionaryInfo::empty(),
            paths: Ghost(paths),
            parents: Ghost(parents),
        };
        assert forall|syls: Seq<u16>| #[trigger] b.model(syls) == Seq::<PhraseView>::empty() by {
            if let Some(i) = b.node_for(syls) {
                assert(i == 0);
            }
        }
        b
    }

    /// The nodes of the builder.
    pub fn arena(&self) -> (r: &Vec<TrieBuilderNode>)
        ensures
            r@ == self.nodes(),
    {
        &self.arena
    }

    /// Replaces the dictionary metadata.
    fn replace_info(&mut self, info: DictionaryInfo)
        requires
            old(self).wf(),
        ensures
            final(self).wf(),
            final(self).info_view() == info@,
            forall|syls: Seq<u16>| #[trigger] final(self).model(syls) == old(self).model(syls),
            final(self).no_empty_syllables() == old(self).no_empty_syllables(),
            final(self).nodes() == old(self).nodes(),
    {
        self.info = info;
        assert forall|syls: Seq<u16>| #[trigger] self.model(syls) == old(self).model(syls) by {
            assert(self.node_for(syls) == old(self).node_for(syls));
        }
        proof {
            if old(self).no_empty_syllables() {
                assert forall|i: int| 0 < i < self.arena@.len() && self.is_internal(i) implies #[trigger] self.syl_of(i)
                    != 0 by {
                    assert(old(self).is_internal(i) && old(self).syl_of(i) != 0);
                }
            }
            if self.no_empty_syllables() {
                assert forall|i: int| 0 < i < old(self).arena@.len() && old(self).is_internal(i) implies #[trigger] old(
                    self,
                ).syl_of(i) != 0 by {
                    assert(self.is_internal(i) && self.syl_of(i) != 0);
                }
            }
        }
    }

    /// Whether no child of node `i` has the packed syllable `syl`.
    pub closed spec fn no_child_with(&self, i: int, syl: u16) -> bool {
        forall|k: int|
            0 <= k < self.arena@[i].children@.len() ==> self.syl_of(
                #[trigger] self.arena@[i].children@[k] as int,
            ) != syl
    }

    /// Counting the known leading syllables from a known prefix ends at a
    /// known prefix whose extension, if any, is unknown, with every prefix
    /// in between known.
    proof fn lemma_known_from(&self, t: Seq<u16>, j: nat)
        requires
            self.wf(),
            j <= t.len(),
            self.node_for(t.take(j as int)) is Some,
        ensures
            j <= known_from(self.arena@, self.paths@, t, j) <= t.len(),
            self.node_for(t.take(known_from(self.arena@, self.paths@, t, j) as int)) is Some,
            known_from(self.arena@, self.paths@, t, j) < t.len() ==> self.node_for(
                t.take(known_from(self.arena@, self.paths@, t, j) + 1 as int),
            ) is None,
            forall|m: int| j <= m <= known_from(self.arena@, self.paths@, t, j) ==> #[trigger] self.node_for(t.take(m)) is Some,
        decreases t.len() - j,
    {
        if j < t.len() && self.node_for(t.take(j + 1 as int)) is Some {
            self.lemma_known_from(t, j + 1);
        }
    }

    /// The internal nodes appended for the syllables of `t` after its first
    /// `d` have the prefixes of `t` as their paths.
    #[verifier::rlimit(100)]
    #[verifier::spinoff_prover]
    proof fn lemma_walk_paths(&self, a: Seq<TrieBuilderNode>, t: Seq<u16>, d: int, top: int, g: int)
        requires
            self.wf(),
            0 <= top < a.len(),
            0 <= d,
            0 <= g < t.len() - d,
            grown_arena(a, self.arena@, t, d, top, t.len() - d),
            self.paths@[top] == t.take(d),
        ensures
            forall|h: int| 0 <= h <= g ==> #[trigger] self.paths@[a.len() + h] == t.take(d + h + 1),
        decreases g,
    {
        let n0 = a.len() as int;
        let steps = t.len() - d;
        lemma_grown_node(a, self.arena@, t, d, top, steps, g);
        if g > 0 {
            self.lemma_walk_paths(a, t, d, top, g - 1);
            let p = n0 + g - 1;
            lemma_grown_node(a, self.arena@, t, d, top, steps, g - 1);
            assert(self.arena@[p].children@[0] == (n0 + g) as usize);
            assert(self.paths@[n0 + g] == self.paths@[p].push(self.syl_of(n0 + g)));
            assert(t.take(d + g + 1) =~= t.take(d + g).push(t[d + g]));
        } else {
            let k = a[top].children@.len() as int;
            assert(self.arena@[top].children@[k] == n0 as usize);
            assert(self.paths@[n0] == self.paths@[top].push(self.syl_of(n0)));
            assert(t.take(d + 1) =~= t.take(d).push(t[d]));
        }
    }

    /// Where inserting for `t` starts appending: after the longest known
    /// prefix, below the internal node of that prefix.
    proof fn lemma_walk_start(&self, t: Seq<u16>)
        requires
            self.wf(),
        ensures
            ({
                let d = known_from(self.arena@, self.paths@, t, 0) as int;
                let top = arena_node_for(self.arena@, self.paths@, t.take(d))->0;
                &&& 0 <= d <= t.len()
                &&& 0 <= top < self.arena@.len()
                &&& self.is_internal(top)
                &&& self.paths@[top] == t.take(d)
                &&& d < t.len() ==> self.node_for(t.take(d + 1)) is None
                &&& forall|m: int| 0 <= m <= d ==> #[trigger] self.node_for(t.take(m)) is Some
            }),
    {
        assert(self.node_for(t.take(0)) is Some) by {
            assert(t.take(0) =~= Seq::<u16>::empty());
            assert(self.is_internal(0) && self.paths@[0] == t.take(0));
        }
        self.lemma_known_from(t, 0);
    }

    /// No internal node other than a child of `parent` with syllable `syl`
    /// has the path of such a child.
    proof fn lemma_fresh_path(&self, parent: int, syl: u16)
        requires
            self.wf(),
            0 <= parent < self.arena@.len(),
            self.is_internal(parent),
            self.no_child_with(parent, syl),
        ensures
            forall|j: int|
                0 <= j < self.arena@.len() && self.is_internal(j) ==> #[trigger] self.paths@[j]
                    != self.paths@[parent].push(syl),
    {
        assert forall|j: int|
            0 <= j < self.arena@.len() && self.is_internal(j) implies #[trigger] self.paths@[j]
            != self.paths@[parent].push(syl) by {
            if self.paths@[j] == self.paths@[parent].push(syl) {
                if j == 0 {
                    assert(self.paths@[j].len() == 0);
                } else {
                    let p = self.parents@[j] as int;
                    let k = choose|k: int|
                        0 <= k < self.arena@[p].children@.len() && self.arena@[p].children@[k] == j;
                    assert(self.arena@[p].children@[k] == j as usize);
                    assert(self.paths@[j] == self.paths@[p].push(self.syl_of(j)));
                    assert(self.paths@[p] =~= self.paths@[j].drop_last());
                    assert(self.paths@[parent] =~= self.paths@[j].drop_last());
                    assert(p == parent);
                    assert(self.paths@[parent].push(syl).last() == syl);
                    assert(self.paths@[p].push(self.syl_of(j)).last() == self.syl_of(j));
                    assert(self.syl_of(j) == syl);
                    assert(false);
                }
            }
        }
    }

    /// Appends a new internal node with syllable `syl` under `parent`.
    #[verifier::rlimit(60)]
    #[verifier::spinoff_prover]
    fn alloc_internal(&mut self, parent: usize, syl: Syllable) -> (id: usize)
        requires
            old(self).wf(),
            parent < old(self).arena@.len(),
            old(self).is_internal(parent as int),
            old(self).no_child_with(parent as int, syl@),
            old(self).arena@.len() + 1 < usize::MAX,
        ensures
            final(self).wf(),
            id == old(self).arena@.len(),
            final(self).arena@.len() == id + 1,
            final(self).is_internal(id as int),
            final(self).arena@[id as int].leaf_id is None,
            final(self).paths@[id as int] == old(self).paths@[parent as int].push(syl@),
            final(self).info_view() == old(self).info_view(),
            forall|i: int| 0 <= i < id ==> #[trigger] final(self).paths@[i] == old(self).paths@[i],
            forall|i: int|
                0 <= i < id ==> final(self).is_internal(i) == old(self).is_internal(i) && (
                #[trigger] final(self).arena@[i]).leaf_id == old(self).arena@[i].leaf_id,
            forall|syls: Seq<u16>| #[trigger] final(self).model(syls) == old(self).model(syls),
            old(self).no_empty_syllables() && syl@ != 0 ==> final(self).no_empty_syllables(),
            forall|i: int| 0 <= i < id && i != parent ==> #[trigger] final(self).arena@[i] == old(self).arena@[i],
            final(self).arena@[parent as int].children@ == old(self).arena@[parent as int].children@.push(id),
            final(self).arena@[parent as int].syllable == old(self).arena@[parent as int].syllable,
            final(self).arena@[parent as int].phrases@ == old(self).arena@[parent as int].phrases@,
            final(self).arena@[id as int].syllable == Some(syl),
            final(self).arena@[id as int].children@.len() == 0,
            final(self).arena@[id as int].phrases@.len() == 0,
    {
        let id = self.arena.len();
        proof {
            old(self).lemma_fresh_path(parent as int, syl@);
        }
        let node = TrieBuilderNode {
            id,
            syllable: Some(syl),
            children: Vec::new(),
            leaf_id: None,
            phrases: Vec::new(),
        };
        self.arena.push(node);
        self.arena[parent].children.push(id);
        let ghost new_path = self.paths@[parent as int].push(syl@);
        proof {
            self.paths@ = self.paths@.push(new_path);
            self.parents@ = self.parents@.push(parent as nat);
        }
        proof {
            let o = old(self);
            assert(self.syl_of(id as int) == syl@);
            assert forall|i: int| 0 <= i < id implies #[trigger] self.syl_of(i) == o.syl_of(i) by {}
            assert forall|i: int| 0 <= i < id implies #[trigger] self.is_internal(i) == o.is_internal(i) by {}
            assert(self.arena@[parent as int].children@ == o.arena@[parent as int].children@.push(id));
            assert forall|i: int, k: int|
                0 <= i < self.arena@.len() && 0 <= k < self.arena@[i].children@.len() implies {
                let c = #[trigger] self.arena@[i].children@[k];
                &&& i < c < self.arena@.len()
                &&& self.arena@[c as int].syllable is Some
                &&& self.parents@[c as int] == i
                &&& self.paths@[c as int] == self.paths@[i].push(self.syl_of(c as int))
            } by {
                if i == parent && k == o.arena@[i].children@.len() {
                } else if i < id {
                    assert(self.arena@[i].children@[k] == o.arena@[i].children@[k]);
                }
            }
            assert forall|i: int, k1: int, k2: int|
                0 <= i < self.arena@.len() && 0 <= k1 < k2 < self.arena@[i].children@.len() implies self.syl_of(
                #[trigger] self.arena@[i].children@[k1] as int,
            ) != self.syl_of(#[trigger] self.arena@[i].children@[k2] as int) by {
                if i == parent && k2 == o.arena@[i].children@.len() {
                    assert(self.arena@[i].children@[k1] == o.arena@[i].children@[k1]);
                    assert(o.syl_of(o.arena@[i].children@[k1] as int) != syl@);
                } else if i < id {
                    assert(self.arena@[i].children@[k1] == o.arena@[i].children@[k1]);
                    assert(self.arena@[i].children@[k2] == o.arena@[i].children@[k2]);
                }
            }
            assert forall|j: int|
                0 < j < self.arena@.len() && #[trigger] self.is_internal(j) implies {
                let p = self.parents@[j] as int;
                &&& 0 <= p < j
                &&& self.is_internal(p)
                &&& self.arena@[p].children@.contains(j as usize)
            } by {
                if j == id {
                    assert(self.arena@[parent as int].children@.last() == id);
                } else {
                    let p = o.parents@[j] as int;
                    assert(o.arena@[p].children@.contains(j as usize));
                    let k = choose|k: int|
                        0 <= k < o.arena@[p].children@.len() && o.arena@[p].children@[k] == j;
                    assert(self.arena@[p].children@[k] == j as usize);
                }
            }
            assert forall|i: int|
                0 <= i < self.arena@.len() && !self.is_internal(i) implies (#[trigger] self.arena@[i]).children@.len() == 0
                && self.arena@[i].leaf_id is None && 0 < self.parents@[i] + 1 && self.parents@[i] < i
                && self.arena@[self.parents@[i] as int].leaf_id == Some(i as usize)
                && distinct_texts(phrases_view(self.arena@[i].phrases@)) by {
                assert(i != id);
                assert(i != parent);
            }
            assert forall|syls: Seq<u16>| #[trigger] self.model(syls) == o.model(syls) by {
                let nf = self.node_for(syls);
                let of = o.node_for(syls);
                if let Some(j) = of {
                    assert(self.paths@[j] == syls);
                    assert(self.is_internal(j));
                    let j2 = self.node_for(syls)->0;
                    assert(j2 == j);
                } else {
                    if let Some(j2) = nf {
                        if j2 < id {
                            assert(o.is_internal(j2) && o.paths@[j2] == syls);
                            assert(false);
                        }
                    }
                }
            }
        }
        id
    }

    /// Appends an empty leaf under the internal node `node`.
    #[verifier::rlimit(100)]
    #[verifier::spinoff_prover]
    fn alloc_leaf(&mut self, node: usize) -> (id: usize)
        requires
            old(self).wf(),
            node < old(self).arena@.len(),
            old(self).is_internal(node as int),
            old(self).arena@[node as int].leaf_id is None,
            old(self).arena@.len() + 1 < usize::MAX,
        ensures
            final(self).wf(),
            id == old(self).arena@.len(),
            final(self).arena@.len() == id + 1,
            final(self).arena@[node as int].leaf_id == Some(id),
            final(self).arena@[id as int].phrases@.len() == 0,
            final(self).info_view() == old(self).info_view(),
            forall|i: int| 0 <= i < id ==> #[trigger] final(self).paths@[i] == old(self).paths@[i],
            forall|i: int|
                0 <= i < id ==> final(self).is_internal(i) == old(self).is_internal(i),
            forall|syls: Seq<u16>| #[trigger] final(self).model(syls) == old(self).model(syls),
            old(self).no_empty_syllables() ==> final(self).no_empty_syllables(),
            forall|i: int| 0 <= i < id && i != node ==> #[trigger] final(self).arena@[i] == old(self).arena@[i],
            final(self).arena@[node as int].children@ == old(self).arena@[node as int].children@,
            final(self).arena@[node as int].syllable == old(self).arena@[node as int].syllable,
            final(self).arena@[node as int].phrases@ == old(self).arena@[node as int].phrases@,
            final(self).arena@[id as int].syllable is None,
            final(self).arena@[id as int].children@.len() == 0,
            final(self).arena@[id as int].leaf_id is None,
            final(self).paths@[id as int] == old(self).paths@[node as int],
    {
        let id = self.arena.len();
        let leaf = TrieBuilderNode {
            id,
            syllable: None,
            children: Vec::new(),
            leaf_id: None,
            phrases: Vec::new(),
        };
        self.arena.push(leaf);
        self.arena[node].leaf_id = Some(id);
        let ghost node_path = self.paths@[node as int];
        proof {
            self.paths@ = self.paths@.push(node_path);
            self.parents@ = self.parents@.push(node as nat);
        }
        proof {
            let o = old(self);
            assert forall|i: int| 0 <= i < id implies #[trigger] self.syl_of(i) == o.syl_of(i) by {}
            assert forall|i: int| 0 <= i < id implies #[trigger] self.is_internal(i) == o.is_internal(i) by {}
            assert(!self.is_internal(id as int));
            assert forall|i: int, k: int|
                0 <= i < self.arena@.len() && 0 <= k < self.arena@[i].children@.len() implies {
                let c = #[trigger] self.arena@[i].children@[k];
                &&& i < c < self.arena@.len()
                &&& self.arena@[c as int].syllable is Some
                &&& self.parents@[c as int] == i
                &&& self.paths@[c as int] == self.paths@[i].push(self.syl_of(c as int))
            } by {
                assert(i < id);
                assert(self.arena@[i].children@[k] == o.arena@[i].children@[k]);
            }
            assert forall|i: int, k1: int, k2: int|
                0 <= i < self.arena@.len() && 0 <= k1 < k2 < self.arena@[i].children@.len() implies self.syl_of(
                #[trigger] self.arena@[i].children@[k1] as int,
            ) != self.syl_of(#[trigger] self.arena@[i].children@[k2] as int) by {
                assert(i < id);
                assert(self.arena@[i].children@[k1] == o.arena@[i].children@[k1]);
                assert(self.arena@[i].children@[k2] == o.arena@[i].children@[k2]);
            }
            assert forall|j: int|
                0 < j < self.arena@.len() && #[trigger] self.is_internal(j) implies {
                let p = self.parents@[j] as int;
                &&& 0 <= p < j
                &&& self.is_internal(p)
                &&& self.arena@[p].children@.contains(j as usize)
            } by {
                assert(j < id);
                let p = o.parents@[j] as int;
                assert(self.arena@[p].children@ == o.arena@[p].children@);
            }
            assert forall|i: int|
                0 <= i < self.arena@.len() && (#[trigger] self.arena@[i]).leaf_id is Some implies {
                let l = self.arena@[i].leaf_id->0 as int;
                &&& i < l < self.arena@.len()
                &&& self.is_internal(i)
                &&& !self.is_internal(l)
                &&& self.parents@[l] == i
                &&& self.paths@[l] == self.paths@[i]
            } by {
                if i != node {
                    assert(i < id);
                    assert(self.arena@[i].leaf_id == o.arena@[i].leaf_id);
                }
            }
            assert forall|i: int|
                0 <= i < self.arena@.len() && !self.is_internal(i) implies (#[trigger] self.arena@[i]).children@.len() == 0
                && self.arena@[i].leaf_id is None && 0 < self.parents@[i] + 1 && self.parents@[i] < i
                && self.arena@[self.parents@[i] as int].leaf_id == Some(i as usize)
                && distinct_texts(phrases_view(self.arena@[i].phrases@)) by {
                if i != id {
                    assert(i < id);
                    assert(o.arena@[o.parents@[i] as int].leaf_id == Some(i as usize));
                    assert(o.parents@[i] != node);
                }
            }
            if o.no_empty_syllables() {
                assert forall|i: int| 0 < i < self.arena@.len() && self.is_internal(i) implies #[trigger] self.syl_of(i) != 0 by {
                    assert(i < id);
                    assert(o.is_internal(i));
                    assert(o.syl_of(i) != 0);
                }
            }
            assert forall|syls: Seq<u16>| #[trigger] self.model(syls) == o.model(syls) by {
                if let Some(j) = o.node_for(syls) {
                    assert(self.paths@[j] == syls);
                    assert(self.is_internal(j));
                    let j2 = self.node_for(syls)->0;
                    assert(j2 == j);
                    if j == node {
                        assert(phrases_view(self.arena@[id as int].phrases@) =~= Seq::<PhraseView>::empty());
                    }
                } else {
                    if let Some(j2) = self.node_for(syls) {
                        assert(j2 < id);
                        assert(o.is_internal(j2) && o.paths@[j2] == syls);
                        assert(false);
                    }
                }
            }
        }
        id
    }

    /// Inserts `phrase` into the leaf under the internal node `node`.
    #[verifier::rlimit(100)]
    #[verifier::spinoff_prover]
    fn upsert_in_leaf(&mut self, node: usize, phrase: Phrase)
        requires
            old(self).wf(),
            node < old(self).arena@.len(),
            old(self).is_internal(node as int),
            old(self).arena@[node as int].leaf_id is Some,
        ensures
            final(self).wf(),
            final(self).arena@.len() == old(self).arena@.len(),
            final(self).info_view() == old(self).info_view(),
            old(self).no_empty_syllables() ==> final(self).no_empty_syllables(),
            forall|syls: Seq<u16>|
                #[trigger] final(self).model(syls) == if syls == old(self).paths@[node as int] {
                    upsert_phrase(old(self).model(syls), phrase@)
                } else {
                    old(self).model(syls)
                },
            ({
                let l = old(self).arena@[node as int].leaf_id->0 as int;
                &&& forall|i: int| 0 <= i < old(self).arena@.len() && i != l ==> #[trigger] final(self).arena@[i] == old(self).arena@[i]
                &&& final(self).arena@[l].syllable == old(self).arena@[l].syllable
                &&& final(self).arena@[l].children@ == old(self).arena@[l].children@
                &&& final(self).arena@[l].leaf_id == old(self).arena@[l].leaf_id
                &&& phrases_view(final(self).arena@[l].phrases@) == upsert_phrase(phrases_view(old(self).arena@[l].phrases@), phrase@)
            }),
            final(self).paths@ == old(self).paths@,
    {
        let l = match self.arena[node].leaf_id {
            Some(l) => l,
            None => {
                assert(false);
                0
            },
        };
        let ghost ps = phrases_view(self.arena@[l as int].phrases@);
        let mut k: usize = 0;
        let n = self.arena[l].phrases.len();
        while k < n
            invariant
                self == old(self),
                l < self.arena@.len(),
                n == self.arena@[l as int].phrases@.len(),
                ps == phrases_view(self.arena@[l as int].phrases@),
                k <= n,
                forall|m: int| 0 <= m < k ==> (#[trigger] ps[m]).0 != phrase@.0,
            ensures
                k <= n,
                forall|m: int| 0 <= m < k ==> (#[trigger] ps[m]).0 != phrase@.0,
                k < n ==> ps[k as int].0 == phrase@.0,
            decreases n - k,
        {
            if self.arena[l].phrases[k].phrase == phrase.phrase {
                break;
            }
            k = k + 1;
        }
        let ghost o = *old(self);
        let ghost found = k < n;
        proof {
            assert(o.arena@[node as int].leaf_id == Some(l));
        }
        if k < n {
            self.arena[l].phrases.set(k, phrase);
        } else {
            self.arena[l].phrases.push(phrase);
        }
        proof {
            let nps = phrases_view(self.arena@[l as int].phrases@);
            if found {
                assert(ps[k as int].0 == phrase@.0);
                assert(nps =~= ps.update(k as int, phrase@));
                let kk = choose|kk: int| 0 <= kk < ps.len() && ps[kk].0 == phrase@.0;
                assert(kk == k);
                assert(upsert_phrase(ps, phrase@) == nps);
            } else {
                assert(nps =~= ps.push(phrase@));
                assert(upsert_phrase(ps, phrase@) == nps);
            }
            assert(distinct_texts(nps));
            lemma_leaf_update(o, *self, node as int, l as int);
            assert forall|syls: Seq<u16>|
                #[trigger] self.model(syls) == if syls == o.paths@[node as int] {
                    upsert_phrase(o.model(syls), phrase@)
                } else {
                    o.model(syls)
                } by {
                if syls == o.paths@[node as int] {
                    assert(o.node_for(syls) == Some(node as int));
                }
            }
        }
    }

    /// The child of the internal node `node` with the syllable, if any.
    fn find_child(&self, node: usize, syl: Syllable) -> (found: Option<usize>)
        requires
            self.wf(),
            node < self.arena@.len(),
        ensures
            found matches Some(c) ==> c < self.arena@.len() && self.is_internal(c as int)
                && self.paths@[c as int] == self.paths@[node as int].push(syl@),
            found is None ==> self.no_child_with(node as int, syl@),
            found is Some ==> self.arena@[node as int].children@.len() > 0,
    {
        let mut found: Option<usize> = None;
        let mut k: usize = 0;
        let nc = self.arena[node].children.len();
        while k < nc
            invariant_except_break
                found is None,
                forall|m: int|
                    0 <= m < k ==> self.syl_of(
                        #[trigger] self.arena@[node as int].children@[m] as int,
                    ) != syl@,
            invariant
                self.wf(),
                node < self.arena@.len(),
                nc == self.arena@[node as int].children@.len(),
                k <= nc,
            ensures
                found matches Some(c) ==> c < self.arena@.len() && self.is_internal(c as int)
                    && self.paths@[c as int] == self.paths@[node as int].push(syl@),
                found is None ==> self.no_child_with(node as int, syl@),
                found is Some ==> nc > 0,
            decreases nc - k,
        {
            let c = self.arena[node].children[k];
            let matches = match self.arena[c].syllable {
                Some(cs) => cs.to_u16() == syl.to_u16(),
                None => false,
            };
            if matches {
                proof {
                    assert(self.arena@[node as int].children@[k as int] == c);
                    assert(self.syl_of(c as int) == syl@);
                }
                found = Some(c);
                break;
            }
            k = k + 1;
        }
        found
    }

    /// Gives the internal node `node` a leaf when it has none and sets the
    /// phrase in that leaf.
    #[verifier::rlimit(60)]
    fn set_in_leaf(&mut self, node: usize, phrase: Phrase)
        requires
            old(self).wf(),
            node < old(self).arena@.len(),
            old(self).is_internal(node as int),
            old(self).arena@.len() + 1 < usize::MAX,
        ensures
            final(self).wf(),
            final(self).info_view() == old(self).info_view(),
            final(self).arena@.len() <= old(self).arena@.len() + 1,
            final(self).arena@.len() >= old(self).arena@.len(),
            old(self).no_empty_syllables() ==> final(self).no_empty_syllables(),
            forall|syls: Seq<u16>|
                #[trigger] final(self).model(syls) == if syls == old(self).paths@[node as int] {
                    upsert_phrase(old(self).model(syls), phrase@)
                } else {
                    old(self).model(syls)
                },
            leaf_set(old(self).arena@, final(self).arena@, node as int, phrase@),
            forall|i: int| 0 <= i < old(self).arena@.len() ==> #[trigger] final(self).paths@[i] == old(self).paths@[i],
            final(self).arena@.len() > old(self).arena@.len() ==> final(self).paths@[old(self).arena@.len() as int]
                == old(self).paths@[node as int],
    {
        let ghost mid = self.arena@;
        let ghost pv = phrase@;
        if self.arena[node].leaf_id.is_none() {
            self.alloc_leaf(node);
        }
        let ghost pre = self.arena@;
        self.upsert_in_leaf(node, phrase);
        proof {
            reveal(leaf_set);
            let b = self.arena@;
            if mid[node as int].leaf_id is None {
                let l = mid.len() as int;
                assert(pre[node as int].leaf_id == Some(l as usize));
                assert(phrases_view(pre[l].phrases@) =~= Seq::<PhraseView>::empty());
                assert(upsert_phrase(Seq::<PhraseView>::empty(), pv) =~= seq![pv]);
                assert forall|x: int| 0 <= x < l && x != node implies #[trigger] b[x] == mid[x] by {
                    assert(b[x] == pre[x]);
                }
                assert(b[node as int] == pre[node as int]);
            }
        }
    }

    /// Inserts a new entry to the dictionary.
    ///
    /// If there exists an entry with same syllables and phrase then the entry
    /// is updated to the new value. The nodes change as [`insert_shape`]
    /// says and their paths as [`appended_paths`] says.
    #[verifier::rlimit(100)]
    #[verifier::spinoff_prover]
    pub fn insert(&mut self, syllables: &[Syllable], phrase: Phrase) -> (r: Result<(), crate::dictionary::BuildDictionaryError>)
        requires
            old(self).wf(),
        ensures
            final(self).wf(),
            r is Ok <==> old(self).nodes().len() + syllables@.len() + 2 < usize::MAX,
            r matches Err(e) ==> e.kind == crate::dictionary::BuildErrorKind::TooLarge,
            final(self).info_view() == old(self).info_view(),
            final(self).nodes().len() <= old(self).nodes().len() + syllables@.len() + 1,
            old(self).no_empty_syllables() && (forall|i: int| 0 <= i < syllables@.len() ==> #[trigger] syllables@[i]@ != 0)
                ==> final(self).no_empty_syllables(),
            forall|syls: Seq<u16>|
                #[trigger] final(self).model(syls) == if r is Ok && syls == syllables_view(syllables@) {
                    upsert_phrase(old(self).model(syls), phrase@)
                } else {
                    old(self).model(syls)
                },
            r is Err ==> *final(self) == *old(self),
            r is Ok ==> insert_shape(old(self).nodes(), old(self).node_paths(), final(self).nodes(), syllables_view(syllables@), phrase@),
            r is Ok ==> appended_paths(
                old(self).node_paths(),
                final(self).node_paths(),
                syllables_view(syllables@),
                known_from(old(self).nodes(), old(self).node_paths(), syllables_view(syllables@), 0) as int,
                final(self).nodes().len() as int,
            ),
    {
        if self.arena.len() >= usize::MAX - 2 || syllables.len() >= usize::MAX - 2 - self.arena.len() {
            return Err(crate::dictionary::BuildDictionaryError { kind: crate::dictionary::BuildErrorKind::TooLarge });
        }
        let ghost o = *old(self);
        let ghost target = syllables_view(syllables@);
        let ghost a = o.arena@;
        proof {
            o.lemma_walk_start(target);
        }
        let ghost d = known_from(a, o.paths@, target, 0) as int;
        let ghost top = arena_node_for(a, o.paths@, target.take(d))->0;
        let node_id = self.walk(syllables, Ghost(o), Ghost(d), Ghost(top));
        proof {
            if target.len() > d {
                lemma_grown_last(a, self.arena@, target, d, top, target.len() - d);
            }
        }
        self.finish_insert(node_id, phrase, Ghost(o), Ghost(target), Ghost(d), Ghost(top));
        Ok(())
    }

    /// Walks down the internal nodes for the syllables from the root,
    /// appending the missing ones, and returns the node of all of them.
    #[verifier::rlimit(100)]
    #[verifier::spinoff_prover]
    fn walk(&mut self, syllables: &[Syllable], Ghost(o): Ghost<TrieBuilder>, Ghost(d): Ghost<int>, Ghost(top): Ghost<int>) -> (node_id: usize)
        requires
            *old(self) == o,
            o.wf(),
            o.arena@.len() + syllables@.len() + 2 < usize::MAX,
            0 <= d <= syllables@.len(),
            d == known_from(o.arena@, o.paths@, syllables_view(syllables@), 0),
            0 <= top < o.arena@.len(),
            o.is_internal(top),
            o.paths@[top] == syllables_view(syllables@).take(d),
            d < syllables@.len() ==> o.node_for(syllables_view(syllables@).take(d + 1)) is None,
            forall|m: int| 0 <= m <= d ==> #[trigger] o.node_for(syllables_view(syllables@).take(m)) is Some,
        ensures
            final(self).wf(),
            node_id < final(self).arena@.len(),
            final(self).is_internal(node_id as int),
            final(self).paths@[node_id as int] == syllables_view(syllables@),
            final(self).arena@.len() <= o.arena@.len() + syllables@.len(),
            final(self).info_view() == o.info_view(),
            forall|syls: Seq<u16>| #[trigger] final(self).model(syls) == o.model(syls),
            o.no_empty_syllables() && (forall|j: int| 0 <= j < syllables@.len() ==> #[trigger] syllables@[j]@ != 0)
                ==> final(self).no_empty_syllables(),
            syllables@.len() == d ==> final(self).arena@ == o.arena@ && final(self).paths@ == o.paths@ && node_id == top,
            syllables@.len() > d ==> grown_arena(o.arena@, final(self).arena@, syllables_view(syllables@), d, top, syllables@.len() - d)
                && node_id == o.arena@.len() + (syllables@.len() - d) - 1,
            final(self).paths@.subrange(0, o.arena@.len() as int) == o.paths@,
    {
        let ghost target = syllables_view(syllables@);
        let ghost a = o.arena@;
        let ghost n0 = a.len() as int;
        assert(o.paths@.subrange(0, n0) =~= o.paths@);
        proof {
            if d == 0 {
                assert(target.take(0) =~= Seq::<u16>::empty());
                assert(o.is_internal(0));
                assert(o.paths@[0] == o.paths@[top]);
            }
        }
        let mut node_id: usize = 0;
        let mut i: usize = 0;
        while i < syllables.len()
            invariant
                self.wf(),
                i <= syllables@.len(),
                target == syllables_view(syllables@),
                node_id < self.arena@.len(),
                self.is_internal(node_id as int),
                self.paths@[node_id as int] == target.take(i as int),
                self.arena@.len() <= o.arena@.len() + i,
                o.arena@.len() + syllables@.len() + 2 < usize::MAX,
                self.info_view() == o.info_view(),
                forall|syls: Seq<u16>| #[trigger] self.model(syls) == o.model(syls),
                o.no_empty_syllables() && (forall|j: int| 0 <= j < syllables@.len() ==> #[trigger] syllables@[j]@ != 0)
                    ==> self.no_empty_syllables(),
                a == o.arena@,
                n0 == a.len(),
                0 <= d <= target.len(),
                d == known_from(a, o.paths@, target, 0),
                0 <= top < n0,
                o.is_internal(top),
                o.paths@[top] == target.take(d),
                d < target.len() ==> o.node_for(target.take(d + 1)) is None,
                forall|m: int| 0 <= m <= d ==> #[trigger] o.node_for(target.take(m)) is Some,
                i <= d ==> self.arena@ == a && self.paths@ == o.paths@,
                i > d ==> grown_arena(a, self.arena@, target, d, top, i - d) && node_id == n0 + (i - d) - 1,
                self.paths@.subrange(0, n0) == o.paths@,
                i == d ==> node_id == top,
            decreases syllables@.len() - i,
        {
            let syl = syllables[i];
            let found = self.find_child(node_id, syl);
            proof {
                assert(target.take(i + 1) =~= target.take(i as int).push(syl@));
                assert(target[i as int] == syl@);
                if i < d {
                    if found is None {
                        self.lemma_fresh_path(node_id as int, syl@);
                        let j = o.node_for(target.take(i + 1))->0;
                        assert(o.is_internal(j) && o.paths@[j] == target.take(i + 1));
                    }
                }
                if i == d {
                    if let Some(c) = found {
                        assert(o.is_internal(c as int) && o.paths@[c as int] == target.take(d + 1));
                    }
                }
            }
            let ghost before = self.arena@;
            let ghost bpaths = self.paths@;
            proof {
                if i > d {
                    lemma_grown_last(a, before, target, d, top, i - d);
                }
            }
            match found {
                Some(c) => {
                    node_id = c;
                },
                None => {
                    let ghost parent = node_id as int;
                    node_id = self.alloc_internal(node_id, syl);
                    proof {
                        lemma_grow_step(a, before, self.arena@, target, d, top, i - d, parent, syl);
                        assert(self.paths@.subrange(0, n0) =~= bpaths.subrange(0, n0));
                    }
                },
            }
            proof {
                if i + 1 == d {
                    assert(self.paths@[node_id as int] == target.take(d));
                    assert(self.is_internal(top));
                    assert(self.paths@[node_id as int] == self.paths@[top]);
                }
            }
            i = i + 1;
        }
        assert(target.take(i as int) =~= target);
        node_id
    }

    /// Sets the phrase in the leaf of the node that the walk of
    /// [`TrieBuilder::insert`] reached, giving it a leaf when it has none.
    #[verifier::rlimit(100)]
    #[verifier::spinoff_prover]
    fn finish_insert(
        &mut self,
        node_id: usize,
        phrase: Phrase,
        Ghost(o): Ghost<TrieBuilder>,
        Ghost(target): Ghost<Seq<u16>>,
        Ghost(d): Ghost<int>,
        Ghost(top): Ghost<int>,
    )
        requires
            old(self).wf(),
            o.wf(),
            node_id < old(self).arena@.len(),
            old(self).is_internal(node_id as int),
            old(self).paths@[node_id as int] == target,
            old(self).arena@.len() + 1 < usize::MAX,
            d == known_from(o.arena@, o.paths@, target, 0),
            0 <= d <= target.len(),
            top == arena_node_for(o.arena@, o.paths@, target.take(d))->0,
            0 <= top < o.arena@.len(),
            o.paths@[top] == target.take(d),
            target.len() == d ==> old(self).arena@ == o.arena@ && old(self).paths@ == o.paths@ && node_id == top,
            target.len() > d ==> grown_arena(o.arena@, old(self).arena@, target, d, top, target.len() - d) && node_id
                == o.arena@.len() + (target.len() - d) - 1 && old(self).arena@.len() == o.arena@.len() + (target.len() - d),
            old(self).paths@.subrange(0, o.arena@.len() as int) == o.paths@,
        ensures
            final(self).wf(),
            final(self).info_view() == old(self).info_view(),
            final(self).arena@.len() <= old(self).arena@.len() + 1,
            old(self).no_empty_syllables() ==> final(self).no_empty_syllables(),
            forall|syls: Seq<u16>|
                #[trigger] final(self).model(syls) == if syls == target {
                    upsert_phrase(old(self).model(syls), phrase@)
                } else {
                    old(self).model(syls)
                },
            insert_shape(o.arena@, o.paths@, final(self).arena@, target, phrase@),
            appended_paths(o.paths@, final(self).paths@, target, d, final(self).arena@.len() as int),
    {
        let ghost a = o.arena@;
        let ghost mid = self.arena@;
        let ghost pv = phrase@;
        let ghost mb = *self;
        proof {
            if target.len() > d {
                assert(mb.paths@[top] == target.take(d)) by {
                    assert(mb.paths@.subrange(0, a.len() as int)[top] == mb.paths@[top]);
                }
                self.lemma_walk_paths(a, target, d, top, target.len() - d - 1);
            }
        }
        self.set_in_leaf(node_id, phrase);
        proof {
            lemma_insert_finish(a, o.paths@, mid, self.arena@, target, d, top, node_id as int, pv);
            assert(mb.paths@.len() == mid.len());
            assert(self.paths@.len() == self.arena@.len());
            lemma_paths_finish(o.paths@, mb.paths@, self.paths@, target, d, mid.len() as int, self.arena@.len() as int);
        }
    }
}


impl TrieBuilder {
    /// The packed syllable of node `i`, read from the arena.
    fn syllable_value(&self, i: usize) -> (v: u16)
        requires
            i < self.arena@.len(),
        ensures
            v == arena_syl(self.arena@, i as int),
    {
        match self.arena[i].syllable {
            Some(s) => s.to_u16(),
            None => 0,
        }
    }

    /// The children of the internal node `id` by ascending syllable.
    #[verifier::rlimit(60)]
    #[verifier::spinoff_prover]
    fn sorted_children(&self, id: usize) -> (r: Vec<usize>)
        requires
            self.wf(),
            id < self.arena@.len(),
            self.is_internal(id as int),
        ensures
            forall|k: int| 0 <= k < r@.len() ==> self.arena@[id as int].children@.contains(#[trigger] r@[k]),
            forall|j: int|
                0 <= j < self.arena@[id as int].children@.len() ==> r@.contains(
                    #[trigger] self.arena@[id as int].children@[j],
                ),
            forall|k1: int, k2: int|
                0 <= k1 < k2 < r@.len() ==> arena_syl(self.arena@, #[trigger] r@[k1] as int) < arena_syl(
                    self.arena@,
                    #[trigger] r@[k2] as int,
                ),
            r@.len() == self.arena@[id as int].children@.len(),
    {
        let ghost ch = self.arena@[id as int].children@;
        let ghost a = self.arena@;
        let nc = self.arena[id].children.len();
        let mut r: Vec<usize> = Vec::new();
        let mut started = false;
        let mut last: u16 = 0;
        loop
            invariant
                self.wf(),
                id < a.len(),
                a == self.arena@,
                ch == a[id as int].children@,
                nc == ch.len(),
                forall|k: int| 0 <= k < r@.len() ==> ch.contains(#[trigger] r@[k]),
                forall|k1: int, k2: int|
                    0 <= k1 < k2 < r@.len() ==> arena_syl(a, #[trigger] r@[k1] as int) < arena_syl(
                        a,
                        #[trigger] r@[k2] as int,
                    ),
                started == (r@.len() > 0),
                forall|k: int| 0 <= k < r@.len() ==> arena_syl(a, #[trigger] r@[k] as int) <= last,
                forall|j: int|
                    0 <= j < ch.len() && started && arena_syl(a, #[trigger] ch[j] as int) <= last
                        ==> r@.contains(ch[j]),
            ensures
                forall|k: int| 0 <= k < r@.len() ==> ch.contains(#[trigger] r@[k]),
                forall|j: int| 0 <= j < ch.len() ==> r@.contains(#[trigger] ch[j]),
                forall|k1: int, k2: int|
                    0 <= k1 < k2 < r@.len() ==> arena_syl(a, #[trigger] r@[k1] as int) < arena_syl(
                        a,
                        #[trigger] r@[k2] as int,
                    ),
            decreases (if started {
                65535 - last
            } else {
                65536
            }),
        {
            let mut best: Option<usize> = None;
            let mut best_syl: u16 = 0;
            let mut k: usize = 0;
            while k < nc
                invariant
                    self.wf(),
                    id < a.len(),
                    a == self.arena@,
                    ch == a[id as int].children@,
                    nc == ch.len(),
                    k <= nc,
                    best matches Some(b) ==> ch.contains(b) && arena_syl(a, b as int) == best_syl && (!started
                        || best_syl > last),
                    forall|m: int|
                        0 <= m < k && (!started || arena_syl(a, #[trigger] ch[m] as int) > last) ==> (best
                            matches Some(b) && best_syl <= arena_syl(a, ch[m] as int)),
                decreases nc - k,
            {
                let c = self.arena[id].children[k];
                proof {
                    assert(ch[k as int] == c);
                    assert(c < a.len());
                }
                let cs = self.syllable_value(c);
                if (!started || cs > last) && (best.is_none() || cs < best_syl) {
                    best = Some(c);
                    best_syl = cs;
                }
                k = k + 1;
            }
            match best {
                None => {
                    proof {
                        assert forall|j: int| 0 <= j < ch.len() implies r@.contains(#[trigger] ch[j]) by {
                            let sj = arena_syl(a, ch[j] as int);
                            assert(started && sj <= last);
                        }
                    }
                    break;
                },
                Some(b) => {
                    let ghost old_r = r@;
                    let ghost old_last = last;
                    let ghost old_started = started;
                    r.push(b);
                    last = best_syl;
                    started = true;
                    proof {
                        assert(r@.last() == b);
                        assert forall|k: int| 0 <= k < r@.len() implies ch.contains(#[trigger] r@[k]) by {
                            if k < old_r.len() {
                                assert(r@[k] == old_r[k]);
                            }
                        }
                        assert forall|k1: int, k2: int|
                            0 <= k1 < k2 < r@.len() implies arena_syl(a, #[trigger] r@[k1] as int) < arena_syl(
                            a,
                            #[trigger] r@[k2] as int,
                        ) by {
                            assert(r@[k1] == old_r[k1]);
                            if k2 < old_r.len() {
                                assert(r@[k2] == old_r[k2]);
                            }
                        }
                        assert forall|k: int| 0 <= k < r@.len() implies arena_syl(a, #[trigger] r@[k] as int)
                            <= last by {
                            if k < old_r.len() {
                                assert(r@[k] == old_r[k]);
                            }
                        }
                        let kb = choose|kb: int| 0 <= kb < ch.len() && ch[kb] == b;
                        assert forall|j: int|
                            0 <= j < ch.len() && started && arena_syl(a, #[trigger] ch[j] as int) <= last
                                implies r@.contains(ch[j]) by {
                            if old_started && arena_syl(a, ch[j] as int) <= old_last {
                                let w = choose|w: int| 0 <= w < old_r.len() && old_r[w] == ch[j];
                                assert(r@[w] == ch[j]);
                            } else {
                                assert(best_syl <= arena_syl(a, ch[j] as int));
                                if j != kb {
                                    if j < kb {
                                        assert(arena_syl(a, ch[j] as int) != arena_syl(a, ch[kb] as int));
                                    } else {
                                        assert(arena_syl(a, ch[kb] as int) != arena_syl(a, ch[j] as int));
                                    }
                                }
                                assert(r@[old_r.len() as int] == ch[j]);
                            }
                        }
                    }
                },
            }
        }
        proof {
            assert(r@.no_duplicates()) by {
                assert forall|k1: int, k2: int| 0 <= k1 < r@.len() && 0 <= k2 < r@.len() && k1 != k2 implies r@[k1]
                    != r@[k2] by {
                    if k1 < k2 {
                        assert(arena_syl(a, r@[k1] as int) < arena_syl(a, r@[k2] as int));
                    } else {
                        assert(arena_syl(a, r@[k2] as int) < arena_syl(a, r@[k1] as int));
                    }
                }
            }
            assert(ch.no_duplicates()) by {
                assert forall|k1: int, k2: int| 0 <= k1 < ch.len() && 0 <= k2 < ch.len() && k1 != k2 implies ch[k1]
                    != ch[k2] by {
                    if k1 < k2 {
                        assert(self.syl_of(ch[k1] as int) != self.syl_of(ch[k2] as int));
                    } else {
                        assert(self.syl_of(ch[k2] as int) != self.syl_of(ch[k1] as int));
                    }
                }
            }
            lemma_same_elements_len(r@, ch);
        }
        r
    }
}


impl TrieBuilder {
    /// The state of writing the index: `order` lists the nodes in the order
    /// of their records, the records of the first `p` of them are in
    /// `index`, and every node after the root is listed once, after its
    /// parent.
    spec fn writing(&self, order: Seq<usize>, index: Seq<u8>, data: Seq<u8>, p: int) -> bool {
        &&& 1 <= order.len()
        &&& order[0] == 0
        &&& 0 <= p <= order.len()
        &&& index.len() == 8 * p
        &&& forall|q: int| 0 <= q < order.len() ==> (#[trigger] order[q]) < self.arena@.len()
        &&& order.no_duplicates()
        &&& forall|q: int|
            1 <= q < order.len() ==> #[trigger] order[q] != 0 && order.take(p).contains(
                self.parents@[order[q] as int] as usize,
            )
        &&& forall|q: int| 0 <= q < p ==> #[trigger] node_record_ok(self.arena@, order, index, data, q)
    }

    /// A node whose parent is the node being written is not listed yet.
    proof fn lemma_fresh_entry(&self, o: Seq<usize>, ix: Seq<u8>, d: Seq<u8>, p: int, x: usize)
        requires
            self.writing(o, ix, d, p),
            p < o.len(),
            x != 0,
            (x as int) < self.parents@.len(),
            self.parents@[x as int] == o[p] as nat,
        ensures
            !o.contains(x),
    {
        if o.contains(x) {
            let q = choose|q: int| 0 <= q < o.len() && o[q] == x;
            assert(o[q] != 0);
            assert(o.take(p).contains(self.parents@[o[q] as int] as usize));
            let pp = choose|pp: int| 0 <= pp < o.take(p).len() && o.take(p)[pp] == o[p];
            assert(o[pp] == o[p]);
        }
    }

    /// What listing the leaf and sorted children of the internal node
    /// `o[p]` and writing its record keep of [`Self::writing`].
    #[verifier::rlimit(100)]
    #[verifier::spinoff_prover]
    proof fn lemma_after_internal(
        &self,
        o: Seq<usize>,
        ix: Seq<u8>,
        d: Seq<u8>,
        p: int,
        ord: Seq<usize>,
        index: Seq<u8>,
        sorted: Seq<usize>,
        leaf: Option<usize>,
        lead: int,
        cb: int,
        count: int,
        syl: u16,
    )
        requires
            self.wf(),
            self.writing(o, ix, d, p),
            0 <= p < o.len(),
            self.is_internal(o[p] as int),
            cb == o.len(),
            leaf == self.arena@[o[p] as int].leaf_id,
            lead == (if leaf is Some { 1int } else { 0int }),
            count == sorted.len() + lead,
            count < 0x10000,
            cb < 0x1_0000_0000,
            syl == arena_syl(self.arena@, o[p] as int),
            forall|k: int| 0 <= k < sorted.len() ==> self.arena@[o[p] as int].children@.contains(#[trigger] sorted[k]),
            forall|j: int|
                0 <= j < self.arena@[o[p] as int].children@.len() ==> sorted.contains(
                    #[trigger] self.arena@[o[p] as int].children@[j],
                ),
            forall|k1: int, k2: int|
                0 <= k1 < k2 < sorted.len() ==> arena_syl(self.arena@, #[trigger] sorted[k1] as int) < arena_syl(
                    self.arena@,
                    #[trigger] sorted[k2] as int,
                ),
            index.len() == ix.len() + 8,
            index.subrange(0, ix.len() as int) == ix,
            be32_at(index, ix.len() as int) == cb,
            be16_at(index, ix.len() as int + 4) == count,
            be16_at(index, ix.len() as int + 6) == syl,
            ord.len() == cb + count,
            forall|i: int| 0 <= i < cb ==> #[trigger] ord[i] == o[i],
            leaf matches Some(l) ==> ord[cb] == l,
            forall|j: int| 0 <= j < sorted.len() ==> #[trigger] ord[cb + lead + j] == sorted[j],
        ensures
            self.writing(ord, index, d, p + 1),
    {
        let a = self.arena@;
        let id = o[p];
        let ch = a[id as int].children@;
        assert(ix.len() == 8 * p);
        assert forall|i: int| 0 <= i < ix.len() implies index[i] == ix[i] by {
            assert(index.subrange(0, ix.len() as int)[i] == index[i]);
        }
        assert forall|j: int| 0 <= j < sorted.len() implies {
            let c = #[trigger] sorted[j];
            &&& id < c < a.len()
            &&& a[c as int].syllable is Some
            &&& self.parents@[c as int] == id
        } by {
            let c = sorted[j];
            assert(ch.contains(c));
            let kk = choose|kk: int| 0 <= kk < ch.len() && ch[kk] == c;
            assert(a[id as int].children@[kk] == c);
        }
        if let Some(l) = leaf {
            assert(a[id as int].leaf_id is Some);
        }
        assert forall|q: int| cb <= q < ord.len() implies #[trigger] ord[q] != 0 && (ord[q] as int) < a.len()
            && self.parents@[ord[q] as int] == id && (a[ord[q] as int].syllable is Some <==> q >= cb
            + lead) by {
            if q >= cb + lead {
                let j = q - cb - lead;
                assert(ord[cb + lead + j] == sorted[j]);
            }
        }
        assert forall|q: int| cb <= q < ord.len() implies !o.contains(#[trigger] ord[q]) by {
            self.lemma_fresh_entry(o, ix, d, p, ord[q]);
        }
        assert(ord.take(p + 1)[p] == id);
        assert(ord.take(p + 1).contains(id));
        assert forall|i: int, j: int| 0 <= i < ord.len() && 0 <= j < ord.len() && i != j implies ord[i]
            != ord[j] by {
            if i < cb && j < cb {
                assert(ord[i] == o[i] && ord[j] == o[j]);
            } else if i < cb {
                assert(ord[i] == o[i]);
                assert(!o.contains(ord[j]));
            } else if j < cb {
                assert(ord[j] == o[j]);
                assert(!o.contains(ord[i]));
            } else if i < cb + lead || j < cb + lead {
            } else {
                let ii = i - cb - lead;
                let jj = j - cb - lead;
                assert(ord[cb + lead + ii] == sorted[ii]);
                assert(ord[cb + lead + jj] == sorted[jj]);
                if ii < jj {
                    assert(arena_syl(a, sorted[ii] as int) < arena_syl(a, sorted[jj] as int));
                } else {
                    assert(arena_syl(a, sorted[jj] as int) < arena_syl(a, sorted[ii] as int));
                }
            }
        }
        assert forall|q: int| 1 <= q < ord.len() implies #[trigger] ord[q] != 0 && ord.take(p + 1).contains(
            self.parents@[ord[q] as int] as usize,
        ) by {
            if q < cb {
                assert(ord[q] == o[q]);
                assert(o.take(p).contains(self.parents@[o[q] as int] as usize));
                let pp = choose|pp: int| 0 <= pp < o.take(p).len() && o.take(p)[pp] == self.parents@[
                    o[q] as int] as usize;
                assert(ord.take(p + 1)[pp] == o[pp]);
            }
        }
        assert forall|q: int| 0 <= q < p + 1 implies #[trigger] node_record_ok(a, ord, index, d, q) by {
            if q < p {
                assert(node_record_ok(a, o, ix, d, q));
                lemma_record_extend(a, o, ix, d, ord, index, d, q);
            } else {
                assert(ord[q] == id);
                assert(rec_begin(index, q as nat) == cb);
                assert(rec_len(index, q as nat) == count);
                assert(rec_syl(index, q as nat) == syl);
                assert forall|kk: int| lead <= kk < count implies ch.contains(#[trigger] ord[cb + kk]) by {
                    let j = kk - lead;
                    assert(ord[cb + lead + j] == sorted[j]);
                }
                assert forall|j: int| 0 <= j < ch.len() implies ord.subrange(cb + lead, cb + count).contains(
                    #[trigger] ch[j],
                ) by {
                    assert(sorted.contains(ch[j]));
                    let w = choose|w: int| 0 <= w < sorted.len() && sorted[w] == ch[j];
                    assert(ord[cb + lead + w] == sorted[w]);
                    assert(ord.subrange(cb + lead, cb + count)[w] == ord[cb + lead + w]);
                }
                assert forall|k1: int, k2: int| lead <= k1 < k2 < count implies arena_syl(
                    a,
                    #[trigger] ord[cb + k1] as int,
                ) < arena_syl(a, #[trigger] ord[cb + k2] as int) by {
                    let j1 = k1 - lead;
                    let j2 = k2 - lead;
                    assert(ord[cb + lead + j1] == sorted[j1]);
                    assert(ord[cb + lead + j2] == sorted[j2]);
                }
            }
        }
    }

    /// Writes the phrases of the leaf `order[p]` in their written order and
    /// its record.
    #[verifier::rlimit(60)]
    #[verifier::spinoff_prover]
    fn layout_leaf(&self, order: &Vec<usize>, index: &mut Vec<u8>, data: &mut Vec<u8>, p: usize) -> (ok: bool)
        requires
            self.wf(),
            self.writing(order@, old(index)@, old(data)@, p as int),
            p < order@.len(),
            !self.is_internal(order@[p as int] as int),
        ensures
            ok ==> self.writing(order@, final(index)@, final(data)@, p + 1),
            ok <==> leaf_fits(phrases_view(self.arena@[order@[p as int] as int].phrases@), old(data)@.len()),
            ok ==> final(data)@.len() == old(data)@.len() + node_data_len(self.arena@, order@[p as int] as int),
            !ok ==> final(index)@ == old(index)@ && final(data)@ == old(data)@,
    {
        let ghost a = self.arena@;
        let ghost ix = index@;
        let ghost dx = data@;
        let id = order[p];
        let sorted = sort_leaf_phrases(&self.arena[id].phrases);
        let ghost sv = phrases_view(sorted@);
        let mut buf: Vec<u8> = Vec::new();
        let mut i: usize = 0;
        assert(sv.take(0) =~= Seq::<PhraseView>::empty());
        while i < sorted.len()
            invariant
                i <= sorted@.len(),
                sv == phrases_view(sorted@),
                p < order@.len(),
                sv == crate::dictionary::layout::sort_phrases(phrases_view(self.arena@[order@[p as int] as int].phrases@)),
                index@ == old(index)@,
                data@ == old(data)@,
                buf@ == crate::dictionary::trie_format::phrases_der(sv.take(i as int)),
                forall|j: int| 0 <= j < i ==> crate::dictionary::trie_format::phrase_encodable(#[trigger] sv[j]),
            decreases sorted@.len() - i,
        {
            let ghost before = buf@;
            if !crate::dictionary::trie_format::push_phrase(&mut buf, &sorted[i]) {
                assert(!crate::dictionary::trie_format::phrase_encodable(sv[i as int]));
                return false;
            }
            proof {
                crate::dictionary::layout::lemma_phrases_der_push(sv.take(i as int), sv[i as int]);
                assert(sv.take(i + 1) =~= sv.take(i as int).push(sv[i as int]));
            }
            i = i + 1;
        }
        assert(sv.take(i as int) =~= sv);
        assert(sv == crate::dictionary::layout::sort_phrases(phrases_view(self.arena@[order@[p as int] as int].phrases@)));
        assert(buf@ == crate::dictionary::trie_format::phrases_der(sv));
        if data.len() > 0xffff_ffff || buf.len() > 0xffff {
            return false;
        }
        let db = data.len();
        push_record(index, db as u32, buf.len() as u16, 0);
        crate::der::append_bytes(data, buf.as_slice());
        proof {
            assert(ix.len() == 8 * p);
            assert forall|j: int| 0 <= j < ix.len() implies index@[j] == ix[j] by {
                assert(index@.subrange(0, ix.len() as int)[j] == index@[j]);
            }
            assert forall|q: int| 0 <= q < p + 1 implies #[trigger] node_record_ok(a, order@, index@, data@, q) by {
                if q < p {
                    assert(node_record_ok(a, order@, ix, dx, q));
                    lemma_record_extend(a, order@, ix, dx, order@, index@, data@, q);
                } else {
                    assert(rec_begin(index@, q as nat) == db);
                    assert(rec_len(index@, q as nat) == buf@.len());
                    assert(rec_syl(index@, q as nat) == 0);
                    assert(data@.subrange(db as int, db + buf@.len()) =~= buf@);
                    assert(sv == crate::dictionary::layout::sort_phrases(phrases_view(a[order@[q] as int].phrases@)));
                }
            }
            assert forall|q: int| 1 <= q < order@.len() implies #[trigger] order@[q] != 0 && order@.take(p + 1).contains(
                self.parents@[order@[q] as int] as usize,
            ) by {
                assert(order@.take(p as int).contains(self.parents@[order@[q] as int] as usize));
                let pp = choose|pp: int| 0 <= pp < order@.take(p as int).len() && order@.take(p as int)[pp]
                    == self.parents@[order@[q] as int] as usize;
                assert(order@.take(p + 1)[pp] == order@[pp]);
            }
        }
        true
    }

    /// Encodes the dictionary file of the builder: the index records of the
    /// nodes in breadth-first order, the root first and the children of each
    /// internal node after its leaf by ascending syllable, and the phrases
    /// of each leaf ([`crate::dictionary::layout::sort_phrases`]).
    ///
    /// Fails when a count or an offset does not fit its field, or the file
    /// does not fit the DER length limit; it succeeds whenever the builder
    /// fits ([`builder_fits`]).
    #[verifier::rlimit(60)]
    pub fn write(&self) -> (r: Result<Vec<u8>, crate::dictionary::BuildDictionaryError>)
        requires
            self.wf(),
        ensures
            r matches Ok(bytes) ==> exists|order: Seq<usize>, index: Seq<u8>, data: Seq<u8>|
                bfs_layout(self.nodes(), order, index, data) && crate::dictionary::trie_format::file_encodable(
                    self.info_view(),
                    index,
                    data,
                ) && bytes@ == crate::dictionary::trie_format::file_der(self.info_view(), index, data),
            r matches Err(e) ==> e.kind == crate::dictionary::BuildErrorKind::TooLarge,
            builder_fits(self.nodes(), self.info_view()) ==> r is Ok,
    {
        let ghost a = self.arena@;
        let ghost n = self.arena@.len();
        let mut order: Vec<usize> = Vec::new();
        order.push(0);
        let mut index: Vec<u8> = Vec::new();
        let mut data: Vec<u8> = Vec::new();
        let mut p: usize = 0;
        assert(order@.take(0) =~= Seq::<usize>::empty());
        while p < order.len()
            invariant
                self.wf(),
                a == self.arena@,
                n == a.len(),
                self.writing(order@, index@, data@, p as int),
                data@.len() == listed_data_len(a, order@.take(p as int)),
            decreases self.arena@.len() - p,
        {
            proof {
                lemma_distinct_bounded(order@, self.arena@.len());
            }
            let ghost o = order@;
            let ghost dx = data@;
            let id = order[p];
            let internal = id == 0 || self.arena[id].syllable.is_some();
            let ok = if internal {
                self.layout_internal(&mut order, &mut index, &data, p)
            } else {
                self.layout_leaf(&order, &mut index, &mut data, p)
            };
            if !ok {
                proof {
                    if builder_fits(a, self.info@) {
                        self.lemma_listed_fits(o, p as int);
                        if !internal {
                            assert(leaf_fits(phrases_view(a[id as int].phrases@), 0));
                        }
                    }
                }
                return Err(crate::dictionary::BuildDictionaryError { kind: crate::dictionary::BuildErrorKind::TooLarge });
            }
            proof {
                assert(order@.take(p + 1) =~= o.take(p as int).push(id));
                assert(order@.take(p + 1).drop_last() =~= o.take(p as int));
            }
            p = p + 1;
        }
        assert(order@.take(p as int) =~= order@);
        match crate::dictionary::trie_format::encode_file(&self.info, index.as_slice(), data.as_slice()) {
            None => {
                proof {
                    if builder_fits(a, self.info@) {
                        self.lemma_listed_fits(order@, p as int);
                        lemma_file_content_len(self.info@, index@, data@);
                    }
                }
                Err(crate::dictionary::BuildDictionaryError { kind: crate::dictionary::BuildErrorKind::TooLarge })
            },
            Some(bytes) => {
                assert(bfs_layout(self.nodes(), order@, index@, data@));
                Ok(bytes)
            },
        }
    }

    /// Under [`builder_fits`], the nodes listed while writing are at most
    /// the arena's nodes and their phrase data fits.
    proof fn lemma_listed_fits(&self, o: Seq<usize>, p: int)
        requires
            builder_fits(self.arena@, self.info@),
            o.no_duplicates(),
            0 <= p <= o.len(),
            forall|q: int| 0 <= q < o.len() ==> (#[trigger] o[q]) < self.arena@.len(),
        ensures
            o.len() <= self.arena@.len(),
            listed_data_len(self.arena@, o.take(p)) <= arena_data_len(self.arena@, self.arena@.len() as int),
            8 * self.arena@.len() + arena_data_len(self.arena@, self.arena@.len() as int)
                <= crate::der::MAX_DER_LEN,
    {
        lemma_distinct_bounded(o, self.arena@.len());
        let t = o.take(p);
        assert forall|a: int, b: int| 0 <= a < t.len() && 0 <= b < t.len() && a != b implies t[a] != t[b] by {
            assert(t[a] == o[a] && t[b] == o[b]);
        }
        assert forall|i: int| 0 <= i < t.len() implies (#[trigger] t[i]) < self.arena@.len() by {
            assert(t[i] == o[i]);
        }
        lemma_listed_bounded(self.arena@, t, self.arena@.len());
    }

    /// Writes the record of the internal node `order[p]` and lists its leaf
    /// and its children by ascending syllable.
    #[verifier::rlimit(100)]
    #[verifier::spinoff_prover]
    fn layout_internal(&self, order: &mut Vec<usize>, index: &mut Vec<u8>, data: &Vec<u8>, p: usize) -> (ok: bool)
        requires
            self.wf(),
            self.writing(old(order)@, old(index)@, data@, p as int),
            p < old(order)@.len(),
            self.is_internal(old(order)@[p as int] as int),
        ensures
            ok ==> self.writing(final(order)@, final(index)@, data@, p + 1),
            ok <==> (self.arena@[old(order)@[p as int] as int].children@.len() < 0xffff && old(order)@.len()
                <= 0xffff_ffff),
            !ok ==> final(order)@ == old(order)@ && final(index)@ == old(index)@,
            final(order)@.len() >= old(order)@.len(),
            forall|i: int| 0 <= i < old(order)@.len() ==> #[trigger] final(order)@[i] == old(order)@[i],
    {
        let ghost a = self.arena@;
        let ghost o = order@;
        let ghost ix = index@;
        let id = order[p];
        let sorted = self.sorted_children(id);
        assert(sorted@.len() == self.arena@[id as int].children@.len());
        let leaf = self.arena[id].leaf_id;
        let lead: usize = if leaf.is_some() {
            1
        } else {
            0
        };
        if sorted.len() >= 0xffff || order.len() > 0xffff_ffff {
            return false;
        }
        let count = sorted.len() + lead;
        let syl = self.syllable_value(id);
        let cb = order.len();
        push_record(index, cb as u32, count as u16, syl);
        match leaf {
            Some(l) => {
                order.push(l);
            },
            None => {},
        }
        let mut k: usize = 0;
        while k < sorted.len()
            invariant
                k <= sorted@.len(),
                order@.len() == cb + lead + k,
                forall|i: int| 0 <= i < cb ==> #[trigger] order@[i] == o[i],
                lead <= 1,
                (leaf is Some) == (lead == 1),
                leaf matches Some(l) ==> order@[cb as int] == l,
                forall|j: int| 0 <= j < k ==> #[trigger] order@[cb + lead + j] == sorted@[j],
            decreases sorted@.len() - k,
        {
            order.push(sorted[k]);
            k = k + 1;
        }
        proof {
            self.lemma_after_internal(o, ix, data@, p as int, order@, index@, sorted@, leaf, lead as int, cb as int, count as int, syl);
        }
        true
    }
}


/// A container for trie dictionary statistics.
#[derive(Debug)]
pub struct TrieStatistics {
    /// The number of nodes in the dictionary.
    pub node_count: usize,
    /// The number of leaf nodes (phrases with same syllables).
    pub leaf_count: usize,
    /// The number of phrases.
    pub phrase_count: usize,
    /// The max height (longest phrase) of the trie.
    pub max_height: usize,
    /// The average height (average phrase length) of the trie.
    pub avg_height: usize,
    /// The max branch count (shared prefix) including the root of the trie.
    pub root_branch_count: usize,
    /// The max branch count (shared prefix) excluding the root of the trie.
    pub max_branch_count: usize,
    /// The average branch count of the trie.
    pub avg_branch_count: usize,
}

/// The layer of node `i` in a breadth-first walk from the root (the root is
/// in layer 1, a leaf one layer below its internal node).
pub open spec fn node_layer(arena: Seq<TrieBuilderNode>, paths: Seq<Seq<u16>>, i: int) -> nat {
    if arena_internal(arena, i) {
        paths[i].len() + 1
    } else {
        paths[i].len() + 2
    }
}

/// The number of internal nodes with a leaf among the first `k` nodes.
pub open spec fn stat_leaves(arena: Seq<TrieBuilderNode>, k: int) -> nat
    decreases k,
{
    if k <= 0 {
        0
    } else {
        stat_leaves(arena, k - 1) + if arena_internal(arena, k - 1) && arena[k - 1].leaf_id is Some {
            1nat
        } else {
            0nat
        }
    }
}

/// The number of phrases in the leaves among the first `k` nodes.
pub open spec fn stat_phrases(arena: Seq<TrieBuilderNode>, k: int) -> nat
    decreases k,
{
    if k <= 0 {
        0
    } else {
        stat_phrases(arena, k - 1) + if arena_internal(arena, k - 1) {
            0nat
        } else {
            arena[k - 1].phrases@.len()
        }
    }
}

/// The deepest layer among the first `k` nodes.
pub open spec fn stat_max_layer(arena: Seq<TrieBuilderNode>, paths: Seq<Seq<u16>>, k: int) -> nat
    decreases k,
{
    if k <= 0 {
        0
    } else {
        let m = stat_max_layer(arena, paths, k - 1);
        let h = node_layer(arena, paths, k - 1);
        if h > m {
            h
        } else {
            m
        }
    }
}

/// The sum of the layers of the internal nodes with a leaf among the first
/// `k` nodes.
pub open spec fn stat_layer_sum(arena: Seq<TrieBuilderNode>, paths: Seq<Seq<u16>>, k: int) -> nat
    decreases k,
{
    if k <= 0 {
        0
    } else {
        stat_layer_sum(arena, paths, k - 1) + if arena_internal(arena, k - 1) && arena[k - 1].leaf_id is Some {
            node_layer(arena, paths, k - 1)
        } else {
            0nat
        }
    }
}

/// The number of internal nodes among the first `k` nodes.
pub open spec fn stat_internal(arena: Seq<TrieBuilderNode>, k: int) -> nat
    decreases k,
{
    if k <= 0 {
        0
    } else {
        stat_internal(arena, k - 1) + if arena_internal(arena, k - 1) {
            1nat
        } else {
            0nat
        }
    }
}

/// The sum of the child counts of the internal nodes among the first `k`
/// nodes.
pub open spec fn stat_branch_sum(arena: Seq<TrieBuilderNode>, k: int) -> nat
    decreases k,
{
    if k <= 0 {
        0
    } else {
        stat_branch_sum(arena, k - 1) + if arena_internal(arena, k - 1) {
            arena[k - 1].children@.len()
        } else {
            0nat
        }
    }
}

/// The largest child count of the internal nodes among the first `k`
/// nodes, counting the root when `with_root`.
pub open spec fn stat_max_branch(arena: Seq<TrieBuilderNode>, k: int, with_root: bool) -> nat
    decreases k,
{
    if k <= 0 {
        0
    } else {
        let m = stat_max_branch(arena, k - 1, with_root);
        let b = arena[k - 1].children@.len();
        if arena_internal(arena, k - 1) && (with_root || k - 1 != 0) && b > m {
            b
        } else {
            m
        }
    }
}

/// A value capped at the largest `usize`.
pub open spec fn cap_usize(v: int) -> int {
    if v > usize::MAX {
        usize::MAX as int
    } else {
        v
    }
}

/// Caps a counter at the largest `usize`.
fn capped(v: u128) -> (r: usize)
    ensures
        r == cap_usize(v as int),
{
    if v > usize::MAX as u128 {
        usize::MAX
    } else {
        v as usize
    }
}

impl TrieBuilder {
    /// Calculates the statistics of the dictionary.
    ///
    /// Each node is counted once; the layer of a node is its depth below the
    /// root plus one. The averages divide by the number of internal nodes.
    #[verifier::rlimit(60)]
    #[verifier::spinoff_prover]
    pub fn statistics(&self) -> (st: TrieStatistics)
        requires
            self.wf(),
        ensures
            st.node_count == self.nodes().len(),
            st.leaf_count == stat_leaves(self.nodes(), self.nodes().len() as int),
            st.phrase_count == cap_usize(stat_phrases(self.nodes(), self.nodes().len() as int) as int),
            st.max_height == cap_usize(stat_max_layer(self.nodes(), self.node_paths(), self.nodes().len() as int) as int),
            st.avg_height == cap_usize(
                stat_layer_sum(self.nodes(), self.node_paths(), self.nodes().len() as int) as int / stat_internal(
                    self.nodes(),
                    self.nodes().len() as int,
                ) as int,
            ),
            st.root_branch_count == stat_max_branch(self.nodes(), self.nodes().len() as int, true),
            st.max_branch_count == stat_max_branch(self.nodes(), self.nodes().len() as int, false),
            st.avg_branch_count == cap_usize(
                stat_branch_sum(self.nodes(), self.nodes().len() as int) as int / stat_internal(
                    self.nodes(),
                    self.nodes().len() as int,
                ) as int,
            ),
    {
        let ghost a = self.arena@;
        let ghost paths = self.paths@;
        let n = self.arena.len();
        let mut layers: Vec<u128> = Vec::new();
        let mut k: usize = 0;
        while k < n
            invariant
                k <= n,
                n == a.len(),
                layers@.len() == k,
                forall|j: int| 0 <= j < k ==> #[trigger] layers@[j] == 0,
            decreases n - k,
        {
            layers.push(0);
            k = k + 1;
        }
        layers.set(0, 1);
        let mut leaves: usize = 0;
        let mut phrases: u128 = 0;
        let mut max_layer: u128 = 0;
        let mut layer_sum: u128 = 0;
        let mut internal: u128 = 0;
        let mut branch_sum: u128 = 0;
        let mut root_branch: usize = 0;
        let mut max_branch: usize = 0;
        let mut i: usize = 0;
        while i < n
            invariant
                self.wf(),
                a == self.arena@,
                paths == self.paths@,
                n == a.len(),
                i <= n,
                layers@.len() == n,
                forall|j: int| 0 <= j < n ==> #[trigger] layers@[j] <= j + 1,
                forall|j: int|
                    0 <= j < n && (j == 0 || self.parents@[j] < i) ==> #[trigger] layers@[j] == node_layer(
                        a,
                        paths,
                        j,
                    ),
                i > 0 ==> internal >= 1,
                leaves == stat_leaves(a, i as int),
                phrases == stat_phrases(a, i as int),
                max_layer == stat_max_layer(a, paths, i as int),
                layer_sum == stat_layer_sum(a, paths, i as int),
                internal == stat_internal(a, i as int),
                branch_sum == stat_branch_sum(a, i as int),
                root_branch == stat_max_branch(a, i as int, true),
                max_branch == stat_max_branch(a, i as int, false),
                leaves <= i,
                internal <= i,
                max_layer <= i + 1,
                layer_sum <= i * 0x1_0000_0000_0000_0001,
                branch_sum <= i * 0x1_0000_0000_0000_0000,
                phrases <= i * 0x1_0000_0000_0000_0000,
            decreases n - i,
        {
            proof {
                assert(i == 0 || self.parents@[i as int] < i);
            }
            let h = layers[i];
            let is_internal = i == 0 || self.arena[i].syllable.is_some();
            let nc = self.arena[i].children.len();
            let leaf = self.arena[i].leaf_id;
            if is_internal {
                match leaf {
                    Some(l) => {
                        proof {
                            assert(a[i as int].leaf_id is Some);
                        }
                        layers.set(l, h + 1);
                        leaves = leaves + 1;
                        layer_sum = layer_sum + h;
                    },
                    None => {},
                }
                let mut c: usize = 0;
                while c < nc
                    invariant
                        self.wf(),
                        a == self.arena@,
                        paths == self.paths@,
                        n == a.len(),
                        i < n,
                        arena_internal(a, i as int),
                        leaf == a[i as int].leaf_id,
                        h == node_layer(a, paths, i as int),
                        h <= i + 1,
                        nc == a[i as int].children@.len(),
                        c <= nc,
                        layers@.len() == n,
                        forall|j: int| 0 <= j < n ==> #[trigger] layers@[j] <= j + 1,
                        forall|j: int|
                            0 <= j < n && (j == 0 || self.parents@[j] < i) ==> #[trigger] layers@[j]
                                == node_layer(a, paths, j),
                        forall|m: int|
                            0 <= m < c ==> layers@[#[trigger] a[i as int].children@[m] as int] == node_layer(
                                a,
                                paths,
                                a[i as int].children@[m] as int,
                            ),
                        leaf matches Some(l) ==> layers@[l as int] == node_layer(a, paths, l as int),
                    decreases nc - c,
                {
                    let ch = self.arena[i].children[c];
                    proof {
                        assert(a[i as int].children@[c as int] == ch);
                        if let Some(l) = leaf {
                            assert(a[i as int].leaf_id is Some);
                            assert(l != ch);
                        }
                    }
                    let ghost before = layers@;
                    layers.set(ch, h + 1);
                    proof {
                        assert forall|m: int| 0 <= m < c + 1 implies layers@[#[trigger] a[i as int].children@[m]
                            as int] == node_layer(a, paths, a[i as int].children@[m] as int) by {
                            if m < c {
                                if a[i as int].children@[m] == ch {
                                    assert(false);
                                }
                            }
                        }
                    }
                    c = c + 1;
                }
                proof {
                    assert forall|j: int|
                        0 <= j < n && (j == 0 || self.parents@[j] < i + 1) implies #[trigger] layers@[j]
                        == node_layer(a, paths, j) by {
                        if j != 0 && self.parents@[j] == i {
                            if arena_internal(a, j) {
                                let p = self.parents@[j] as int;
                                assert(a[p].children@.contains(j as usize));
                                let m = choose|m: int| 0 <= m < a[p].children@.len() && a[p].children@[m] == j as usize;
                                assert(layers@[a[i as int].children@[m] as int] == node_layer(a, paths, a[i as int].children@[m] as int));
                            } else {
                                assert(a[self.parents@[j] as int].leaf_id == Some(j as usize));
                            }
                        }
                    }
                }
                internal = internal + 1;
                branch_sum = branch_sum + nc as u128;
                if nc > root_branch {
                    root_branch = nc;
                }
                if i != 0 && nc > max_branch {
                    max_branch = nc;
                }
            } else {
                phrases = phrases + self.arena[i].phrases.len() as u128;
                proof {
                    assert forall|j: int|
                        0 <= j < n && (j == 0 || self.parents@[j] < i + 1) implies #[trigger] layers@[j]
                        == node_layer(a, paths, j) by {
                        if j != 0 && self.parents@[j] == i {
                            if arena_internal(a, j) {
                                let p = self.parents@[j] as int;
                                assert(arena_internal(a, p));
                            } else {
                                assert(a[self.parents@[j] as int].leaf_id == Some(j as usize));
                            }
                        }
                    }
                }
            }
            if h > max_layer {
                max_layer = h;
            }
            i = i + 1;
        }
        TrieStatistics {
            node_count: n,
            leaf_count: leaves,
            phrase_count: capped(phrases),
            max_height: capped(max_layer),
            avg_height: capped(layer_sum / internal),
            root_branch_count: root_branch,
            max_branch_count: max_branch,
            avg_branch_count: capped(branch_sum / internal),
        }
    }
}


impl Trie {
    /// Creates a dictionary from the bytes of a dictionary file, with fuzzy
    /// search disabled.
    pub fn new(bytes: &[u8]) -> (r: Option<Trie>)
        ensures
            r matches Some(t) ==> {
                &&& bytes@ == crate::dictionary::trie_format::file_der(
                    t.info_view(),
                    t.index_view(),
                    t.data_view(),
                )
                &&& crate::dictionary::trie_format::file_encodable(
                    t.info_view(),
                    t.index_view(),
                    t.data_view(),
                )
                &&& !t.fuzzy_view()
            },
            forall|i: crate::dictionary::DictionaryInfoView, x: Seq<u8>, d: Seq<u8>|
                crate::dictionary::trie_format::file_encodable(i, x, d) && bytes@
                    == #[trigger] crate::dictionary::trie_format::file_der(i, x, d) ==> (r matches Some(
                    t,
                ) && t.info_view() == i && t.index_view() == x && t.data_view() == d),
    {
        Trie::from_bytes(bytes, false)
    }

    /// Returns all entries of the dictionary, depth first.
    pub fn entries(&self) -> (r: Vec<(Vec<Syllable>, Phrase)>)
        ensures
            crate::dictionary::trie_walk::entries_view(r@) == crate::dictionary::trie_walk::trie_entries(
                self.index_view(),
                self.data_view(),
            ),
    {
        crate::dictionary::trie_walk::entries_in_index(self.index.as_slice(), self.phrase_seq.as_slice())
    }
}

impl crate::dictionary::Dictionary for Trie {
    open spec fn lookup_view(&self, syls: Seq<u16>, first: nat, strategy: LookupStrategy) -> Seq<PhraseView> {
        first_n(trie_lookup(self.index_view(), self.data_view(), syls, first, strategy), first)
    }

    open spec fn entries_spec(&self) -> Seq<crate::dictionary::trie_walk::EntryView> {
        crate::dictionary::trie_walk::trie_entries(self.index_view(), self.data_view())
    }

    open spec fn about_view(&self) -> crate::dictionary::DictionaryInfoView {
        self.info_view()
    }

    fn lookup_first_n_phrases(&self, syllables: &[Syllable], first: usize, strategy: LookupStrategy) -> (r: Vec<
        Phrase,
    >) {
        Trie::lookup_first_n_phrases(self, syllables, first, strategy)
    }

    fn entries(&self) -> (r: Vec<(Vec<Syllable>, Phrase)>) {
        Trie::entries(self)
    }

    fn about(&self) -> (r: DictionaryInfo) {
        Trie::about(self)
    }
}

/// Options for opening a trie dictionary.
#[derive(Debug, Clone, Copy)]
pub struct TrieOpenOptions {
    /// Whether lookups use fuzzy search.
    pub fuzzy_search: bool,
}

impl Default for TrieOpenOptions {
    /// Options with fuzzy search disabled, as [`TrieOpenOptions::new`].
    fn default() -> (o: TrieOpenOptions)
        ensures
            !o.fuzzy_search,
    {
        TrieOpenOptions::new()
    }
}

impl TrieOpenOptions {
    /// Options with fuzzy search disabled.
    pub fn new() -> (o: TrieOpenOptions)
        ensures
            !o.fuzzy_search,
    {
        TrieOpenOptions { fuzzy_search: false }
    }

    /// Sets whether lookups use fuzzy search.
    pub fn fuzzy_search(&mut self, fuzzy_search: bool) -> (r: &mut TrieOpenOptions)
        ensures
            r.fuzzy_search == fuzzy_search,
            *final(self) == *final(r),
    {
        self.fuzzy_search = fuzzy_search;
        self
    }

    /// Creates a dictionary from the bytes of a dictionary file with these
    /// options.
    pub fn read_from(&self, bytes: &[u8]) -> (r: Option<Trie>)
        ensures
            r matches Some(t) ==> bytes@ == crate::dictionary::trie_format::file_der(
                t.info_view(),
                t.index_view(),
                t.data_view(),
            ) && t.fuzzy_view() == self.fuzzy_search,
            forall|i: crate::dictionary::DictionaryInfoView, x: Seq<u8>, d: Seq<u8>|
                crate::dictionary::trie_format::file_encodable(i, x, d) && bytes@
                    == #[trigger] crate::dictionary::trie_format::file_der(i, x, d) ==> (r matches Some(
                    t,
                ) && t.info_view() == i && t.index_view() == x && t.data_view() == d),
    {
        Trie::from_bytes(bytes, self.fuzzy_search)
    }
}

impl crate::dictionary::DictionaryBuilder for TrieBuilder {
    open spec fn builder_wf(&self) -> bool {
        self.wf()
    }

    fn set_info(&mut self, info: DictionaryInfo) -> (r: Result<(), crate::dictionary::BuildDictionaryError>)
        ensures
            r matches Ok(_),
            final(self).info_view() == info@,
            forall|syls: Seq<u16>| #[trigger] final(self).model(syls) == old(self).model(syls),
            final(self).no_empty_syllables() == old(self).no_empty_syllables(),
            final(self).nodes() == old(self).nodes(),
    {
        self.replace_info(info);
        Ok(())
    }

    fn insert(&mut self, syllables: &[Syllable], phrase: Phrase) -> (r: Result<(), crate::dictionary::BuildDictionaryError>)
        ensures
            r is Ok <==> old(self).nodes().len() + syllables@.len() + 2 < usize::MAX,
            forall|syls: Seq<u16>|
                #[trigger] final(self).model(syls) == if r is Ok && syls == syllables_view(syllables@) {
                    upsert_phrase(old(self).model(syls), phrase@)
                } else {
                    old(self).model(syls)
                },
    {
        TrieBuilder::insert(self, syllables, phrase)
    }

    fn build(&self) -> (r: Result<Vec<u8>, crate::dictionary::BuildDictionaryError>)
        ensures
            r matches Ok(bytes) ==> written_by(*self, bytes@),
            r matches Err(e) ==> e.kind == crate::dictionary::BuildErrorKind::TooLarge,
    {
        let r = self.write();
        proof {
            if r is Ok {
                assert(written_by(*self, r->Ok_0@));
            }
        }
        r
    }
}


/// Filtering keeps nothing when no element satisfies the predicate.
proof fn lemma_filter_none(s: Seq<nat>, pred: spec_fn(nat) -> bool)
    requires
        forall|i: int| 0 <= i < s.len() ==> !pred(#[trigger] s[i]),
    ensures
        s.filter(pred) == Seq::<nat>::empty(),
    decreases s.len(),
{
    reveal(Seq::filter);
    if s.len() > 0 {
        assert forall|i: int| 0 <= i < s.drop_last().len() implies !pred(#[trigger] s.drop_last()[i]) by {
            assert(s.drop_last()[i] == s[i]);
        }
        lemma_filter_none(s.drop_last(), pred);
        assert(!pred(s[s.len() - 1]));
    }
}

/// Filtering keeps the one element that satisfies the predicate.
proof fn lemma_filter_one(s: Seq<nat>, pred: spec_fn(nat) -> bool, j: int)
    requires
        0 <= j < s.len(),
        pred(s[j]),
        forall|i: int| 0 <= i < s.len() && i != j ==> !pred(#[trigger] s[i]),
    ensures
        s.filter(pred) == seq![s[j]],
    decreases s.len(),
{
    reveal(Seq::filter);
    let init = s.drop_last();
    if j == s.len() - 1 {
        assert forall|i: int| 0 <= i < init.len() implies !pred(#[trigger] init[i]) by {
            assert(init[i] == s[i]);
        }
        lemma_filter_none(init, pred);
        assert(s.filter(pred) =~= Seq::<nat>::empty().push(s.last()));
    } else {
        assert forall|i: int| 0 <= i < init.len() && i != j implies !pred(#[trigger] init[i]) by {
            assert(init[i] == s[i]);
        }
        assert(init[j] == s[j]);
        lemma_filter_one(init, pred, j);
        assert(!pred(s.last()));
    }
}

impl TrieBuilder {
    /// Whether every internal node but the root has a syllable other than
    /// the empty one.
    pub closed spec fn no_empty_syllables(&self) -> bool {
        forall|i: int| 0 < i < self.arena@.len() && self.is_internal(i) ==> #[trigger] self.syl_of(i) != 0
    }

    /// An internal node other than the root is a child of its parent, and
    /// extends its parent's path by its syllable.
    proof fn lemma_parent(&self, m: int) -> (p: int)
        requires
            self.wf(),
            0 < m < self.arena@.len(),
            self.is_internal(m),
        ensures
            p == self.parents@[m],
            0 <= p < m,
            self.is_internal(p),
            self.arena@[p].children@.contains(m as usize),
            self.paths@[m] == self.paths@[p].push(self.syl_of(m)),
    {
        let p = self.parents@[m] as int;
        let kk = choose|kk: int| 0 <= kk < self.arena@[p].children@.len() && self.arena@[p].children@[kk] == m as usize;
        assert(self.arena@[p].children@[kk] == m as usize);
        p
    }

    /// Every internal node has an internal ancestor for each prefix of its
    /// path.
    proof fn lemma_ancestor(&self, m: int, k: nat) -> (a: int)
        requires
            self.wf(),
            0 <= m < self.arena@.len(),
            self.is_internal(m),
            k <= self.paths@[m].len(),
        ensures
            0 <= a <= m,
            self.is_internal(a),
            self.paths@[a] == self.paths@[m].take(k as int),
        decreases self.paths@[m].len() - k,
    {
        if k == self.paths@[m].len() {
            assert(self.paths@[m].take(k as int) =~= self.paths@[m]);
            m
        } else {
            if m == 0 {
                assert(self.paths@[0].len() == 0);
            }
            let p = self.lemma_parent(m);
            let a = self.lemma_ancestor(p, k);
            assert(self.paths@[p].take(k as int) =~= self.paths@[m].take(k as int));
            a
        }
    }

    /// A node with the path of a child of `id` with syllable `s` exists
    /// only as such a child.
    proof fn lemma_extension_is_child(&self, id: int, s: u16, m: int)
        requires
            self.wf(),
            0 <= id < self.arena@.len(),
            self.is_internal(id),
            0 <= m < self.arena@.len(),
            self.is_internal(m),
            self.paths@[m].len() > self.paths@[id].len(),
            self.paths@[m].take(self.paths@[id].len() as int + 1) == self.paths@[id].push(s),
        ensures
            exists|c: int|
                0 <= c < self.arena@.len() && self.arena@[id].children@.contains(c as usize) && self.syl_of(c) == s
                    && self.is_internal(c) && self.paths@[c] == self.paths@[id].push(s),
    {
        let a = self.lemma_ancestor(m, self.paths@[id].len() + 1);
        assert(self.paths@[a].len() > 0);
        if a == 0 {
            assert(self.paths@[0].len() == 0);
        }
        let p = self.lemma_parent(a);
        assert(self.paths@[p] =~= self.paths@[a].drop_last());
        assert(self.paths@[id].push(s).drop_last() =~= self.paths@[id]);
        assert(self.paths@[p] == self.paths@[id]);
        assert(p == id);
        assert(self.paths@[a].last() == self.syl_of(a));
    }
}


impl TrieBuilder {
    /// In a written index, one search step from the record of an internal
    /// node finds the record of its child with the syllable, if any.
    #[verifier::rlimit(60)]
    #[verifier::spinoff_prover]
    proof fn lemma_layout_step(&self, order: Seq<usize>, index: Seq<u8>, data: Seq<u8>, q: int, s: u16) -> (r: Option<
        int,
    >)
        requires
            self.wf(),
            self.no_empty_syllables(),
            bfs_layout(self.arena@, order, index, data),
            0 <= q < order.len(),
            self.is_internal(order[q] as int),
            s != 0,
        ensures
            match r {
                Some(pos) => {
                    &&& 0 <= pos < order.len()
                    &&& self.is_internal(order[pos] as int)
                    &&& self.paths@[order[pos] as int] == self.paths@[order[q] as int].push(s)
                    &&& matching_children(index, q as nat, s, LookupStrategy::Standard) == seq![pos as nat]
                },
                None => {
                    &&& matching_children(index, q as nat, s, LookupStrategy::Standard) == Seq::<nat>::empty()
                    &&& forall|m: int|
                        0 <= m < self.arena@.len() && self.is_internal(m) && self.paths@[m].len()
                            > self.paths@[order[q] as int].len() ==> #[trigger] self.paths@[m].take(
                            self.paths@[order[q] as int].len() as int + 1,
                        ) != self.paths@[order[q] as int].push(s)
                },
            },
    {
        let a = self.arena@;
        let id = order[q] as int;
        assert(node_record_ok(a, order, index, data, q));
        let rb = rec_begin(index, q as nat) as int;
        let rl = rec_len(index, q as nat) as int;
        let lead: int = if a[id].leaf_id is Some {
            1
        } else {
            0
        };
        let ch = a[id].children@;
        let sq = Seq::new(rl as nat, |k: int| (rb + k) as nat);
        let pred = |c: nat| syllable_matches(rec_syl(index, c), s, LookupStrategy::Standard);
        assert forall|k: int| 0 <= k < rl implies #[trigger] pred(sq[k]) == (lead <= k && arena_syl(a, order[rb + k] as int) == s) by {
            assert(sq[k] == rb + k);
            assert(node_record_ok(a, order, index, data, rb + k));
            if k < lead {
                let l = a[id].leaf_id->0 as int;
                assert(order[rb] == l);
                assert(!self.is_internal(l));
            } else {
                assert(ch.contains(order[rb + k]));
                let j = choose|j: int| 0 <= j < ch.len() && ch[j] == order[rb + k];
                assert(a[id].children@[j] == order[rb + k]);
                assert(self.is_internal(order[rb + k] as int));
            }
        }
        if exists|j: int| 0 <= j < ch.len() && self.syl_of(ch[j] as int) == s {
            let j = choose|j: int| 0 <= j < ch.len() && self.syl_of(ch[j] as int) == s;
            let c = ch[j];
            assert(a[id].children@[j] == c);
            assert(order.subrange(rb + lead, rb + rl).contains(c));
            let sub = order.subrange(rb + lead, rb + rl);
            let w = choose|w: int| 0 <= w < sub.len() && #[trigger] sub[w] == c;
            assert(sub[w] == order[rb + lead + w]);
            let k0 = lead + w;
            assert(order[rb + k0] == c);
            assert forall|k: int| 0 <= k < sq.len() && k != k0 implies !#[trigger] pred(sq[k]) by {
                if lead <= k && arena_syl(a, order[rb + k] as int) == s {
                    if k < k0 {
                        assert(arena_syl(a, order[rb + k] as int) < arena_syl(a, order[rb + k0] as int));
                    } else {
                        assert(arena_syl(a, order[rb + k0] as int) < arena_syl(a, order[rb + k] as int));
                    }
                }
            }
            assert(pred(sq[k0]));
            lemma_filter_one(sq, pred, k0);
            assert(matching_children(index, q as nat, s, LookupStrategy::Standard) == sq.filter(pred));
            Some(rb + k0)
        } else {
            assert forall|k: int| 0 <= k < sq.len() implies !#[trigger] pred(sq[k]) by {
                if lead <= k && arena_syl(a, order[rb + k] as int) == s {
                    assert(ch.contains(order[rb + k]));
                    let j = choose|j: int| 0 <= j < ch.len() && ch[j] == order[rb + k];
                    assert(self.syl_of(ch[j] as int) == s);
                }
            }
            lemma_filter_none(sq, pred);
            assert(matching_children(index, q as nat, s, LookupStrategy::Standard) == sq.filter(pred));
            assert forall|m: int|
                0 <= m < self.arena@.len() && self.is_internal(m) && self.paths@[m].len() > self.paths@[id].len()
                    implies #[trigger] self.paths@[m].take(self.paths@[id].len() as int + 1) != self.paths@[id].push(s) by {
                if self.paths@[m].take(self.paths@[id].len() as int + 1) == self.paths@[id].push(s) {
                    self.lemma_extension_is_child(id, s, m);
                    let c = choose|c: int|
                        0 <= c < self.arena@.len() && self.arena@[id].children@.contains(c as usize) && self.syl_of(c) == s
                            && self.is_internal(c) && self.paths@[c] == self.paths@[id].push(s);
                    let j = choose|j: int| 0 <= j < ch.len() && ch[j] == c as usize;
                    assert(self.syl_of(ch[j] as int) == s);
                }
            }
            None
        }
    }
}


impl TrieBuilder {
    /// In a written index, the record of an internal node has its children
    /// in bounds exactly when the node has a leaf or a child.
    proof fn lemma_layout_bounds(&self, order: Seq<usize>, index: Seq<u8>, data: Seq<u8>, q: int)
        requires
            self.wf(),
            bfs_layout(self.arena@, order, index, data),
            0 <= q < order.len(),
            self.is_internal(order[q] as int),
        ensures
            children_in_bounds(index, q as nat) == (self.arena@[order[q] as int].leaf_id is Some
                || self.arena@[order[q] as int].children@.len() > 0),
    {
        let a = self.arena@;
        let id = order[q] as int;
        assert(node_record_ok(a, order, index, data, q));
        let rb = rec_begin(index, q as nat) as int;
        let rl = rec_len(index, q as nat) as int;
        let lead: int = if a[id].leaf_id is Some { 1 } else { 0 };
        if a[id].children@.len() > 0 {
            assert(order.subrange(rb + lead, rb + rl).contains(a[id].children@[0]));
        } else if a[id].leaf_id is None && rl > 0 {
            assert(a[id].children@.contains(order[rb + 0]));
        }
    }

    /// In a written index, following syllables from the record of an
    /// internal node reaches the record of the node with the extended path,
    /// when there is one.
    #[verifier::rlimit(60)]
    #[verifier::spinoff_prover]
    proof fn lemma_layout_walk(&self, order: Seq<usize>, index: Seq<u8>, data: Seq<u8>, q: int, ss: Seq<u16>)
        requires
            self.wf(),
            self.no_empty_syllables(),
            bfs_layout(self.arena@, order, index, data),
            0 <= q < order.len(),
            self.is_internal(order[q] as int),
            forall|i: int| 0 <= i < ss.len() ==> #[trigger] ss[i] != 0,
        ensures
            match search_walk(index, seq![q as nat], ss, LookupStrategy::Standard) {
                Some(t) => {
                    &&& t.len() == 1
                    &&& 0 <= t[0] < order.len()
                    &&& self.is_internal(order[t[0] as int] as int)
                    &&& self.paths@[order[t[0] as int] as int] == self.paths@[order[q] as int] + ss
                },
                None => forall|m: int|
                    0 <= m < self.arena@.len() && self.is_internal(m) ==> #[trigger] self.paths@[m]
                        != self.paths@[order[q] as int] + ss,
            },
        decreases ss.len(),
    {
        let id = order[q] as int;
        let pq = self.paths@[id];
        if ss.len() == 0 {
            assert(pq + ss =~= pq);
        } else {
            let s = ss[0];
            let rest = ss.drop_first();
            assert(search_step(index, Seq::<nat>::empty(), s, LookupStrategy::Standard) == Some(Seq::<nat>::empty()));
            assert(seq![q as nat].drop_first() =~= Seq::<nat>::empty());
            self.lemma_layout_bounds(order, index, data, q);
            if !children_in_bounds(index, q as nat) {
                assert(search_step(index, seq![q as nat], s, LookupStrategy::Standard) is None);
                assert forall|m: int| 0 <= m < self.arena@.len() && self.is_internal(m) implies #[trigger] self.paths@[m]
                    != pq + ss by {
                    if self.paths@[m] == pq + ss {
                        assert(self.paths@[m].take(pq.len() as int + 1) =~= pq.push(s));
                        self.lemma_extension_is_child(id, s, m);
                        let c = choose|c: int|
                            0 <= c < self.arena@.len() && self.arena@[id].children@.contains(c as usize)
                                && self.syl_of(c) == s && self.is_internal(c) && self.paths@[c] == pq.push(s);
                        assert(self.arena@[id].children@.len() > 0);
                    }
                }
            } else {
                let mc = matching_children(index, q as nat, s, LookupStrategy::Standard);
                assert(search_step(index, seq![q as nat], s, LookupStrategy::Standard) == Some(mc + Seq::<nat>::empty()));
                assert(mc + Seq::<nat>::empty() =~= mc);
                assert forall|i: int| 0 <= i < rest.len() implies #[trigger] rest[i] != 0 by {
                    assert(rest[i] == ss[i + 1]);
                }
                match self.lemma_layout_step(order, index, data, q, s) {
                    Some(pos) => {
                        assert(mc.len() == 1);
                        self.lemma_layout_walk(order, index, data, pos, rest);
                        assert(pq.push(s) + rest =~= pq + ss);
                        assert(seq![pos as nat] == mc);
                    },
                    None => {
                        assert(mc.len() == 0);
                        assert forall|m: int| 0 <= m < self.arena@.len() && self.is_internal(m) implies #[trigger] self.paths@[m]
                            != pq + ss by {
                            if self.paths@[m] == pq + ss {
                                assert(self.paths@[m].take(pq.len() as int + 1) =~= pq.push(s));
                            }
                        }
                    },
                }
            }
        }
    }
}


/// The phrases stored for an internal node of an arena.
pub open spec fn leaf_phrases_of(arena: Seq<TrieBuilderNode>, id: int) -> Seq<PhraseView> {
    match arena[id].leaf_id {
        Some(l) => phrases_view(arena[l as int].phrases@),
        None => Seq::empty(),
    }
}

/// Encoded phrases are empty only when there are no phrases.
proof fn lemma_phrases_der_empty(ps: Seq<PhraseView>)
    requires
        crate::dictionary::trie_format::phrases_der(ps).len() == 0,
    ensures
        ps.len() == 0,
{
    if ps.len() > 0 {
        assert(crate::dictionary::trie_format::phrase_der(ps[0]).len() > 0);
    }
}

impl TrieBuilder {
    /// In a written index, collecting the leaves of the record of an
    /// internal node gives its phrases in their written order.
    #[verifier::rlimit(60)]
    #[verifier::spinoff_prover]
    proof fn lemma_layout_collect(&self, order: Seq<usize>, index: Seq<u8>, data: Seq<u8>, q: int)
        requires
            self.wf(),
            self.no_empty_syllables(),
            bfs_layout(self.arena@, order, index, data),
            0 <= q < order.len(),
            self.is_internal(order[q] as int),
        ensures
            (match collect_leaves(index, data, seq![q as nat], usize::MAX as nat, Seq::empty()) {
                Some(r) => r,
                None => Seq::empty(),
            }) == crate::dictionary::layout::sort_phrases(leaf_phrases_of(self.arena@, order[q] as int)),
    {
        let a = self.arena@;
        let id = order[q] as int;
        let t = seq![q as nat];
        assert(t.drop_first() =~= Seq::<nat>::empty());
        assert(crate::dictionary::layout::sort_phrases(Seq::<PhraseView>::empty()) == Seq::<PhraseView>::empty());
        self.lemma_layout_bounds(order, index, data, q);
        assert(node_record_ok(a, order, index, data, q));
        let rb = rec_begin(index, q as nat) as int;
        let rl = rec_len(index, q as nat) as int;
        if children_in_bounds(index, q as nat) {
            assert(node_record_ok(a, order, index, data, rb));
            match a[id].leaf_id {
                Some(l) => {
                    let l = l as int;
                    assert(order[rb] == l);
                    assert(!self.is_internal(l));
                    let sorted = crate::dictionary::layout::sort_phrases(phrases_view(a[l].phrases@));
                    let db = rec_begin(index, rb as nat) as int;
                    let de = db + rec_len(index, rb as nat) as int;
                    assert(data.subrange(db, de) == crate::dictionary::trie_format::phrases_der(sorted));
                    if db < de {
                        crate::dictionary::trie_format::lemma_decoded_phrases_der(sorted);
                        let acc2 = Seq::<PhraseView>::empty() + decoded_phrases(data.subrange(db, de));
                        assert(acc2 =~= sorted);
                        assert(collect_leaves(index, data, Seq::<nat>::empty(), usize::MAX as nat, acc2) == Some(acc2));
                    } else {
                        lemma_phrases_der_empty(sorted);
                        assert(sorted =~= Seq::<PhraseView>::empty());
                    }
                },
                None => {
                    assert(a[id].children@.len() > 0);
                    assert(a[id].children@.contains(order[rb + 0]));
                    let c = order[rb] as int;
                    let j = choose|j: int| 0 <= j < a[id].children@.len() && a[id].children@[j] == c as usize;
                    assert(a[id].children@[j] == c as usize);
                    assert(self.is_internal(c));
                    assert(c > 0);
                    assert(self.syl_of(c) != 0);
                    assert(collect_leaves(index, data, Seq::<nat>::empty(), usize::MAX as nat, Seq::empty()) == Some(Seq::<PhraseView>::empty()));
                },
            }
        }
    }
}

/// Looking up nonempty syllables in the index and phrase data written from
/// a builder gives the phrases inserted for those syllables, in their
/// written order ([`crate::dictionary::layout::sort_phrases`]). The
/// builder must not hold the empty syllable, whose record a lookup cannot
/// tell from a leaf.
pub proof fn law_lookup_after_write(b: TrieBuilder, order: Seq<usize>, index: Seq<u8>, data: Seq<u8>, syls: Seq<u16>)
    requires
        b.wf(),
        b.no_empty_syllables(),
        bfs_layout(b.nodes(), order, index, data),
        forall|i: int| 0 <= i < syls.len() ==> #[trigger] syls[i] != 0,
    ensures
        trie_lookup(index, data, syls, usize::MAX as nat, LookupStrategy::Standard)
            == crate::dictionary::layout::sort_phrases(b.model(syls)),
{
    b.lemma_lookup_after_write(order, index, data, syls);
}

/// Whether the phrases of a leaf can be written: each in its written order
/// fits the DER length limit, the phrase data so far fits a 32-bit offset
/// and the leaf's phrases fit a 16-bit length.
pub open spec fn leaf_fits(ps: Seq<PhraseView>, data_len: nat) -> bool {
    let sv = crate::dictionary::layout::sort_phrases(ps);
    &&& forall|j: int| 0 <= j < sv.len() ==> crate::dictionary::trie_format::phrase_encodable(#[trigger] sv[j])
    &&& data_len <= 0xffff_ffff
    &&& crate::dictionary::trie_format::phrases_der(sv).len() <= 0xffff
}

/// The length of the phrase data written for node `i` of an arena: the
/// encoded phrases of a leaf in their written order, nothing for an
/// internal node.
pub open spec fn node_data_len(arena: Seq<TrieBuilderNode>, i: int) -> nat {
    if arena_internal(arena, i) {
        0
    } else {
        crate::dictionary::trie_format::phrases_der(
            crate::dictionary::layout::sort_phrases(phrases_view(arena[i].phrases@)),
        ).len()
    }
}

/// The length of the phrase data of the first `k` nodes of an arena.
pub open spec fn arena_data_len(arena: Seq<TrieBuilderNode>, k: int) -> nat
    decreases k,
{
    if k <= 0 {
        0
    } else {
        arena_data_len(arena, k - 1) + node_data_len(arena, k - 1)
    }
}

/// The length of the phrase data of the nodes listed in `s`.
pub open spec fn listed_data_len(arena: Seq<TrieBuilderNode>, s: Seq<usize>) -> nat
    decreases s.len(),
{
    if s.len() == 0 {
        0
    } else {
        listed_data_len(arena, s.drop_last()) + node_data_len(arena, s.last() as int)
    }
}

/// Whether the dictionary of a builder with these nodes and metadata can be
/// written: every internal node has fewer than 0xffff children, the
/// phrases of every leaf can be written ([`leaf_fits`]), and the index
/// records, the phrase data and the metadata together stay well inside the
/// DER length limit.
pub open spec fn builder_fits(arena: Seq<TrieBuilderNode>, info: crate::dictionary::DictionaryInfoView) -> bool {
    &&& forall|i: int|
        0 <= i < arena.len() && arena_internal(arena, i) ==> (#[trigger] arena[i]).children@.len() < 0xffff
    &&& forall|i: int|
        0 <= i < arena.len() && !arena_internal(arena, i) ==> leaf_fits(phrases_view((#[trigger] arena[i]).phrases@), 0)
    &&& 8 * arena.len() + arena_data_len(arena, arena.len() as int) + crate::dictionary::trie_format::info_der(info).len()
        + 32 <= crate::der::MAX_DER_LEN
}

/// Taking one node out of a list takes its phrase data out of the total.
proof fn lemma_listed_remove(arena: Seq<TrieBuilderNode>, s: Seq<usize>, j: int)
    requires
        0 <= j < s.len(),
    ensures
        listed_data_len(arena, s) == listed_data_len(arena, s.remove(j)) + node_data_len(arena, s[j] as int),
    decreases s.len(),
{
    if j == s.len() - 1 {
        assert(s.remove(j) =~= s.drop_last());
    } else {
        let t = s.drop_last();
        lemma_listed_remove(arena, t, j);
        assert(s.remove(j).drop_last() =~= t.remove(j));
        assert(s.remove(j).last() == s.last());
    }
}

/// The phrase data of distinct nodes below `n` is at most that of the first
/// `n` nodes.
proof fn lemma_listed_bounded(arena: Seq<TrieBuilderNode>, s: Seq<usize>, n: nat)
    requires
        s.no_duplicates(),
        forall|i: int| 0 <= i < s.len() ==> (#[trigger] s[i]) < n,
    ensures
        listed_data_len(arena, s) <= arena_data_len(arena, n as int),
    decreases n,
{
    if n == 0 {
        if s.len() > 0 {
            assert(s[0] < 0);
        }
    } else if exists|j: int| 0 <= j < s.len() && s[j] == n - 1 {
        let j = choose|j: int| 0 <= j < s.len() && s[j] == n - 1;
        let t = s.remove(j);
        assert forall|a: int, b: int| 0 <= a < t.len() && 0 <= b < t.len() && a != b implies t[a] != t[b] by {
            let a2 = if a < j { a } else { a + 1 };
            let b2 = if b < j { b } else { b + 1 };
            assert(t[a] == s[a2] && t[b] == s[b2]);
        }
        assert forall|i: int| 0 <= i < t.len() implies (#[trigger] t[i]) < (n - 1) as nat by {
            let i2 = if i < j { i } else { i + 1 };
            assert(t[i] == s[i2]);
        }
        lemma_listed_remove(arena, s, j);
        lemma_listed_bounded(arena, t, (n - 1) as nat);
    } else {
        assert forall|i: int| 0 <= i < s.len() implies (#[trigger] s[i]) < (n - 1) as nat by {}
        lemma_listed_bounded(arena, s, (n - 1) as nat);
    }
}

/// The contents of a dictionary file are at most 32 bytes longer than its
/// index, phrase data and metadata element together.
proof fn lemma_file_content_len(i: crate::dictionary::DictionaryInfoView, index: Seq<u8>, data: Seq<u8>)
    requires
        index.len() <= crate::der::MAX_DER_LEN,
        data.len() <= crate::der::MAX_DER_LEN,
    ensures
        crate::dictionary::trie_format::file_content(i, index, data).len() <= index.len() + data.len()
            + crate::dictionary::trie_format::info_der(i).len() + 32,
{
    crate::der::lemma_len_bytes_shape(index.len());
    crate::der::lemma_len_bytes_shape(data.len());
    crate::der::lemma_be_bytes_shape(0);
    assert(crate::der::uint_content(0).len() == 1);
    assert(crate::dictionary::trie_format::magic_bytes().len() == 4);
}

/// Sorting keeps the number of phrases.
proof fn lemma_sort_phrases_len(s: Seq<PhraseView>)
    ensures
        crate::dictionary::layout::sort_phrases(s).len() == s.len(),
    decreases s.len(),
{
    if s.len() > 0 {
        lemma_sort_phrases_len(s.drop_last());
        lemma_insert_sorted_len(crate::dictionary::layout::sort_phrases(s.drop_last()), s.last());
    }
}

/// Inserting into sorted phrases adds one.
proof fn lemma_insert_sorted_len(s: Seq<PhraseView>, x: PhraseView)
    ensures
        crate::dictionary::layout::insert_sorted(s, x).len() == s.len() + 1,
    decreases s.len(),
{
    if s.len() > 0 {
        lemma_insert_sorted_len(s.drop_last(), x);
    }
}

/// Phrases each encoded in at most `m` bytes are encoded in at most
/// `m` bytes per phrase.
proof fn lemma_phrases_der_bound(ps: Seq<PhraseView>, m: nat)
    requires
        forall|j: int| 0 <= j < ps.len() ==> crate::dictionary::trie_format::phrase_der(#[trigger] ps[j]).len() <= m,
    ensures
        crate::dictionary::trie_format::phrases_der(ps).len() <= ps.len() * m,
    decreases ps.len(),
{
    if ps.len() > 0 {
        let t = ps.drop_first();
        assert forall|j: int| 0 <= j < t.len() implies crate::dictionary::trie_format::phrase_der(#[trigger] t[j]).len()
            <= m by {
            assert(t[j] == ps[j + 1]);
        }
        lemma_phrases_der_bound(t, m);
        assert(crate::dictionary::trie_format::phrase_der(ps[0]).len() <= m);
        assert(t.len() * m + m == ps.len() * m) by (nonlinear_arith)
            requires
                t.len() + 1 == ps.len(),
        ;
    }
}

/// The phrase data of the first `k` nodes, each with at most `b` bytes of
/// it, is at most `k * b` bytes.
proof fn lemma_arena_data_bound(arena: Seq<TrieBuilderNode>, k: int, b: nat)
    requires
        0 <= k,
        forall|i: int| 0 <= i < k ==> #[trigger] node_data_len(arena, i) <= b,
    ensures
        arena_data_len(arena, k) <= k * b,
    decreases k,
{
    if k > 0 {
        lemma_arena_data_bound(arena, k - 1, b);
        assert(node_data_len(arena, k - 1) <= b);
        assert((k - 1) * b + b == k * b) by (nonlinear_arith);
    }
}

/// Two lists without repeats that hold each other's elements are equally
/// long.
proof fn lemma_same_elements_len(a: Seq<usize>, b: Seq<usize>)
    requires
        a.no_duplicates(),
        b.no_duplicates(),
        forall|i: int| 0 <= i < a.len() ==> b.contains(#[trigger] a[i]),
        forall|j: int| 0 <= j < b.len() ==> a.contains(#[trigger] b[j]),
    ensures
        a.len() == b.len(),
{
    assert forall|x: usize| a.to_set().contains(x) <==> b.to_set().contains(x) by {
        if a.contains(x) {
            let i = choose|i: int| 0 <= i < a.len() && a[i] == x;
            assert(b.contains(a[i]));
        }
        if b.contains(x) {
            let j = choose|j: int| 0 <= j < b.len() && b[j] == x;
            assert(a.contains(b[j]));
        }
    }
    assert(a.to_set() =~= b.to_set());
    a.unique_seq_to_set();
    b.unique_seq_to_set();
}

/// A file that a builder writes, read back, has the builder's metadata and
/// gives, for syllables none of which is empty, the builder's phrases in
/// their sorted order.
pub proof fn law_read_back_written(b: TrieBuilder, bytes: Seq<u8>, t: Trie, syls: Seq<u16>)
    requires
        b.wf(),
        b.no_empty_syllables(),
        written_by(b, bytes),
        bytes == crate::dictionary::trie_format::file_der(t.info_view(), t.index_view(), t.data_view()),
        crate::dictionary::trie_format::file_encodable(t.info_view(), t.index_view(), t.data_view()),
        forall|i: int| 0 <= i < syls.len() ==> #[trigger] syls[i] != 0,
    ensures
        t.info_view() == b.info_view(),
        trie_lookup(t.index_view(), t.data_view(), syls, usize::MAX as nat, LookupStrategy::Standard)
            == crate::dictionary::layout::sort_phrases(b.model(syls)),
{
    let (order, index, data) = choose|order: Seq<usize>, index: Seq<u8>, data: Seq<u8>|
        bfs_layout(b.nodes(), order, index, data) && crate::dictionary::trie_format::file_encodable(b.info_view(), index, data)
            && bytes == crate::dictionary::trie_format::file_der(b.info_view(), index, data);
    crate::dictionary::trie_format::lemma_file_der_injective(
        b.info_view(),
        index,
        data,
        t.info_view(),
        t.index_view(),
        t.data_view(),
    );
    b.lemma_lookup_after_write(order, index, data, syls);
}

impl TrieBuilder {
    /// The proof of [`law_lookup_after_write`].
    #[verifier::rlimit(60)]
    #[verifier::spinoff_prover]
    proof fn lemma_lookup_after_write(&self, order: Seq<usize>, index: Seq<u8>, data: Seq<u8>, syls: Seq<u16>)
        requires
            self.wf(),
            self.no_empty_syllables(),
            bfs_layout(self.arena@, order, index, data),
            forall|i: int| 0 <= i < syls.len() ==> #[trigger] syls[i] != 0,
        ensures
            trie_lookup(index, data, syls, usize::MAX as nat, LookupStrategy::Standard)
                == crate::dictionary::layout::sort_phrases(self.model(syls)),
    {
        let a = self.arena@;
        assert(crate::dictionary::layout::sort_phrases(Seq::<PhraseView>::empty()) == Seq::<PhraseView>::empty());
        assert(order[0] == 0);
        assert(self.is_internal(0));
        assert(Seq::<u16>::empty() + syls =~= syls);
        self.lemma_layout_bounds(order, index, data, 0);
        assert(node_record_ok(a, order, index, data, 0));
        if rec_len(index, 0) == 0 {
            assert(!children_in_bounds(index, 0));
            if let Some(i) = self.node_for(syls) {
                if syls.len() > 0 {
                    assert(self.paths@[i].take(1) =~= Seq::<u16>::empty().push(syls[0]));
                    self.lemma_extension_is_child(0, syls[0], i);
                } else {
                    assert(i == 0);
                }
            }
        } else {
            self.lemma_layout_walk(order, index, data, 0, syls);
            match search_walk(index, seq![0nat], syls, LookupStrategy::Standard) {
                Some(t) => {
                    let pos = t[0] as int;
                    let id = order[pos] as int;
                    assert(t =~= seq![t[0]]);
                    self.lemma_layout_collect(order, index, data, pos);
                    assert(self.paths@[id] == syls);
                    let i = self.node_for(syls)->0;
                    assert(i == id);
                },
                None => {
                    assert(self.node_for(syls) is None);
                },
            }
        }
    }
}

impl TrieBuilder {
    /// A builder fits ([`builder_fits`]) when it has fewer than 0xffff
    /// nodes, stores at most `c` phrases for any syllables, each encodable
    /// and encoded in at most `m` bytes with `c * m` at most 0xffff, and its
    /// index, `c * m` bytes of phrase data per node and its metadata stay
    /// well inside the DER length limit.
    pub proof fn lemma_fits_by_model(&self, c: nat, m: nat)
        requires
            self.wf(),
            self.nodes().len() < 0xffff,
            c * m <= 0xffff,
            8 * self.nodes().len() + self.nodes().len() * (c * m) + crate::dictionary::trie_format::info_der(
                self.info_view(),
            ).len() + 32 <= crate::der::MAX_DER_LEN,
            forall|syls: Seq<u16>| #[trigger] self.model(syls).len() <= c,
            forall|syls: Seq<u16>, j: int|
                0 <= j < self.model(syls).len() ==> crate::dictionary::trie_format::phrase_encodable(
                    #[trigger] self.model(syls)[j],
                ) && crate::dictionary::trie_format::phrase_der(self.model(syls)[j]).len() <= m,
        ensures
            builder_fits(self.nodes(), self.info_view()),
    {
        let a = self.arena@;
        let n = a.len();
        let b = c * m;
        assert forall|i: int| 0 <= i < n && arena_internal(a, i) implies (#[trigger] a[i]).children@.len() < 0xffff by {
            let ch = a[i].children@;
            assert forall|x: int, y: int| 0 <= x < ch.len() && 0 <= y < ch.len() && x != y implies ch[x] != ch[y] by {
                if x < y {
                    assert(self.syl_of(a[i].children@[x] as int) != self.syl_of(a[i].children@[y] as int));
                } else {
                    assert(self.syl_of(a[i].children@[y] as int) != self.syl_of(a[i].children@[x] as int));
                }
            }
            assert forall|x: int| 0 <= x < ch.len() implies (#[trigger] ch[x]) < n by {
                assert(a[i].children@[x] < n);
            }
            lemma_distinct_bounded(ch, n);
        }
        assert forall|i: int| 0 <= i < n && !arena_internal(a, i) implies leaf_fits(
            phrases_view((#[trigger] a[i]).phrases@),
            0,
        ) && node_data_len(a, i) <= b by {
            let p = self.parents@[i] as int;
            assert(a[p].leaf_id == Some(i as usize));
            assert(self.is_internal(p));
            assert(self.paths@[i] == self.paths@[p]);
            let syls = self.paths@[p];
            let j = self.node_for(syls)->0;
            assert(self.node_for(syls) is Some);
            assert(j == p);
            let ps = phrases_view(a[i].phrases@);
            assert(self.model(syls) == ps);
            let sv = crate::dictionary::layout::sort_phrases(ps);
            lemma_sort_phrases_len(ps);
            assert forall|k: int| 0 <= k < sv.len() implies crate::dictionary::trie_format::phrase_encodable(
                #[trigger] sv[k],
            ) && crate::dictionary::trie_format::phrase_der(sv[k]).len() <= m by {
                crate::dictionary::layout::lemma_sort_phrases_contains(ps, sv[k]);
                assert(sv.contains(sv[k]));
                let w = choose|w: int| 0 <= w < ps.len() && ps[w] == sv[k];
                assert(self.model(syls)[w] == sv[k]);
            }
            lemma_phrases_der_bound(sv, m);
            assert(sv.len() * m <= c * m) by (nonlinear_arith)
                requires
                    sv.len() <= c,
            ;
        }
        assert forall|i: int| 0 <= i < n implies #[trigger] node_data_len(a, i) <= b by {
            if !arena_internal(a, i) {
                assert(node_data_len(a, i) <= b);
            }
        }
        lemma_arena_data_bound(a, n as int, b);
    }
}

/// In a fuzzy lookup a node matches a looked up syllable only when the
/// looked up syllable has some component and each component it has
/// (initial, medial, rime and tone) is the node's; a looked up tone that
/// differs from the node's never matches.
pub proof fn law_fuzzy_match_components(node: nat, syl: u16)
    ensures
        syllable_matches(node, syl, LookupStrategy::FuzzyPartialPrefix) ==> {
            &&& syl != 0
            &&& node < 0x10000
            &&& (crate::zhuyin::initial_of(syl) != 0 ==> crate::zhuyin::initial_of(node as u16) == crate::zhuyin::initial_of(syl))
            &&& (crate::zhuyin::medial_of(syl) != 0 ==> crate::zhuyin::medial_of(node as u16) == crate::zhuyin::medial_of(syl))
            &&& (crate::zhuyin::rime_of(syl) != 0 ==> crate::zhuyin::rime_of(node as u16) == crate::zhuyin::rime_of(syl))
            &&& (crate::zhuyin::tone_of(syl) != 0 ==> crate::zhuyin::tone_of(node as u16) == crate::zhuyin::tone_of(syl))
        },
{
}

} // verus!


