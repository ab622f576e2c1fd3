//! The order of phrases in a leaf of a written trie dictionary, and the
//! encoding of index records.

use vstd::prelude::*;
use vstd::string::StrSliceExecFns;

use crate::dictionary::trie::{be16_at, be32_at};
use crate::dictionary::trie_format::{phrase_der, phrases_der};
use crate::dictionary::{Cmp, Phrase, PhraseView, compare_str, phrases_view, str_order};

verus! {

/// The order of phrases in a leaf: single characters keep their order among
/// themselves; a single character and a longer phrase are ordered by their
/// UTF-8 length; longer phrases come by descending frequency, then by
/// descending UTF-8 order.
pub open spec fn phrase_less(a: PhraseView, b: PhraseView) -> bool {
    let ca = a.0.len();
    let cb = b.0.len();
    if ca == 1 && cb == 1 {
        false
    } else if ca == 1 || cb == 1 {
        vstd::utf8::encode_utf8(a.0).len() < vstd::utf8::encode_utf8(b.0).len()
    } else if a.1 == b.1 {
        str_order(b.0, a.0) == Cmp::Less
    } else {
        b.1 < a.1
    }
}

/// Inserts `x` into `s` behind the last element that `x` is not ordered
/// before.
pub open spec fn insert_sorted(s: Seq<PhraseView>, x: PhraseView) -> Seq<PhraseView>
    decreases s.len(),
{
    if s.len() == 0 {
        seq![x]
    } else if phrase_less(x, s.last()) {
        insert_sorted(s.drop_last(), x).push(s.last())
    } else {
        s.push(x)
    }
}

/// The phrases of a leaf in the order they are written: each phrase in turn
/// is inserted into the phrases before it.
pub open spec fn sort_phrases(s: Seq<PhraseView>) -> Seq<PhraseView>
    decreases s.len(),
{
    if s.len() == 0 {
        Seq::empty()
    } else {
        insert_sorted(sort_phrases(s.drop_last()), s.last())
    }
}

/// Inserting keeps the phrases and adds `x`.
pub proof fn lemma_insert_sorted_contains(s: Seq<PhraseView>, x: PhraseView, q: PhraseView)
    ensures
        insert_sorted(s, x).contains(q) <==> (s.contains(q) || q == x),
    decreases s.len(),
{
    if s.len() == 0 {
        assert(insert_sorted(s, x)[0] == x);
    } else if phrase_less(x, s.last()) {
        let init = s.drop_last();
        lemma_insert_sorted_contains(init, x, q);
        let r = insert_sorted(init, x);
        assert(s =~= init.push(s.last()));
        if insert_sorted(s, x).contains(q) {
            let j = choose|j: int| 0 <= j < r.push(s.last()).len() && r.push(s.last())[j] == q;
            if j < r.len() {
                assert(r[j] == q);
                if init.contains(q) {
                    let i = choose|i: int| 0 <= i < init.len() && init[i] == q;
                    assert(s[i] == q);
                }
            } else {
                assert(s[s.len() - 1] == q);
            }
        }
        if s.contains(q) || q == x {
            if q == x || init.contains(q) {
                let j = choose|j: int| 0 <= j < r.len() && r[j] == q;
                assert(r.push(s.last())[j] == q);
            } else {
                let i = choose|i: int| 0 <= i < s.len() && s[i] == q;
                if i < init.len() {
                    assert(init[i] == q);
                }
                assert(r.push(s.last())[r.len() as int] == q);
            }
        }
    } else {
        if s.push(x).contains(q) {
            let j = choose|j: int| 0 <= j < s.push(x).len() && s.push(x)[j] == q;
            if j < s.len() {
                assert(s[j] == q);
            }
        }
        if s.contains(q) {
            let i = choose|i: int| 0 <= i < s.len() && s[i] == q;
            assert(s.push(x)[i] == q);
        }
        if q == x {
            assert(s.push(x)[s.len() as int] == q);
        }
    }
}

/// Sorting keeps the phrases.
pub proof fn lemma_sort_phrases_contains(s: Seq<PhraseView>, q: PhraseView)
    ensures
        sort_phrases(s).contains(q) <==> s.contains(q),
    decreases s.len(),
{
    if s.len() > 0 {
        let init = s.drop_last();
        lemma_sort_phrases_contains(init, q);
        lemma_insert_sorted_contains(sort_phrases(init), s.last(), q);
        assert(s =~= init.push(s.last()));
        if s.contains(q) && q != s.last() {
            let i = choose|i: int| 0 <= i < s.len() && s[i] == q;
            assert(init[i] == q);
        }
        if init.contains(q) {
            let i = choose|i: int| 0 <= i < init.len() && init[i] == q;
            assert(s[i] == q);
        }
        if q == s.last() {
            assert(s[s.len() - 1] == q);
        }
    }
}

/// Whether phrase `a` is ordered before phrase `b` in a leaf.
pub fn phrase_less_exec(a: &Phrase, b: &Phrase) -> (r: bool)
    ensures
        r == phrase_less(a@, b@),
{
    let ca = a.phrase.as_str().unicode_len();
    let cb = b.phrase.as_str().unicode_len();
    if ca == 1 && cb == 1 {
        false
    } else if ca == 1 || cb == 1 {
        a.phrase.as_str().as_bytes().len() < b.phrase.as_str().as_bytes().len()
    } else if a.freq == b.freq {
        compare_str(b.phrase.as_str(), a.phrase.as_str()) == Cmp::Less
    } else {
        b.freq < a.freq
    }
}

/// Inserts `x` into `v` as [`insert_sorted`] does.
fn insert_phrase_sorted(v: &mut Vec<Phrase>, x: Phrase)
    ensures
        phrases_view(final(v)@) == insert_sorted(phrases_view(old(v)@), x@),
{
    let ghost s = phrases_view(v@);
    let mut j: usize = v.len();
    assert(s.take(j as int) =~= s);
    assert(s.skip(j as int) =~= Seq::<PhraseView>::empty());
    while j > 0 && phrase_less_exec(&x, &v[j - 1])
        invariant
            j <= v@.len(),
            s == phrases_view(v@),
            insert_sorted(s, x@) == insert_sorted(s.take(j as int), x@) + s.skip(j as int),
            j > 0 ==> s.take(j as int).last() == s[j - 1],
        decreases j,
    {
        proof {
            let t = s.take(j as int);
            assert(t.drop_last() =~= s.take(j - 1));
            assert(s.skip(j - 1) =~= seq![s[j - 1]] + s.skip(j as int));
            assert(insert_sorted(t, x@) == insert_sorted(s.take(j - 1), x@).push(s[j - 1]));
            assert(insert_sorted(s.take(j - 1), x@).push(s[j - 1]) + s.skip(j as int)
                =~= insert_sorted(s.take(j - 1), x@) + s.skip(j - 1));
        }
        j = j - 1;
    }
    proof {
        if j > 0 {
            assert(!phrase_less(x@, s[j - 1]));
            assert(insert_sorted(s.take(j as int), x@) == s.take(j as int).push(x@));
        } else {
            assert(s.take(0) =~= Seq::<PhraseView>::empty());
        }
    }
    let ghost xv = x@;
    v.insert(j, x);
    assert(phrases_view(v@) =~= s.take(j as int).push(xv) + s.skip(j as int));
}

/// The phrases of a leaf in the order they are written ([`sort_phrases`]).
pub fn sort_leaf_phrases(phrases: &Vec<Phrase>) -> (r: Vec<Phrase>)
    ensures
        phrases_view(r@) == sort_phrases(phrases_view(phrases@)),
{
    let ghost s = phrases_view(phrases@);
    let mut r: Vec<Phrase> = Vec::new();
    let mut i: usize = 0;
    while i < phrases.len()
        invariant
            i <= phrases@.len(),
            s == phrases_view(phrases@),
            phrases_view(r@) == sort_phrases(s.take(i as int)),
        decreases phrases@.len() - i,
    {
        proof {
            assert(s.take(i + 1).drop_last() =~= s.take(i as int));
            assert(s.take(i + 1).last() == phrases@[i as int]@);
        }
        insert_phrase_sorted(&mut r, phrases[i].clone());
        i = i + 1;
    }
    assert(s.take(i as int) =~= s);
    r
}

/// The elements of phrases followed by one more phrase.
pub proof fn lemma_phrases_der_push(ps: Seq<PhraseView>, x: PhraseView)
    ensures
        phrases_der(ps.push(x)) == phrases_der(ps) + phrase_der(x),
    decreases ps.len(),
{
    if ps.len() == 0 {
        assert(ps.push(x).drop_first() =~= Seq::<PhraseView>::empty());
        assert(phrases_der(ps.push(x).drop_first()) == Seq::<u8>::empty());
        assert(phrases_der(ps.push(x)) =~= phrase_der(x));
    } else {
        assert(ps.push(x).drop_first() =~= ps.drop_first().push(x));
        lemma_phrases_der_push(ps.drop_first(), x);
        assert(phrases_der(ps.push(x)) =~= phrases_der(ps) + phrase_der(x));
    }
}

/// Appends an index record of three big-endian fields.
pub fn push_record(index: &mut Vec<u8>, begin: u32, len: u16, syl: u16)
    ensures
        final(index)@.len() == old(index)@.len() + 8,
        final(index)@.subrange(0, old(index)@.len() as int) == old(index)@,
        be32_at(final(index)@, old(index)@.len() as int) == begin,
        be16_at(final(index)@, old(index)@.len() as int + 4) == len,
        be16_at(final(index)@, old(index)@.len() as int + 6) == syl,
{
    let b0 = (begin / 0x100_0000) as u8;
    let b1 = ((begin / 0x1_0000) % 0x100) as u8;
    let b2 = ((begin / 0x100) % 0x100) as u8;
    let b3 = (begin % 0x100) as u8;
    assert((b0 as nat * 256 + b1 as nat) * 65536 + (b2 as nat * 256 + b3 as nat) == begin) by (nonlinear_arith)
        requires
            b0 == begin / 0x100_0000,
            b1 == (begin / 0x1_0000) % 0x100,
            b2 == (begin / 0x100) % 0x100,
            b3 == begin % 0x100,
    ;
    let o = index.len();
    index.push(b0);
    index.push(b1);
    index.push(b2);
    index.push(b3);
    index.push((len / 0x100) as u8);
    index.push((len % 0x100) as u8);
    index.push((syl / 0x100) as u8);
    index.push((syl % 0x100) as u8);
    assert(index@.subrange(0, o as int) =~= old(index)@);
}

} // verus!
