//! Enumerating all entries of a trie index, depth first.

use vstd::prelude::*;

use crate::dictionary::trie::{children_in_bounds, rec_begin, rec_len, rec_syl, syllables_view};
use crate::dictionary::trie_format::{decoded_phrases, read_phrases};
use crate::dictionary::{Phrase, PhraseView, phrases_view};
use crate::zhuyin::{Syllable, valid_syllable_value};

verus! {

/// An entry: the packed syllables and a phrase.
pub type EntryView = (Seq<u16>, PhraseView);

/// The views of a sequence of entries.
pub open spec fn entries_view(s: Seq<(Vec<Syllable>, Phrase)>) -> Seq<EntryView> {
    s.map_values(|e: (Vec<Syllable>, Phrase)| (syllables_view(e.0@), e.1@))
}

/// The phrases of a leaf paired with the syllables that reach it.
pub open spec fn leaf_entries(path: Seq<u16>, ps: Seq<PhraseView>) -> Seq<EntryView> {
    ps.map_values(|p: PhraseView| (path, p))
}

/// Groups of entries emitted last group first.
pub open spec fn flatten_rev(groups: Seq<Seq<EntryView>>) -> Seq<EntryView>
    decreases groups.len(),
{
    if groups.len() == 0 {
        Seq::empty()
    } else {
        groups.last() + flatten_rev(groups.drop_last())
    }
}

/// The entries emitted from the internal record `r`, reached by `path`,
/// with the leaf groups `pending` found above it on the way down.
///
/// The walk goes down through the first internal child of each record,
/// collecting the phrases of each leaf on the way; at a record whose only
/// child is its leaf, the collected groups are emitted, the deepest first.
/// The other children are then walked in order, each starting anew. The
/// flag is false when a record range or a phrase range is out of bounds, a
/// syllable is not a valid syllable, or the tree is deeper than `fuel`;
/// the entries are then those emitted before that point.
pub open spec fn node_walk(
    index: Seq<u8>,
    data: Seq<u8>,
    r: nat,
    path: Seq<u16>,
    pending: Seq<Seq<EntryView>>,
    fuel: nat,
) -> (Seq<EntryView>, bool)
    decreases fuel, 0nat,
{
    if fuel == 0 || !children_in_bounds(index, r) {
        (Seq::empty(), false)
    } else {
        let cb = rec_begin(index, r);
        let n = rec_len(index, r);
        if rec_syl(index, cb) == 0 {
            let db = rec_begin(index, cb);
            let de = db + rec_len(index, cb);
            if !(db < de && de <= data.len()) {
                (Seq::empty(), false)
            } else {
                let own = leaf_entries(path, decoded_phrases(data.subrange(db as int, de as int)));
                if n == 1 {
                    (flatten_rev(pending.push(own)), true)
                } else {
                    children_walk(index, data, cb, 1, n, path, pending.push(own), (fuel - 1) as nat)
                }
            }
        } else {
            children_walk(index, data, cb, 0, n, path, pending, (fuel - 1) as nat)
        }
    }
}

/// The entries emitted from the children `k..n` of a record whose children
/// start at record `cb`: the first of them carries `pending`.
pub open spec fn children_walk(
    index: Seq<u8>,
    data: Seq<u8>,
    cb: nat,
    k: nat,
    n: nat,
    path: Seq<u16>,
    pending: Seq<Seq<EntryView>>,
    fuel: nat,
) -> (Seq<EntryView>, bool)
    decreases fuel, n - k,
{
    if k >= n {
        (Seq::empty(), true)
    } else {
        let c = cb + k;
        let syl = rec_syl(index, c);
        if !(syl < 0x10000 && valid_syllable_value(syl as u16)) {
            (Seq::empty(), false)
        } else {
            let e = node_walk(index, data, c, path.push(syl as u16), pending, fuel);
            if !e.1 {
                (e.0, false)
            } else {
                let e2 = children_walk(index, data, cb, k + 1, n, path, Seq::empty(), fuel);
                (e.0 + e2.0, e2.1)
            }
        }
    }
}

/// All entries of a trie index with its phrase data, as [`node_walk`]
/// emits them from the root; empty when the index has no root or the root
/// has no children.
pub open spec fn trie_entries(index: Seq<u8>, data: Seq<u8>) -> Seq<EntryView> {
    if index.len() < 8 || rec_len(index, 0) == 0 {
        Seq::empty()
    } else {
        node_walk(index, data, 0, Seq::empty(), Seq::empty(), (index.len() / 8) as nat + 1).0
    }
}

/// Reads the three fields of record `r`, which lies inside the index.
fn record(index: &[u8], r: u64) -> (res: (u64, u64, u64))
    requires
        8 * r + 8 <= index@.len(),
    ensures
        res.0 == rec_begin(index@, r as nat),
        res.1 == rec_len(index@, r as nat),
        res.2 == rec_syl(index@, r as nat),
        res.0 < 0x1_0000_0000,
        res.1 < 0x10000,
        res.2 < 0x10000,
{
    assert(index@.len() == index.len());
    let off = (8 * r) as usize;
    let b = (index[off] as u64) * 0x100_0000 + (index[off + 1] as u64) * 0x1_0000 + (index[off + 2] as u64)
        * 0x100 + index[off + 3] as u64;
    let l = (index[off + 4] as u64) * 0x100 + index[off + 5] as u64;
    let s = (index[off + 6] as u64) * 0x100 + index[off + 7] as u64;
    (b, l, s)
}

/// The views of groups of entries.
pub open spec fn groups_view(g: Seq<Vec<(Vec<Syllable>, Phrase)>>) -> Seq<Seq<EntryView>> {
    g.map_values(|v: Vec<(Vec<Syllable>, Phrase)>| entries_view(v@))
}

/// Appends the groups, the last group first.
fn emit_groups(out: &mut Vec<(Vec<Syllable>, Phrase)>, groups: Vec<Vec<(Vec<Syllable>, Phrase)>>)
    ensures
        entries_view(final(out)@) == entries_view(old(out)@) + flatten_rev(groups_view(groups@)),
{
    let mut groups = groups;
    let ghost gv = groups_view(groups@);
    let ghost start = entries_view(out@);
    while groups.len() > 0
        invariant
            groups@.len() <= gv.len(),
            groups_view(groups@) == gv.take(groups@.len() as int),
            start + flatten_rev(gv) == entries_view(out@) + flatten_rev(groups_view(groups@)),
        decreases groups@.len(),
    {
        let ghost before = groups@;
        let mut g = groups.pop().unwrap();
        proof {
            assert(groups_view(before).last() == entries_view(g@));
            assert(groups_view(groups@) =~= groups_view(before).drop_last());
            assert(groups_view(groups@) =~= gv.take(groups@.len() as int));
        }
        let ghost o = entries_view(out@);
        let ghost gw = entries_view(g@);
        out.append(&mut g);
        assert(entries_view(out@) =~= o + gw);
        assert(flatten_rev(groups_view(before)) == gw + flatten_rev(groups_view(groups@)));
        assert(entries_view(out@) + flatten_rev(groups_view(groups@)) =~= o + flatten_rev(groups_view(before)));
    }
    assert(groups_view(groups@) =~= Seq::<Seq<EntryView>>::empty());
    assert(entries_view(out@) =~= start + flatten_rev(gv));
}

/// Appends the entries emitted from record `r` reached by `path`, as
/// [`node_walk`] says; returns its flag.
fn walk_node(
    index: &[u8],
    data: &[u8],
    r: u64,
    path: &Vec<Syllable>,
    pending: Vec<Vec<(Vec<Syllable>, Phrase)>>,
    fuel: u64,
    out: &mut Vec<(Vec<Syllable>, Phrase)>,
) -> (ok: bool)
    requires
        8 * r + 8 <= index@.len(),
    ensures
        ({
            let e = node_walk(index@, data@, r as nat, syllables_view(path@), groups_view(pending@), fuel as nat);
            &&& entries_view(final(out)@) == entries_view(old(out)@) + e.0
            &&& ok == e.1
        }),
    decreases fuel, 0nat,
{
    let ghost pv = syllables_view(path@);
    if fuel == 0 {
        assert(entries_view(out@) =~= entries_view(out@) + Seq::<EntryView>::empty());
        return false;
    }
    let (cb, n, _syl) = record(index, r);
    if n == 0 || 8 * (cb + n) > index.len() as u64 {
        assert(entries_view(out@) =~= entries_view(out@) + Seq::<EntryView>::empty());
        return false;
    }
    let (db, dl, first_syl) = record(index, cb);
    if first_syl == 0 {
        let de = db + dl;
        if !(db < de && de <= data.len() as u64) {
            assert(entries_view(out@) =~= entries_view(out@) + Seq::<EntryView>::empty());
            return false;
        }
        let phrases = read_phrases(&data[db as usize..de as usize]);
        let ghost ps = phrases_view(phrases@);
        let mut own: Vec<(Vec<Syllable>, Phrase)> = Vec::new();
        let mut i: usize = 0;
        assert(ps.take(0) =~= Seq::<PhraseView>::empty());
        while i < phrases.len()
            invariant
                i <= phrases@.len(),
                ps == phrases_view(phrases@),
                pv == syllables_view(path@),
                entries_view(own@) == leaf_entries(pv, ps.take(i as int)),
            decreases phrases@.len() - i,
        {
            let ghost prev = own@;
            let pc = path.clone();
            assert(pc@ =~= path@);
            own.push((pc, phrases[i].clone()));
            proof {
                assert(entries_view(own@) =~= entries_view(prev).push((pv, ps[i as int])));
                assert(leaf_entries(pv, ps.take(i + 1)) =~= leaf_entries(pv, ps.take(i as int)).push(
                    (pv, ps[i as int]),
                ));
            }
            i = i + 1;
        }
        proof {
            assert(ps.take(i as int) =~= ps);
        }
        let mut pending = pending;
        let ghost pg = groups_view(pending@);
        let ghost ow = entries_view(own@);
        pending.push(own);
        assert(groups_view(pending@) =~= pg.push(ow));
        if n == 1 {
            emit_groups(out, pending);
            return true;
        }
        walk_children(index, data, cb, 1, n, path, pending, fuel - 1, out)
    } else {
        walk_children(index, data, cb, 0, n, path, pending, fuel - 1, out)
    }
}

/// Appends the entries emitted from the children `k..n` of a record whose
/// children start at record `cb`, as [`children_walk`] says; returns its
/// flag.
fn walk_children(
    index: &[u8],
    data: &[u8],
    cb: u64,
    k: u64,
    n: u64,
    path: &Vec<Syllable>,
    pending: Vec<Vec<(Vec<Syllable>, Phrase)>>,
    fuel: u64,
    out: &mut Vec<(Vec<Syllable>, Phrase)>,
) -> (ok: bool)
    requires
        8 * (cb + n) <= index@.len(),
        cb < 0x1_0000_0000,
        n < 0x10000,
    ensures
        ({
            let e = children_walk(index@, data@, cb as nat, k as nat, n as nat, syllables_view(path@), groups_view(pending@), fuel as nat);
            &&& entries_view(final(out)@) == entries_view(old(out)@) + e.0
            &&& ok == e.1
        }),
    decreases fuel, n - k,
{
    let ghost pv = syllables_view(path@);
    if k >= n {
        assert(entries_view(out@) =~= entries_view(out@) + Seq::<EntryView>::empty());
        return true;
    }
    let c = cb + k;
    let (_b, _l, syl) = record(index, c);
    let s = match Syllable::try_from_u16(syl as u16) {
        Some(s) => s,
        None => {
            assert(entries_view(out@) =~= entries_view(out@) + Seq::<EntryView>::empty());
            return false;
        },
    };
    let mut child_path = path.clone();
    assert(child_path@ =~= path@);
    child_path.push(s);
    assert(syllables_view(child_path@) =~= pv.push(syl as u16));
    let ghost before = entries_view(out@);
    let ok = walk_node(index, data, c, &child_path, pending, fuel, out);
    if !ok {
        return false;
    }
    let none: Vec<Vec<(Vec<Syllable>, Phrase)>> = Vec::new();
    assert(groups_view(none@) =~= Seq::<Seq<EntryView>>::empty());
    let ok2 = walk_children(index, data, cb, k + 1, n, path, none, fuel, out);
    proof {
        let e = node_walk(index@, data@, c as nat, pv.push(syl as u16), groups_view(pending@), fuel as nat);
        let e2 = children_walk(index@, data@, cb as nat, (k + 1) as nat, n as nat, pv, Seq::empty(), fuel as nat);
        assert(entries_view(out@) =~= before + (e.0 + e2.0));
    }
    ok2
}

/// All entries of a trie index with its phrase data ([`trie_entries`]).
pub fn entries_in_index(index: &[u8], data: &[u8]) -> (r: Vec<(Vec<Syllable>, Phrase)>)
    ensures
        entries_view(r@) == trie_entries(index@, data@),
{
    let mut out: Vec<(Vec<Syllable>, Phrase)> = Vec::new();
    if index.len() < 8 {
        return out;
    }
    let (_cb, n, _s) = record(index, 0);
    if n == 0 {
        return out;
    }
    let path: Vec<Syllable> = Vec::new();
    assert(syllables_view(path@) =~= Seq::<u16>::empty());
    let pending: Vec<Vec<(Vec<Syllable>, Phrase)>> = Vec::new();
    assert(groups_view(pending@) =~= Seq::<Seq<EntryView>>::empty());
    let fuel = (index.len() / 8) as u64 + 1;
    let _ = walk_node(index, data, 0, &path, pending, fuel, &mut out);
    assert(entries_view(out@) =~= trie_entries(index@, data@));
    out
}

} // verus!
