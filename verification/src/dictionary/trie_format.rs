//! DER encoding of phrases, dictionary metadata and the trie dictionary
//! file.
//!
//! ```asn
//! TrieFile ::= SEQUENCE {
//!     magic     UTF8String ("CHEW"),
//!     version   INTEGER (0),
//!     info      Info,
//!     index     OCTET STRING,
//!     phraseSeq SEQUENCE OF Phrase
//! }
//! Info ::= SEQUENCE {
//!     name UTF8String, copyright UTF8String, license UTF8String,
//!     version UTF8String, software UTF8String
//! }
//! Phrase ::= SEQUENCE {
//!     phrase UTF8String, freq INTEGER, lastUsed [0] IMPLICIT INTEGER OPTIONAL
//! }
//! ```

use vstd::prelude::*;
use vstd::utf8::*;

use crate::der::{
    MAX_DER_LEN, TAG_CONTEXT_0, TAG_INTEGER, TAG_OCTET_STRING, TAG_SEQUENCE, TAG_UTF8_STRING,
    append_bytes, len_bytes, lemma_be_bytes_len_u64, lemma_occurs_skip, lemma_pow256_mono,
    lemma_pow256_table, occurs_at, pow256, push_tlv, push_uint, read_tlv, read_uint, tlv,
    uint_content,
};
use crate::dictionary::{DictionaryInfo, DictionaryInfoView, Phrase, PhraseView};

verus! {

broadcast use {encode_utf8_valid_utf8, encode_utf8_decode_utf8};

/// The format version written to and accepted from dictionary files.
pub const DICT_FORMAT_VERSION: u8 = 0;

/// The DER contents of a phrase element.
pub open spec fn phrase_content(p: PhraseView) -> Seq<u8> {
    tlv(TAG_UTF8_STRING, encode_utf8(p.0)) + tlv(TAG_INTEGER, uint_content(p.1 as nat)) + match p.2 {
        Some(t) => tlv(TAG_CONTEXT_0, uint_content(t as nat)),
        None => Seq::<u8>::empty(),
    }
}

/// The DER element of a phrase.
pub open spec fn phrase_der(p: PhraseView) -> Seq<u8> {
    tlv(TAG_SEQUENCE, phrase_content(p))
}

/// Whether a phrase fits the DER length limit.
pub open spec fn phrase_encodable(p: PhraseView) -> bool {
    phrase_content(p).len() <= MAX_DER_LEN
}

/// The DER contents of the metadata element.
pub open spec fn info_content(i: DictionaryInfoView) -> Seq<u8> {
    tlv(TAG_UTF8_STRING, encode_utf8(i.0)) + tlv(TAG_UTF8_STRING, encode_utf8(i.1)) + tlv(
        TAG_UTF8_STRING,
        encode_utf8(i.2),
    ) + tlv(TAG_UTF8_STRING, encode_utf8(i.3)) + tlv(TAG_UTF8_STRING, encode_utf8(i.4))
}

/// The DER element of the metadata.
pub open spec fn info_der(i: DictionaryInfoView) -> Seq<u8> {
    tlv(TAG_SEQUENCE, info_content(i))
}

/// Whether the metadata fits the DER length limit.
pub open spec fn info_encodable(i: DictionaryInfoView) -> bool {
    info_content(i).len() <= MAX_DER_LEN
}

/// The bytes of the magic string "CHEW".
pub open spec fn magic_bytes() -> Seq<u8> {
    seq![0x43u8, 0x48u8, 0x45u8, 0x57u8]
}

/// The DER contents of a dictionary file.
pub open spec fn file_content(i: DictionaryInfoView, index: Seq<u8>, data: Seq<u8>) -> Seq<u8> {
    tlv(TAG_UTF8_STRING, magic_bytes()) + tlv(TAG_INTEGER, uint_content(0)) + info_der(i) + tlv(
        TAG_OCTET_STRING,
        index,
    ) + tlv(TAG_SEQUENCE, data)
}

/// A dictionary file.
pub open spec fn file_der(i: DictionaryInfoView, index: Seq<u8>, data: Seq<u8>) -> Seq<u8> {
    tlv(TAG_SEQUENCE, file_content(i, index, data))
}

/// Whether a dictionary file with these parts fits the DER length limit.
pub open spec fn file_encodable(i: DictionaryInfoView, index: Seq<u8>, data: Seq<u8>) -> bool {
    file_content(i, index, data).len() <= MAX_DER_LEN
}

/// Parts of a concatenation occur where the concatenation occurs.
pub proof fn lemma_occurs_concat(a: Seq<u8>, c: Seq<u8>, b: Seq<u8>, pos: int)
    requires
        occurs_at(a + c, b, pos),
    ensures
        occurs_at(a, b, pos),
        occurs_at(c, b, pos + a.len()),
{
    assert(b.subrange(pos, pos + a.len()) =~= b.subrange(pos, pos + (a + c).len()).subrange(
        0,
        a.len() as int,
    ));
    assert((a + c).subrange(0, a.len() as int) =~= a);
    assert((a + c).subrange(a.len() as int, (a + c).len() as int) =~= c);
    assert(b.subrange(pos + a.len(), pos + a.len() + c.len()) =~= b.subrange(
        pos,
        pos + (a + c).len(),
    ).subrange(a.len() as int, (a + c).len() as int));
}

/// Adjacent occurrences form an occurrence of the concatenation.
pub proof fn lemma_occurs_join(a: Seq<u8>, c: Seq<u8>, b: Seq<u8>, pos: int)
    requires
        occurs_at(a, b, pos),
        occurs_at(c, b, pos + a.len()),
    ensures
        occurs_at(a + c, b, pos),
{
    assert(b.subrange(pos, pos + (a + c).len()) =~= b.subrange(pos, pos + a.len()) + b.subrange(
        pos + a.len(),
        pos + a.len() + c.len(),
    ));
}

/// The contents of an element occur right after its header.
pub proof fn lemma_occurs_tlv(tag: u8, c: Seq<u8>, b: Seq<u8>, pos: int)
    requires
        occurs_at(tlv(tag, c), b, pos),
    ensures
        occurs_at(c, b, pos + 1 + len_bytes(c.len()).len()),
{
    lemma_occurs_concat(seq![tag] + len_bytes(c.len()), c, b, pos);
}

/// Decodes UTF-8 bytes into a `String`, as `std::str::from_utf8` does.
///
/// The standard library documents that `from_utf8` succeeds exactly on valid
/// UTF-8 input and returns the string those bytes encode.
#[verifier::external_body]
pub(crate) fn utf8_to_string(bytes: &[u8]) -> (r: Option<String>)
    ensures
        r is Some <==> valid_utf8(bytes@),
        r matches Some(s) ==> s@ == decode_utf8(bytes@),
{
    std::str::from_utf8(bytes).ok().map(|s| s.to_owned())
}

/// Reads a `UTF8String` element at `pos` that ends no later than `end`.
pub fn read_utf8(b: &[u8], pos: usize, end: usize) -> (r: Option<(String, usize)>)
    requires
        end <= b@.len(),
    ensures
        r matches Some((s, next)) ==> {
            &&& occurs_at(tlv(TAG_UTF8_STRING, encode_utf8(s@)), b@, pos as int)
            &&& next == pos + tlv(TAG_UTF8_STRING, encode_utf8(s@)).len()
            &&& next <= end
            &&& encode_utf8(s@).len() <= MAX_DER_LEN
        },
        forall|t: Seq<char>|
            encode_utf8(t).len() <= MAX_DER_LEN && #[trigger] occurs_at(
                tlv(TAG_UTF8_STRING, encode_utf8(t)),
                b@,
                pos as int,
            ) && pos + tlv(TAG_UTF8_STRING, encode_utf8(t)).len() <= end ==> (r matches Some((s, next))
                && s@ == t && next == pos + tlv(TAG_UTF8_STRING, encode_utf8(t)).len()),
{
    match read_tlv(b, pos, TAG_UTF8_STRING) {
        None => None,
        Some((s, e)) => {
            if e > end {
                return None;
            }
            let content = vstd::slice::slice_subrange(b, s, e);
            match utf8_to_string(content) {
                None => {
                    proof {
                        assert forall|t: Seq<char>|
                            encode_utf8(t).len() <= MAX_DER_LEN && #[trigger] occurs_at(
                                tlv(TAG_UTF8_STRING, encode_utf8(t)),
                                b@,
                                pos as int,
                            ) && pos + tlv(TAG_UTF8_STRING, encode_utf8(t)).len()
                                <= end implies false by {
                            lemma_occurs_tlv(TAG_UTF8_STRING, encode_utf8(t), b@, pos as int);
                            assert(encode_utf8(t) =~= content@);
                        }
                    }
                    None
                },
                Some(text) => {
                    proof {
                        decode_utf8_encode_utf8(content@);
                        assert forall|t: Seq<char>|
                            encode_utf8(t).len() <= MAX_DER_LEN && #[trigger] occurs_at(
                                tlv(TAG_UTF8_STRING, encode_utf8(t)),
                                b@,
                                pos as int,
                            ) && pos + tlv(TAG_UTF8_STRING, encode_utf8(t)).len()
                                <= end implies text@ == t by {
                            lemma_occurs_tlv(TAG_UTF8_STRING, encode_utf8(t), b@, pos as int);
                            assert(encode_utf8(t) =~= content@);
                        }
                    }
                    Some((text, e))
                },
            }
        },
    }
}

/// Reads an unsigned integer element with tag `tag` at `pos` that ends no
/// later than `end` and has at most `max_bytes` significant bytes.
pub fn read_uint_elem(b: &[u8], pos: usize, end: usize, tag: u8, max_bytes: usize) -> (r: Option<
    (u64, usize),
>)
    requires
        end <= b@.len(),
        1 <= max_bytes <= 8,
    ensures
        r matches Some((v, next)) ==> {
            &&& occurs_at(tlv(tag, uint_content(v as nat)), b@, pos as int)
            &&& next == pos + tlv(tag, uint_content(v as nat)).len()
            &&& next <= end
            &&& (v as nat) < pow256(max_bytes as nat)
        },
        forall|v: nat|
            v < pow256(max_bytes as nat) && #[trigger] occurs_at(
                tlv(tag, uint_content(v)),
                b@,
                pos as int,
            ) && pos + tlv(tag, uint_content(v)).len() <= end ==> (r matches Some((w, next)) && w
                == v && next == pos + tlv(tag, uint_content(v)).len()),
{
    proof {
        assert forall|v: nat| v < pow256(max_bytes as nat) implies #[trigger] uint_content(v).len()
            <= 9 by {
            lemma_pow256_mono(max_bytes as nat, 8);
            assert(pow256(8) == 0x1_0000_0000_0000_0000) by {
                assert(pow256(0) == 1);
                assert(pow256(1) == 256);
                assert(pow256(2) == 65536);
                assert(pow256(3) == 16777216);
                assert(pow256(4) == 4294967296);
                assert(pow256(5) == 1099511627776);
                assert(pow256(6) == 281474976710656);
                assert(pow256(7) == 72057594037927936);
            }
            lemma_be_bytes_len_u64(v);
        }
    }
    match read_tlv(b, pos, tag) {
        None => {
            proof {
                assert forall|v: nat|
                    v < pow256(max_bytes as nat) && #[trigger] occurs_at(
                        tlv(tag, uint_content(v)),
                        b@,
                        pos as int,
                    ) implies false by {
                    assert(uint_content(v).len() <= 9);
                }
            }
            None
        },
        Some((s, e)) => {
            if e > end {
                proof {
                    assert forall|v: nat|
                        v < pow256(max_bytes as nat) && #[trigger] occurs_at(
                            tlv(tag, uint_content(v)),
                            b@,
                            pos as int,
                        ) implies pos + tlv(tag, uint_content(v)).len() > end by {
                        assert(uint_content(v).len() <= 9);
                    }
                }
                return None;
            }
            proof {
                assert forall|v: nat|
                    v < pow256(max_bytes as nat) && #[trigger] occurs_at(
                        tlv(tag, uint_content(v)),
                        b@,
                        pos as int,
                    ) implies uint_content(v) == b@.subrange(s as int, e as int) by {
                    let c = uint_content(v);
                    assert(c.len() <= 9);
                    assert(c.len() <= MAX_DER_LEN);
                    assert(s == pos + 1 + len_bytes(c.len()).len());
                    assert(e == pos + tlv(tag, c).len());
                    lemma_occurs_tlv(tag, c, b@, pos as int);
                    assert(b@.subrange(s as int, e as int) =~= c);
                }
            }
            match read_uint(b, s, e, max_bytes) {
                None => None,
                Some(v) => {
                    proof {
                        assert(b@.subrange(s as int, e as int) == uint_content(v as nat));
                        assert forall|w: nat|
                            w < pow256(max_bytes as nat) && #[trigger] occurs_at(
                                tlv(tag, uint_content(w)),
                                b@,
                                pos as int,
                            ) implies w == v by {
                            assert(uint_content(w) == b@.subrange(s as int, e as int));
                            lemma_pow256_mono(max_bytes as nat, 8);
                            assert(pow256(8) == 0x1_0000_0000_0000_0000) by {
                                assert(pow256(0) == 1);
                                assert(pow256(1) == 256);
                                assert(pow256(2) == 65536);
                                assert(pow256(3) == 16777216);
                                assert(pow256(4) == 4294967296);
                                assert(pow256(5) == 1099511627776);
                                assert(pow256(6) == 281474976710656);
                                assert(pow256(7) == 72057594037927936);
                            }
                        }
                    }
                    Some((v, e))
                },
            }
        },
    }
}

/// Appends the DER element of a phrase.
///
/// Returns `false`, leaving `out` unchanged, when the phrase does not fit the
/// DER length limit.
pub fn push_phrase(out: &mut Vec<u8>, p: &Phrase) -> (ok: bool)
    ensures
        ok == phrase_encodable(p@),
        ok ==> final(out)@ == old(out)@ + phrase_der(p@),
        !ok ==> final(out)@ == old(out)@,
{
    let text = p.phrase.as_str().as_bytes();
    if text.len() > MAX_DER_LEN {
        return false;
    }
    let mut content: Vec<u8> = Vec::new();
    push_tlv(&mut content, TAG_UTF8_STRING, text);
    push_uint(&mut content, TAG_INTEGER, p.freq as u64);
    match p.last_used {
        Some(t) => push_uint(&mut content, TAG_CONTEXT_0, t),
        None => {},
    }
    assert(content@ =~= phrase_content(p@));
    if content.len() > MAX_DER_LEN {
        return false;
    }
    push_tlv(out, TAG_SEQUENCE, content.as_slice());
    true
}

/// Reads the DER element of a phrase at `pos`.
pub fn read_phrase(b: &[u8], pos: usize) -> (r: Option<(Phrase, usize)>)
    ensures
        r matches Some((p, next)) ==> {
            &&& phrase_encodable(p@)
            &&& occurs_at(phrase_der(p@), b@, pos as int)
            &&& next == pos + phrase_der(p@).len()
        },
        forall|q: PhraseView|
            phrase_encodable(q) && #[trigger] occurs_at(phrase_der(q), b@, pos as int) ==> (r matches Some(
                (p, next),
            ) && p@ == q && next == pos + phrase_der(q).len()),
{
    let ghost pow4 = pow256(4);
    proof {
        assert(pow256(4) == 0x1_0000_0000) by {
            assert(pow256(0) == 1);
            assert(pow256(1) == 256);
            assert(pow256(2) == 65536);
            assert(pow256(3) == 16777216);
        }
        assert(pow256(8) == 0x1_0000_0000_0000_0000) by {
            assert(pow256(0) == 1);
            assert(pow256(1) == 256);
            assert(pow256(2) == 65536);
            assert(pow256(3) == 16777216);
            assert(pow256(4) == 4294967296);
            assert(pow256(5) == 1099511627776);
            assert(pow256(6) == 281474976710656);
            assert(pow256(7) == 72057594037927936);
        }
        // The pieces of every candidate encoding occur in sequence.
        assert forall|q: PhraseView|
            phrase_encodable(q) && #[trigger] occurs_at(phrase_der(q), b@, pos as int) implies {
            let s = pos + 1 + len_bytes(phrase_content(q).len()).len();
            let t1 = tlv(TAG_UTF8_STRING, encode_utf8(q.0));
            let t2 = tlv(TAG_INTEGER, uint_content(q.1 as nat));
            &&& occurs_at(phrase_content(q), b@, s)
            &&& occurs_at(t1, b@, s)
            &&& occurs_at(t2, b@, s + t1.len())
            &&& (q.2 matches Some(t) ==> occurs_at(
                tlv(TAG_CONTEXT_0, uint_content(t as nat)),
                b@,
                s + t1.len() + t2.len(),
            ))
        } by {
            let s = pos + 1 + len_bytes(phrase_content(q).len()).len();
            let t1 = tlv(TAG_UTF8_STRING, encode_utf8(q.0));
            let t2 = tlv(TAG_INTEGER, uint_content(q.1 as nat));
            lemma_occurs_tlv(TAG_SEQUENCE, phrase_content(q), b@, pos as int);
            match q.2 {
                Some(t) => {
                    let t3 = tlv(TAG_CONTEXT_0, uint_content(t as nat));
                    assert(phrase_content(q) == (t1 + t2) + t3);
                    lemma_occurs_concat(t1 + t2, t3, b@, s);
                    lemma_occurs_concat(t1, t2, b@, s);
                },
                None => {
                    assert(phrase_content(q) =~= t1 + t2);
                    lemma_occurs_concat(t1, t2, b@, s);
                },
            }
        }
    }
    let (s, e) = match read_tlv(b, pos, TAG_SEQUENCE) {
        None => return None,
        Some(r) => r,
    };
    proof {
        assert forall|q: PhraseView|
            phrase_encodable(q) && #[trigger] occurs_at(phrase_der(q), b@, pos as int) implies s
            == pos + 1 + len_bytes(phrase_content(q).len()).len() && e == pos + phrase_der(
            q,
        ).len() && phrase_content(q) == b@.subrange(s as int, e as int) by {
            let c = phrase_content(q);
            assert(occurs_at(tlv(TAG_SEQUENCE, c), b@, pos as int));
            assert(s == pos + 1 + len_bytes(c.len()).len());
            assert(e == pos + tlv(TAG_SEQUENCE, c).len());
            lemma_occurs_tlv(TAG_SEQUENCE, c, b@, pos as int);
            assert(b@.subrange(s as int, e as int) =~= c);
        }
    }
    let (text, e1) = match read_utf8(b, s, e) {
        None => {
            proof {
                assert forall|q: PhraseView|
                    phrase_encodable(q) && #[trigger] occurs_at(
                        phrase_der(q),
                        b@,
                        pos as int,
                    ) implies false by {
                    let t1 = tlv(TAG_UTF8_STRING, encode_utf8(q.0));
                    assert(occurs_at(t1, b@, s as int));
                    assert(phrase_content(q).len() >= t1.len());
                }
            }
            return None;
        },
        Some(r) => r,
    };
    proof {
        assert forall|q: PhraseView|
            phrase_encodable(q) && #[trigger] occurs_at(phrase_der(q), b@, pos as int) implies text@
            == q.0 && e1 == s + tlv(TAG_UTF8_STRING, encode_utf8(q.0)).len() by {
            let t1 = tlv(TAG_UTF8_STRING, encode_utf8(q.0));
            assert(occurs_at(t1, b@, s as int));
            assert(phrase_content(q).len() >= t1.len());
        }
    }
    let (freq, e2) = match read_uint_elem(b, e1, e, TAG_INTEGER, 4) {
        None => {
            proof {
                assert forall|q: PhraseView|
                    phrase_encodable(q) && #[trigger] occurs_at(
                        phrase_der(q),
                        b@,
                        pos as int,
                    ) implies false by {
                    let t1 = tlv(TAG_UTF8_STRING, encode_utf8(q.0));
                    let t2 = tlv(TAG_INTEGER, uint_content(q.1 as nat));
                    assert(occurs_at(t2, b@, e1 as int));
                    assert(phrase_content(q).len() >= t1.len() + t2.len());
                    assert((q.1 as nat) < pow256(4));
                }
            }
            return None;
        },
        Some(r) => r,
    };
    let ghost t1 = tlv(TAG_UTF8_STRING, encode_utf8(text@));
    let ghost t2 = tlv(TAG_INTEGER, uint_content(freq as nat));
    proof {
        assert forall|q: PhraseView|
            phrase_encodable(q) && #[trigger] occurs_at(phrase_der(q), b@, pos as int) implies freq
            == q.1 && e2 == e1 + t2.len() by {
            let t2q = tlv(TAG_INTEGER, uint_content(q.1 as nat));
            assert(occurs_at(t2q, b@, e1 as int));
            assert(phrase_content(q).len() >= t1.len() + t2q.len());
            assert((q.1 as nat) < pow256(4));
        }
    }
    let last_used = if e2 == e {
        proof {
            assert forall|q: PhraseView|
                phrase_encodable(q) && #[trigger] occurs_at(phrase_der(q), b@, pos as int) implies q.2
                is None by {
                if q.2 is Some {
                    let t3 = tlv(TAG_CONTEXT_0, uint_content(q.2->0 as nat));
                    assert(phrase_content(q).len() == t1.len() + t2.len() + t3.len());
                }
            }
        }
        None
    } else if b[e2] == TAG_CONTEXT_0 {
        match read_uint_elem(b, e2, e, TAG_CONTEXT_0, 8) {
            None => {
                proof {
                    assert forall|q: PhraseView|
                        phrase_encodable(q) && #[trigger] occurs_at(
                            phrase_der(q),
                            b@,
                            pos as int,
                        ) implies false by {
                        if q.2 is Some {
                            let t3 = tlv(TAG_CONTEXT_0, uint_content(q.2->0 as nat));
                            assert(phrase_content(q).len() == t1.len() + t2.len() + t3.len());
                            assert(occurs_at(t3, b@, e2 as int));
                            assert((q.2->0 as nat) < pow256(8));
                        } else {
                            assert(phrase_content(q).len() == t1.len() + t2.len());
                        }
                    }
                }
                return None;
            },
            Some((t, e3)) => {
                if e3 != e {
                    proof {
                        assert forall|q: PhraseView|
                            phrase_encodable(q) && #[trigger] occurs_at(
                                phrase_der(q),
                                b@,
                                pos as int,
                            ) implies false by {
                            if q.2 is Some {
                                let t3 = tlv(TAG_CONTEXT_0, uint_content(q.2->0 as nat));
                                assert(phrase_content(q).len() == t1.len() + t2.len() + t3.len());
                                assert(occurs_at(t3, b@, e2 as int));
                                assert((q.2->0 as nat) < pow256(8));
                            } else {
                                assert(phrase_content(q).len() == t1.len() + t2.len());
                            }
                        }
                    }
                    return None;
                }
                proof {
                    assert forall|q: PhraseView|
                        phrase_encodable(q) && #[trigger] occurs_at(
                            phrase_der(q),
                            b@,
                            pos as int,
                        ) implies q.2 == Some(t) by {
                        if q.2 is Some {
                            let t3 = tlv(TAG_CONTEXT_0, uint_content(q.2->0 as nat));
                            assert(phrase_content(q).len() == t1.len() + t2.len() + t3.len());
                            assert(occurs_at(t3, b@, e2 as int));
                            assert((q.2->0 as nat) < pow256(8));
                        } else {
                            assert(phrase_content(q).len() == t1.len() + t2.len());
                        }
                    }
                }
                Some(t)
            },
        }
    } else {
        proof {
            assert forall|q: PhraseView|
                phrase_encodable(q) && #[trigger] occurs_at(phrase_der(q), b@, pos as int) implies false by {
                if q.2 is Some {
                    let t3 = tlv(TAG_CONTEXT_0, uint_content(q.2->0 as nat));
                    assert(phrase_content(q).len() == t1.len() + t2.len() + t3.len());
                    assert(occurs_at(t3, b@, e2 as int));
                    assert(b@[e2 as int] == b@.subrange(e2 as int, e2 + t3.len())[0]);
                } else {
                    assert(phrase_content(q).len() == t1.len() + t2.len());
                }
            }
        }
        return None;
    };
    let p = Phrase { phrase: text, freq: freq as u32, last_used };
    proof {
        assert(phrase_content(p@) == b@.subrange(s as int, e as int)) by {
            lemma_occurs_join(t1, t2, b@, s as int);
            match last_used {
                Some(t) => {
                    let t3 = tlv(TAG_CONTEXT_0, uint_content(t as nat));
                    lemma_occurs_join(t1 + t2, t3, b@, s as int);
                    assert(phrase_content(p@) == (t1 + t2) + t3);
                },
                None => {
                    assert(phrase_content(p@) =~= t1 + t2);
                },
            }
        }
        assert(b@.subrange(pos as int, e as int) =~= phrase_der(p@));
    }
    Some((p, e))
}

/// Whether a phrase element starts the byte string.
pub open spec fn phrase_at_start(b: Seq<u8>, p: PhraseView) -> bool {
    phrase_encodable(p) && occurs_at(phrase_der(p), b, 0)
}

/// The phrases decoded from the start of a byte string, up to the first
/// bytes that are not a phrase element.
pub open spec fn decoded_phrases(b: Seq<u8>) -> Seq<PhraseView>
    decreases b.len(),
{
    if exists|p: PhraseView| phrase_at_start(b, p) {
        let p = choose|p: PhraseView| phrase_at_start(b, p);
        if 0 < phrase_der(p).len() <= b.len() {
            seq![p] + decoded_phrases(b.skip(phrase_der(p).len() as int))
        } else {
            Seq::empty()
        }
    } else {
        Seq::empty()
    }
}

/// The concatenated elements of a sequence of phrases.
pub open spec fn phrases_der(ps: Seq<PhraseView>) -> Seq<u8>
    decreases ps.len(),
{
    if ps.len() == 0 {
        Seq::empty()
    } else {
        phrase_der(ps[0]) + phrases_der(ps.drop_first())
    }
}

/// Decoding the concatenated elements of encodable phrases gives them back.
pub proof fn lemma_decoded_phrases_der(ps: Seq<PhraseView>)
    requires
        forall|i: int| 0 <= i < ps.len() ==> phrase_encodable(#[trigger] ps[i]),
    ensures
        decoded_phrases(phrases_der(ps)) == ps,
    decreases ps.len(),
{
    let b = phrases_der(ps);
    if ps.len() == 0 {
        assert forall|p: PhraseView| !phrase_at_start(b, p) by {
            assert(phrase_der(p).len() > 0);
        }
    } else {
        let p0 = ps[0];
        let rest = ps.drop_first();
        assert(forall|i: int| 0 <= i < rest.len() ==> rest[i] == ps[i + 1]);
        lemma_decoded_phrases_der(rest);
        assert(b.subrange(0, phrase_der(p0).len() as int) =~= phrase_der(p0));
        assert(phrase_at_start(b, p0));
        let p = choose|p: PhraseView| phrase_at_start(b, p);
        lemma_phrase_unique(b, p, p0);
        assert(b.skip(phrase_der(p0).len() as int) =~= phrases_der(rest));
        assert(seq![p0] + rest =~= ps);
    }
}

/// At most one phrase element starts a byte string.
pub proof fn lemma_phrase_unique(b: Seq<u8>, p: PhraseView, q: PhraseView)
    requires
        phrase_at_start(b, p),
        phrase_at_start(b, q),
    ensures
        p == q,
{
    lemma_phrase_unique_at(b, p, q);
}

/// The two phrases start the same byte string; the reader decodes both.
proof fn lemma_phrase_unique_at(b: Seq<u8>, p: PhraseView, q: PhraseView)
    requires
        phrase_at_start(b, p),
        phrase_at_start(b, q),
    ensures
        p == q,
{
    lemma_header_unique(TAG_SEQUENCE, phrase_content(p), phrase_content(q), b);
    let c = phrase_content(p);
    let t1p = tlv(TAG_UTF8_STRING, encode_utf8(p.0));
    let t1q = tlv(TAG_UTF8_STRING, encode_utf8(q.0));
    assert(c.subrange(0, t1p.len() as int) =~= t1p);
    assert(phrase_content(q).subrange(0, t1q.len() as int) =~= t1q);
    lemma_header_unique(TAG_UTF8_STRING, encode_utf8(p.0), encode_utf8(q.0), c);
    assert(decode_utf8(encode_utf8(p.0)) == p.0);
    assert(decode_utf8(encode_utf8(q.0)) == q.0);
    assert(p.0 == q.0);
    let t2p = tlv(TAG_INTEGER, uint_content(p.1 as nat));
    let t2q = tlv(TAG_INTEGER, uint_content(q.1 as nat));
    let c2 = c.skip(t1p.len() as int);
    assert(c2.subrange(0, t2p.len() as int) =~= t2p);
    assert(c2.subrange(0, t2q.len() as int) =~= t2q);
    lemma_header_unique(TAG_INTEGER, uint_content(p.1 as nat), uint_content(q.1 as nat), c2);
    lemma_uint_content_injective(p.1 as nat, q.1 as nat);
    let c3 = c2.skip(t2p.len() as int);
    match (p.2, q.2) {
        (Some(tp), Some(tq)) => {
            let t3p = tlv(TAG_CONTEXT_0, uint_content(tp as nat));
            let t3q = tlv(TAG_CONTEXT_0, uint_content(tq as nat));
            assert(c3 =~= t3p);
            assert(c3 =~= t3q);
            assert(c3.subrange(0, t3p.len() as int) =~= t3p);
            assert(c3.subrange(0, t3q.len() as int) =~= t3q);
            lemma_header_unique(TAG_CONTEXT_0, uint_content(tp as nat), uint_content(tq as nat), c3);
            lemma_uint_content_injective(tp as nat, tq as nat);
        },
        (Some(tp), None) => {
            let t3p = tlv(TAG_CONTEXT_0, uint_content(tp as nat));
            assert(c3 =~= t3p);
            assert(c3.len() == 0);
        },
        (None, Some(tq)) => {
            let t3q = tlv(TAG_CONTEXT_0, uint_content(tq as nat));
            assert(c3 =~= t3q);
            assert(c3.len() == 0);
        },
        (None, None) => {},
    }
}

/// Unsigned integer contents determine the integer.
pub proof fn lemma_uint_content_injective(a: nat, b: nat)
    requires
        uint_content(a) == uint_content(b),
    ensures
        a == b,
{
    crate::der::lemma_be_bytes_shape(a);
    crate::der::lemma_be_bytes_shape(b);
    let ba = crate::der::be_bytes(a);
    let bb = crate::der::be_bytes(b);
    if ba[0] >= 0x80 && bb[0] < 0x80 {
        assert(uint_content(a)[0] == 0);
        assert(bb[0] == 0);
        assert(b == 0 || bb[0] != 0);
        assert(uint_content(b) =~= seq![0u8]);
        assert(false);
    } else if ba[0] < 0x80 && bb[0] >= 0x80 {
        assert(uint_content(b)[0] == 0);
        assert(a == 0 || ba[0] != 0);
        assert(uint_content(a) =~= seq![0u8]);
        assert(false);
    } else if ba[0] >= 0x80 {
        assert(ba =~= uint_content(a).drop_first());
        assert(bb =~= uint_content(b).drop_first());
    }
    crate::der::lemma_be_value_of_bytes(a);
    crate::der::lemma_be_value_of_bytes(b);
}

/// An element followed by more bytes is told apart from another with the
/// same tag: equal byte strings give equal contents and equal rests.
pub proof fn lemma_tlv_prefix(tag: u8, c1: Seq<u8>, r1: Seq<u8>, c2: Seq<u8>, r2: Seq<u8>)
    requires
        c1.len() <= MAX_DER_LEN,
        c2.len() <= MAX_DER_LEN,
        tlv(tag, c1) + r1 == tlv(tag, c2) + r2,
    ensures
        c1 == c2,
        r1 == r2,
{
    let b = tlv(tag, c1) + r1;
    assert(b.subrange(0, tlv(tag, c1).len() as int) =~= tlv(tag, c1));
    assert(b.subrange(0, tlv(tag, c2).len() as int) =~= tlv(tag, c2));
    lemma_header_unique(tag, c1, c2, b);
    assert(r1 =~= b.skip(tlv(tag, c1).len() as int));
    assert(r2 =~= b.skip(tlv(tag, c2).len() as int));
}

/// A `UTF8String` element of a text.
spec fn utf8_tlv(s: Seq<char>) -> Seq<u8> {
    tlv(TAG_UTF8_STRING, encode_utf8(s))
}

/// An element of a text followed by more bytes determines the text.
proof fn lemma_utf8_prefix(s1: Seq<char>, r1: Seq<u8>, s2: Seq<char>, r2: Seq<u8>)
    requires
        encode_utf8(s1).len() <= MAX_DER_LEN,
        encode_utf8(s2).len() <= MAX_DER_LEN,
        utf8_tlv(s1) + r1 == utf8_tlv(s2) + r2,
    ensures
        s1 == s2,
        r1 == r2,
{
    lemma_tlv_prefix(TAG_UTF8_STRING, encode_utf8(s1), r1, encode_utf8(s2), r2);
    assert(decode_utf8(encode_utf8(s1)) == s1);
    assert(decode_utf8(encode_utf8(s2)) == s2);
}

/// The metadata contents determine the metadata.
#[verifier::spinoff_prover]
proof fn lemma_info_injective(i1: DictionaryInfoView, i2: DictionaryInfoView)
    requires
        info_content(i1).len() <= MAX_DER_LEN,
        info_content(i1) == info_content(i2),
    ensures
        i1 == i2,
{
    let a1 = utf8_tlv(i1.1) + utf8_tlv(i1.2) + utf8_tlv(i1.3) + utf8_tlv(i1.4);
    let a2 = utf8_tlv(i2.1) + utf8_tlv(i2.2) + utf8_tlv(i2.3) + utf8_tlv(i2.4);
    assert(info_content(i1) =~= utf8_tlv(i1.0) + a1);
    assert(info_content(i2) =~= utf8_tlv(i2.0) + a2);
    lemma_utf8_prefix(i1.0, a1, i2.0, a2);
    let b1 = utf8_tlv(i1.2) + utf8_tlv(i1.3) + utf8_tlv(i1.4);
    let b2 = utf8_tlv(i2.2) + utf8_tlv(i2.3) + utf8_tlv(i2.4);
    assert(a1 =~= utf8_tlv(i1.1) + b1);
    assert(a2 =~= utf8_tlv(i2.1) + b2);
    lemma_utf8_prefix(i1.1, b1, i2.1, b2);
    let e1 = utf8_tlv(i1.3) + utf8_tlv(i1.4);
    let e2 = utf8_tlv(i2.3) + utf8_tlv(i2.4);
    assert(b1 =~= utf8_tlv(i1.2) + e1);
    assert(b2 =~= utf8_tlv(i2.2) + e2);
    lemma_utf8_prefix(i1.2, e1, i2.2, e2);
    lemma_utf8_prefix(i1.3, utf8_tlv(i1.4), i2.3, utf8_tlv(i2.4));
    assert(utf8_tlv(i1.4) + Seq::<u8>::empty() =~= utf8_tlv(i1.4));
    assert(utf8_tlv(i2.4) + Seq::<u8>::empty() =~= utf8_tlv(i2.4));
    lemma_utf8_prefix(i1.4, Seq::empty(), i2.4, Seq::empty());
}

/// A dictionary file determines its metadata, index and phrase data.
#[verifier::spinoff_prover]
pub proof fn lemma_file_der_injective(
    i1: DictionaryInfoView,
    x1: Seq<u8>,
    d1: Seq<u8>,
    i2: DictionaryInfoView,
    x2: Seq<u8>,
    d2: Seq<u8>,
)
    requires
        file_encodable(i1, x1, d1),
        file_encodable(i2, x2, d2),
        file_der(i1, x1, d1) == file_der(i2, x2, d2),
    ensures
        i1 == i2,
        x1 == x2,
        d1 == d2,
{
    let c1 = file_content(i1, x1, d1);
    let c2 = file_content(i2, x2, d2);
    assert(tlv(TAG_SEQUENCE, c1) + Seq::<u8>::empty() =~= file_der(i1, x1, d1));
    assert(tlv(TAG_SEQUENCE, c2) + Seq::<u8>::empty() =~= file_der(i2, x2, d2));
    lemma_tlv_prefix(TAG_SEQUENCE, c1, Seq::empty(), c2, Seq::empty());
    let p = tlv(TAG_UTF8_STRING, magic_bytes()) + tlv(TAG_INTEGER, uint_content(0));
    let t1 = tlv(TAG_OCTET_STRING, x1) + tlv(TAG_SEQUENCE, d1);
    let t2 = tlv(TAG_OCTET_STRING, x2) + tlv(TAG_SEQUENCE, d2);
    assert(c1 =~= p + (info_der(i1) + t1));
    assert(c2 =~= p + (info_der(i2) + t2));
    assert(info_der(i1) + t1 =~= c1.skip(p.len() as int));
    assert(info_der(i2) + t2 =~= c2.skip(p.len() as int));
    lemma_tlv_prefix(TAG_SEQUENCE, info_content(i1), t1, info_content(i2), t2);
    lemma_tlv_prefix(TAG_OCTET_STRING, x1, tlv(TAG_SEQUENCE, d1), x2, tlv(TAG_SEQUENCE, d2));
    assert(tlv(TAG_SEQUENCE, d1) + Seq::<u8>::empty() =~= tlv(TAG_SEQUENCE, d1));
    assert(tlv(TAG_SEQUENCE, d2) + Seq::<u8>::empty() =~= tlv(TAG_SEQUENCE, d2));
    lemma_tlv_prefix(TAG_SEQUENCE, d1, Seq::empty(), d2, Seq::empty());
    lemma_info_injective(i1, i2);
}

/// Two elements with the same tag that both start a byte string (with
/// contents within the length limit) have the same contents.
pub proof fn lemma_header_unique(tag: u8, c1: Seq<u8>, c2: Seq<u8>, b: Seq<u8>)
    requires
        c1.len() <= MAX_DER_LEN,
        c2.len() <= MAX_DER_LEN,
        b.len() >= tlv(tag, c1).len(),
        b.len() >= tlv(tag, c2).len(),
        b.subrange(0, tlv(tag, c1).len() as int) == tlv(tag, c1),
        b.subrange(0, tlv(tag, c2).len() as int) == tlv(tag, c2),
    ensures
        c1 == c2,
        tlv(tag, c1) == tlv(tag, c2),
{
    crate::der::lemma_len_bytes_shape(c1.len());
    crate::der::lemma_len_bytes_shape(c2.len());
    let l1 = len_bytes(c1.len());
    let l2 = len_bytes(c2.len());
    assert(tlv(tag, c1)[1] == l1[0]);
    assert(tlv(tag, c2)[1] == l2[0]);
    assert(b.subrange(0, tlv(tag, c1).len() as int)[1] == b[1]);
    assert(b.subrange(0, tlv(tag, c2).len() as int)[1] == b[1]);
    assert(b[1] == l1[0]);
    assert(b[1] == l2[0]);
    if c1.len() < 128 || c2.len() < 128 {
        if c1.len() >= 128 {
            assert(l1[0] >= 0x81);
        } else if c2.len() >= 128 {
            assert(l2[0] >= 0x81);
        }
        assert(c1.len() == c2.len());
    } else {
        let d1 = crate::der::be_bytes(c1.len());
        let d2 = crate::der::be_bytes(c2.len());
        assert(d1.len() == d2.len());
        assert forall|i: int| 0 <= i < d1.len() implies d1[i] == d2[i] by {
            assert(b.subrange(0, tlv(tag, c1).len() as int)[2 + i] == b[2 + i]);
            assert(b.subrange(0, tlv(tag, c2).len() as int)[2 + i] == b[2 + i]);
            assert(tlv(tag, c1)[2 + i] == d1[i]);
            assert(tlv(tag, c2)[2 + i] == d2[i]);
        }
        assert(d1 =~= d2);
        crate::der::lemma_be_value_of_bytes(c1.len());
        crate::der::lemma_be_value_of_bytes(c2.len());
    }
    assert(l1 == l2);
    let h = 1 + l1.len();
    assert forall|i: int| 0 <= i < c1.len() implies c1[i] == c2[i] by {
        assert(b.subrange(0, tlv(tag, c1).len() as int)[h + i] == b[h + i]);
        assert(b.subrange(0, tlv(tag, c2).len() as int)[h + i] == b[h + i]);
        assert(tlv(tag, c1)[h + i] == c1[i]);
        assert(tlv(tag, c2)[h + i] == c2[i]);
    }
    assert(c1 =~= c2);
}

/// Reads phrase elements from the start of `b` until the end or until the
/// bytes are not a phrase element.
pub fn read_phrases(b: &[u8]) -> (r: Vec<Phrase>)
    ensures
        crate::dictionary::phrases_view(r@) == decoded_phrases(b@),
{
    let mut out: Vec<Phrase> = Vec::new();
    let mut pos: usize = 0;
    assert(b@.skip(0) =~= b@);
    while pos < b.len()
        invariant
            pos <= b@.len(),
            b@.len() == b.len(),
            decoded_phrases(b@) == crate::dictionary::phrases_view(out@) + decoded_phrases(
                b@.skip(pos as int),
            ),
        decreases b@.len() - pos,
    {
        let ghost rest = b@.skip(pos as int);
        proof {
            assert forall|q: PhraseView| #[trigger] phrase_at_start(rest, q) <==> (phrase_encodable(q)
                && occurs_at(phrase_der(q), b@, pos as int)) by {
                lemma_occurs_skip(phrase_der(q), b@, pos as int);
            }
        }
        match read_phrase(b, pos) {
            None => {
                assert(decoded_phrases(rest) == Seq::<PhraseView>::empty());
                assert(crate::dictionary::phrases_view(out@) + decoded_phrases(rest) =~= crate::dictionary::phrases_view(out@));
                return out;
            },
            Some((p, next)) => {
                proof {
                    assert(phrase_at_start(rest, p@));
                    let c = choose|q: PhraseView| phrase_at_start(rest, q);
                    lemma_phrase_unique(rest, c, p@);
                    assert(rest.skip(phrase_der(p@).len() as int) =~= b@.skip(next as int));
                    assert(crate::dictionary::phrases_view(out@.push(p)) =~= crate::dictionary::phrases_view(out@).push(p@));
                }
                out.push(p);
                pos = next;
            },
        }
    }
    proof {
        assert(b@.skip(pos as int).len() == 0);
        assert forall|q: PhraseView| !phrase_at_start(b@.skip(pos as int), q) by {
            assert(phrase_der(q).len() > 0);
        }
        assert(crate::dictionary::phrases_view(out@) + decoded_phrases(b@.skip(pos as int)) =~= crate::dictionary::phrases_view(out@));
    }
    out
}

/// Appends a `UTF8String` element.
fn push_utf8(out: &mut Vec<u8>, text: &String)
    requires
        encode_utf8(text@).len() <= MAX_DER_LEN,
    ensures
        final(out)@ == old(out)@ + tlv(TAG_UTF8_STRING, encode_utf8(text@)),
{
    push_tlv(out, TAG_UTF8_STRING, text.as_str().as_bytes());
}

/// Appends the DER element of the dictionary metadata.
///
/// Returns `false`, leaving `out` unchanged, when the metadata does not fit
/// the DER length limit.
pub fn push_info(out: &mut Vec<u8>, info: &DictionaryInfo) -> (ok: bool)
    ensures
        ok == info_encodable(info@),
        ok ==> final(out)@ == old(out)@ + info_der(info@),
        !ok ==> final(out)@ == old(out)@,
{
    if info.name.as_str().as_bytes().len() > MAX_DER_LEN || info.copyright.as_str().as_bytes().len()
        > MAX_DER_LEN || info.license.as_str().as_bytes().len() > MAX_DER_LEN
        || info.version.as_str().as_bytes().len() > MAX_DER_LEN
        || info.software.as_str().as_bytes().len() > MAX_DER_LEN {
        return false;
    }
    let mut content: Vec<u8> = Vec::new();
    push_utf8(&mut content, &info.name);
    push_utf8(&mut content, &info.copyright);
    push_utf8(&mut content, &info.license);
    push_utf8(&mut content, &info.version);
    push_utf8(&mut content, &info.software);
    assert(content@ =~= info_content(info@));
    if content.len() > MAX_DER_LEN {
        return false;
    }
    push_tlv(out, TAG_SEQUENCE, content.as_slice());
    true
}

/// Reads the DER element of the dictionary metadata at `pos`, ending no
/// later than `end`.
#[verifier::rlimit(60)]
#[verifier::spinoff_prover]
pub fn read_info(b: &[u8], pos: usize, end: usize) -> (r: Option<(DictionaryInfo, usize)>)
    requires
        end <= b@.len(),
    ensures
        r matches Some((i, next)) ==> {
            &&& info_encodable(i@)
            &&& occurs_at(info_der(i@), b@, pos as int)
            &&& next == pos + info_der(i@).len()
            &&& next <= end
        },
        forall|q: DictionaryInfoView|
            info_encodable(q) && #[trigger] occurs_at(info_der(q), b@, pos as int) && pos + info_der(
                q,
            ).len() <= end ==> (r matches Some((i, next)) && i@ == q && next == pos + info_der(
                q,
            ).len()),
{
    proof {
        assert forall|q: DictionaryInfoView|
            info_encodable(q) && #[trigger] occurs_at(info_der(q), b@, pos as int) implies {
            let s = pos + 1 + len_bytes(info_content(q).len()).len();
            let u0 = tlv(TAG_UTF8_STRING, encode_utf8(q.0));
            let u1 = tlv(TAG_UTF8_STRING, encode_utf8(q.1));
            let u2 = tlv(TAG_UTF8_STRING, encode_utf8(q.2));
            let u3 = tlv(TAG_UTF8_STRING, encode_utf8(q.3));
            let u4 = tlv(TAG_UTF8_STRING, encode_utf8(q.4));
            &&& occurs_at(u0, b@, s)
            &&& occurs_at(u1, b@, s + u0.len())
            &&& occurs_at(u2, b@, s + u0.len() + u1.len())
            &&& occurs_at(u3, b@, s + u0.len() + u1.len() + u2.len())
            &&& occurs_at(u4, b@, s + u0.len() + u1.len() + u2.len() + u3.len())
            &&& info_content(q).len() == u0.len() + u1.len() + u2.len() + u3.len() + u4.len()
        } by {
            let s = pos + 1 + len_bytes(info_content(q).len()).len();
            let u0 = tlv(TAG_UTF8_STRING, encode_utf8(q.0));
            let u1 = tlv(TAG_UTF8_STRING, encode_utf8(q.1));
            let u2 = tlv(TAG_UTF8_STRING, encode_utf8(q.2));
            let u3 = tlv(TAG_UTF8_STRING, encode_utf8(q.3));
            let u4 = tlv(TAG_UTF8_STRING, encode_utf8(q.4));
            lemma_occurs_tlv(TAG_SEQUENCE, info_content(q), b@, pos as int);
            assert(info_content(q) == (((u0 + u1) + u2) + u3) + u4);
            lemma_occurs_concat(((u0 + u1) + u2) + u3, u4, b@, s);
            lemma_occurs_concat((u0 + u1) + u2, u3, b@, s);
            lemma_occurs_concat(u0 + u1, u2, b@, s);
            lemma_occurs_concat(u0, u1, b@, s);
        }
    }
    let (s, e) = match read_tlv(b, pos, TAG_SEQUENCE) {
        None => return None,
        Some(r) => r,
    };
    if e > end {
        return None;
    }
    proof {
        assert forall|q: DictionaryInfoView|
            info_encodable(q) && #[trigger] occurs_at(info_der(q), b@, pos as int) implies s == pos + 1
            + len_bytes(info_content(q).len()).len() && e == pos + info_der(q).len() by {
            let c = info_content(q);
            assert(occurs_at(tlv(TAG_SEQUENCE, c), b@, pos as int));
        }
    }
    let (name, e0) = match read_utf8(b, s, e) {
        None => return None,
        Some(r) => r,
    };
    let (copyright, e1) = match read_utf8(b, e0, e) {
        None => return None,
        Some(r) => r,
    };
    let (license, e2) = match read_utf8(b, e1, e) {
        None => return None,
        Some(r) => r,
    };
    let (version, e3) = match read_utf8(b, e2, e) {
        None => return None,
        Some(r) => r,
    };
    let (software, e4) = match read_utf8(b, e3, e) {
        None => return None,
        Some(r) => r,
    };
    if e4 != e {
        return None;
    }
    let info = DictionaryInfo { name, copyright, license, version, software };
    proof {
        let u0 = tlv(TAG_UTF8_STRING, encode_utf8(info@.0));
        let u1 = tlv(TAG_UTF8_STRING, encode_utf8(info@.1));
        let u2 = tlv(TAG_UTF8_STRING, encode_utf8(info@.2));
        let u3 = tlv(TAG_UTF8_STRING, encode_utf8(info@.3));
        let u4 = tlv(TAG_UTF8_STRING, encode_utf8(info@.4));
        lemma_occurs_join(u0, u1, b@, s as int);
        lemma_occurs_join(u0 + u1, u2, b@, s as int);
        lemma_occurs_join((u0 + u1) + u2, u3, b@, s as int);
        lemma_occurs_join(((u0 + u1) + u2) + u3, u4, b@, s as int);
        assert(info_content(info@) == (((u0 + u1) + u2) + u3) + u4);
        assert(b@.subrange(s as int, e as int) =~= info_content(info@));
        assert(b@.subrange(pos as int, e as int) =~= info_der(info@));
    }
    Some((info, e))
}

/// Encodes a dictionary file from its metadata, index and phrase data.
///
/// Returns `None` when the parts do not fit the DER length limit.
pub fn encode_file(info: &DictionaryInfo, index: &[u8], data: &[u8]) -> (r: Option<Vec<u8>>)
    ensures
        r is Some <==> file_encodable(info@, index@, data@),
        r matches Some(out) ==> out@ == file_der(info@, index@, data@),
{
    let mut content: Vec<u8> = Vec::new();
    let magic: [u8; 4] = [0x43, 0x48, 0x45, 0x57];
    assert(magic@ =~= magic_bytes());
    push_tlv(&mut content, TAG_UTF8_STRING, &magic);
    push_uint(&mut content, TAG_INTEGER, DICT_FORMAT_VERSION as u64);
    if !push_info(&mut content, info) {
        return None;
    }
    if index.len() > MAX_DER_LEN || data.len() > MAX_DER_LEN {
        return None;
    }
    push_tlv(&mut content, TAG_OCTET_STRING, index);
    push_tlv(&mut content, TAG_SEQUENCE, data);
    assert(content@ =~= file_content(info@, index@, data@));
    if content.len() > MAX_DER_LEN {
        return None;
    }
    let mut out: Vec<u8> = Vec::new();
    push_tlv(&mut out, TAG_SEQUENCE, content.as_slice());
    assert(out@ =~= file_der(info@, index@, data@));
    Some(out)
}

/// Decodes a dictionary file into its metadata, index and phrase data.
///
/// Returns `None` unless the bytes are exactly the encoding of a dictionary
/// file of the supported format version.
#[verifier::rlimit(100)]
#[verifier::spinoff_prover]
pub fn decode_file(b: &[u8]) -> (r: Option<(DictionaryInfo, Vec<u8>, Vec<u8>)>)
    ensures
        r matches Some((i, x, d)) ==> file_encodable(i@, x@, d@) && b@ == file_der(i@, x@, d@),
        forall|i: DictionaryInfoView, x: Seq<u8>, d: Seq<u8>|
            file_encodable(i, x, d) && b@ == #[trigger] file_der(i, x, d) ==> (r matches Some(
                (i2, x2, d2),
            ) && i2@ == i && x2@ == x && d2@ == d),
{
    proof {
        lemma_pow256_table();
        assert forall|i: DictionaryInfoView, x: Seq<u8>, d: Seq<u8>|
            file_encodable(i, x, d) && b@ == #[trigger] file_der(i, x, d) implies {
            let s: int = 1 + len_bytes(file_content(i, x, d).len()).len() as int;
            let m = tlv(TAG_UTF8_STRING, magic_bytes());
            let v = tlv(TAG_INTEGER, uint_content(0));
            let f = info_der(i);
            let ix = tlv(TAG_OCTET_STRING, x);
            let dt = tlv(TAG_SEQUENCE, d);
            &&& occurs_at(file_der(i, x, d), b@, 0)
            &&& occurs_at(m, b@, s)
            &&& occurs_at(v, b@, s + m.len())
            &&& occurs_at(f, b@, s + m.len() + v.len())
            &&& occurs_at(ix, b@, s + m.len() + v.len() + f.len())
            &&& occurs_at(dt, b@, s + m.len() + v.len() + f.len() + ix.len())
            &&& file_content(i, x, d).len() == m.len() + v.len() + f.len() + ix.len() + dt.len()
            &&& info_encodable(i)
            &&& x.len() <= MAX_DER_LEN
            &&& d.len() <= MAX_DER_LEN
        } by {
            let s: int = 1 + len_bytes(file_content(i, x, d).len()).len() as int;
            let m = tlv(TAG_UTF8_STRING, magic_bytes());
            let v = tlv(TAG_INTEGER, uint_content(0));
            let f = info_der(i);
            let ix = tlv(TAG_OCTET_STRING, x);
            let dt = tlv(TAG_SEQUENCE, d);
            assert(b@.subrange(0, b@.len() as int) =~= b@);
            lemma_occurs_tlv(TAG_SEQUENCE, file_content(i, x, d), b@, 0);
            assert(file_content(i, x, d) == (((m + v) + f) + ix) + dt);
            lemma_occurs_concat(((m + v) + f) + ix, dt, b@, s);
            lemma_occurs_concat((m + v) + f, ix, b@, s);
            lemma_occurs_concat(m + v, f, b@, s);
            lemma_occurs_concat(m, v, b@, s);
        }
    }
    let (s, e) = match read_tlv(b, 0, TAG_SEQUENCE) {
        None => return None,
        Some(r) => r,
    };
    if e != b.len() {
        return None;
    }
    let (s1, e1) = match read_tlv(b, s, TAG_UTF8_STRING) {
        None => return None,
        Some(r) => r,
    };
    if e1 > e || e1 - s1 != 4 || b[s1] != 0x43 || b[s1 + 1] != 0x48 || b[s1 + 2] != 0x45 || b[s1
        + 3] != 0x57 {
        proof {
            assert forall|i: DictionaryInfoView, x: Seq<u8>, d: Seq<u8>|
                file_encodable(i, x, d) && b@ == #[trigger] file_der(i, x, d) implies false by {
                let m = tlv(TAG_UTF8_STRING, magic_bytes());
                crate::der::lemma_occurs_skip(m, b@, s as int);
                assert(b@.subrange(s1 as int, e1 as int) =~= magic_bytes()) by {
                    lemma_occurs_tlv(TAG_UTF8_STRING, magic_bytes(), b@, s as int);
                }
            }
        }
        return None;
    }
    let (version, e2) = match read_uint_elem(b, e1, e, TAG_INTEGER, 1) {
        None => return None,
        Some(r) => r,
    };
    if version != DICT_FORMAT_VERSION as u64 {
        return None;
    }
    let (info, e3) = match read_info(b, e2, e) {
        None => return None,
        Some(r) => r,
    };
    let (s4, e4) = match read_tlv(b, e3, TAG_OCTET_STRING) {
        None => return None,
        Some(r) => r,
    };
    if e4 > e {
        return None;
    }
    let (s5, e5) = match read_tlv(b, e4, TAG_SEQUENCE) {
        None => return None,
        Some(r) => r,
    };
    if e5 != e {
        return None;
    }
    let index = vstd::slice::slice_to_vec(vstd::slice::slice_subrange(b, s4, e4));
    let data = vstd::slice::slice_to_vec(vstd::slice::slice_subrange(b, s5, e5));
    proof {
        let m = tlv(TAG_UTF8_STRING, magic_bytes());
        let v = tlv(TAG_INTEGER, uint_content(0));
        let f = info_der(info@);
        let ix = tlv(TAG_OCTET_STRING, index@);
        let dt = tlv(TAG_SEQUENCE, data@);
        assert(b@.subrange(s1 as int, e1 as int) =~= magic_bytes());
        lemma_occurs_join(m, v, b@, s as int);
        lemma_occurs_join(m + v, f, b@, s as int);
        lemma_occurs_join((m + v) + f, ix, b@, s as int);
        lemma_occurs_join(((m + v) + f) + ix, dt, b@, s as int);
        assert(file_content(info@, index@, data@) == (((m + v) + f) + ix) + dt);
        assert(b@.subrange(s as int, e as int) =~= file_content(info@, index@, data@));
        assert(b@.subrange(0, e as int) =~= file_der(info@, index@, data@));
        assert(b@.subrange(0, e as int) =~= b@);
    }
    Some((info, index, data))
}

} // verus!



