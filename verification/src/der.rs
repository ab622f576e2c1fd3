//! The subset of ASN.1 DER (X.690) used by the dictionary file format:
//! tag-length-value elements with a one byte tag, minimal definite lengths
//! and minimal unsigned `INTEGER` contents.

use vstd::prelude::*;

verus! {

/// Tag of an ASN.1 `INTEGER`.
pub const TAG_INTEGER: u8 = 0x02;
/// Tag of an ASN.1 `OCTET STRING`.
pub const TAG_OCTET_STRING: u8 = 0x04;
/// Tag of an ASN.1 `UTF8String`.
pub const TAG_UTF8_STRING: u8 = 0x0C;
/// Tag of an ASN.1 `SEQUENCE`.
pub const TAG_SEQUENCE: u8 = 0x30;
/// Tag of a primitive context-specific element with tag number 0.
pub const TAG_CONTEXT_0: u8 = 0x80;

/// The largest content length that a DER length field may carry (256 MiB - 1).
pub const MAX_DER_LEN: usize = 0xFFF_FFFF;

/// Minimal big-endian bytes of `v` (a single zero byte for 0).
pub open spec fn be_bytes(v: nat) -> Seq<u8>
    decreases v,
{
    if v < 256 {
        seq![v as u8]
    } else {
        be_bytes(v / 256) + seq![(v % 256) as u8]
    }
}

/// The number denoted by big-endian bytes.
pub open spec fn be_value(s: Seq<u8>) -> nat
    decreases s.len(),
{
    if s.len() == 0 {
        0
    } else {
        be_value(s.drop_last()) * 256 + s.last() as nat
    }
}

/// The DER length octets for a content of `n` bytes.
pub open spec fn len_bytes(n: nat) -> Seq<u8> {
    if n < 128 {
        seq![n as u8]
    } else {
        seq![(0x80 + be_bytes(n).len()) as u8] + be_bytes(n)
    }
}

/// The DER contents of an unsigned `INTEGER`.
pub open spec fn uint_content(v: nat) -> Seq<u8> {
    if be_bytes(v)[0] >= 0x80 {
        seq![0u8] + be_bytes(v)
    } else {
        be_bytes(v)
    }
}

/// A DER element with the given tag and contents.
pub open spec fn tlv(tag: u8, content: Seq<u8>) -> Seq<u8> {
    seq![tag] + len_bytes(content.len()) + content
}

/// Whether `s` occurs in `b` at position `pos`.
pub open spec fn occurs_at(s: Seq<u8>, b: Seq<u8>, pos: int) -> bool {
    &&& 0 <= pos
    &&& pos + s.len() <= b.len()
    &&& b.subrange(pos, pos + s.len()) == s
}

/// `256^n`
pub open spec fn pow256(n: nat) -> nat
    decreases n,
{
    if n == 0 {
        1
    } else {
        256 * pow256((n - 1) as nat)
    }
}

pub proof fn lemma_pow256_pos(n: nat)
    ensures
        pow256(n) >= 1,
    decreases n,
{
    if n > 0 {
        lemma_pow256_pos((n - 1) as nat);
    }
}

/// The minimal big-endian bytes of `v` are at least one byte, at most as
/// many as needed below `256^n`, and start with a non-zero byte unless `v`
/// is zero.
pub proof fn lemma_be_bytes_shape(v: nat)
    ensures
        be_bytes(v).len() >= 1,
        v > 0 ==> be_bytes(v)[0] != 0,
        v == 0 ==> be_bytes(v) == seq![0u8],
        forall|n: nat| v < #[trigger] pow256(n) && n >= 1 ==> be_bytes(v).len() <= n,
    decreases v,
{
    if v >= 256 {
        lemma_be_bytes_shape(v / 256);
        assert forall|n: nat| v < #[trigger] pow256(n) && n >= 1 implies be_bytes(v).len() <= n by {
            assert(n >= 2) by {
                if n == 1 {
                    assert(pow256(1) == 256 * pow256(0));
                }
            }
            let m = (n - 1) as nat;
            assert(pow256(n) == 256 * pow256(m));
            assert(v / 256 < pow256(m)) by (nonlinear_arith)
                requires
                    v < 256 * pow256(m),
            ;
            assert(m >= 1);
        }
    } else {
        assert forall|n: nat| v < #[trigger] pow256(n) && n >= 1 implies be_bytes(v).len() <= n by {
        }
    }
}

/// Reading back minimal big-endian bytes gives the value.
pub proof fn lemma_be_value_of_bytes(v: nat)
    ensures
        be_value(be_bytes(v)) == v,
    decreases v,
{
    if v < 256 {
        let s = seq![v as u8];
        assert(s.drop_last() =~= Seq::<u8>::empty());
        assert(be_value(s.drop_last()) == 0);
        assert(be_value(s) == be_value(s.drop_last()) * 256 + s.last() as nat);
    } else {
        lemma_be_value_of_bytes(v / 256);
        let s = be_bytes(v);
        assert(s.drop_last() =~= be_bytes(v / 256));
        assert(s.last() == (v % 256) as u8);
        assert(be_value(s) == be_value(s.drop_last()) * 256 + s.last() as nat);
        assert((v / 256) * 256 + v % 256 == v) by (nonlinear_arith);
    }
}

/// Bytes without a redundant leading zero are the minimal bytes of their value.
pub proof fn lemma_bytes_of_be_value(s: Seq<u8>)
    requires
        s.len() >= 1,
        s[0] != 0 || s.len() == 1,
    ensures
        be_bytes(be_value(s)) == s,
        be_value(s) < pow256(s.len()),
        s.len() >= 2 ==> be_value(s) >= 256,
    decreases s.len(),
{
    if s.len() == 1 {
        assert(s.drop_last() =~= Seq::<u8>::empty());
        assert(be_value(s.drop_last()) == 0);
        assert(be_value(s) == be_value(s.drop_last()) * 256 + s.last() as nat);
        assert(be_value(s) == s[0] as nat);
        assert(seq![s[0]] =~= s);
        assert(pow256(1) == 256 * pow256(0));
    } else {
        let p = s.drop_last();
        assert(p[0] == s[0]);
        lemma_bytes_of_be_value(p);
        let v = be_value(s);
        let pv = be_value(p);
        assert(v == pv * 256 + s.last() as nat);
        if p.len() == 1 {
            assert(pv == p[0] as nat) by {
                assert(p.drop_last() =~= Seq::<u8>::empty());
                assert(be_value(p.drop_last()) == 0);
                assert(be_value(p) == be_value(p.drop_last()) * 256 + p.last() as nat);
            }
            assert(pv >= 1);
        }
        assert(pv >= 1);
        assert(v >= 256);
        assert(v / 256 == pv) by (nonlinear_arith)
            requires
                v == pv * 256 + s.last() as nat,
                s.last() < 256,
        ;
        assert(v % 256 == s.last() as nat) by (nonlinear_arith)
            requires
                v == pv * 256 + s.last() as nat,
                s.last() < 256,
        ;
        assert(be_bytes(v) =~= p + seq![s.last()]);
        assert(s =~= p + seq![s.last()]);
        assert(pow256(s.len()) == 256 * pow256(p.len()));
        assert(v < pow256(s.len())) by (nonlinear_arith)
            requires
                v == pv * 256 + s.last() as nat,
                s.last() < 256,
                pv < pow256(p.len()),
                pow256(s.len()) == 256 * pow256(p.len()),
        ;
    }
}

/// Values below `256^4` have at most four minimal bytes.
pub proof fn lemma_be_bytes_len_u32(v: nat)
    requires
        v <= 0xFFFF_FFFF,
    ensures
        1 <= be_bytes(v).len() <= 4,
{
    lemma_be_bytes_shape(v);
    assert(pow256(4) == 0x1_0000_0000) by {
        assert(pow256(0) == 1);
        assert(pow256(1) == 256);
        assert(pow256(2) == 65536);
        assert(pow256(3) == 16777216);
    }
}

/// Values below `256^8` have at most eight minimal bytes.
pub proof fn lemma_be_bytes_len_u64(v: nat)
    requires
        v <= 0xFFFF_FFFF_FFFF_FFFF,
    ensures
        1 <= be_bytes(v).len() <= 8,
{
    lemma_be_bytes_shape(v);
    assert(pow256(8) == 0x1_0000_0000_0000_0000) by {
        assert(pow256(0) == 1);
        assert(pow256(1) == 256);
        assert(pow256(2) == 65536);
        assert(pow256(3) == 16777216);
        assert(pow256(4) == 4294967296);
        assert(pow256(5) == 1099511627776);
        assert(pow256(6) == 281474976710656);
        assert(pow256(7) == 72057594037927936);
    }
}

/// Values of `256^n` for small `n`.
pub proof fn lemma_pow256_table()
    ensures
        pow256(0) == 1,
        pow256(1) == 256,
        pow256(2) == 65536,
        pow256(3) == 16777216,
        pow256(4) == 0x1_0000_0000,
        pow256(5) == 0x100_0000_0000,
        pow256(6) == 0x1_0000_0000_0000,
        pow256(7) == 0x100_0000_0000_0000,
        pow256(8) == 0x1_0000_0000_0000_0000,
{
    assert(pow256(0) == 1);
    assert(pow256(1) == 256);
    assert(pow256(2) == 65536);
    assert(pow256(3) == 16777216);
    assert(pow256(4) == 4294967296);
    assert(pow256(5) == 1099511627776);
    assert(pow256(6) == 281474976710656);
    assert(pow256(7) == 72057594037927936);
    assert(pow256(8) == 18446744073709551616);
}

/// An occurrence at `pos` is an occurrence at the start of the rest.
pub proof fn lemma_occurs_skip(s: Seq<u8>, b: Seq<u8>, pos: int)
    requires
        0 <= pos <= b.len(),
    ensures
        occurs_at(s, b, pos) <==> occurs_at(s, b.skip(pos), 0),
{
    if pos + s.len() <= b.len() {
        assert(b.subrange(pos, pos + s.len()) =~= b.skip(pos).subrange(0, s.len() as int));
    }
}

/// Appends `src` to `out`.
pub fn append_bytes(out: &mut Vec<u8>, src: &[u8])
    ensures
        final(out)@ == old(out)@ + src@,
{
    let mut i: usize = 0;
    while i < src.len()
        invariant
            i <= src@.len(),
            out@ == old(out)@ + src@.subrange(0, i as int),
        decreases src@.len() - i,
    {
        out.push(src[i]);
        i = i + 1;
        assert(src@.subrange(0, i as int) =~= src@.subrange(0, (i - 1) as int) + seq![src@[i - 1]]);
    }
    assert(src@.subrange(0, i as int) =~= src@);
}

/// Appends the minimal big-endian bytes of `v`.
pub fn push_be_bytes(out: &mut Vec<u8>, v: u64)
    ensures
        final(out)@ == old(out)@ + be_bytes(v as nat),
    decreases v,
{
    if v < 256 {
        out.push(v as u8);
        assert(old(out)@.push(v as u8) =~= old(out)@ + be_bytes(v as nat));
    } else {
        push_be_bytes(out, v / 256);
        out.push((v % 256) as u8);
        assert(final(out)@ =~= old(out)@ + be_bytes(v as nat)) by {
            assert(be_bytes(v as nat) == be_bytes((v / 256) as nat) + seq![(v % 256) as u8]);
        }
    }
}

/// Appends the DER length octets of a content of `n` bytes.
pub fn push_len(out: &mut Vec<u8>, n: usize)
    requires
        n <= MAX_DER_LEN,
    ensures
        final(out)@ == old(out)@ + len_bytes(n as nat),
{
    if n < 128 {
        out.push(n as u8);
        assert(old(out)@.push(n as u8) =~= old(out)@ + len_bytes(n as nat));
    } else {
        let mut digits: Vec<u8> = Vec::new();
        push_be_bytes(&mut digits, n as u64);
        proof {
            lemma_be_bytes_len_u32(n as nat);
            assert(digits@ =~= be_bytes(n as nat));
        }
        out.push((0x80 + digits.len()) as u8);
        append_bytes(out, digits.as_slice());
        assert(final(out)@ =~= old(out)@ + len_bytes(n as nat));
    }
}

/// Appends the DER contents of an unsigned `INTEGER`.
pub fn push_uint_content(out: &mut Vec<u8>, v: u64)
    ensures
        final(out)@ == old(out)@ + uint_content(v as nat),
{
    let mut digits: Vec<u8> = Vec::new();
    push_be_bytes(&mut digits, v);
    proof {
        lemma_be_bytes_len_u64(v as nat);
        assert(digits@ =~= be_bytes(v as nat));
    }
    if digits[0] >= 0x80 {
        out.push(0);
    }
    append_bytes(out, digits.as_slice());
    assert(final(out)@ =~= old(out)@ + uint_content(v as nat));
}

/// Appends a DER element with the given tag and contents.
pub fn push_tlv(out: &mut Vec<u8>, tag: u8, content: &[u8])
    requires
        content@.len() <= MAX_DER_LEN,
    ensures
        final(out)@ == old(out)@ + tlv(tag, content@),
{
    out.push(tag);
    push_len(out, content.len());
    append_bytes(out, content);
    assert(final(out)@ =~= old(out)@ + tlv(tag, content@));
}

/// Appends a DER unsigned `INTEGER` element with the given tag.
pub fn push_uint(out: &mut Vec<u8>, tag: u8, v: u64)
    ensures
        final(out)@ == old(out)@ + tlv(tag, uint_content(v as nat)),
{
    let mut content: Vec<u8> = Vec::new();
    push_uint_content(&mut content, v);
    proof {
        lemma_be_bytes_len_u64(v as nat);
        assert(content@ =~= uint_content(v as nat));
    }
    push_tlv(out, tag, content.as_slice());
}

/// The DER length octets of a length that fits the format are at most five
/// bytes and their first byte tells how many follow.
pub proof fn lemma_len_bytes_shape(n: nat)
    requires
        n <= MAX_DER_LEN,
    ensures
        1 <= len_bytes(n).len() <= 5,
        n < 128 ==> len_bytes(n).len() == 1 && len_bytes(n)[0] == n,
        n >= 128 ==> len_bytes(n)[0] == 0x80 + be_bytes(n).len() && len_bytes(n).len() == 1
            + be_bytes(n).len(),
        n >= 128 ==> 1 <= be_bytes(n).len() <= 4,
{
    lemma_be_bytes_len_u32(n);
}

/// Reads DER length octets at `pos`.
///
/// Returns the length and the number of octets read. Only the minimal
/// encoding of a length up to `MAX_DER_LEN` is accepted.
pub fn read_len(b: &[u8], pos: usize) -> (r: Option<(usize, usize)>)
    ensures
        r matches Some((n, k)) ==> n <= MAX_DER_LEN && k == len_bytes(n as nat).len() && occurs_at(
            len_bytes(n as nat),
            b@,
            pos as int,
        ),
        forall|n: nat|
            n <= MAX_DER_LEN && #[trigger] occurs_at(len_bytes(n), b@, pos as int) ==> r == Some(
                (n as usize, len_bytes(n).len() as usize),
            ),
{
    if pos >= b.len() {
        proof {
            assert forall|n: nat| n <= MAX_DER_LEN && #[trigger] occurs_at(len_bytes(n), b@, pos as int) implies false by {
                lemma_len_bytes_shape(n);
            }
        }
        return None;
    }
    let first = b[pos];
    if first < 0x80 {
        proof {
            assert(b@.subrange(pos as int, pos + 1) =~= seq![first]);
            assert(len_bytes(first as nat) =~= seq![first]);
            assert forall|n: nat| n <= MAX_DER_LEN && #[trigger] occurs_at(len_bytes(n), b@, pos as int) implies n == first as nat by {
                lemma_len_bytes_shape(n);
                assert(b@.subrange(pos as int, pos + len_bytes(n).len())[0] == first);
            }
        }
        return Some((first as usize, 1));
    }
    if first == 0x80 || first > 0x84 {
        proof {
            assert forall|n: nat| n <= MAX_DER_LEN && #[trigger] occurs_at(len_bytes(n), b@, pos as int) implies false by {
                lemma_len_bytes_shape(n);
                assert(b@.subrange(pos as int, pos + len_bytes(n).len())[0] == first);
            }
        }
        return None;
    }
    let k: usize = (first - 0x80) as usize;
    if b.len() - pos - 1 < k {
        proof {
            assert forall|n: nat| n <= MAX_DER_LEN && #[trigger] occurs_at(len_bytes(n), b@, pos as int) implies false by {
                lemma_len_bytes_shape(n);
                assert(b@.subrange(pos as int, pos + len_bytes(n).len())[0] == first);
            }
        }
        return None;
    }
    let ghost digits = b@.subrange(pos + 1, pos + 1 + k);
    let mut v: u64 = 0;
    let mut i: usize = 0;
    while i < k
        invariant
            1 <= k <= 4,
            pos + 1 + k <= b@.len(),
            b@.len() == b.len(),
            digits == b@.subrange(pos + 1, pos + 1 + k),
            i <= k,
            v == be_value(digits.subrange(0, i as int)),
            v < pow256(i as nat),
        decreases k - i,
    {
        proof {
            assert(digits.subrange(0, (i + 1) as int).drop_last() =~= digits.subrange(0, i as int));
            assert(pow256((i + 1) as nat) == 256 * pow256(i as nat));
            assert(pow256(4) == 0x1_0000_0000) by {
                assert(pow256(0) == 1);
                assert(pow256(1) == 256);
                assert(pow256(2) == 65536);
                assert(pow256(3) == 16777216);
            }
            assert(pow256(i as nat) <= pow256(3)) by {
                assert(pow256(0) == 1);
                assert(pow256(1) == 256);
                assert(pow256(2) == 65536);
                assert(pow256(3) == 16777216);
            }
        }
        let d = b[pos + 1 + i];
        assert(d == digits[i as int]);
        assert(v * 256 + d < 256 * pow256(i as nat)) by (nonlinear_arith)
            requires
                v < pow256(i as nat),
                d < 256,
        ;
        v = v * 256 + d as u64;
        i = i + 1;
    }
    assert(digits.subrange(0, k as int) =~= digits);
    if digits_start_ok(b, pos + 1, k) && v <= MAX_DER_LEN as u64 && v >= 128 {
        proof {
            lemma_bytes_of_be_value(digits);
            lemma_len_bytes_shape(v as nat);
            assert(len_bytes(v as nat) =~= seq![first] + digits);
            assert(b@.subrange(pos as int, pos + 1 + k) =~= seq![first] + digits);
            assert forall|n: nat| n <= MAX_DER_LEN && #[trigger] occurs_at(len_bytes(n), b@, pos as int) implies n == v by {
                lemma_len_bytes_shape(n);
                assert(b@.subrange(pos as int, pos + len_bytes(n).len())[0] == first);
                assert(len_bytes(n)[0] == first);
                assert(n >= 128);
                assert(be_bytes(n).len() == k);
                assert(be_bytes(n) =~= b@.subrange(pos as int, pos + len_bytes(n).len()).subrange(1, 1 + k as int));
                assert(be_bytes(n) =~= digits);
                lemma_be_value_of_bytes(n);
            }
        }
        Some((v as usize, k + 1))
    } else {
        proof {
            assert forall|n: nat| n <= MAX_DER_LEN && #[trigger] occurs_at(len_bytes(n), b@, pos as int) implies false by {
                lemma_len_bytes_shape(n);
                assert(b@.subrange(pos as int, pos + len_bytes(n).len())[0] == first);
                assert(len_bytes(n)[0] == first);
                assert(n >= 128);
                assert(be_bytes(n).len() == k);
                assert(be_bytes(n) =~= b@.subrange(pos as int, pos + len_bytes(n).len()).subrange(1, 1 + k as int));
                assert(be_bytes(n) =~= digits);
                lemma_be_value_of_bytes(n);
                lemma_be_bytes_shape(n);
            }
        }
        None
    }
}

/// Reads a DER element with tag `tag` at `pos`.
///
/// Returns the range of its contents in `b`.
pub fn read_tlv(b: &[u8], pos: usize, tag: u8) -> (r: Option<(usize, usize)>)
    ensures
        r matches Some((s, e)) ==> {
            &&& pos < s <= e <= b@.len()
            &&& e - s <= MAX_DER_LEN
            &&& s == pos + 1 + len_bytes((e - s) as nat).len()
            &&& occurs_at(tlv(tag, b@.subrange(s as int, e as int)), b@, pos as int)
        },
        forall|c: Seq<u8>|
            c.len() <= MAX_DER_LEN && #[trigger] occurs_at(tlv(tag, c), b@, pos as int) ==> (r matches Some(
                (s, e),
            ) && s == pos + 1 + len_bytes(c.len()).len() && e == pos + tlv(tag, c).len()),
{
    if pos >= b.len() || b[pos] != tag {
        proof {
            assert forall|c: Seq<u8>| c.len() <= MAX_DER_LEN && #[trigger] occurs_at(tlv(tag, c), b@, pos as int) implies false by {
                assert(b@.subrange(pos as int, pos + tlv(tag, c).len())[0] == tlv(tag, c)[0]);
            }
        }
        return None;
    }
    let lr = read_len(b, pos + 1);
    proof {
        assert forall|c: Seq<u8>| c.len() <= MAX_DER_LEN && #[trigger] occurs_at(tlv(tag, c), b@, pos as int) implies occurs_at(len_bytes(c.len()), b@, pos + 1) by {
            let t = tlv(tag, c);
            lemma_len_bytes_shape(c.len());
            assert(b@.subrange(pos + 1, pos + 1 + len_bytes(c.len()).len() as int) =~= b@.subrange(pos as int, pos + t.len()).subrange(1, 1 + len_bytes(c.len()).len() as int));
            assert(t.subrange(1, 1 + len_bytes(c.len()).len() as int) =~= len_bytes(c.len()));
        }
    }
    match lr {
        None => None,
        Some((n, k)) => {
            if b.len() - pos - 1 - k < n {
                proof {
                    assert forall|c: Seq<u8>| c.len() <= MAX_DER_LEN && #[trigger] occurs_at(tlv(tag, c), b@, pos as int) implies false by {
                        lemma_len_bytes_shape(c.len());
                    }
                }
                None
            } else {
                let s = pos + 1 + k;
                let e = s + n;
                proof {
                    let c = b@.subrange(s as int, e as int);
                    assert(b@.subrange(pos as int, e as int) =~= seq![tag] + len_bytes(n as nat) + c);
                    assert forall|c2: Seq<u8>| c2.len() <= MAX_DER_LEN && #[trigger] occurs_at(tlv(tag, c2), b@, pos as int) implies c2.len() == n && c2 == c by {
                        lemma_len_bytes_shape(c2.len());
                        assert(c2.len() == n);
                        let t = tlv(tag, c2);
                        assert(c2 =~= t.subrange(1 + len_bytes(c2.len()).len() as int, t.len() as int));
                        assert(c2 =~= b@.subrange(pos as int, pos + t.len()).subrange(1 + len_bytes(c2.len()).len() as int, t.len() as int));
                    }
                }
                Some((s, e))
            }
        },
    }
}

/// Reads the contents `b[s..e]` of an unsigned `INTEGER` of at most
/// `max_bytes` significant bytes.
pub fn read_uint(b: &[u8], s: usize, e: usize, max_bytes: usize) -> (r: Option<u64>)
    requires
        s <= e <= b@.len(),
        1 <= max_bytes <= 8,
    ensures
        r matches Some(v) ==> b@.subrange(s as int, e as int) == uint_content(v as nat) && (v as nat)
            < pow256(max_bytes as nat),
        forall|v: nat|
            v < pow256(max_bytes as nat) && #[trigger] uint_content(v) == b@.subrange(
                s as int,
                e as int,
            ) ==> r == Some(v as u64),
{
    let ghost c = b@.subrange(s as int, e as int);
    proof {
        assert forall|v: nat| v < pow256(max_bytes as nat) && #[trigger] uint_content(v) == c implies ({
            let d = be_bytes(v);
            &&& 1 <= d.len() <= max_bytes
            &&& d == (if c[0] == 0 && c.len() > 1 { c.drop_first() } else { c })
            &&& (c[0] == 0 && c.len() > 1 ==> c[1] >= 0x80)
            &&& c[0] < 0x80
        }) by {
            lemma_be_bytes_shape(v);
            let d = be_bytes(v);
            if d[0] >= 0x80 {
                assert(c =~= seq![0u8] + d);
                assert(c.drop_first() =~= d);
            } else {
                assert(c =~= d);
                if c[0] == 0 && c.len() > 1 {
                    assert(v == 0);
                }
            }
        }
    }
    if s == e || (b[s] == 0 && e - s > 1 && b[s + 1] < 0x80) || b[s] >= 0x80 {
        return None;
    }
    let start = if b[s] == 0 && e - s > 1 {
        s + 1
    } else {
        s
    };
    let ghost d = b@.subrange(start as int, e as int);
    assert(d == (if c[0] == 0 && c.len() > 1 { c.drop_first() } else { c }));
    if e - start > max_bytes {
        return None;
    }
    let k = e - start;
    let mut v: u64 = 0;
    let mut i: usize = 0;
    assert(pow256(8) == 0x1_0000_0000_0000_0000) by {
        assert(pow256(0) == 1);
        assert(pow256(1) == 256);
        assert(pow256(2) == 65536);
        assert(pow256(3) == 16777216);
        assert(pow256(4) == 4294967296);
        assert(pow256(5) == 1099511627776);
        assert(pow256(6) == 281474976710656);
        assert(pow256(7) == 72057594037927936);
    }
    while i < k
        invariant
            1 <= k <= max_bytes <= 8,
            start + k == e,
            e <= b@.len(),
            b@.len() == b.len(),
            d == b@.subrange(start as int, e as int),
            i <= k,
            v == be_value(d.subrange(0, i as int)),
            v < pow256(i as nat),
            pow256(8) == 0x1_0000_0000_0000_0000,
        decreases k - i,
    {
        proof {
            assert(d.subrange(0, (i + 1) as int).drop_last() =~= d.subrange(0, i as int));
            assert(pow256((i + 1) as nat) == 256 * pow256(i as nat));
            lemma_pow256_mono((i + 1) as nat, 8);
        }
        let x = b[start + i];
        assert(x == d[i as int]);
        assert(v * 256 + x < 256 * pow256(i as nat)) by (nonlinear_arith)
            requires
                v < pow256(i as nat),
                x < 256,
        ;
        v = v * 256 + x as u64;
        i = i + 1;
    }
    assert(d.subrange(0, k as int) =~= d);
    proof {
        lemma_bytes_of_be_value(d);
        lemma_pow256_mono(k as nat, max_bytes as nat);
        assert(uint_content(v as nat) =~= c);
        assert forall|w: nat| w < pow256(max_bytes as nat) && #[trigger] uint_content(w) == c implies w == v as nat by {
            lemma_be_value_of_bytes(w);
            assert(be_bytes(w) == d);
        }
    }
    Some(v)
}

/// `256^n` grows with `n`.
pub proof fn lemma_pow256_mono(a: nat, b: nat)
    requires
        a <= b,
    ensures
        pow256(a) <= pow256(b),
    decreases b,
{
    if a < b {
        lemma_pow256_mono(a, (b - 1) as nat);
        lemma_pow256_pos((b - 1) as nat);
        assert(pow256(b) == 256 * pow256((b - 1) as nat));
    }
}

/// Whether the `k` digit bytes at `start` have no redundant leading zero.
fn digits_start_ok(b: &[u8], start: usize, k: usize) -> (r: bool)
    requires
        1 <= k,
        start + k <= b@.len(),
    ensures
        r == (b@[start as int] != 0 || k == 1),
{
    b[start] != 0 || k == 1
}

} // verus!
