//! Zhuyin (Bopomofo) syllables packed into 16-bit integers.

use vstd::prelude::*;
use vstd::string::StringExecFns;

verus! {

/// Number of distinct initials (ㄅ .. ㄙ).
pub const INITIAL_COUNT: u16 = 21;
/// Number of distinct medials (ㄧ ㄨ ㄩ).
pub const MEDIAL_COUNT: u16 = 3;
/// Number of distinct rimes (ㄚ .. ㄦ).
pub const RIME_COUNT: u16 = 13;
/// Number of distinct tones.
pub const TONE_COUNT: u16 = 5;

/// The initial component of a packed syllable value (0 when absent).
pub open spec fn initial_of(v: u16) -> int {
    v as int / 512
}

/// The medial component of a packed syllable value (0 when absent).
pub open spec fn medial_of(v: u16) -> int {
    (v as int / 128) % 4
}

/// The rime component of a packed syllable value (0 when absent).
pub open spec fn rime_of(v: u16) -> int {
    (v as int / 8) % 16
}

/// The tone component of a packed syllable value (0 when absent).
pub open spec fn tone_of(v: u16) -> int {
    v as int % 8
}

/// Whether a 16-bit value is the packed form of some syllable.
pub open spec fn valid_syllable_value(v: u16) -> bool {
    &&& initial_of(v) <= INITIAL_COUNT
    &&& rime_of(v) <= RIME_COUNT
    &&& tone_of(v) <= TONE_COUNT
}

/// The packed value of the given components.
pub open spec fn pack_components(initial: int, medial: int, rime: int, tone: int) -> int {
    initial * 512 + medial * 128 + rime * 8 + tone
}

/// Whether the non-empty components of `prefix` all agree with `full`, and
/// `prefix` has at least one component.
pub open spec fn syllable_starts_with(full: u16, prefix: u16) -> bool {
    &&& prefix != 0
    &&& (initial_of(prefix) != 0 ==> initial_of(full) == initial_of(prefix))
    &&& (medial_of(prefix) != 0 ==> medial_of(full) == medial_of(prefix))
    &&& (rime_of(prefix) != 0 ==> rime_of(full) == rime_of(prefix))
    &&& (tone_of(prefix) != 0 ==> tone_of(full) == tone_of(prefix))
}

/// A Zhuyin syllable made of an optional initial, medial, rime and tone.
///
/// The syllable is stored in its packed 16-bit form: bits 9..14 hold the
/// initial, bits 7..9 the medial, bits 3..7 the rime and bits 0..3 the tone.
/// The value 0 is the empty syllable.
#[derive(Clone, Copy, Debug, Default, PartialEq, Eq, Structural, Hash, PartialOrd, Ord)]
pub struct Syllable {
    /// The packed 16-bit value.
    pub value: u16,
}

impl View for Syllable {
    type V = u16;

    open spec fn view(&self) -> u16 {
        self.value
    }
}

impl Syllable {
    /// The empty syllable.
    pub fn empty() -> (s: Syllable)
        ensures
            s@ == 0,
    {
        Syllable { value: 0 }
    }

    /// Builds a syllable from its components (0 means absent).
    ///
    /// Returns `None` when a component is out of range.
    pub fn from_components(initial: u8, medial: u8, rime: u8, tone: u8) -> (r: Option<Syllable>)
        ensures
            r is Some <==> (initial <= INITIAL_COUNT && medial <= MEDIAL_COUNT && rime <= RIME_COUNT
                && tone <= TONE_COUNT),
            r matches Some(s) ==> {
                &&& s@ == pack_components(initial as int, medial as int, rime as int, tone as int)
                &&& initial_of(s@) == initial
                &&& medial_of(s@) == medial
                &&& rime_of(s@) == rime
                &&& tone_of(s@) == tone
                &&& valid_syllable_value(s@)
            },
    {
        if initial as u16 > INITIAL_COUNT || medial as u16 > MEDIAL_COUNT || rime as u16
            > RIME_COUNT || tone as u16 > TONE_COUNT {
            return None;
        }
        let value: u16 = (initial as u16) * 512 + (medial as u16) * 128 + (rime as u16) * 8
            + tone as u16;
        proof {
            lemma_unpack(initial as int, medial as int, rime as int, tone as int);
        }
        Some(Syllable { value })
    }

    /// Decodes a packed syllable value.
    ///
    /// Returns `None` when the value is not the packed form of a syllable.
    pub fn try_from_u16(value: u16) -> (r: Option<Syllable>)
        ensures
            r is Some <==> valid_syllable_value(value),
            r matches Some(s) ==> s@ == value,
    {
        if value / 512 > INITIAL_COUNT || (value / 8) % 16 > RIME_COUNT || value % 8 > TONE_COUNT {
            None
        } else {
            Some(Syllable { value })
        }
    }

    /// The packed 16-bit value of this syllable.
    pub fn to_u16(&self) -> (v: u16)
        ensures
            v == self@,
    {
        self.value
    }

    /// Whether this is the empty syllable.
    pub fn is_empty(&self) -> (b: bool)
        ensures
            b == (self@ == 0),
    {
        self.value == 0
    }

    /// The initial component (0 when absent).
    pub fn initial(&self) -> (c: u16)
        ensures
            c == initial_of(self@),
    {
        self.value / 512
    }

    /// The medial component (0 when absent).
    pub fn medial(&self) -> (c: u16)
        ensures
            c == medial_of(self@),
    {
        (self.value / 128) % 4
    }

    /// The rime component (0 when absent).
    pub fn rime(&self) -> (c: u16)
        ensures
            c == rime_of(self@),
    {
        (self.value / 8) % 16
    }

    /// The tone component (0 when absent).
    pub fn tone(&self) -> (c: u16)
        ensures
            c == tone_of(self@),
    {
        self.value % 8
    }

    /// Whether every component present in `other` is also the component of
    /// this syllable, with `other` not empty.
    pub fn starts_with(&self, other: Syllable) -> (b: bool)
        ensures
            b == syllable_starts_with(self@, other@),
    {
        if other.value == 0 {
            return false;
        }
        (other.initial() == 0 || other.initial() == self.initial()) && (other.medial() == 0
            || other.medial() == self.medial()) && (other.rime() == 0 || other.rime()
            == self.rime()) && (other.tone() == 0 || other.tone() == self.tone())
    }
}

/// Packing components in range and unpacking them gives them back.
pub proof fn lemma_unpack(initial: int, medial: int, rime: int, tone: int)
    requires
        0 <= initial <= INITIAL_COUNT,
        0 <= medial <= MEDIAL_COUNT,
        0 <= rime <= RIME_COUNT,
        0 <= tone <= TONE_COUNT,
    ensures
        ({
            let v = pack_components(initial, medial, rime, tone);
            &&& 0 <= v < 16384
            &&& initial_of(v as u16) == initial
            &&& medial_of(v as u16) == medial
            &&& rime_of(v as u16) == rime
            &&& tone_of(v as u16) == tone
        }),
{
    let v = pack_components(initial, medial, rime, tone);
    assert(v == initial * 512 + (medial * 16 + rime) * 8 + tone);
    assert(v / 8 == initial * 64 + medial * 16 + rime) by (nonlinear_arith)
        requires
            v == initial * 512 + (medial * 16 + rime) * 8 + tone,
            0 <= tone < 8,
    ;
    assert(v / 128 == initial * 4 + medial) by (nonlinear_arith)
        requires
            v == (initial * 4 + medial) * 128 + rime * 8 + tone,
            0 <= rime * 8 + tone < 128,
    ;
    assert(v / 512 == initial) by (nonlinear_arith)
        requires
            v == initial * 512 + medial * 128 + rime * 8 + tone,
            0 <= medial * 128 + rime * 8 + tone < 512,
    ;
    assert(v % 8 == tone) by (nonlinear_arith)
        requires
            v == (initial * 64 + medial * 16 + rime) * 8 + tone,
            0 <= tone < 8,
    ;
    assert((initial * 64 + medial * 16 + rime) % 16 == rime) by (nonlinear_arith)
        requires
            0 <= rime < 16,
            0 <= initial,
            0 <= medial,
    ;
    assert((initial * 4 + medial) % 4 == medial) by (nonlinear_arith)
        requires
            0 <= medial < 4,
            0 <= initial,
    ;
}


/// The Bopomofo letter of an initial (1 is ㄅ, U+3105).
pub open spec fn initial_char(i: int) -> char {
    (0x3104 + i) as char
}

/// The Bopomofo letter of a medial (1 is ㄧ, U+3127).
pub open spec fn medial_char(m: int) -> char {
    (0x3126 + m) as char
}

/// The Bopomofo letter of a rime (1 is ㄚ, U+311A).
pub open spec fn rime_char(r: int) -> char {
    (0x3119 + r) as char
}

/// The mark of a tone: ˉ ˊ ˇ ˋ ˙ for tones 1 to 5.
pub open spec fn tone_char(t: int) -> char {
    if t == 1 {
        '\u{02C9}'
    } else if t == 2 {
        '\u{02CA}'
    } else if t == 3 {
        '\u{02C7}'
    } else if t == 4 {
        '\u{02CB}'
    } else {
        '\u{02D9}'
    }
}

/// The letter of a component that is present, or nothing.
pub open spec fn component_text(present: bool, c: char) -> Seq<char> {
    if present {
        seq![c]
    } else {
        Seq::empty()
    }
}

/// The Bopomofo text of a packed syllable: its initial, medial, rime and
/// tone, those that are present and in range.
pub open spec fn bopomofo_text(v: u16) -> Seq<char> {
    component_text(1 <= initial_of(v) <= INITIAL_COUNT, initial_char(initial_of(v))) + component_text(
        medial_of(v) != 0,
        medial_char(medial_of(v)),
    ) + component_text(1 <= rime_of(v) <= RIME_COUNT, rime_char(rime_of(v))) + component_text(
        1 <= tone_of(v) <= TONE_COUNT,
        tone_char(tone_of(v)),
    )
}

/// The character with the code point `code`, a Bopomofo letter, by
/// `char::from_u32`. Claims what the standard library documents: a code
/// point that is a Unicode scalar value, as each Bopomofo letter is, gives
/// that character.
#[verifier::external_body]
fn bopomofo_char(code: u32) -> (c: char)
    requires
        0x3105 <= code <= 0x3129,
    ensures
        c == code as char,
{
    char::from_u32(code).unwrap()
}

/// Appends a character to a string.
fn push_char(s: &mut String, c: char)
    ensures
        final(s)@ == old(s)@.push(c),
{
    let t = crate::conversion::char_to_string(c);
    s.append(t.as_str());
    assert(final(s)@ =~= old(s)@.push(c));
}

impl Syllable {
    /// The Bopomofo text of the syllable.
    pub fn to_string(&self) -> (s: String)
        ensures
            s@ == bopomofo_text(self@),
    {
        let mut s = String::new();
        let i = self.initial();
        if i != 0 && i <= INITIAL_COUNT {
            push_char(&mut s, bopomofo_char(0x3104 + i as u32));
        }
        let m = self.medial();
        if m != 0 {
            push_char(&mut s, bopomofo_char(0x3126 + m as u32));
        }
        let r = self.rime();
        if r != 0 && r <= RIME_COUNT {
            push_char(&mut s, bopomofo_char(0x3119 + r as u32));
        }
        let t = self.tone();
        if t != 0 && t <= TONE_COUNT {
            let c = if t == 1 {
                '\u{02C9}'
            } else if t == 2 {
                '\u{02CA}'
            } else if t == 3 {
                '\u{02C7}'
            } else if t == 4 {
                '\u{02CB}'
            } else {
                '\u{02D9}'
            };
            push_char(&mut s, c);
        }
        assert(s@ =~= bopomofo_text(self@));
        s
    }
}

/// The components of a packed syllable value are the ones it was packed
/// from.
pub proof fn lemma_pack_components(i: int, m: int, r: int, t: int)
    requires
        0 <= i <= INITIAL_COUNT,
        0 <= m <= MEDIAL_COUNT,
        0 <= r <= RIME_COUNT,
        0 <= t <= TONE_COUNT,
    ensures
        0 <= pack_components(i, m, r, t) < 0x10000,
        initial_of(pack_components(i, m, r, t) as u16) == i,
        medial_of(pack_components(i, m, r, t) as u16) == m,
        rime_of(pack_components(i, m, r, t) as u16) == r,
        tone_of(pack_components(i, m, r, t) as u16) == t,
{
    let v = pack_components(i, m, r, t);
    assert(v == i * 512 + m * 128 + r * 8 + t);
    assert(v == (((i * 4 + m) * 16 + r) * 8 + t)) by (nonlinear_arith)
        requires
            v == i * 512 + m * 128 + r * 8 + t,
    ;
    assert(0 <= v < 0x10000) by (nonlinear_arith)
        requires
            v == (((i * 4 + m) * 16 + r) * 8 + t),
            0 <= i <= 21,
            0 <= m <= 3,
            0 <= r <= 13,
            0 <= t <= 5,
    ;
    assert((v as u16) as int == v);
    vstd::arithmetic::div_mod::lemma_fundamental_div_mod_converse(v, 8, (i * 4 + m) * 16 + r, t);
    let a = (i * 4 + m) * 16 + r;
    vstd::arithmetic::div_mod::lemma_fundamental_div_mod_converse(a, 16, i * 4 + m, r);
    vstd::arithmetic::div_mod::lemma_fundamental_div_mod_converse(i * 4 + m, 4, i, m);
    assert(v / 128 == i * 4 + m) by {
        assert(v == (i * 4 + m) * 128 + (r * 8 + t)) by (nonlinear_arith)
            requires
                v == i * 512 + m * 128 + r * 8 + t,
        ;
        vstd::arithmetic::div_mod::lemma_fundamental_div_mod_converse(v, 128, i * 4 + m, r * 8 + t);
    }
    assert(v / 512 == i) by {
        assert(v == i * 512 + (m * 128 + r * 8 + t));
        vstd::arithmetic::div_mod::lemma_fundamental_div_mod_converse(v, 512, i, m * 128 + r * 8 + t);
    }
}

/// A syllable with the components `i`, `m`, `r`, `t` starts with a prefix
/// syllable with the components `pi`, `pm`, `pr`, `pt` exactly when the
/// prefix has some component and each component that it has (initial,
/// medial, rime and tone) is the same in the syllable. In particular a
/// prefix with a tone never matches a syllable with another tone.
pub proof fn law_prefix_components_agree(i: int, m: int, r: int, t: int, pi: int, pm: int, pr: int, pt: int)
    requires
        0 <= i <= INITIAL_COUNT,
        0 <= m <= MEDIAL_COUNT,
        0 <= r <= RIME_COUNT,
        0 <= t <= TONE_COUNT,
        0 <= pi <= INITIAL_COUNT,
        0 <= pm <= MEDIAL_COUNT,
        0 <= pr <= RIME_COUNT,
        0 <= pt <= TONE_COUNT,
    ensures
        syllable_starts_with(pack_components(i, m, r, t) as u16, pack_components(pi, pm, pr, pt) as u16) <==> (
        (pi != 0 || pm != 0 || pr != 0 || pt != 0) && (pi != 0 ==> pi == i) && (pm != 0 ==> pm == m) && (pr != 0
            ==> pr == r) && (pt != 0 ==> pt == t)),
        pt != 0 && pt != t ==> !syllable_starts_with(
            pack_components(i, m, r, t) as u16,
            pack_components(pi, pm, pr, pt) as u16,
        ),
{
    lemma_pack_components(i, m, r, t);
    lemma_pack_components(pi, pm, pr, pt);
    let p = pack_components(pi, pm, pr, pt);
    if p == 0 {
        assert(pi == 0 && pm == 0 && pr == 0 && pt == 0);
    }
    if pi != 0 || pm != 0 || pr != 0 || pt != 0 {
        assert(p != 0);
        assert((p as u16) != 0u16);
    }
}

} // verus!
