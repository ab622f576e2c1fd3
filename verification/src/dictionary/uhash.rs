//! Reads the old text or binary user dictionary `uhash.dat`.
//!
//! The text form starts with a line holding the decimal lifetime record.
//! Each following line is a user phrase record of words separated by ASCII
//! whitespace: the phrase, one decimal syllable for each of its characters,
//! then the user frequency, the recent time, the maximum frequency and the
//! original frequency.
//!
//! The binary form starts with the signature `CBiH` and a four byte
//! lifetime, followed by records of a fixed size holding integers in the
//! byte order of the machine that wrote them.

use vstd::prelude::*;
use vstd::utf8::*;

use crate::conversion::char_to_string;
use crate::dictionary::Phrase;
use crate::dictionary::trie_format::utf8_to_string;
use crate::dictionary::trie_walk::{EntryView, entries_view};
use crate::zhuyin::{Syllable, valid_syllable_value};
use vstd::string::{StrSliceExecFns, StringExecFns};

verus! {

/// Why an old user dictionary could not be read.
#[derive(Debug, Clone, Copy, PartialEq, Eq, Structural)]
pub enum UhashError {
    /// The data is not in the format.
    InvalidData,
    /// The data ends inside its header.
    UnexpectedEof,
}

/// A line without the carriage return that ended it, if any.
pub open spec fn strip_cr(l: Seq<u8>) -> Seq<u8> {
    if l.len() > 0 && l.last() == 13u8 {
        l.drop_last()
    } else {
        l
    }
}

/// The finished lines and the unfinished line of a text read so far.
pub open spec fn line_split(b: Seq<u8>) -> (Seq<Seq<u8>>, Seq<u8>)
    decreases b.len(),
{
    if b.len() == 0 {
        (Seq::empty(), Seq::empty())
    } else {
        let prev = line_split(b.drop_last());
        if b.last() == 10u8 {
            (prev.0.push(strip_cr(prev.1)), Seq::empty())
        } else {
            (prev.0, prev.1.push(b.last()))
        }
    }
}

/// The lines of a text: split after each newline, each without its
/// newline and a carriage return before it; an unfinished last line counts
/// when it is not empty.
pub open spec fn text_lines(b: Seq<u8>) -> Seq<Seq<u8>> {
    let s = line_split(b);
    if s.1.len() > 0 {
        s.0.push(s.1)
    } else {
        s.0
    }
}

/// Whether a character is ASCII whitespace.
pub open spec fn is_ascii_ws(c: char) -> bool {
    c == ' ' || c == '\t' || c == '\n' || c == '\x0C' || c == '\r'
}

/// The finished words and the unfinished word of a text read so far.
pub open spec fn word_split(cs: Seq<char>) -> (Seq<Seq<char>>, Seq<char>)
    decreases cs.len(),
{
    if cs.len() == 0 {
        (Seq::empty(), Seq::empty())
    } else {
        let prev = word_split(cs.drop_last());
        if is_ascii_ws(cs.last()) {
            if prev.1.len() > 0 {
                (prev.0.push(prev.1), Seq::empty())
            } else {
                prev
            }
        } else {
            (prev.0, prev.1.push(cs.last()))
        }
    }
}

/// The words of a text separated by ASCII whitespace.
pub open spec fn ascii_words(cs: Seq<char>) -> Seq<Seq<char>> {
    let s = word_split(cs);
    if s.1.len() > 0 {
        s.0.push(s.1)
    } else {
        s.0
    }
}

/// Whether a character is a decimal digit.
pub open spec fn is_digit(c: char) -> bool {
    '0' <= c <= '9'
}

/// The value of a decimal digit.
pub open spec fn digit_value(c: char) -> nat {
    (c as int - '0' as int) as nat
}

/// The value of decimal digits.
pub open spec fn decimal_value(d: Seq<char>) -> nat
    decreases d.len(),
{
    if d.len() == 0 {
        0
    } else {
        decimal_value(d.drop_last()) * 10 + digit_value(d.last())
    }
}

/// The digits of an unsigned number: without a leading `+`.
pub open spec fn unsigned_digits(s: Seq<char>) -> Seq<char> {
    if s.len() > 0 && s[0] == '+' {
        s.drop_first()
    } else {
        s
    }
}

/// The unsigned number a word spells, as `str::parse` reads it for an
/// unsigned type whose largest value is `max`: an optional `+`, then at
/// least one decimal digit, and no more than `max`.
pub open spec fn parse_unsigned(s: Seq<char>, max: nat) -> Option<nat> {
    let d = unsigned_digits(s);
    if d.len() > 0 && (forall|i: int| 0 <= i < d.len() ==> is_digit(#[trigger] d[i])) && decimal_value(d) <= max {
        Some(decimal_value(d))
    } else {
        None
    }
}

/// Whether a word spells a syllable.
pub open spec fn syllable_word(w: Seq<char>) -> bool {
    parse_unsigned(w, 0xffff) matches Some(v) && valid_syllable_value(v as u16)
}

/// The entry of a text record, if its words form one: the phrase, a
/// syllable for each of its characters, and four unsigned numbers of which
/// the first two are the frequency and the time of last use.
pub open spec fn text_record(w: Seq<Seq<char>>) -> Option<EntryView> {
    if w.len() == 0 {
        None
    } else {
        let n = w[0].len() as int;
        if w.len() < n + 5 {
            None
        } else if exists|k: int| 0 <= k < n && !syllable_word(#[trigger] w[1 + k]) {
            None
        } else if parse_unsigned(w[n + 1], 0xffff_ffff) is None || parse_unsigned(w[n + 2], 0xffff_ffff_ffff_ffff)
            is None || parse_unsigned(w[n + 3], 0xffff_ffff) is None || parse_unsigned(w[n + 4], 0xffff_ffff) is None {
            None
        } else {
            Some(
                (
                    Seq::new(n as nat, |k: int| parse_unsigned(w[1 + k], 0xffff)->0 as u16),
                    (w[0], parse_unsigned(w[n + 1], 0xffff_ffff)->0 as u32, Some(
                        parse_unsigned(w[n + 2], 0xffff_ffff_ffff_ffff)->0 as u64,
                    )),
                ),
            )
        }
    }
}

/// The entries of record lines, if each is valid UTF-8 and a record.
pub open spec fn text_records(ls: Seq<Seq<u8>>) -> Option<Seq<EntryView>>
    decreases ls.len(),
{
    if ls.len() == 0 {
        Some(Seq::empty())
    } else {
        match text_records(ls.drop_last()) {
            Some(es) => if valid_utf8(ls.last()) {
                match text_record(ascii_words(decode_utf8(ls.last()))) {
                    Some(e) => Some(es.push(e)),
                    None => None,
                }
            } else {
                None
            },
            None => None,
        }
    }
}

/// The entries of a text user dictionary: `None` unless its first line is
/// a lifetime that fits 16 bits and each further line is a record.
pub open spec fn uhash_text(b: Seq<u8>) -> Option<Seq<EntryView>> {
    let ls = text_lines(b);
    if ls.len() == 0 || !valid_utf8(ls[0]) || parse_unsigned(decode_utf8(ls[0]), 0xffff) is None {
        None
    } else {
        text_records(ls.drop_first())
    }
}

/// The views of lines.
pub open spec fn lines_view(s: Seq<Vec<u8>>) -> Seq<Seq<u8>> {
    s.map_values(|l: Vec<u8>| l@)
}

/// The views of words.
pub open spec fn words_view(s: Seq<Vec<char>>) -> Seq<Seq<char>> {
    s.map_values(|w: Vec<char>| w@)
}

/// The lines of a text ([`text_lines`]).
fn split_lines(b: &[u8]) -> (r: Vec<Vec<u8>>)
    ensures
        lines_view(r@) == text_lines(b@),
{
    let mut lines: Vec<Vec<u8>> = Vec::new();
    let mut cur: Vec<u8> = Vec::new();
    let mut i: usize = 0;
    while i < b.len()
        invariant
            i <= b@.len(),
            (lines_view(lines@), cur@) == line_split(b@.take(i as int)),
        decreases b@.len() - i,
    {
        assert(b@.take(i + 1).drop_last() =~= b@.take(i as int));
        let x = b[i];
        if x == 10u8 {
            let ghost lo = lines_view(lines@);
            let ghost co = cur@;
            if cur.len() > 0 && cur[cur.len() - 1] == 13u8 {
                cur.pop();
            }
            assert(cur@ == strip_cr(co));
            lines.push(cur);
            cur = Vec::new();
            assert(lines_view(lines@) =~= lo.push(strip_cr(co)));
        } else {
            cur.push(x);
        }
        i = i + 1;
    }
    assert(b@.take(i as int) =~= b@);
    if cur.len() > 0 {
        let ghost lo = lines_view(lines@);
        let ghost co = cur@;
        lines.push(cur);
        assert(lines_view(lines@) =~= lo.push(co));
    }
    lines
}

/// The characters of a text.
fn chars_of(s: &String) -> (r: Vec<char>)
    ensures
        r@ == s@,
{
    let t = s.as_str();
    let n = t.unicode_len();
    let mut r: Vec<char> = Vec::new();
    let mut i: usize = 0;
    while i < n
        invariant
            i <= n,
            n == t@.len(),
            t@ == s@,
            r@ == t@.take(i as int),
        decreases n - i,
    {
        r.push(t.get_char(i));
        assert(r@ =~= t@.take(i + 1));
        i = i + 1;
    }
    assert(t@.take(i as int) =~= t@);
    r
}

/// The text of characters.
fn string_of(cs: &Vec<char>) -> (r: String)
    ensures
        r@ == cs@,
{
    let mut r = String::new();
    let mut i: usize = 0;
    while i < cs.len()
        invariant
            i <= cs@.len(),
            r@ == cs@.take(i as int),
        decreases cs@.len() - i,
    {
        let one = char_to_string(cs[i]);
        r.append(one.as_str());
        assert(r@ =~= cs@.take(i + 1));
        i = i + 1;
    }
    assert(cs@.take(i as int) =~= cs@);
    r
}

/// Whether a character is ASCII whitespace.
fn ascii_ws(c: char) -> (b: bool)
    ensures
        b == is_ascii_ws(c),
{
    c == ' ' || c == '\t' || c == '\n' || c == '\x0C' || c == '\r'
}

/// The words of a text separated by ASCII whitespace ([`ascii_words`]).
fn split_words(cs: &Vec<char>) -> (r: Vec<Vec<char>>)
    ensures
        words_view(r@) == ascii_words(cs@),
{
    let mut words: Vec<Vec<char>> = Vec::new();
    let mut cur: Vec<char> = Vec::new();
    let mut i: usize = 0;
    while i < cs.len()
        invariant
            i <= cs@.len(),
            (words_view(words@), cur@) == word_split(cs@.take(i as int)),
        decreases cs@.len() - i,
    {
        assert(cs@.take(i + 1).drop_last() =~= cs@.take(i as int));
        let c = cs[i];
        if ascii_ws(c) {
            if cur.len() > 0 {
                let ghost wo = words_view(words@);
                let ghost co = cur@;
                words.push(cur);
                cur = Vec::new();
                assert(words_view(words@) =~= wo.push(co));
            }
        } else {
            cur.push(c);
        }
        i = i + 1;
    }
    assert(cs@.take(i as int) =~= cs@);
    if cur.len() > 0 {
        let ghost wo = words_view(words@);
        let ghost co = cur@;
        words.push(cur);
        assert(words_view(words@) =~= wo.push(co));
    }
    words
}

proof fn lemma_decimal_grows(d: Seq<char>, i: int, j: int)
    requires
        0 <= i <= j <= d.len(),
    ensures
        decimal_value(d.take(i)) <= decimal_value(d.take(j)),
    decreases j - i,
{
    if i < j {
        lemma_decimal_grows(d, i, j - 1);
        assert(d.take(j).drop_last() =~= d.take(j - 1));
    }
}

/// The unsigned number a word spells, if at most `max`
/// ([`parse_unsigned`]).
fn parse_number(w: &Vec<char>, max: u64) -> (r: Option<u64>)
    ensures
        r is Some <==> parse_unsigned(w@, max as nat) is Some,
        r matches Some(v) ==> parse_unsigned(w@, max as nat) == Some(v as nat),
{
    let n = w.len();
    let mut start: usize = 0;
    if n > 0 && w[0] == '+' {
        start = 1;
    }
    let ghost d = unsigned_digits(w@);
    assert(d =~= w@.subrange(start as int, n as int));
    if start >= n {
        return None;
    }
    let mut acc: u64 = 0;
    let mut i: usize = start;
    while i < n
        invariant
            start <= i <= n,
            n == w@.len(),
            d == w@.subrange(start as int, n as int),
            d == unsigned_digits(w@),
            forall|k: int| 0 <= k < i - start ==> is_digit(#[trigger] d[k]),
            acc as nat == decimal_value(d.take(i - start)),
            acc <= max,
        decreases n - i,
    {
        let c = w[i];
        assert(c == d[i - start]);
        if !('0' <= c && c <= '9') {
            assert(!is_digit(d[i - start]));
            return None;
        }
        let digit = (c as u32 - '0' as u32) as u64;
        assert(d.take(i - start + 1).drop_last() =~= d.take(i - start));
        assert(d.take(i - start + 1).last() == c);
        let next: u128 = (acc as u128) * 10 + digit as u128;
        if next > max as u128 {
            proof {
                assert(digit_value(c) == digit);
                assert(decimal_value(d.take(i - start + 1)) == acc * 10 + digit);
                if forall|k: int| 0 <= k < d.len() ==> is_digit(#[trigger] d[k]) {
                    lemma_decimal_grows(d, i - start + 1, d.len() as int);
                    assert(d.take(d.len() as int) =~= d);
                }
            }
            return None;
        }
        acc = next as u64;
        i = i + 1;
    }
    assert(d.take(i - start) =~= d);
    Some(acc)
}

/// The entry of a text record ([`text_record`]).
fn parse_record(w: &Vec<Vec<char>>) -> (r: Option<(Vec<Syllable>, Phrase)>)
    ensures
        r is Some <==> text_record(words_view(w@)) is Some,
        r matches Some(e) ==> text_record(words_view(w@)) == Some((crate::dictionary::trie::syllables_view(e.0@), e.1@)),
{
    let ghost wv = words_view(w@);
    if w.len() == 0 {
        return None;
    }
    let n = w[0].len();
    assert(wv[0] == w@[0]@);
    if w.len() < 5 || w.len() - 5 < n {
        return None;
    }
    let mut syllables: Vec<Syllable> = Vec::new();
    let mut k: usize = 0;
    while k < n
        invariant
            wv == words_view(w@),
            n == wv[0].len(),
            w@.len() >= n + 5,
            k <= n,
            syllables@.len() == k,
            forall|x: int| 0 <= x < k ==> syllable_word(#[trigger] wv[1 + x]),
            forall|x: int|
                0 <= x < k ==> (#[trigger] syllables@[x])@ == parse_unsigned(wv[1 + x], 0xffff)->0 as u16,
        decreases n - k,
    {
        assert(wv[1 + k as int] == w@[1 + k as int]@);
        let v = match parse_number(&w[1 + k], 0xffff) {
            Some(v) => v,
            None => {
                assert(!syllable_word(wv[1 + k as int]));
                return None;
            },
        };
        let s = match Syllable::try_from_u16(v as u16) {
            Some(s) => s,
            None => {
                assert(!syllable_word(wv[1 + k as int]));
                return None;
            },
        };
        syllables.push(s);
        k = k + 1;
    }
    assert(wv[n + 1] == w@[n + 1]@ && wv[n + 2] == w@[n + 2]@ && wv[n + 3] == w@[n + 3]@ && wv[n + 4] == w@[n + 4]@);
    let freq = match parse_number(&w[n + 1], 0xffff_ffff) {
        Some(v) => v,
        None => {
            return None;
        },
    };
    let time = match parse_number(&w[n + 2], 0xffff_ffff_ffff_ffff) {
        Some(v) => v,
        None => {
            return None;
        },
    };
    if parse_number(&w[n + 3], 0xffff_ffff).is_none() || parse_number(&w[n + 4], 0xffff_ffff).is_none() {
        return None;
    }
    let text = string_of(&w[0]);
    let p = Phrase { phrase: text, freq: freq as u32, last_used: Some(time) };
    proof {
        let sv = crate::dictionary::trie::syllables_view(syllables@);
        assert(sv =~= Seq::new(n as nat, |x: int| parse_unsigned(wv[1 + x], 0xffff)->0 as u16));
    }
    Some((syllables, p))
}

/// A record line that fails fails the whole text.
proof fn lemma_records_fail_on(ls: Seq<Seq<u8>>, j: int)
    requires
        0 <= j <= ls.len(),
        text_records(ls.take(j)) is None,
    ensures
        text_records(ls) is None,
    decreases ls.len() - j,
{
    if j < ls.len() {
        assert(ls.take(j + 1).drop_last() =~= ls.take(j));
        lemma_records_fail_on(ls, j + 1);
    } else {
        assert(ls.take(j) =~= ls);
    }
}

/// Reads a text user dictionary ([`uhash_text`]); every failure is
/// [`UhashError::InvalidData`].
pub fn try_load_text(input: &[u8]) -> (r: Result<Vec<(Vec<Syllable>, Phrase)>, UhashError>)
    ensures
        match uhash_text(input@) {
            Some(es) => r matches Ok(v) && entries_view(v@) == es,
            None => r == Err::<Vec<(Vec<Syllable>, Phrase)>, UhashError>(UhashError::InvalidData),
        },
{
    let lines = split_lines(input);
    let ghost lv = lines_view(lines@);
    if lines.len() == 0 {
        return Err(UhashError::InvalidData);
    }
    assert(lv[0] == lines@[0]@);
    assert(lv == text_lines(input@));
    let first = match utf8_to_string(lines[0].as_slice()) {
        Some(s) => s,
        None => {
            assert(!valid_utf8(lv[0]));
            return Err(UhashError::InvalidData);
        },
    };
    let first_chars = chars_of(&first);
    if parse_number(&first_chars, 0xffff).is_none() {
        assert(first_chars@ == decode_utf8(lv[0]));
        return Err(UhashError::InvalidData);
    }
    let ghost rest = lv.drop_first();
    let mut result: Vec<(Vec<Syllable>, Phrase)> = Vec::new();
    let mut i: usize = 1;
    assert(rest.take(0) =~= Seq::<Seq<u8>>::empty());
    while i < lines.len()
        invariant
            lv == lines_view(lines@),
            lv == text_lines(input@),
            lv.len() > 0,
            valid_utf8(lv[0]),
            parse_unsigned(decode_utf8(lv[0]), 0xffff) is Some,
            rest == lv.drop_first(),
            1 <= i <= lines@.len(),
            text_records(rest.take(i - 1)) == Some(entries_view(result@)),
        decreases lines@.len() - i,
    {
        assert(rest.take(i as int).drop_last() =~= rest.take(i - 1));
        assert(rest.take(i as int).last() == lines@[i as int]@);
        let line = match utf8_to_string(lines[i].as_slice()) {
            Some(s) => s,
            None => {
                proof {
                    assert(text_records(rest.take(i as int)) is None);
                    lemma_records_fail_on(rest, i as int);
                }
                return Err(UhashError::InvalidData);
            },
        };
        let words = split_words(&chars_of(&line));
        let e = match parse_record(&words) {
            Some(e) => e,
            None => {
                proof {
                    assert(text_records(rest.take(i as int)) is None);
                    lemma_records_fail_on(rest, i as int);
                }
                return Err(UhashError::InvalidData);
            },
        };
        let ghost ro = entries_view(result@);
        let ghost ev = (crate::dictionary::trie::syllables_view(e.0@), e.1@);
        result.push(e);
        assert(entries_view(result@) =~= ro.push(ev));
        i = i + 1;
    }
    assert(rest.take(i - 1) =~= rest);
    Ok(result)
}


/// The size of a record of the binary form.
pub const BIN_FIELD_SIZE: usize = 125;

/// The unsigned value of the four bytes at `i`, in little-endian order if
/// `little`, else in big-endian order.
pub open spec fn bytes_u32(r: Seq<u8>, i: int, little: bool) -> nat {
    if little {
        (r[i] + 256 * r[i + 1] + 65536 * r[i + 2] + 16777216 * r[i + 3]) as nat
    } else {
        (r[i + 3] + 256 * r[i + 2] + 65536 * r[i + 1] + 16777216 * r[i]) as nat
    }
}

/// Whether the four bytes at `i` are a negative 32-bit integer in the
/// given byte order.
pub open spec fn bytes_negative(r: Seq<u8>, i: int, little: bool) -> bool {
    if little {
        r[i + 3] >= 128
    } else {
        r[i] >= 128
    }
}

/// The value of the two bytes at `i` in the given byte order.
pub open spec fn bytes_u16(r: Seq<u8>, i: int, little: bool) -> nat {
    if little {
        (r[i] + 256 * r[i + 1]) as nat
    } else {
        (256 * r[i] + r[i + 1]) as nat
    }
}

/// What a binary record gives.
pub enum BinRecordView {
    /// An entry.
    Entry(EntryView),
    /// Nothing: a removed record, a negative integer or a phrase that is
    /// not UTF-8.
    Skipped,
    /// A syllable that is not one: the data is invalid.
    Invalid,
    /// A length that reaches past the record.
    OutOfBounds,
}

/// What the binary record `r` gives: four 32-bit integers (frequency,
/// time of last use, maximum and original frequency), the number of
/// syllables, the syllables, the length of the phrase in bytes and the
/// phrase.
pub open spec fn bin_record(r: Seq<u8>, little: bool) -> BinRecordView {
    if bytes_negative(r, 0, little) || bytes_negative(r, 4, little) || bytes_negative(r, 8, little) || bytes_negative(
        r,
        12,
        little,
    ) {
        BinRecordView::Skipped
    } else {
        let len = r[16] as int;
        if 18 + 2 * len >= 125 {
            BinRecordView::OutOfBounds
        } else if r[18 + 2 * len] == 0 {
            BinRecordView::Skipped
        } else if exists|k: int| 0 <= k < len && !valid_syllable_value(#[trigger] bytes_u16(r, 17 + 2 * k, little) as u16) {
            BinRecordView::Invalid
        } else {
            let base = 17 + 2 * len;
            let bytes = r[base] as int;
            if base + bytes + 1 > 125 {
                BinRecordView::OutOfBounds
            } else if !valid_utf8(r.subrange(base + 1, base + 1 + bytes)) {
                BinRecordView::Skipped
            } else {
                BinRecordView::Entry(
                    (
                        Seq::new(len as nat, |k: int| bytes_u16(r, 17 + 2 * k, little) as u16),
                        (decode_utf8(r.subrange(base + 1, base + 1 + bytes)), bytes_u32(r, 0, little) as u32, Some(
                            bytes_u32(r, 4, little) as u64,
                        )),
                    ),
                )
            }
        }
    }
}

/// What reading a binary user dictionary gives.
pub enum BinLoadView {
    /// The entries.
    Entries(Seq<EntryView>),
    /// The data is invalid.
    Invalid,
    /// The data ends inside the header.
    Eof,
    /// A record has a length that reaches past it.
    OutOfBounds,
}

/// What the records from `pos` on give: the entries of the complete
/// records, up to the first invalid record or record with a length out of
/// bounds.
pub open spec fn bin_from(b: Seq<u8>, pos: nat, little: bool) -> BinLoadView
    decreases b.len() - pos,
{
    if pos + 125 > b.len() {
        BinLoadView::Entries(Seq::empty())
    } else {
        match bin_record(b.subrange(pos as int, pos + 125int), little) {
            BinRecordView::Entry(e) => match bin_from(b, pos + 125, little) {
                BinLoadView::Entries(es) => BinLoadView::Entries(seq![e] + es),
                other => other,
            },
            BinRecordView::Skipped => bin_from(b, pos + 125, little),
            BinRecordView::Invalid => BinLoadView::Invalid,
            BinRecordView::OutOfBounds => BinLoadView::OutOfBounds,
        }
    }
}

/// What a binary user dictionary gives: the signature `CBiH`, a four byte
/// lifetime, then the records.
pub open spec fn uhash_bin(b: Seq<u8>, little: bool) -> BinLoadView {
    if b.len() < 4 {
        BinLoadView::Eof
    } else if b.take(4) != seq![67u8, 66u8, 105u8, 72u8] {
        BinLoadView::Invalid
    } else if b.len() < 8 {
        BinLoadView::Eof
    } else {
        bin_from(b, 8, little)
    }
}

/// Entries put before what later records give.
pub open spec fn prepend_entries(es: Seq<EntryView>, o: BinLoadView) -> BinLoadView {
    match o {
        BinLoadView::Entries(xs) => BinLoadView::Entries(es + xs),
        other => other,
    }
}

/// Whether a result is what reading gives.
pub open spec fn bin_result(r: Result<Vec<(Vec<Syllable>, Phrase)>, UhashError>, o: BinLoadView) -> bool {
    match o {
        BinLoadView::Entries(es) => r matches Ok(v) && entries_view(v@) == es,
        BinLoadView::Invalid => r == Err::<Vec<(Vec<Syllable>, Phrase)>, UhashError>(UhashError::InvalidData),
        BinLoadView::Eof => r == Err::<Vec<(Vec<Syllable>, Phrase)>, UhashError>(UhashError::UnexpectedEof),
        BinLoadView::OutOfBounds => false,
    }
}

/// A binary record read.
enum BinRecord {
    Entry(Vec<Syllable>, Phrase),
    Skipped,
    Invalid,
    OutOfBounds,
}

/// Whether a record read is what the record gives.
spec fn record_read(x: BinRecord, o: BinRecordView) -> bool {
    match o {
        BinRecordView::Entry(e) => x matches BinRecord::Entry(s, p) && (crate::dictionary::trie::syllables_view(s@), p@)
            == e,
        BinRecordView::Skipped => x is Skipped,
        BinRecordView::Invalid => x is Invalid,
        BinRecordView::OutOfBounds => x is OutOfBounds,
    }
}

/// The value of two bytes in the given byte order.
fn read_u16(b: &[u8], i: usize, little: bool) -> (v: u16)
    requires
        i + 2 <= b@.len(),
        b@.len() <= 125,
    ensures
        v as nat == bytes_u16(b@, i as int, little),
{
    if little {
        b[i] as u16 + 256 * (b[i + 1] as u16)
    } else {
        256 * (b[i] as u16) + b[i + 1] as u16
    }
}

/// The unsigned value of four bytes in the given byte order.
fn read_u32(b: &[u8], i: usize, little: bool) -> (v: u32)
    requires
        i + 4 <= b@.len(),
        b@.len() <= 125,
    ensures
        v as nat == bytes_u32(b@, i as int, little),
{
    if little {
        b[i] as u32 + 256 * (b[i + 1] as u32) + 65536 * (b[i + 2] as u32) + 16777216 * (b[i + 3] as u32)
    } else {
        b[i + 3] as u32 + 256 * (b[i + 2] as u32) + 65536 * (b[i + 1] as u32) + 16777216 * (b[i] as u32)
    }
}

/// Whether four bytes are a negative 32-bit integer in the given byte
/// order.
fn negative_at(b: &[u8], i: usize, little: bool) -> (n: bool)
    requires
        i + 4 <= b@.len(),
        b@.len() <= 125,
    ensures
        n == bytes_negative(b@, i as int, little),
{
    if little {
        b[i + 3] >= 128
    } else {
        b[i] >= 128
    }
}

/// Reads the binary record at `pos` ([`bin_record`]).
fn read_bin_record(b: &[u8], pos: usize, little: bool) -> (x: BinRecord)
    requires
        pos + 125 <= b@.len(),
    ensures
        record_read(x, bin_record(b@.subrange(pos as int, pos + 125), little)),
{
    let ghost r = b@.subrange(pos as int, pos + 125);
    let n = b.len();
    let rec = vstd::slice::slice_subrange(b, pos, pos + 125);
    assert(rec@ == r);
    if negative_at(rec, 0, little) || negative_at(rec, 4, little) || negative_at(rec, 8, little) || negative_at(
        rec,
        12,
        little,
    ) {
        return BinRecord::Skipped;
    }
    let len = rec[16] as usize;
    if 18 + 2 * len >= 125 {
        return BinRecord::OutOfBounds;
    }
    if rec[18 + 2 * len] == 0 {
        return BinRecord::Skipped;
    }
    let mut syllables: Vec<Syllable> = Vec::new();
    let mut k: usize = 0;
    while k < len
        invariant
            rec@ == r,
            pos + 125 <= b@.len(),
            r == b@.subrange(pos as int, pos + 125),
            rec@.len() == 125,
            len == r[16],
            18 + 2 * len < 125,
            r[18 + 2 * len] != 0,
            !bytes_negative(r, 0, little),
            !bytes_negative(r, 4, little),
            !bytes_negative(r, 8, little),
            !bytes_negative(r, 12, little),
            k <= len,
            syllables@.len() == k,
            forall|x: int| 0 <= x < k ==> valid_syllable_value(#[trigger] bytes_u16(r, 17 + 2 * x, little) as u16),
            forall|x: int| 0 <= x < k ==> (#[trigger] syllables@[x])@ == bytes_u16(r, 17 + 2 * x, little) as u16,
        decreases len - k,
    {
        let v = read_u16(rec, 17 + 2 * k, little);
        match Syllable::try_from_u16(v) {
            Some(s) => syllables.push(s),
            None => {
                assert(!valid_syllable_value(bytes_u16(r, 17 + 2 * k as int, little) as u16));
                return BinRecord::Invalid;
            },
        }
        k = k + 1;
    }
    let base = 17 + 2 * len;
    let bytes = rec[base] as usize;
    if base + bytes + 1 > 125 {
        return BinRecord::OutOfBounds;
    }
    let text = vstd::slice::slice_subrange(rec, base + 1, base + 1 + bytes);
    assert(text@ == r.subrange(base + 1, base + 1 + bytes));
    let phrase = match utf8_to_string(text) {
        Some(s) => s,
        None => {
            return BinRecord::Skipped;
        },
    };
    let freq = read_u32(rec, 0, little);
    let time = read_u32(rec, 4, little);
    proof {
        let sv = crate::dictionary::trie::syllables_view(syllables@);
        assert(sv =~= Seq::new(len as nat, |x: int| bytes_u16(r, 17 + 2 * x, little) as u16));
        assert(!(exists|x: int| 0 <= x < len && !valid_syllable_value(#[trigger] bytes_u16(r, 17 + 2 * x, little) as u16)));
    }
    BinRecord::Entry(syllables, Phrase { phrase, freq, last_used: Some(time as u64) })
}

proof fn lemma_bin_prepend(b: Seq<u8>, pos: nat, little: bool, es: Seq<EntryView>, e: EntryView)
    requires
        pos + 125 <= b.len(),
        bin_record(b.subrange(pos as int, pos + 125int), little) == BinRecordView::Entry(e),
    ensures
        prepend_entries(es, bin_from(b, pos, little)) == prepend_entries(es.push(e), bin_from(b, pos + 125, little)),
{
    match bin_from(b, pos + 125, little) {
        BinLoadView::Entries(xs) => {
            assert(es + (seq![e] + xs) =~= es.push(e) + xs);
        },
        _ => {},
    }
}

/// Reads a binary user dictionary in the given byte order
/// ([`uhash_bin`]).
pub fn load_bin_records(input: &[u8], little: bool) -> (r: Result<Vec<(Vec<Syllable>, Phrase)>, UhashError>)
    requires
        !(uhash_bin(input@, little) is OutOfBounds),
    ensures
        bin_result(r, uhash_bin(input@, little)),
{
    if input.len() < 4 {
        return Err(UhashError::UnexpectedEof);
    }
    if !(input[0] == 67u8 && input[1] == 66u8 && input[2] == 105u8 && input[3] == 72u8) {
        assert(input@.take(4) != seq![67u8, 66u8, 105u8, 72u8]) by {
            if input@.take(4) == seq![67u8, 66u8, 105u8, 72u8] {
                assert(input@.take(4)[0] == input@[0]);
                assert(input@.take(4)[1] == input@[1]);
                assert(input@.take(4)[2] == input@[2]);
                assert(input@.take(4)[3] == input@[3]);
            }
        }
        return Err(UhashError::InvalidData);
    }
    assert(input@.take(4) =~= seq![67u8, 66u8, 105u8, 72u8]);
    if input.len() < 8 {
        return Err(UhashError::UnexpectedEof);
    }
    let ghost whole = bin_from(input@, 8, little);
    let mut result: Vec<(Vec<Syllable>, Phrase)> = Vec::new();
    let mut pos: usize = 8;
    assert(prepend_entries(Seq::empty(), whole) == whole) by {
        match whole {
            BinLoadView::Entries(xs) => {
                assert(Seq::<EntryView>::empty() + xs =~= xs);
            },
            _ => {},
        }
    }
    while input.len() - pos >= 125
        invariant
            8 <= pos <= input@.len(),
            whole == bin_from(input@, 8, little),
            !(whole is OutOfBounds),
            whole == prepend_entries(entries_view(result@), bin_from(input@, pos as nat, little)),
        decreases input@.len() - pos,
    {
        let x = read_bin_record(input, pos, little);
        match x {
            BinRecord::Entry(s, p) => {
                let ghost e = (crate::dictionary::trie::syllables_view(s@), p@);
                let ghost ro = entries_view(result@);
                proof {
                    lemma_bin_prepend(input@, pos as nat, little, ro, e);
                }
                result.push((s, p));
                assert(entries_view(result@) =~= ro.push(e));
            },
            BinRecord::Skipped => {},
            BinRecord::Invalid => {
                return Err(UhashError::InvalidData);
            },
            BinRecord::OutOfBounds => {
                return Err(UhashError::InvalidData);
            },
        }
        pos = pos + 125;
    }
    assert(whole == BinLoadView::Entries(entries_view(result@) + Seq::empty()));
    assert(entries_view(result@) + Seq::<EntryView>::empty() =~= entries_view(result@));
    Ok(result)
}

/// Whether reading a binary user dictionary in the given byte order meets
/// no record whose length reaches past it.
pub fn bin_in_bounds(input: &[u8], little: bool) -> (ok: bool)
    ensures
        ok == !(uhash_bin(input@, little) is OutOfBounds),
{
    if input.len() < 8 || !(input[0] == 67u8 && input[1] == 66u8 && input[2] == 105u8 && input[3] == 72u8) {
        return true;
    }
    assert(input@.take(4) =~= seq![67u8, 66u8, 105u8, 72u8]);
    let mut pos: usize = 8;
    while input.len() - pos >= 125
        invariant
            8 <= pos <= input@.len(),
            uhash_bin(input@, little) == bin_from(input@, 8, little),
            (bin_from(input@, 8, little) is OutOfBounds) == (bin_from(input@, pos as nat, little) is OutOfBounds),
        decreases input@.len() - pos,
    {
        match read_bin_record(input, pos, little) {
            BinRecord::Invalid => {
                return true;
            },
            BinRecord::OutOfBounds => {
                return false;
            },
            _ => {},
        }
        pos = pos + 125;
    }
    true
}

/// Reads two bytes as `u16::from_ne_bytes` does, in the byte order of the
/// machine. Claims what the standard library documents: the value is the
/// little-endian or the big-endian reading of the bytes; which one is not
/// stated, since it is a property of the machine.
#[verifier::external_body]
fn u16_from_native_bytes(b0: u8, b1: u8) -> (v: u16)
    ensures
        v == b0 + 256 * b1 || v == 256 * b0 + b1,
{
    u16::from_ne_bytes([b0, b1])
}

/// Reads a binary user dictionary written in the byte order of this
/// machine: what [`load_bin_records`] gives in that order.
pub fn try_load_bin(input: &[u8]) -> (r: Result<Vec<(Vec<Syllable>, Phrase)>, UhashError>)
    requires
        !(uhash_bin(input@, true) is OutOfBounds),
        !(uhash_bin(input@, false) is OutOfBounds),
    ensures
        bin_result(r, uhash_bin(input@, true)) || bin_result(r, uhash_bin(input@, false)),
{
    let little = u16_from_native_bytes(1, 0) == 1;
    load_bin_records(input, little)
}
} // verus!
