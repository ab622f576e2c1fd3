use chewing::conversion::chewing::{ChewingEngine, PossibleInterval, PossiblePath, PossiblePhrase, FuzzyChewingEngine};
use chewing::conversion::simple::{ConversionEngine, SimpleEngine};
use chewing::conversion::{Composition, Interval, Symbol};
use chewing::dictionary::layered::{AnyDictionary, Layered};
use chewing::dictionary::trie::{Trie, TrieBuilder};
use chewing::dictionary::trie_buf::TrieBuf;
use chewing::dictionary::usage::DictionaryUsage;
use chewing::dictionary::{Dictionary, DictionaryBuilder, DictionaryMut, LookupStrategy, Phrase};
use chewing::zhuyin::Syllable;

type Bopomofo = (usize, u8);

const B: Bopomofo = (0, 1);
const P: Bopomofo = (0, 2);
const M: Bopomofo = (0, 3);
const F: Bopomofo = (0, 4);
const D: Bopomofo = (0, 5);
const T: Bopomofo = (0, 6);
const N: Bopomofo = (0, 7);
const L: Bopomofo = (0, 8);
const G: Bopomofo = (0, 9);
const K: Bopomofo = (0, 10);
const H: Bopomofo = (0, 11);
const J: Bopomofo = (0, 12);
const Q: Bopomofo = (0, 13);
const X: Bopomofo = (0, 14);
const ZH: Bopomofo = (0, 15);
const CH: Bopomofo = (0, 16);
const SH: Bopomofo = (0, 17);
const R: Bopomofo = (0, 18);
const Z: Bopomofo = (0, 19);
const C: Bopomofo = (0, 20);
const S: Bopomofo = (0, 21);
const I: Bopomofo = (1, 1);
const U: Bopomofo = (1, 2);
const IU: Bopomofo = (1, 3);
const A: Bopomofo = (2, 1);
const O: Bopomofo = (2, 2);
const E: Bopomofo = (2, 3);
const EH: Bopomofo = (2, 4);
const AI: Bopomofo = (2, 5);
const EI: Bopomofo = (2, 6);
const AU: Bopomofo = (2, 7);
const OU: Bopomofo = (2, 8);
const AN: Bopomofo = (2, 9);
const EN: Bopomofo = (2, 10);
const ANG: Bopomofo = (2, 11);
const ENG: Bopomofo = (2, 12);
const ER: Bopomofo = (2, 13);
const TONE1: Bopomofo = (3, 1);
const TONE2: Bopomofo = (3, 2);
const TONE3: Bopomofo = (3, 3);
const TONE4: Bopomofo = (3, 4);
const TONE5: Bopomofo = (3, 5);

fn syl(parts: &[Bopomofo]) -> Syllable {
    let mut c = [0u8; 4];
    for &(kind, index) in parts {
        c[kind] = index;
    }
    Syllable::from_components(c[0], c[1], c[2], c[3]).unwrap()
}

fn phrase(text: &str, freq: u32) -> Phrase {
    Phrase::new(text, freq)
}

fn phrase_at(text: &str, freq: u32, time: u64) -> Phrase {
    Phrase::new(text, freq).with_time(time)
}

fn trie_buf(entries: Vec<(Vec<Syllable>, Vec<(&str, u32)>)>) -> TrieBuf {
    let mut dict = TrieBuf::new_in_memory();
    for (syllables, phrases) in entries {
        for (text, freq) in phrases {
            dict.add_phrase(&syllables, phrase(text, freq)).unwrap();
        }
    }
    dict
}

fn layered_example() -> Layered {
    let sys_dict = trie_buf(vec![(vec![syl(&[C, E, TONE4])], vec![("測", 1), ("冊", 1), ("側", 1)])]);
    let user_dict = trie_buf(vec![(vec![syl(&[C, E, TONE4])], vec![("策", 100), ("冊", 100)])]);
    Layered::new(
        vec![AnyDictionary::TrieBufDictionary(sys_dict)],
        AnyDictionary::TrieBufDictionary(user_dict),
    )
}

#[test]
fn test_entries() {
    let dict = layered_example();
    assert_eq!(
        vec![
            (vec![syl(&[C, E, TONE4])], phrase_at("側", 1, 0)),
            (vec![syl(&[C, E, TONE4])], phrase_at("冊", 1, 0)),
            (vec![syl(&[C, E, TONE4])], phrase_at("測", 1, 0)),
            (vec![syl(&[C, E, TONE4])], phrase_at("冊", 100, 0)),
            (vec![syl(&[C, E, TONE4])], phrase_at("策", 100, 0)),
        ],
        dict.entries()
    );
}

#[test]
fn test_lookup() {
    let dict = layered_example();
    assert_eq!(
        Some(phrase_at("側", 1, 0)),
        dict.lookup(&vec![syl(&[C, E, TONE4])], LookupStrategy::Standard).first().cloned()
    );
    assert_eq!(
        vec![
            phrase_at("側", 1, 0),
            phrase_at("冊", 101, 0),
            phrase_at("測", 1, 0),
            phrase_at("策", 100, 0),
        ],
        dict.lookup(&vec![syl(&[C, E, TONE4])], LookupStrategy::Standard)
    );
}

#[test]
fn test_readonly_user_dict() {
    let sys_dict = trie_buf(vec![(vec![syl(&[C, E, TONE4])], vec![("測", 1), ("冊", 1), ("側", 1)])]);
    let mut builder = TrieBuilder::new();
    builder.insert(&[syl(&[C, E, TONE4])], phrase_at("策", 100, 0)).unwrap();
    builder.insert(&[syl(&[C, E, TONE4])], phrase_at("冊", 100, 0)).unwrap();
    let bytes = builder.write().unwrap();
    let user_dict = Trie::new(&bytes).unwrap();
    let mut dict = Layered::new(
        vec![AnyDictionary::TrieBufDictionary(sys_dict)],
        AnyDictionary::TrieDictionary(user_dict),
    );
    assert_eq!(
        Some(phrase_at("側", 1, 0)),
        dict.lookup(&vec![syl(&[C, E, TONE4])], LookupStrategy::Standard).first().cloned()
    );
    assert_eq!(
        vec![
            phrase_at("側", 1, 0),
            phrase_at("冊", 101, 0),
            phrase_at("測", 1, 0),
            phrase_at("策", 100, 0),
        ],
        dict.lookup(&vec![syl(&[C, E, TONE4])], LookupStrategy::Standard)
    );
    let _ = dict.about();
    assert!(dict.reopen().is_err());
    assert!(dict.flush().is_err());
    assert!(dict.add_phrase(&[syl(&[C, E, TONE4])], phrase("冊", 100)).is_err());
    assert!(dict.update_phrase(&[syl(&[C, E, TONE4])], phrase("冊", 100), 0, 0).is_err());
    assert!(dict.remove_phrase(&[syl(&[C, E, TONE4])], "冊").is_err());
}

#[test]
fn layered_about_names_the_layers() {
    let dict = layered_example();
    assert_eq!("Built-in Layered", dict.about().name);
    assert_eq!("", dict.about().copyright);
}

#[test]
fn layered_frequency_sum_wraps_around() {
    let sys_dict = trie_buf(vec![(vec![syl(&[C, E, TONE4])], vec![("測", u32::MAX)])]);
    let user_dict = trie_buf(vec![(vec![syl(&[C, E, TONE4])], vec![("測", 2)])]);
    let dict = Layered::new(
        vec![AnyDictionary::TrieBufDictionary(sys_dict)],
        AnyDictionary::TrieBufDictionary(user_dict),
    );
    assert_eq!(
        vec![phrase_at("測", 1, 0)],
        dict.lookup(&vec![syl(&[C, E, TONE4])], LookupStrategy::Standard)
    );
}

#[test]
fn layered_keeps_latest_time() {
    let mut sys = TrieBuf::new_in_memory();
    sys.add_phrase(&[syl(&[C, E, TONE4])], phrase_at("測", 1, 7)).unwrap();
    let mut user = TrieBuf::new_in_memory();
    user.add_phrase(&[syl(&[C, E, TONE4])], phrase_at("測", 1, 3)).unwrap();
    let dict = Layered::new(vec![AnyDictionary::TrieBufDictionary(sys)], AnyDictionary::TrieBufDictionary(user));
    assert_eq!(
        vec![phrase_at("測", 2, 7)],
        dict.lookup(&vec![syl(&[C, E, TONE4])], LookupStrategy::Standard)
    );
}

#[test]
fn trie_buf_add_then_lookup() {
    let mut dict = TrieBuf::new_in_memory();
    dict.add_phrase(&[syl(&[Z, TONE4]), syl(&[D, I, AN, TONE3])], phrase_at("dict", 1, 2)).unwrap();
    assert_eq!(
        Some(phrase_at("dict", 1, 2)),
        dict.lookup(&[syl(&[Z, TONE4]), syl(&[D, I, AN, TONE3])], LookupStrategy::Standard).first().cloned()
    );
    assert_eq!("", dict.about().copyright);
}

#[test]
fn trie_buf_add_duplicate_is_refused() {
    let mut dict = TrieBuf::new_in_memory();
    dict.add_phrase(&[syl(&[C, E, TONE4])], phrase("測", 1)).unwrap();
    let e = dict.add_phrase(&[syl(&[C, E, TONE4])], phrase("測", 5)).unwrap_err();
    assert!(e.duplicate);
    assert_eq!(
        vec![phrase_at("測", 1, 0)],
        dict.lookup(&[syl(&[C, E, TONE4])], LookupStrategy::Standard)
    );
}

#[test]
fn trie_buf_update_sets_frequency_and_time() {
    let mut dict = TrieBuf::new_in_memory();
    dict.add_phrase(&[syl(&[C, E, TONE4])], phrase("測", 1)).unwrap();
    dict.update_phrase(&[syl(&[C, E, TONE4])], phrase("測", 1), 42, 9).unwrap();
    assert_eq!(
        vec![phrase_at("測", 42, 9)],
        dict.lookup(&[syl(&[C, E, TONE4])], LookupStrategy::Standard)
    );
}

#[test]
fn trie_buf_remove_hides_phrase() {
    let mut dict = TrieBuf::new_in_memory();
    dict.add_phrase(&[syl(&[C, E, TONE4])], phrase("測", 1)).unwrap();
    dict.add_phrase(&[syl(&[C, E, TONE4])], phrase("冊", 1)).unwrap();
    dict.remove_phrase(&[syl(&[C, E, TONE4])], "測").unwrap();
    assert_eq!(
        vec![phrase_at("冊", 1, 0)],
        dict.lookup(&[syl(&[C, E, TONE4])], LookupStrategy::Standard)
    );
    assert_eq!(vec![(vec![syl(&[C, E, TONE4])], phrase_at("冊", 1, 0))], dict.entries());
}

#[test]
fn trie_buf_remove_hides_trie_phrase() {
    let mut builder = TrieBuilder::new();
    builder.insert(&[syl(&[C, E, TONE4])], phrase("測", 5)).unwrap();
    let trie = Trie::new(&builder.write().unwrap()).unwrap();
    let mut dict = TrieBuf::from_trie(trie);
    assert_eq!(vec![phrase("測", 5)], dict.lookup(&[syl(&[C, E, TONE4])], LookupStrategy::Standard));
    dict.remove_phrase(&[syl(&[C, E, TONE4])], "測").unwrap();
    assert_eq!(Vec::<Phrase>::new(), dict.lookup(&[syl(&[C, E, TONE4])], LookupStrategy::Standard));
}

#[test]
fn trie_buf_merges_trie_and_buffer_by_greater_frequency() {
    let mut builder = TrieBuilder::new();
    builder.insert(&[syl(&[C, E, TONE4])], phrase("測", 5)).unwrap();
    builder.insert(&[syl(&[C, E, TONE4])], phrase("冊", 5)).unwrap();
    let trie = Trie::new(&builder.write().unwrap()).unwrap();
    let mut dict = TrieBuf::from_trie(trie);
    dict.update_phrase(&[syl(&[C, E, TONE4])], phrase("測", 0), 9, 1).unwrap();
    dict.update_phrase(&[syl(&[C, E, TONE4])], phrase("冊", 0), 2, 1).unwrap();
    assert_eq!(
        vec![phrase_at("測", 9, 1), phrase("冊", 5)],
        dict.lookup(&[syl(&[C, E, TONE4])], LookupStrategy::Standard)
    );
}

#[test]
fn trie_buf_entries_in_key_order() {
    let dict = trie_buf(vec![
        (vec![syl(&[C, E, TONE4]), syl(&[SH, TONE4])], vec![("測試", 1)]),
        (vec![syl(&[C, E, TONE4])], vec![("測", 1), ("冊", 1)]),
    ]);
    assert_eq!(
        vec![
            (vec![syl(&[C, E, TONE4])], phrase_at("冊", 1, 0)),
            (vec![syl(&[C, E, TONE4])], phrase_at("測", 1, 0)),
            (vec![syl(&[C, E, TONE4]), syl(&[SH, TONE4])], phrase_at("測試", 1, 0)),
        ],
        dict.entries()
    );
}

#[test]
fn trie_buf_snapshot_round_trip() {
    let dict = trie_buf(vec![(vec![syl(&[Z, TONE4]), syl(&[D, I, AN, TONE3])], vec![("dict", 1)])]);
    let bytes = dict.snapshot("chewing".to_string()).unwrap();
    let trie = Trie::new(&bytes).unwrap();
    assert_eq!("chewing", trie.about().software);
    assert_eq!(
        vec![(vec![syl(&[Z, TONE4]), syl(&[D, I, AN, TONE3])], phrase_at("dict", 1, 0))],
        trie.entries()
    );
}

fn test_dictionary() -> TrieBuf {
    trie_buf(vec![
        (vec![syl(&[G, U, O, TONE2])], vec![("國", 1)]),
        (vec![syl(&[M, I, EN, TONE2])], vec![("民", 1)]),
        (vec![syl(&[D, A, TONE4])], vec![("大", 1)]),
        (vec![syl(&[H, U, EI, TONE4])], vec![("會", 1)]),
        (vec![syl(&[D, AI, TONE4])], vec![("代", 1)]),
        (vec![syl(&[B, I, AU, TONE3])], vec![("表", 1), ("錶", 1)]),
        (vec![syl(&[C, E, TONE4])], vec![("測", 18)]),
        (vec![syl(&[SH, TONE4])], vec![("試", 18)]),
        (vec![syl(&[G, U, O, TONE2]), syl(&[M, I, EN, TONE2])], vec![("國民", 200)]),
        (vec![syl(&[D, A, TONE4]), syl(&[H, U, EI, TONE4])], vec![("大會", 200)]),
        (vec![syl(&[D, AI, TONE4]), syl(&[B, I, AU, TONE3])], vec![("代表", 200), ("戴錶", 100)]),
        (vec![syl(&[X, I, EN])], vec![("心", 1)]),
        (vec![syl(&[C, E, TONE4]), syl(&[SH, TONE4])], vec![("測試", 9318)]),
    ])
}

fn interval(start: usize, end: usize, is_phrase: bool, text: &str) -> Interval {
    Interval { start, end, is_phrase, phrase: text.to_string() }
}

#[test]
fn simple_convert_empty_composition() {
    let dict = test_dictionary();
    let engine = SimpleEngine::new();
    let composition = Composition::new();
    assert_eq!(Vec::<Interval>::new(), engine.convert(&dict, &composition));
}

#[test]
fn simple_convert_zero_length_entry() {
    let mut dict = test_dictionary();
    dict.add_phrase(&[], phrase("", 0)).unwrap();
    let engine = SimpleEngine::new();
    let mut composition = Composition::new();
    for sym in [Symbol::Syllable(syl(&[C, E, TONE4])), Symbol::Syllable(syl(&[SH, TONE4]))] {
        composition.push(sym);
    }
    assert_eq!(
        vec![interval(0, 1, true, "測"), interval(1, 2, true, "試")],
        engine.convert(&dict, &composition)
    );
}

#[test]
fn simple_convert_simple_chinese_composition() {
    let dict = test_dictionary();
    let engine = SimpleEngine::new();
    let mut composition = Composition::new();
    for sym in [
        syl(&[G, U, O, TONE2]),
        syl(&[M, I, EN, TONE2]),
        syl(&[D, A, TONE4]),
        syl(&[H, U, EI, TONE4]),
        syl(&[D, AI, TONE4]),
        syl(&[B, I, AU, TONE3]),
    ] {
        composition.push(Symbol::Syllable(sym));
    }
    assert_eq!(
        vec![
            interval(0, 1, true, "國"),
            interval(1, 2, true, "民"),
            interval(2, 3, true, "大"),
            interval(3, 4, true, "會"),
            interval(4, 5, true, "代"),
            interval(5, 6, true, "表"),
        ],
        engine.convert(&dict, &composition)
    );
}

#[test]
fn simple_convert_keeps_selections_and_characters() {
    let dict = test_dictionary();
    let engine = SimpleEngine::new();
    let mut composition = Composition::new();
    composition.push(Symbol::Syllable(syl(&[C, E, TONE4])));
    composition.push(Symbol::Syllable(syl(&[SH, TONE4])));
    composition.push(Symbol::Char('!'));
    composition.push(Symbol::Syllable(syl(&[ZH, U, ANG])));
    composition.selections.push(interval(0, 2, true, "測試"));
    assert_eq!(
        vec![
            interval(0, 2, true, "測試"),
            interval(2, 3, false, "!"),
            interval(3, 4, true, "\u{3113}\u{3128}\u{3124}"),
        ],
        engine.convert(&dict, &composition)
    );
    let all = engine.convert_all(&dict, &composition);
    assert_eq!(1, all.len());
}

#[test]
fn possible_path_contains() {
    let path_1 = PossiblePath {
        intervals: vec![
            PossibleInterval { start: 0, end: 2, phrase: PossiblePhrase::Phrase(phrase("測試", 0), 0) },
            PossibleInterval { start: 2, end: 4, phrase: PossiblePhrase::Phrase(phrase("一下", 0), 0) },
        ],
    };
    let path_2 = PossiblePath {
        intervals: vec![
            PossibleInterval { start: 0, end: 2, phrase: PossiblePhrase::Phrase(phrase("測試", 0), 0) },
            PossibleInterval { start: 2, end: 3, phrase: PossiblePhrase::Phrase(phrase("遺", 0), 0) },
            PossibleInterval { start: 3, end: 4, phrase: PossiblePhrase::Phrase(phrase("下", 0), 0) },
        ],
    };
    assert!(path_1.contains(&path_2));
    assert!(!path_2.contains(&path_1));
}

#[test]
fn best_phrases_rank_by_frequency() {
    let dict = test_dictionary();
    let engine = ChewingEngine::new();
    let mut composition = Composition::new();
    composition.push(Symbol::Syllable(syl(&[D, AI, TONE4])));
    composition.push(Symbol::Syllable(syl(&[B, I, AU, TONE3])));
    let best = engine.find_best_phrases(&dict, 0, 2, &composition);
    let texts: Vec<String> = best
        .iter()
        .map(|p| match p {
            PossiblePhrase::Phrase(p, _) => p.phrase.clone(),
            PossiblePhrase::Symbol(c) => c.to_string(),
        })
        .collect();
    assert_eq!(vec!["代表".to_string(), "戴錶".to_string()], texts);
}

#[test]
fn best_phrases_respect_breaks_and_selections() {
    let dict = test_dictionary();
    let engine = ChewingEngine::new();
    let mut composition = Composition::new();
    composition.push(Symbol::Syllable(syl(&[D, AI, TONE4])));
    composition.push(Symbol::Syllable(syl(&[B, I, AU, TONE3])));
    composition.selections.push(interval(1, 2, true, "錶"));
    let best = engine.find_best_phrases(&dict, 0, 2, &composition);
    assert_eq!(1, best.len());
    composition.breaks.push(chewing::conversion::Break(1));
    assert!(engine.find_best_phrases(&dict, 0, 2, &composition).is_empty());
}

#[test]
fn best_phrase_forced_by_selection() {
    let dict = test_dictionary();
    let engine = ChewingEngine::new();
    let mut composition = Composition::new();
    composition.push(Symbol::Syllable(syl(&[X, I, EN])));
    composition.selections.push(interval(0, 1, true, "新"));
    let best = engine.find_best_phrases(&dict, 0, 1, &composition);
    assert_eq!(1, best.len());
    match &best[0] {
        PossiblePhrase::Phrase(p, score) => {
            assert_eq!("新", p.phrase);
            assert_eq!(1_000_000_000, *score);
        }
        PossiblePhrase::Symbol(_) => panic!("expected a phrase"),
    }
}

#[test]
fn edges_of_composition() {
    let dict = test_dictionary();
    let engine = ChewingEngine::new();
    let mut composition = Composition::new();
    composition.push(Symbol::Syllable(syl(&[C, E, TONE4])));
    composition.push(Symbol::Syllable(syl(&[SH, TONE4])));
    let edges = engine.find_edges(&dict, &composition);
    let ranges: Vec<(usize, usize)> = edges.iter().map(|e| (e.start, e.end)).collect();
    assert_eq!(vec![(0, 1), (0, 2), (1, 2)], ranges);
}

#[test]
fn glue_joins_phrases() {
    let mut composition = Composition::new();
    composition.glues.push(chewing::conversion::Glue(1));
    let mut acc = vec![interval(0, 1, true, "測")];
    chewing::conversion::chewing::glue_fn(&composition, &mut acc, interval(1, 2, true, "試"));
    assert_eq!(vec![interval(0, 2, true, "測試")], acc);
    chewing::conversion::chewing::glue_fn(&composition, &mut acc, interval(2, 3, false, "!"));
    assert_eq!(2, acc.len());
}

#[test]
fn trim_drops_covered_paths() {
    let engine = ChewingEngine::new();
    let long = PossiblePath {
        intervals: vec![PossibleInterval { start: 0, end: 2, phrase: PossiblePhrase::Phrase(phrase("測試", 0), 0) }],
    };
    let short = PossiblePath {
        intervals: vec![
            PossibleInterval { start: 0, end: 1, phrase: PossiblePhrase::Phrase(phrase("測", 0), 0) },
            PossibleInterval { start: 1, end: 2, phrase: PossiblePhrase::Phrase(phrase("試", 0), 0) },
        ],
    };
    let trimmed = engine.trim_paths(vec![long, short]);
    assert_eq!(1, trimmed.len());
    assert_eq!(2, trimmed[0].intervals[0].end);
}

#[test]
fn fuzzy_engine_uses_prefix_lookups() {
    let engine = FuzzyChewingEngine::new();
    assert_eq!(LookupStrategy::FuzzyPartialPrefix, engine.inner.lookup_strategy);
}

#[test]
fn usage_codes_and_names() {
    assert_eq!(DictionaryUsage::User, DictionaryUsage::from_u8(4));
    assert_eq!(DictionaryUsage::Unknown, DictionaryUsage::from_u8(9));
    assert_eq!("exclude-list", DictionaryUsage::ExcludeList.to_string());
    assert_eq!(DictionaryUsage::BuiltIn, DictionaryUsage::from_name("built-in"));
    assert_eq!(DictionaryUsage::Unknown, DictionaryUsage::from_name("nothing"));
    assert_eq!(5, DictionaryUsage::ExcludeList.to_u8());
}

#[test]
fn interval_queries() {
    let a = interval(1, 4, true, "abc");
    let b = interval(2, 3, true, "b");
    assert!(a.contains(&b));
    assert!(!b.contains(&a));
    assert_eq!(3, a.len());
    assert!(!a.is_empty());
    assert!(interval(2, 2, false, "").is_empty());
    assert!(a.intersect_range(3, 5));
    assert!(!a.intersect_range(4, 6));
    assert!(b.is_contained_by(1, 4));
}

#[test]
fn symbol_queries() {
    let s = Symbol::Syllable(syl(&[C, E, TONE4]));
    let c = Symbol::Char('x');
    assert!(s.is_syllable());
    assert!(!s.is_char());
    assert_eq!(syl(&[C, E, TONE4]), s.as_syllable());
    assert!(c.is_char());
    assert_eq!('x', c.as_char());
}

fn fresh_user_dictionary() -> TrieBuf {
    let bytes = TrieBuf::fresh_file("chewing".to_string()).unwrap();
    TrieBuf::from_trie(Trie::new(&bytes).unwrap())
}

#[test]
fn trie_buf_create_new_dictionary_in_memory_and_query() {
    let mut dict = fresh_user_dictionary();
    let info = dict.about();
    dict.add_phrase(&[syl(&[Z, TONE4]), syl(&[D, I, AN, TONE3])], phrase_at("dict", 1, 2)).unwrap();
    assert_eq!("Unknown", info.copyright);
    assert_eq!(
        Some(phrase_at("dict", 1, 2)),
        dict.lookup(&[syl(&[Z, TONE4]), syl(&[D, I, AN, TONE3])], LookupStrategy::Standard).first().cloned()
    );
}

#[test]
fn trie_buf_create_new_dictionary_and_query() {
    let saved = {
        let mut dict = fresh_user_dictionary();
        dict.add_phrase(&[syl(&[Z, TONE4]), syl(&[D, I, AN, TONE3])], phrase_at("dict", 1, 2)).unwrap();
        dict.flush().unwrap();
        dict.snapshot("chewing".to_string()).unwrap()
    };
    let dict = TrieBuf::from_trie(Trie::new(&saved).unwrap());
    let info = dict.about();
    assert_eq!("Unknown", info.copyright);
    assert_eq!(
        Some(phrase_at("dict", 1, 2)),
        dict.lookup(&[syl(&[Z, TONE4]), syl(&[D, I, AN, TONE3])], LookupStrategy::Standard).first().cloned()
    );
}

#[test]
fn trie_buf_create_new_dictionary_and_enumerate() {
    let mut dict = fresh_user_dictionary();
    dict.add_phrase(&[syl(&[Z, TONE4]), syl(&[D, I, AN, TONE3])], phrase_at("dict", 1, 2)).unwrap();
    dict.flush().unwrap();
    assert_eq!(
        vec![(vec![syl(&[Z, TONE4]), syl(&[D, I, AN, TONE3])], phrase_at("dict", 1, 2))],
        dict.entries()
    );
}

#[test]
fn fresh_user_dictionary_metadata() {
    let dict = fresh_user_dictionary();
    let info = dict.about();
    assert_eq!("我的詞庫", info.name);
    assert_eq!("Unknown", info.license);
    assert_eq!("0.0.0", info.version);
    assert_eq!("chewing", info.software);
    assert!(dict.entries().is_empty());
}

#[test]
fn trie_buf_reload_after_save_drops_the_buffer() {
    let mut dict = fresh_user_dictionary();
    dict.add_phrase(&[syl(&[C, E, TONE4])], phrase_at("測", 3, 4)).unwrap();
    assert!(dict.needs_checkpoint());
    let bytes = dict.snapshot("chewing".to_string()).unwrap();
    dict.mark_saved();
    assert!(!dict.needs_checkpoint());
    dict.reload(Trie::new(&bytes).unwrap(), true);
    assert_eq!(vec![(vec![syl(&[C, E, TONE4])], phrase_at("測", 3, 4))], dict.entries());
    assert_eq!(vec![phrase_at("測", 3, 4)], dict.lookup(&[syl(&[C, E, TONE4])], LookupStrategy::Standard));
}

#[test]
fn trie_buf_add_then_lookup_all_phrases() {
    let mut dict = TrieBuf::new_in_memory();
    dict.add_phrase(&[syl(&[C, E, TONE4])], ("測", 100).into()).unwrap();
    let found = dict.lookup_all_phrases(&[syl(&[C, E, TONE4])], LookupStrategy::Standard);
    assert_eq!(1, found.len());
    for phrase in found {
        assert_eq!("測", phrase.as_str());
        assert_eq!(100, phrase.freq());
    }
}

#[test]
fn phrase_tuple_conversions() {
    let p: Phrase = ("測", 5).into();
    assert_eq!(Phrase::new("測", 5), p);
    assert_eq!(None, p.last_used());
    let q: Phrase = (String::from("測"), 5).into();
    assert_eq!(p, q);
    let t: Phrase = ("測", 5, 9).into();
    assert_eq!(Some(9), t.last_used());
    let u: Phrase = (String::from("測"), 5, 9).into();
    assert_eq!(t, u);
    let back: (String, u32) = p.into();
    assert_eq!((String::from("測"), 5), back);
    let text: String = t.into();
    assert_eq!("測", text);
}
