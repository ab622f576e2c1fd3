use chewing::conversion::chewing::{glue_path, ChewingEngine, PossiblePath, PossiblePhrase};
use chewing::conversion::{Break, Composition, Glue, Interval, Symbol};
use chewing::dictionary::trie_buf::TrieBuf;
use chewing::dictionary::{DictionaryMut, Phrase};
use chewing::zhuyin::Syllable;

type Bopomofo = (usize, u8);

const B: Bopomofo = (0, 1);
const P: Bopomofo = (0, 2);
const M: Bopomofo = (0, 3);
const F: Bopomofo = (0, 4);
const D: Bopomofo = (0, 5);
const T: Bopomofo = (0, 6);
const N: Bopomofo = (0, 7);
const L: Bopomofo = (0, 8);
const G: Bopomofo = (0, 9);
const K: Bopomofo = (0, 10);
const H: Bopomofo = (0, 11);
const J: Bopomofo = (0, 12);
const Q: Bopomofo = (0, 13);
const X: Bopomofo = (0, 14);
const ZH: Bopomofo = (0, 15);
const CH: Bopomofo = (0, 16);
const SH: Bopomofo = (0, 17);
const R: Bopomofo = (0, 18);
const Z: Bopomofo = (0, 19);
const C: Bopomofo = (0, 20);
const S: Bopomofo = (0, 21);
const I: Bopomofo = (1, 1);
const U: Bopomofo = (1, 2);
const IU: Bopomofo = (1, 3);
const A: Bopomofo = (2, 1);
const O: Bopomofo = (2, 2);
const E: Bopomofo = (2, 3);
const EH: Bopomofo = (2, 4);
const AI: Bopomofo = (2, 5);
const EI: Bopomofo = (2, 6);
const AU: Bopomofo = (2, 7);
const OU: Bopomofo = (2, 8);
const AN: Bopomofo = (2, 9);
const EN: Bopomofo = (2, 10);
const ANG: Bopomofo = (2, 11);
const ENG: Bopomofo = (2, 12);
const ER: Bopomofo = (2, 13);
const TONE1: Bopomofo = (3, 1);
const TONE2: Bopomofo = (3, 2);
const TONE3: Bopomofo = (3, 3);
const TONE4: Bopomofo = (3, 4);
const TONE5: Bopomofo = (3, 5);

fn syl(parts: &[Bopomofo]) -> Syllable {
    let mut c = [0u8; 4];
    for &(kind, index) in parts {
        c[kind] = index;
    }
    Syllable::from_components(c[0], c[1], c[2], c[3]).unwrap()
}

fn phrase(text: &str, freq: u32) -> Phrase {
    Phrase::new(text, freq)
}

fn trie_buf(entries: Vec<(Vec<Syllable>, Vec<(&str, u32)>)>) -> TrieBuf {
    let mut dict = TrieBuf::new_in_memory();
    for (syllables, phrases) in entries {
        for (text, freq) in phrases {
            dict.add_phrase(&syllables, phrase(text, freq)).unwrap();
        }
    }
    dict
}

fn interval(start: usize, end: usize, is_phrase: bool, text: &str) -> Interval {
    Interval { start, end, is_phrase, phrase: text.to_string() }
}

/// The log probability of a path: those of its candidates and of the
/// lengths of its ranges.
fn probability(path: &PossiblePath) -> f64 {
    let mut p = 0.0;
    for it in &path.intervals {
        if let PossiblePhrase::Phrase(_, score) = &it.phrase {
            p += (*score as f64 / 1_000_000_000.0).ln();
        }
        p += match it.end - it.start {
            1 => -1.520439227173415,
            2 => -0.4236568120124837,
            3 => -1.455835986003893,
            4 => -1.6178072894679227,
            5 => -4.425765184802149,
            _ => -4.787357595622411,
        };
    }
    p
}

/// The conversions of a composition, the most probable first.
fn convert(engine: &ChewingEngine, dict: &TrieBuf, comp: &Composition) -> Vec<Vec<Interval>> {
    let mut paths = engine.candidate_paths(dict, comp).unwrap();
    paths.sort_by(|a, b| probability(b).total_cmp(&probability(a)));
    paths.iter().map(|p| glue_path(comp, p)).collect()
}

fn test_dictionary() -> TrieBuf {
    trie_buf(vec![
        (vec![syl(&[G, U, O, TONE2])], vec![("國", 1)]),
        (vec![syl(&[M, I, EN, TONE2])], vec![("民", 1)]),
        (vec![syl(&[D, A, TONE4])], vec![("大", 1)]),
        (vec![syl(&[H, U, EI, TONE4])], vec![("會", 1)]),
        (vec![syl(&[D, AI, TONE4])], vec![("代", 1)]),
        (vec![syl(&[B, I, AU, TONE3])], vec![("表", 1), ("錶", 1)]),
        (vec![syl(&[G, U, O, TONE2]), syl(&[M, I, EN, TONE2])], vec![("國民", 200)]),
        (vec![syl(&[D, A, TONE4]), syl(&[H, U, EI, TONE4])], vec![("大會", 200)]),
        (vec![syl(&[D, AI, TONE4]), syl(&[B, I, AU, TONE3])], vec![("代表", 200), ("戴錶", 100)]),
        (vec![syl(&[X, I, EN])], vec![("心", 1)]),
        (vec![syl(&[K, U, TONE4]), syl(&[I, EN])], vec![("庫音", 300)]),
        (vec![syl(&[X, I, EN]), syl(&[K, U, TONE4]), syl(&[I, EN])], vec![("新酷音", 200)]),
        (vec![syl(&[C, E, TONE4]), syl(&[SH, TONE4]), syl(&[I, TONE2])], vec![("測試儀", 42)]),
        (vec![syl(&[C, E, TONE4]), syl(&[SH, TONE4])], vec![("測試", 9318)]),
        (vec![syl(&[I, TONE2]), syl(&[X, I, A, TONE4])], vec![("一下", 10576)]),
        (vec![syl(&[X, I, A, TONE4])], vec![("下", 10576)]),
        (vec![syl(&[H, A])], vec![("哈", 1)]),
        (vec![syl(&[H, A]), syl(&[H, A])], vec![("哈哈", 1)]),
    ])
}

fn composition(syllables: Vec<Syllable>) -> Composition {
    let mut comp = Composition::new();
    for s in syllables {
        comp.push(Symbol::Syllable(s));
    }
    comp
}

fn six_syllables() -> Composition {
    composition(vec![
        syl(&[G, U, O, TONE2]),
        syl(&[M, I, EN, TONE2]),
        syl(&[D, A, TONE4]),
        syl(&[H, U, EI, TONE4]),
        syl(&[D, AI, TONE4]),
        syl(&[B, I, AU, TONE3]),
    ])
}

#[test]
fn chewing_convert_empty_composition() {
    let dict = test_dictionary();
    let engine = ChewingEngine::new();
    let composition = Composition::new();
    assert_eq!(Some(Vec::<Interval>::new()), convert(&engine, &dict, &composition).first().cloned());
}

#[test]
fn chewing_convert_zero_length_entry() {
    let mut dict = test_dictionary();
    dict.add_phrase(&[], phrase("", 0)).unwrap();
    let engine = ChewingEngine::new();
    let composition = composition(vec![syl(&[C, E, TONE4]), syl(&[SH, TONE4])]);
    assert_eq!(
        Some(vec![interval(0, 2, true, "測試")]),
        convert(&engine, &dict, &composition).first().cloned()
    );
}

#[test]
fn chewing_convert_simple_chinese_composition() {
    let dict = test_dictionary();
    let engine = ChewingEngine::new();
    let composition = six_syllables();
    assert_eq!(
        Some(vec![interval(0, 2, true, "國民"), interval(2, 4, true, "大會"), interval(4, 6, true, "代表")]),
        convert(&engine, &dict, &composition).first().cloned()
    );
}

#[test]
fn convert_chinese_composition_with_breaks() {
    let dict = test_dictionary();
    let engine = ChewingEngine::new();
    let mut composition = six_syllables();
    composition.breaks.push(Break(1));
    composition.breaks.push(Break(5));
    assert_eq!(
        Some(vec![
            interval(0, 1, true, "國"),
            interval(1, 2, true, "民"),
            interval(2, 4, true, "大會"),
            interval(4, 5, true, "代"),
            interval(5, 6, true, "表"),
        ]),
        convert(&engine, &dict, &composition).first().cloned()
    );
}

#[test]
fn convert_chinese_composition_with_good_selection() {
    let dict = test_dictionary();
    let engine = ChewingEngine::new();
    let mut composition = six_syllables();
    composition.selections.push(interval(4, 6, true, "戴錶"));
    assert_eq!(
        Some(vec![interval(0, 2, true, "國民"), interval(2, 4, true, "大會"), interval(4, 6, true, "戴錶")]),
        convert(&engine, &dict, &composition).first().cloned()
    );
}

#[test]
fn convert_chinese_composition_with_substring_selection() {
    let dict = test_dictionary();
    let engine = ChewingEngine::new();
    let mut composition = composition(vec![syl(&[X, I, EN]), syl(&[K, U, TONE4]), syl(&[I, EN])]);
    composition.selections.push(interval(1, 3, true, "酷音"));
    assert_eq!(
        Some(vec![interval(0, 3, true, "新酷音")]),
        convert(&engine, &dict, &composition).first().cloned()
    );
}

#[test]
fn multiple_single_word_selection() {
    let dict = test_dictionary();
    let engine = ChewingEngine::new();
    let mut composition = composition(vec![syl(&[D, AI, TONE4]), syl(&[B, I, AU, TONE3])]);
    composition.selections.push(interval(0, 1, true, "代"));
    composition.selections.push(interval(1, 2, true, "錶"));
    assert_eq!(
        Some(vec![interval(0, 1, true, "代"), interval(1, 2, true, "錶")]),
        convert(&engine, &dict, &composition).first().cloned()
    );
}

#[test]
fn convert_cycle_alternatives() {
    let dict = test_dictionary();
    let engine = ChewingEngine::new();
    let composition = composition(vec![
        syl(&[C, E, TONE4]),
        syl(&[SH, TONE4]),
        syl(&[I, TONE2]),
        syl(&[X, I, A, TONE4]),
    ]);
    let results = convert(&engine, &dict, &composition);
    assert_eq!(
        Some(vec![interval(0, 2, true, "測試"), interval(2, 4, true, "一下")]),
        results.first().cloned()
    );
    assert_eq!(
        Some(vec![interval(0, 3, true, "測試儀"), interval(3, 4, true, "下")]),
        results.get(1).cloned()
    );
    assert_eq!(
        Some(vec![interval(0, 2, true, "測試"), interval(2, 4, true, "一下")]),
        results.iter().cycle().nth(2).cloned()
    );
}

#[test]
fn convert_pathological_case() {
    let dict = test_dictionary();
    let engine = ChewingEngine::new();
    let composition = composition(vec![syl(&[H, A]); 80]);
    let results = convert(&engine, &dict, &composition);
    assert_eq!(40, results[0].len());
    assert_eq!(41, results[1].len());
    assert_eq!(41, results[2].len());
}

#[test]
fn candidate_paths_need_a_covering_path() {
    let dict = test_dictionary();
    let engine = ChewingEngine::new();
    let composition = composition(vec![syl(&[C, E, TONE4]), syl(&[SH, TONE4]), syl(&[B, A])]);
    assert!(engine.candidate_paths(&dict, &composition).is_none());
}

#[test]
fn candidate_paths_without_edges_give_the_empty_path() {
    let dict = test_dictionary();
    let engine = ChewingEngine::new();
    let composition = composition(vec![syl(&[B, A])]);
    let paths = engine.candidate_paths(&dict, &composition).unwrap();
    assert_eq!(1, paths.len());
    assert!(paths[0].intervals.is_empty());
}

#[test]
fn characters_convert_to_themselves() {
    let dict = test_dictionary();
    let engine = ChewingEngine::new();
    let mut comp = Composition::new();
    comp.push(Symbol::Char('x'));
    comp.push(Symbol::Syllable(syl(&[C, E, TONE4])));
    comp.push(Symbol::Syllable(syl(&[SH, TONE4])));
    assert_eq!(
        Some(vec![interval(0, 1, false, "x"), interval(1, 3, true, "測試")]),
        convert(&engine, &dict, &comp).first().cloned()
    );
}

#[test]
fn glued_phrases_join() {
    let dict = test_dictionary();
    let engine = ChewingEngine::new();
    let mut comp = six_syllables();
    comp.glues.push(Glue(2));
    assert_eq!(
        Some(vec![interval(0, 4, true, "國民大會"), interval(4, 6, true, "代表")]),
        convert(&engine, &dict, &comp).first().cloned()
    );
}

#[test]
fn glued_candidate_paths_chain_over_the_composition() {
    let dict = test_dictionary();
    let engine = ChewingEngine::new();
    let comp = composition(vec![
        syl(&[G, U, O, TONE2]),
        syl(&[M, I, EN, TONE2]),
        syl(&[D, A, TONE4]),
        syl(&[H, U, EI, TONE4]),
    ]);
    let paths = engine.candidate_paths(&dict, &comp).unwrap();
    assert!(!paths.is_empty());
    for p in &paths {
        let g = glue_path(&comp, p);
        assert_eq!(0, g[0].start);
        assert_eq!(comp.len(), g[g.len() - 1].end);
        for w in g.windows(2) {
            assert!(w[0].start < w[0].end);
            assert_eq!(w[0].end, w[1].start);
        }
    }
}
