use chewing::dictionary::layout::sort_leaf_phrases;
use chewing::dictionary::trie::{Trie, TrieBuilder, TrieBuilderNode, TrieOpenOptions};
use chewing::dictionary::{
    Dictionary, DictionaryBuilder, DictionaryInfo, DictionaryMut, LookupStrategy, Phrase,
};
use chewing::zhuyin::Syllable;

type Bopomofo = (usize, u8);

const B: Bopomofo = (0, 1);
const P: Bopomofo = (0, 2);
const M: Bopomofo = (0, 3);
const F: Bopomofo = (0, 4);
const D: Bopomofo = (0, 5);
const T: Bopomofo = (0, 6);
const N: Bopomofo = (0, 7);
const L: Bopomofo = (0, 8);
const G: Bopomofo = (0, 9);
const K: Bopomofo = (0, 10);
const H: Bopomofo = (0, 11);
const J: Bopomofo = (0, 12);
const Q: Bopomofo = (0, 13);
const X: Bopomofo = (0, 14);
const ZH: Bopomofo = (0, 15);
const CH: Bopomofo = (0, 16);
const SH: Bopomofo = (0, 17);
const R: Bopomofo = (0, 18);
const Z: Bopomofo = (0, 19);
const C: Bopomofo = (0, 20);
const S: Bopomofo = (0, 21);
const I: Bopomofo = (1, 1);
const U: Bopomofo = (1, 2);
const IU: Bopomofo = (1, 3);
const A: Bopomofo = (2, 1);
const O: Bopomofo = (2, 2);
const E: Bopomofo = (2, 3);
const EH: Bopomofo = (2, 4);
const AI: Bopomofo = (2, 5);
const EI: Bopomofo = (2, 6);
const AU: Bopomofo = (2, 7);
const OU: Bopomofo = (2, 8);
const AN: Bopomofo = (2, 9);
const EN: Bopomofo = (2, 10);
const ANG: Bopomofo = (2, 11);
const ENG: Bopomofo = (2, 12);
const ER: Bopomofo = (2, 13);
const TONE1: Bopomofo = (3, 1);
const TONE2: Bopomofo = (3, 2);
const TONE3: Bopomofo = (3, 3);
const TONE4: Bopomofo = (3, 4);
const TONE5: Bopomofo = (3, 5);

fn syl(parts: &[Bopomofo]) -> Syllable {
    let mut c = [0u8; 4];
    for &(kind, index) in parts {
        c[kind] = index;
    }
    Syllable::from_components(c[0], c[1], c[2], c[3]).unwrap()
}

fn phrase(text: &str, freq: u32) -> Phrase {
    Phrase::new(text, freq)
}

fn node(
    id: usize,
    syllable: Option<Syllable>,
    children: Vec<usize>,
    leaf_id: Option<usize>,
    phrases: Vec<Phrase>,
) -> TrieBuilderNode {
    TrieBuilderNode { id, syllable, children, leaf_id, phrases }
}

fn build(builder: &TrieBuilder) -> Trie {
    let bytes = builder.write().expect("write");
    Trie::new(&bytes).expect("read")
}

#[test]
fn ensure_object_safe() {
    const _: Option<&dyn Dictionary> = None;
    const _: Option<&dyn DictionaryMut> = None;
    const _: Option<&dyn DictionaryBuilder> = None;
}

#[test]
fn test_tree_construction() {
    let mut builder = TrieBuilder::new();
    builder.insert(&[syl(&[C, E, TONE4]), syl(&[SH, TONE4])], phrase("測試", 100)).unwrap();
    builder.insert(&[syl(&[C, E, TONE4]), syl(&[S, U, O, TONE3])], phrase("廁所", 100)).unwrap();
    assert_eq!(
        &vec![
            node(0, None, vec![1], None, vec![]),
            node(1, Some(syl(&[C, E, TONE4])), vec![2, 4], None, vec![]),
            node(2, Some(syl(&[SH, TONE4])), vec![], Some(3), vec![]),
            node(3, None, vec![], None, vec![phrase("測試", 100)]),
            node(4, Some(syl(&[S, U, O, TONE3])), vec![], Some(5), vec![]),
            node(5, None, vec![], None, vec![phrase("廁所", 100)]),
        ],
        builder.arena()
    );
}

#[test]
fn tree_lookup_word() {
    let mut builder = TrieBuilder::new();
    builder.insert(&[syl(&[C, E, TONE4])], phrase("測", 1)).unwrap();
    builder.insert(&[syl(&[C, E, TONE4])], phrase("冊", 1)).unwrap();
    let dict = build(&builder);
    assert_eq!(
        vec![phrase("測", 1), phrase("冊", 1)],
        dict.lookup_all_phrases(&[syl(&[C, E, TONE4])], LookupStrategy::Standard)
    );
}

#[test]
fn tree_lookup_word_fuzzy() {
    let mut builder = TrieBuilder::new();
    builder.insert(&[syl(&[C, E, TONE4])], phrase("測", 1)).unwrap();
    builder.insert(&[syl(&[C, E, TONE4])], phrase("冊", 1)).unwrap();
    let bytes = builder.write().unwrap();
    let dict = TrieOpenOptions::new().fuzzy_search(true).read_from(&bytes).unwrap();
    assert_eq!(
        vec![phrase("測", 1), phrase("冊", 1)],
        dict.lookup_all_phrases(&[syl(&[C, E])], LookupStrategy::FuzzyPartialPrefix)
    );
    assert_eq!(
        vec![phrase("測", 1), phrase("冊", 1)],
        dict.lookup_all_phrases(&[syl(&[C])], LookupStrategy::FuzzyPartialPrefix)
    );
}

#[test]
fn tree_lookup_phrase() {
    let mut builder = TrieBuilder::new();
    builder.insert(&[syl(&[C, E, TONE4]), syl(&[SH, TONE4])], phrase("測試", 1)).unwrap();
    builder.insert(&[syl(&[C, E, TONE4]), syl(&[SH, TONE4])], phrase("策試", 2)).unwrap();
    builder
        .insert(
            &[syl(&[C, E, TONE4]), syl(&[SH, TONE4]), syl(&[CH, ENG, TONE2]), syl(&[G, U, ENG])],
            phrase("測試成功", 3),
        )
        .unwrap();
    let dict = build(&builder);
    assert_eq!(
        vec![phrase("策試", 2), phrase("測試", 1)],
        dict.lookup_all_phrases(&[syl(&[C, E, TONE4]), syl(&[SH, TONE4])], LookupStrategy::Standard)
    );
    assert_eq!(
        vec![phrase("測試成功", 3)],
        dict.lookup_all_phrases(
            &[syl(&[C, E, TONE4]), syl(&[SH, TONE4]), syl(&[CH, ENG, TONE2]), syl(&[G, U, ENG])],
            LookupStrategy::Standard
        )
    );
    assert_eq!(
        Vec::<Phrase>::new(),
        dict.lookup_all_phrases(
            &[syl(&[C, U, O, TONE4]), syl(&[U, TONE4])],
            LookupStrategy::Standard
        )
    );
}

#[test]
fn tree_lookup_phrase_fuzzy() {
    let mut builder = TrieBuilder::new();
    builder.insert(&[syl(&[C, E, TONE4]), syl(&[SH, TONE4])], phrase("測試", 1)).unwrap();
    builder.insert(&[syl(&[C, E, TONE4]), syl(&[SH, TONE4])], phrase("策試", 2)).unwrap();
    builder
        .insert(
            &[syl(&[C, E, TONE4]), syl(&[SH, TONE4]), syl(&[CH, ENG, TONE2]), syl(&[G, U, ENG])],
            phrase("測試成功", 3),
        )
        .unwrap();
    let bytes = builder.write().unwrap();
    let dict = TrieOpenOptions::new().fuzzy_search(true).read_from(&bytes).unwrap();
    assert_eq!(
        vec![phrase("策試", 2), phrase("測試", 1)],
        dict.lookup_all_phrases(&[syl(&[C, E]), syl(&[SH])], LookupStrategy::FuzzyPartialPrefix)
    );
    assert_eq!(
        vec![phrase("策試", 2), phrase("測試", 1)],
        dict.lookup_all_phrases(&[syl(&[C]), syl(&[SH])], LookupStrategy::FuzzyPartialPrefix)
    );
    assert_eq!(
        vec![phrase("測試成功", 3)],
        dict.lookup_all_phrases(
            &[syl(&[C, E]), syl(&[SH]), syl(&[CH, ENG]), syl(&[G, U, ENG])],
            LookupStrategy::FuzzyPartialPrefix
        )
    );
    assert_eq!(
        vec![phrase("測試成功", 3)],
        dict.lookup_all_phrases(
            &[syl(&[C]), syl(&[SH]), syl(&[CH]), syl(&[G])],
            LookupStrategy::FuzzyPartialPrefix
        )
    );
    assert_eq!(
        Vec::<Phrase>::new(),
        dict.lookup_all_phrases(
            &[syl(&[C, U, O, TONE4]), syl(&[U, TONE4])],
            LookupStrategy::FuzzyPartialPrefix
        )
    );
}

#[test]
fn tree_builder_duplicate_phrase() {
    let mut builder = TrieBuilder::new();
    builder
        .insert(&[syl(&[C, E, TONE4]), syl(&[SH, TONE4])], phrase("測試", 1))
        .expect("no error");
    builder
        .insert(&[syl(&[C, E, TONE4]), syl(&[SH, TONE4])], phrase("測試", 2))
        .expect("no error");
}

#[test]
fn stable_word_sort_order() {
    let mut builder = TrieBuilder::new();
    for word in ["冊", "策", "測", "側"] {
        builder.insert(&[syl(&[C, E, TONE4])], phrase(word, 0)).unwrap();
    }
    let dict = build(&builder);
    assert_eq!(
        vec![phrase("冊", 0), phrase("策", 0), phrase("測", 0), phrase("側", 0)],
        dict.lookup_all_phrases(&[syl(&[C, E, TONE4])], LookupStrategy::Standard)
    );
}

#[test]
fn stable_phrase_sort_order() {
    let mut builder = TrieBuilder::new();
    builder.insert(&[syl(&[C, E, TONE4]), syl(&[SH, TONE4])], phrase("側室", 318)).unwrap();
    builder.insert(&[syl(&[C, E, TONE4]), syl(&[SH, TONE4])], phrase("側視", 318)).unwrap();
    builder.insert(&[syl(&[C, E, TONE4]), syl(&[SH, TONE4])], phrase("策士", 318)).unwrap();
    builder.insert(&[syl(&[C, E, TONE4]), syl(&[SH, TONE4])], phrase("策試", 318)).unwrap();
    builder.insert(&[syl(&[C, E, TONE4]), syl(&[SH, TONE4])], phrase("測試", 9318)).unwrap();
    let dict = build(&builder);
    assert_eq!(
        vec![
            phrase("測試", 9318),
            phrase("策試", 318),
            phrase("策士", 318),
            phrase("側視", 318),
            phrase("側室", 318),
        ],
        dict.lookup_all_phrases(&[syl(&[C, E, TONE4]), syl(&[SH, TONE4])], LookupStrategy::Standard)
    );
}

#[test]
fn tree_builder_write_read_metadata() {
    let mut builder = TrieBuilder::new();
    let info = DictionaryInfo {
        name: "name".into(),
        copyright: "copyright".into(),
        license: "license".into(),
        version: "version".into(),
        software: "software".into(),
    };
    builder.set_info(info).unwrap();
    let dict = build(&builder);
    let info = dict.about();
    assert_eq!("name", info.name);
    assert_eq!("copyright", info.copyright);
    assert_eq!("license", info.license);
    assert_eq!("version", info.version);
    assert_eq!("software", info.software);
}

#[test]
fn tree_entries() {
    let mut builder = TrieBuilder::new();
    builder.insert(&[syl(&[C, E, TONE4]), syl(&[SH, TONE4])], phrase("測試", 1)).unwrap();
    builder.insert(&[syl(&[C, E, TONE4]), syl(&[SH, TONE4])], phrase("策試", 2)).unwrap();
    builder
        .insert(
            &[syl(&[C, E, TONE4]), syl(&[SH, TONE4]), syl(&[CH, ENG, TONE2]), syl(&[G, U, ENG])],
            phrase("測試成功", 3),
        )
        .unwrap();
    builder
        .insert(
            &[syl(&[C, E, TONE4]), syl(&[SH, TONE4]), syl(&[SH]), syl(&[B, AI, TONE4])],
            phrase("測試失敗", 3),
        )
        .unwrap();
    let dict = build(&builder);
    assert_eq!(
        vec![
            (
                vec![syl(&[C, E, TONE4]), syl(&[SH, TONE4]), syl(&[CH, ENG, TONE2]), syl(&[G, U, ENG])],
                phrase("測試成功", 3)
            ),
            (vec![syl(&[C, E, TONE4]), syl(&[SH, TONE4])], phrase("策試", 2)),
            (vec![syl(&[C, E, TONE4]), syl(&[SH, TONE4])], phrase("測試", 1)),
            (
                vec![syl(&[C, E, TONE4]), syl(&[SH, TONE4]), syl(&[SH]), syl(&[B, AI, TONE4])],
                phrase("測試失敗", 3)
            ),
        ],
        dict.entries()
    );
}

#[test]
fn leaf_phrases_sort_single_characters_stably() {
    let sorted = sort_leaf_phrases(&vec![phrase("冊", 5), phrase("策", 9), phrase("測", 1)]);
    assert_eq!(vec![phrase("冊", 5), phrase("策", 9), phrase("測", 1)], sorted);
}

#[test]
fn leaf_phrases_sort_by_frequency_then_text_descending() {
    let sorted = sort_leaf_phrases(&vec![phrase("測試", 1), phrase("策試", 2), phrase("側試", 2)]);
    assert_eq!(vec![phrase("策試", 2), phrase("側試", 2), phrase("測試", 1)], sorted);
}

#[test]
fn statistics_of_example_dictionary() {
    let mut builder = TrieBuilder::new();
    builder.insert(&[syl(&[G, U, O, TONE2])], phrase("國", 0)).unwrap();
    builder.insert(&[syl(&[M, I, EN, TONE2])], phrase("民", 0)).unwrap();
    builder.insert(&[syl(&[D, A, TONE4])], phrase("大", 0)).unwrap();
    builder.insert(&[syl(&[H, U, EI, TONE4])], phrase("會", 0)).unwrap();
    builder.insert(&[syl(&[G, U, O, TONE2]), syl(&[M, I, EN, TONE2])], phrase("國民", 0)).unwrap();
    builder
        .insert(
            &[syl(&[G, U, O, TONE2]), syl(&[M, I, EN, TONE2]), syl(&[D, A, TONE4]), syl(&[H, U, EI, TONE4])],
            phrase("國民大會", 0),
        )
        .unwrap();
    let stats = builder.statistics();
    assert_eq!(14, stats.node_count);
    assert_eq!(6, stats.leaf_count);
    assert_eq!(6, stats.phrase_count);
    assert_eq!(6, stats.max_height);
    assert_eq!(2, stats.avg_height);
    assert_eq!(4, stats.root_branch_count);
    assert_eq!(1, stats.max_branch_count);
    assert_eq!(0, stats.avg_branch_count);
}

#[test]
fn empty_builder_writes_empty_dictionary() {
    let builder = TrieBuilder::new();
    let dict = build(&builder);
    assert_eq!(
        Vec::<Phrase>::new(),
        dict.lookup_all_phrases(&[syl(&[C, E, TONE4])], LookupStrategy::Standard)
    );
    assert!(dict.entries().is_empty());
}

#[test]
fn corrupted_bytes_are_refused() {
    assert!(Trie::new(b"not a dictionary").is_none());
    let mut bytes = TrieBuilder::new().write().unwrap();
    bytes.push(0);
    assert!(Trie::new(&bytes).is_none());
}

#[test]
fn lookup_first_phrase_gives_best_phrase() {
    let mut builder = TrieBuilder::new();
    builder.insert(&[syl(&[C, E, TONE4]), syl(&[SH, TONE4])], phrase("測試", 1)).unwrap();
    builder.insert(&[syl(&[C, E, TONE4]), syl(&[SH, TONE4])], phrase("策試", 2)).unwrap();
    let dict = build(&builder);
    assert_eq!(
        Some(phrase("策試", 2)),
        dict.lookup_first_phrase(&[syl(&[C, E, TONE4]), syl(&[SH, TONE4])], LookupStrategy::Standard)
    );
}

#[test]
fn lookup_first_n_phrases_gives_at_most_n() {
    let mut builder = TrieBuilder::new();
    builder.insert(&[syl(&[C, E, TONE4])], phrase("測", 1)).unwrap();
    builder.insert(&[syl(&[C, E, TONE4])], phrase("冊", 1)).unwrap();
    let dict = build(&builder);
    assert_eq!(
        vec![phrase("測", 1)],
        dict.lookup_first_n_phrases(&[syl(&[C, E, TONE4])], 1, LookupStrategy::Standard)
    );
    assert_eq!(
        vec![phrase("測", 1), phrase("冊", 1)],
        dict.lookup_first_n_phrases(&[syl(&[C, E, TONE4])], usize::MAX, LookupStrategy::Standard)
    );
    assert!(dict.lookup_first_n_phrases(&[syl(&[C, E, TONE4])], 0, LookupStrategy::Standard).is_empty());
}

#[test]
fn trie_open_options_default_is_new() {
    assert_eq!(TrieOpenOptions::new().fuzzy_search, TrieOpenOptions::default().fuzzy_search);
    assert!(!TrieOpenOptions::default().fuzzy_search);
}
