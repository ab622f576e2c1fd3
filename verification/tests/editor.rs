use chewing::conversion::simple::SimpleEngine;
use chewing::dictionary::trie_buf::TrieBuf;
use chewing::editor::{
    set_int_option, CharacterForm, Editor, EditorKeyBehavior, EditorOptions, LanguageMode, SyllableEditor,
    UserPhraseAddDirection,
};
use chewing::zhuyin::Syllable;

fn editor() -> Editor<SimpleEngine, TrieBuf> {
    Editor::new(SimpleEngine::new(), TrieBuf::new_in_memory())
}

#[test]
fn editing_mode_input_symbol() {}

#[test]
fn new_editor_has_default_state() {
    let editor = editor();
    assert_eq!(0, editor.len());
    assert_eq!(0, editor.cursor());
    assert_eq!("", editor.display());
    assert_eq!("", editor.display_commit());
    assert!(editor.intervals().is_empty());
    assert!(!editor.entering_syllable());
    assert_eq!(EditorKeyBehavior::Ignore, editor.last_key_behavior());
    assert_eq!(LanguageMode::Chinese, editor.language_mode());
    assert_eq!(CharacterForm::Halfwidth, editor.character_form());
    assert!(editor.symbols().is_empty());
    assert_eq!(Syllable::empty(), editor.syllable_buffer());
    assert_eq!(EditorOptions::default_options(), editor.editor_options());
    assert!(editor.all_candidates().is_err());
    assert!(editor.paginated_candidates().is_err());
    assert!(editor.current_page_no().is_err());
    assert!(editor.total_page().is_err());
}

#[test]
fn switching_modes_and_forms() {
    let mut editor = editor();
    editor.switch_language_mode();
    assert_eq!(LanguageMode::English, editor.language_mode());
    editor.switch_language_mode();
    assert_eq!(LanguageMode::Chinese, editor.language_mode());
    editor.switch_character_form();
    assert_eq!(CharacterForm::Fullwidth, editor.character_form());
    editor.set_character_form(CharacterForm::Halfwidth);
    assert_eq!(CharacterForm::Halfwidth, editor.character_form());
    editor.set_language_mode(LanguageMode::English);
    assert_eq!(LanguageMode::English, editor.language_mode());
}

#[test]
fn syllable_editor_and_clear() {
    let mut editor = editor();
    let s = Syllable::from_components(20, 0, 3, 4).unwrap();
    editor.set_syllable_editor(SyllableEditor { syllable: s });
    assert!(editor.entering_syllable());
    assert_eq!(s, editor.syllable_buffer());
    editor.clear_syllable_editor();
    assert!(!editor.entering_syllable());
    editor.set_syllable_editor(SyllableEditor { syllable: s });
    editor.set_language_mode(LanguageMode::English);
    assert!(!editor.entering_syllable());
    editor.clear();
    assert_eq!(0, editor.len());
}

#[test]
fn set_editor_options_replaces_options() {
    let mut editor = editor();
    let mut options = EditorOptions::default_options();
    options.candidates_per_page = 5;
    options.user_phrase_add_dir = UserPhraseAddDirection::Forward;
    editor.set_editor_options(options);
    assert_eq!(options, editor.editor_options());
    assert_eq!(5, editor.editor_options().candidates_per_page);
}

#[test]
fn auto_commit_leaves_a_short_composition() {
    let mut editor = editor();
    assert!(editor.auto_commit_ready());
    editor.try_auto_commit();
    assert_eq!("", editor.display_commit());
    assert_eq!(EditorKeyBehavior::Ignore, editor.last_key_behavior());
    assert_eq!(0, editor.len());
}

#[test]
fn set_int_option_accepts_valid_values() {
    let mut o = EditorOptions::default_options();
    assert_eq!(Ok(()), set_int_option(&mut o, "chewing.candidates_per_page", 7));
    assert_eq!(7, o.candidates_per_page);
    assert_eq!(Ok(()), set_int_option(&mut o, "chewing.auto_commit_threshold", 39));
    assert_eq!(39, o.auto_commit_threshold);
    assert_eq!(Ok(()), set_int_option(&mut o, "chewing.language_mode", 0));
    assert_eq!(LanguageMode::English, o.language_mode);
    assert_eq!(Ok(()), set_int_option(&mut o, "chewing.character_form", 1));
    assert_eq!(CharacterForm::Fullwidth, o.character_form);
    assert_eq!(Ok(()), set_int_option(&mut o, "chewing.user_phrase_add_direction", 0));
    assert_eq!(UserPhraseAddDirection::Forward, o.user_phrase_add_dir);
    assert_eq!(Ok(()), set_int_option(&mut o, "chewing.disable_auto_learn_phrase", 1));
    assert!(!o.auto_learn_phrase);
    assert_eq!(Ok(()), set_int_option(&mut o, "chewing.space_is_select_key", 1));
    assert!(o.space_is_select_key);
}

#[test]
fn set_int_option_refuses_invalid_values() {
    let mut o = EditorOptions::default_options();
    let before = o;
    assert_eq!(Err(()), set_int_option(&mut o, "chewing.candidates_per_page", 0));
    assert_eq!(Err(()), set_int_option(&mut o, "chewing.candidates_per_page", 11));
    assert_eq!(Err(()), set_int_option(&mut o, "chewing.auto_commit_threshold", 40));
    assert_eq!(Err(()), set_int_option(&mut o, "chewing.auto_shift_cursor", 2));
    assert_eq!(Err(()), set_int_option(&mut o, "chewing.easy_symbol_input", -1));
    assert_eq!(Err(()), set_int_option(&mut o, "chewing.no_such_option", 1));
    assert_eq!(before, o);
}
