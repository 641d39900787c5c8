//! Identifier synthesis and small helpers, exercised on concrete values.

use arb_util::utils::id_string;
use arb_util::utils::localization_getter;
use arb_util::utils::stringe;

#[test]
fn key_for_example_literal() {
    assert_eq!(
        id_string("Hello, {name}!"),
        "helloCommaOpenBraceNameCloseBraceExclamationMark"
    );
}

#[test]
fn key_synthesis_is_deterministic() {
    let a = id_string("Add a task?");
    let b = id_string("Add a task?");
    assert_eq!(a, b);
    assert_eq!(a, "addATaskQuestionMark");
}

#[test]
fn key_of_plain_words() {
    assert_eq!(id_string("Add new item"), "addNewItem");
    assert_eq!(id_string("save"), "save");
    assert_eq!(id_string("SAVE ALL"), "saveAll");
}

#[test]
fn key_passes_underscores_through_inside_words() {
    assert_eq!(id_string("foo_bar"), "foo_bar");
    assert_eq!(id_string("foo bar"), "fooBar");
}

#[test]
fn key_spells_out_punctuation() {
    assert_eq!(id_string("?"), "questionMark");
    assert_eq!(id_string("Hi!"), "hiExclamationMark");
    assert_eq!(id_string("a+b=c"), "aPlusBEqualsC");
    assert_eq!(id_string("50%"), "50Percent");
}

#[test]
fn key_of_unknown_character_uses_hex() {
    assert_eq!(id_string("\u{1F600}"), "char_1f600");
    assert_eq!(id_string("x \u{1F600}"), "xChar_1f600");
}

#[test]
fn key_of_empty_text_is_empty() {
    assert_eq!(id_string(""), "");
    assert_eq!(id_string("   "), "");
}

#[test]
fn key_lowercases_unicode_words() {
    assert_eq!(id_string("Größe"), "größe");
    assert_eq!(id_string("straße BREIT"), "straßeBreit");
}

#[test]
fn distinct_texts_may_collide_only_through_their_words() {
    // the two texts differ but normalize to the same word sequence
    assert_eq!(id_string("Hi!"), id_string("Hi !"));
    // distinct word sequences stay distinct
    assert_ne!(id_string("Hi"), id_string("Hello"));
}

#[test]
fn accessor_wraps_key() {
    let key = String::from("helloWorld");
    assert_eq!(
        localization_getter(&key),
        "AppLocalizations.of(context)!.helloWorld"
    );
}

#[test]
fn stringe_prefixes_errors_and_passes_successes() {
    let ok: Result<u32, String> = stringe("reading file", Ok(7));
    assert_eq!(ok, Ok(7));
    let err: Result<u32, String> = stringe("reading file", Err("gone".to_string()));
    assert_eq!(err, Err("reading file: gone".to_string()));
}
