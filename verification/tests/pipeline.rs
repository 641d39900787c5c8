//! Extraction, merging, the import line, the batch state machine and the
//! watcher filter, on concrete values.

use arb_util::arb::ArbValue;
use arb_util::arb::Catalog;
use arb_util::extractor::create_metadata;
use arb_util::extractor::ensure_localization_import;
use arb_util::extractor::extract;
use arb_util::extractor::merge;
use arb_util::extractor::process_content;
use arb_util::extractor::NewEntry;
use arb_util::project::L10NYaml;
use arb_util::project::Project;
use arb_util::project::PubSpec;
use arb_util::translator::classify_response;
use arb_util::translator::apply_translation;
use arb_util::translator::Batch;
use arb_util::translator::TranslateResult;
use arb_util::translator::TranslationJob;
use arb_util::arb::ArbFile;
use arb_util::watcher::select_path;
use arb_util::watcher::WatcherFilter;
use arb_util::watcher::WatchEventKind;

fn project() -> Project {
    Project {
        name: "demo".to_string(),
        root_dir: "/tmp/demo".to_string(),
        l10n_dir: "lib/l10n".to_string(),
        arb_template: "app.arb".to_string(),
        localizations_file: "app_localizations.dart".to_string(),
    }
}

fn get_text(c: &Catalog, key: &str) -> Option<String> {
    match c.get(key) {
        Some(ArbValue::Text(t)) => Some(t.clone()),
        _ => None,
    }
}

#[test]
fn extract_rewrites_marked_literal() {
    let r = extract("Text(_\"Hello\")");
    assert!(r.changed);
    assert_eq!(r.content, "Text(AppLocalizations.of(context)!.hello)");
    assert_eq!(r.entries.len(), 1);
    assert_eq!(r.entries[0].key, "hello");
    assert_eq!(r.entries[0].text, "Hello");
}

#[test]
fn extract_without_matches_changes_nothing() {
    let src = "let x = \"plain\"; // _ and \" apart";
    let r = extract(src);
    assert!(!r.changed);
    assert_eq!(r.content, src);
    assert!(r.entries.is_empty());
}

#[test]
fn extract_counts_spans_and_dedups_entries() {
    let r = extract("_\"One\" + _\"Two\" + _\"One\"");
    assert!(r.changed);
    // three rewritten spans, two distinct keys after dedup
    assert_eq!(
        r.content,
        "AppLocalizations.of(context)!.one + AppLocalizations.of(context)!.two + AppLocalizations.of(context)!.one"
    );
    assert_eq!(r.entries.len(), 2);
    assert_eq!(r.entries[0].key, "one");
    assert_eq!(r.entries[1].key, "two");
}

#[test]
fn extract_keeps_first_text_on_key_collision() {
    // distinct literals with colliding keys: the first literal's text wins
    let r = extract("_\"Hi!\" _\"Hi !\"");
    assert_eq!(r.entries.len(), 1);
    assert_eq!(r.entries[0].key, "hiExclamationMark");
    assert_eq!(r.entries[0].text, "Hi!");
}

#[test]
fn extract_honors_escaped_quotes() {
    let r = extract("_\"a\\\"b\"");
    assert_eq!(r.entries.len(), 1);
    assert_eq!(r.entries[0].text, "a\"b");
    assert_eq!(r.entries[0].key, "aDoubleQuoteB");
}

#[test]
fn extract_decodes_unicode_escapes() {
    let r = extract("_\"a\\u0041\"");
    assert_eq!(r.entries.len(), 1);
    assert_eq!(r.entries[0].text, "aA");
    assert_eq!(r.entries[0].key, "aa");
    let sp = extract("_\"\\uD83D\\uDE00\"");
    assert_eq!(sp.entries.len(), 1);
    assert_eq!(sp.entries[0].text, "\u{1F600}");
    assert_eq!(sp.entries[0].key, "char_1f600");
    let lone = extract("_\"\\uD83Dx\"");
    assert!(!lone.changed);
}

#[test]
fn extract_skips_undecodable_and_empty_literals() {
    let bad = "_\"a\\qb\"";
    let r = extract(bad);
    assert!(!r.changed);
    assert_eq!(r.content, bad);
    let empty = "_\"\" tail";
    let r2 = extract(empty);
    assert!(!r2.changed);
    assert_eq!(r2.content, empty);
}

#[test]
fn extract_is_idempotent_on_rewritten_content() {
    let first = extract("a _\"One\" b _\"Two\" c");
    assert!(first.changed);
    let second = extract(&first.content);
    assert!(!second.changed);
    assert_eq!(second.content, first.content);
    assert!(second.entries.is_empty());
}

#[test]
fn metadata_records_interpolation_markers() {
    let m = create_metadata("Hello {name}, you have {count} items and {name} again");
    assert_eq!(m.placeholders.len(), 2);
    assert_eq!(m.placeholders[0].name, "name");
    assert_eq!(m.placeholders[0].ptype, "String");
    assert_eq!(m.placeholders[1].name, "count");
    let none = create_metadata("plain text, no markers {not closed");
    assert!(none.placeholders.is_empty());
}

#[test]
fn merge_inserts_new_keys_with_metadata_first_writer_wins() {
    let mut template = Catalog::new();
    template.add_key("greeting", "Hi there");
    let entries = vec![
        NewEntry {
            key: "greeting".to_string(),
            text: "Howdy".to_string(),
        },
        NewEntry {
            key: "hello".to_string(),
            text: "Hello {name}".to_string(),
        },
    ];
    let changed = merge(&mut template, &entries);
    assert!(changed);
    // the existing key kept its first writer's text
    assert_eq!(get_text(&template, "greeting"), Some("Hi there".to_string()));
    assert_eq!(get_text(&template, "hello"), Some("Hello {name}".to_string()));
    match template.get("@hello") {
        Some(ArbValue::Meta(m)) => {
            assert_eq!(m.placeholders.len(), 1);
            assert_eq!(m.placeholders[0].name, "name");
        }
        other => panic!("expected metadata, got {other:?}"),
    }
    // a second merge of the same discoveries is a no-op
    let again = merge(&mut template, &entries);
    assert!(!again);
}

#[test]
fn import_line_added_once() {
    let p = project();
    let mut content = "void main() {}\n".to_string();
    ensure_localization_import(&p, &mut content);
    assert_eq!(
        content,
        "import 'package:demo/l10n/app_localizations.dart';\nvoid main() {}\n"
    );
    let before = content.clone();
    ensure_localization_import(&p, &mut content);
    assert_eq!(content, before);
}

#[test]
fn process_content_full_pass() {
    let p = project();
    let mut template = Catalog::new();
    let r = process_content(&p, "Text(_\"Hello\")", &mut template);
    assert!(r.write_file);
    assert!(r.template_changed);
    assert_eq!(
        r.content,
        "import 'package:demo/l10n/app_localizations.dart';\nText(AppLocalizations.of(context)!.hello)"
    );
    assert_eq!(get_text(&template, "hello"), Some("Hello".to_string()));
    assert!(template.get("@hello").is_some());
    // processing the rewritten content again changes nothing
    let r2 = process_content(&p, &r.content, &mut template);
    assert!(!r2.write_file);
    assert!(!r2.template_changed);
}

#[test]
fn project_config_validation() {
    let ok = Project::from_config(
        PubSpec {
            name: "demo".to_string(),
        },
        L10NYaml {
            arb_dir: "lib/l10n/".to_string(),
            template_arb_file: "app.arb".to_string(),
            output_localization_file: "app_localizations.dart".to_string(),
        },
        "/tmp/demo".to_string(),
    )
    .unwrap();
    assert_eq!(ok.l10n_dir, "lib/l10n");
    assert_eq!(ok.arb_template_path(), "/tmp/demo/lib/l10n/app.arb");
    assert_eq!(ok.import_dir(), "l10n");

    let err = Project::from_config(
        PubSpec {
            name: "demo".to_string(),
        },
        L10NYaml {
            arb_dir: "assets/l10n".to_string(),
            template_arb_file: "app.arb".to_string(),
            output_localization_file: "app_localizations.dart".to_string(),
        },
        "/tmp/demo".to_string(),
    );
    assert_eq!(
        err.unwrap_err(),
        "Please, make sure your configuration arb-dir points to `lib/...`"
    );
}

#[test]
fn classify_provider_responses() {
    let quota = "You exceeded your current quota, please check your plan and billing details. For more information on this error, head to: https://ai.google.dev/gemini-api/docs/rate-limits";
    match classify_response(429, quota, None) {
        TranslateResult::RateLimitExceeded => {}
        other => panic!("expected rate limit, got {other:?}"),
    }
    match classify_response(429, "slow down", None) {
        TranslateResult::Error(m) => {
            assert_eq!(m, "Gemini API returned an error status: 429 - slow down")
        }
        other => panic!("expected error, got {other:?}"),
    }
    match classify_response(500, "boom", None) {
        TranslateResult::Error(m) => {
            assert_eq!(m, "Gemini API returned an error status: 500 - boom")
        }
        other => panic!("expected error, got {other:?}"),
    }
    match classify_response(200, "{}", Some("Bonjour".to_string())) {
        TranslateResult::Translated(t) => assert_eq!(t, "Bonjour"),
        other => panic!("expected translation, got {other:?}"),
    }
    match classify_response(200, "weird body", None) {
        TranslateResult::Error(m) => {
            assert_eq!(m, "Could not find translated content in API response: weird body")
        }
        other => panic!("expected error, got {other:?}"),
    }
}

fn job(key: &str, text: &str) -> TranslationJob {
    TranslationJob {
        key: key.to_string(),
        text: text.to_string(),
        lang: "fr".to_string(),
        arb_file: ArbFile::new("l10n/app_fr.arb".to_string()),
    }
}

#[test]
fn rate_limit_aborts_rest_of_batch() {
    // five jobs; the third hits the rate limit: the first two results are
    // written and stay written, the last two are never attempted
    let mut lang = Catalog::new();
    for k in ["k1", "k2", "k3", "k4", "k5"] {
        lang.add_key(k, &format!("#{k}"));
    }
    let jobs: Vec<TranslationJob> = (1..=5).map(|i| job(&format!("k{i}"), &format!("t{i}"))).collect();
    let mut batch = Batch::new(jobs);

    let i1 = batch.next_job().unwrap();
    apply_translation(&mut lang, &batch.jobs[i1].key.clone(), "un");
    batch.record(&TranslateResult::Translated("un".to_string()));

    let i2 = batch.next_job().unwrap();
    apply_translation(&mut lang, &batch.jobs[i2].key.clone(), "deux");
    batch.record(&TranslateResult::Translated("deux".to_string()));

    let _i3 = batch.next_job().unwrap();
    batch.record(&TranslateResult::RateLimitExceeded);

    // jobs four and five are never handed out
    assert!(batch.next_job().is_none());
    assert!(batch.next_job().is_none());

    // the completed results are still there, the rest untouched
    assert_eq!(get_text(&lang, "k1"), Some("un".to_string()));
    assert_eq!(get_text(&lang, "k2"), Some("deux".to_string()));
    assert_eq!(get_text(&lang, "k3"), Some("#k3".to_string()));
    assert_eq!(get_text(&lang, "k4"), Some("#k4".to_string()));
    assert_eq!(get_text(&lang, "k5"), Some("#k5".to_string()));
}

#[test]
fn plain_errors_do_not_abort_the_batch() {
    let jobs = vec![job("a", "x"), job("b", "y")];
    let mut batch = Batch::new(jobs);
    let _ = batch.next_job().unwrap();
    batch.record(&TranslateResult::Error("provider hiccup".to_string()));
    assert!(batch.next_job().is_some());
    assert!(batch.next_job().is_none());
}

#[test]
fn watcher_filter_emits_initial_signal_once() {
    let mut f = WatcherFilter::new(true);
    assert!(f.take_initial());
    assert!(!f.take_initial());
    let mut g = WatcherFilter::new(false);
    assert!(!g.take_initial());
}

#[test]
fn watcher_selects_first_existing_path_of_relevant_events() {
    let paths = vec![
        ("gone.dart".to_string(), false),
        ("lib/a.dart".to_string(), true),
        ("lib/b.dart".to_string(), true),
    ];
    assert_eq!(
        select_path(&WatchEventKind::Modify, &paths),
        Some("lib/a.dart".to_string())
    );
    assert_eq!(
        select_path(&WatchEventKind::Create, &paths),
        Some("lib/a.dart".to_string())
    );
    assert_eq!(select_path(&WatchEventKind::Other, &paths), None);
    let none = vec![("gone.dart".to_string(), false)];
    assert_eq!(select_path(&WatchEventKind::Modify, &none), None);
}
