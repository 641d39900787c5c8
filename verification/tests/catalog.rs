//! The catalog model, its on-disk rendering, loading validation,
//! propagation and translation bookkeeping, on concrete values.

use arb_util::arb::ArbValue;
use arb_util::arb::Catalog;
use arb_util::arb::Entry;
use arb_util::arb::Metadata;
use arb_util::arb::Placeholder;
use arb_util::format::from_nodes;
use arb_util::format::serialize_catalog;
use arb_util::format::JsonNode;
use arb_util::syncer::is_language_file;
use arb_util::syncer::propagate;
use arb_util::translator::apply_translation;
use arb_util::translator::infer_language;
use arb_util::translator::scan_catalog;

fn text_entry(key: &str, value: &str) -> Entry {
    Entry {
        key: key.to_string(),
        value: ArbValue::Text(value.to_string()),
    }
}

fn get_text(c: &Catalog, key: &str) -> Option<String> {
    match c.get(key) {
        Some(ArbValue::Text(t)) => Some(t.clone()),
        _ => None,
    }
}

#[test]
fn add_key_inserts_and_replaces() {
    let mut c = Catalog::new();
    c.add_key("greeting", "Hi");
    assert_eq!(c.entries.len(), 1);
    assert_eq!(get_text(&c, "greeting"), Some("Hi".to_string()));
    c.add_key("greeting", "Hello");
    assert_eq!(c.entries.len(), 1);
    assert_eq!(get_text(&c, "greeting"), Some("Hello".to_string()));
}

#[test]
fn propagate_inserts_placeholders_for_missing_keys() {
    // template {"greeting":"Hi"}, language {} -> {"greeting":"#Hi"}
    let template = Catalog {
        entries: vec![text_entry("greeting", "Hi")],
    };
    let mut lang = Catalog::new();
    let changed = propagate(&template, &mut lang);
    assert!(changed);
    assert_eq!(lang.entries.len(), 1);
    assert_eq!(get_text(&lang, "greeting"), Some("#Hi".to_string()));
}

#[test]
fn translation_replaces_placeholder_without_insert() {
    // after sync, a successful translation replaces the value in place
    let template = Catalog {
        entries: vec![text_entry("greeting", "Hi")],
    };
    let mut lang = Catalog::new();
    propagate(&template, &mut lang);
    apply_translation(&mut lang, "greeting", "Bonjour");
    assert_eq!(lang.entries.len(), 1);
    assert_eq!(get_text(&lang, "greeting"), Some("Bonjour".to_string()));
    assert!(!get_text(&lang, "greeting").unwrap().starts_with('#'));
}

#[test]
fn propagate_never_overwrites_existing_entries() {
    let template = Catalog {
        entries: vec![text_entry("a", "one"), text_entry("b", "two")],
    };
    let mut lang = Catalog {
        entries: vec![text_entry("a", "eins")],
    };
    let changed = propagate(&template, &mut lang);
    assert!(changed);
    assert_eq!(get_text(&lang, "a"), Some("eins".to_string()));
    assert_eq!(get_text(&lang, "b"), Some("#two".to_string()));
    let changed_again = propagate(&template, &mut lang);
    assert!(!changed_again);
    assert_eq!(lang.entries.len(), 2);
}

#[test]
fn propagate_skips_metadata_keys() {
    let template = Catalog {
        entries: vec![
            text_entry("a", "one"),
            Entry {
                key: "@a".to_string(),
                value: ArbValue::Meta(Metadata {
                    placeholders: vec![],
                }),
            },
        ],
    };
    let mut lang = Catalog::new();
    propagate(&template, &mut lang);
    assert_eq!(lang.entries.len(), 1);
    assert!(lang.get("@a").is_none());
}

#[test]
fn serialize_empty_catalog() {
    let c = Catalog::new();
    assert_eq!(serialize_catalog(&c), "{}");
}

#[test]
fn serialize_text_entries() {
    let c = Catalog {
        entries: vec![text_entry("greeting", "Hi"), text_entry("bye", "See \"you\"\n")],
    };
    assert_eq!(
        serialize_catalog(&c),
        "{\n  \"greeting\": \"Hi\",\n  \"bye\": \"See \\\"you\\\"\\n\"\n}"
    );
}

#[test]
fn serialize_metadata_entry() {
    let c = Catalog {
        entries: vec![
            text_entry("hello", "Hello {name}"),
            Entry {
                key: "@hello".to_string(),
                value: ArbValue::Meta(Metadata {
                    placeholders: vec![Placeholder {
                        name: "name".to_string(),
                        ptype: "String".to_string(),
                    }],
                }),
            },
        ],
    };
    let expected = "{\n  \"hello\": \"Hello {name}\",\n  \"@hello\": {\n    \"placeholders\": {\n      \"name\": {\n        \"type\": \"String\"\n      }\n    }\n  }\n}";
    assert_eq!(serialize_catalog(&c), expected);
}

#[test]
fn serialize_empty_metadata_object() {
    let c = Catalog {
        entries: vec![Entry {
            key: "@x".to_string(),
            value: ArbValue::Meta(Metadata {
                placeholders: vec![],
            }),
        }],
    };
    assert_eq!(serialize_catalog(&c), "{\n  \"@x\": {}\n}");
}

#[test]
fn serialized_catalog_is_valid_json() {
    let c = Catalog {
        entries: vec![
            text_entry("hello", "Hello {name}"),
            Entry {
                key: "@hello".to_string(),
                value: ArbValue::Meta(Metadata {
                    placeholders: vec![Placeholder {
                        name: "name".to_string(),
                        ptype: "String".to_string(),
                    }],
                }),
            },
        ],
    };
    let text = serialize_catalog(&c);
    let parsed: serde_json::Value = serde_json::from_str(&text).unwrap();
    assert_eq!(parsed["hello"], serde_json::Value::String("Hello {name}".to_string()));
    assert_eq!(
        parsed["@hello"]["placeholders"]["name"]["type"],
        serde_json::Value::String("String".to_string())
    );
}

#[test]
fn from_nodes_accepts_strings_and_metadata() {
    let nodes = vec![
        ("greeting".to_string(), JsonNode::Str("Hi".to_string())),
        (
            "@greeting".to_string(),
            JsonNode::Obj(vec![(
                "placeholders".to_string(),
                JsonNode::Obj(vec![(
                    "name".to_string(),
                    JsonNode::Obj(vec![("type".to_string(), JsonNode::Str("String".to_string()))]),
                )]),
            )]),
        ),
    ];
    let c = from_nodes(&nodes).unwrap();
    assert_eq!(c.entries.len(), 2);
    assert_eq!(get_text(&c, "greeting"), Some("Hi".to_string()));
    match c.get("@greeting") {
        Some(ArbValue::Meta(m)) => {
            assert_eq!(m.placeholders.len(), 1);
            assert_eq!(m.placeholders[0].name, "name");
            assert_eq!(m.placeholders[0].ptype, "String");
        }
        other => panic!("expected metadata, got {other:?}"),
    }
}

#[test]
fn from_nodes_rejects_other_values() {
    let nodes = vec![("n".to_string(), JsonNode::Other)];
    assert!(from_nodes(&nodes).is_err());
}

#[test]
fn from_nodes_rejects_duplicate_keys() {
    let nodes = vec![
        ("a".to_string(), JsonNode::Str("x".to_string())),
        ("a".to_string(), JsonNode::Str("y".to_string())),
    ];
    assert!(from_nodes(&nodes).is_err());
}

#[test]
fn from_nodes_rejects_unknown_metadata_fields() {
    let nodes = vec![(
        "@a".to_string(),
        JsonNode::Obj(vec![("description".to_string(), JsonNode::Str("d".to_string()))]),
    )];
    assert!(from_nodes(&nodes).is_err());
}

#[test]
fn language_file_names() {
    assert!(is_language_file("app_en.arb", "app.arb"));
    assert!(!is_language_file("app.arb", "app.arb"));
    assert!(!is_language_file("notes.txt", "app.arb"));
}

#[test]
fn language_inference_from_file_names() {
    assert_eq!(infer_language("app_en.arb"), Some("en".to_string()));
    assert_eq!(infer_language("intl_pt_BR.arb"), Some("BR".to_string()));
    assert_eq!(infer_language("app.arb"), Some("app".to_string()));
    assert_eq!(infer_language("app_.arb"), None);
}

#[test]
fn scan_finds_placeholder_entries_only() {
    let c = Catalog {
        entries: vec![
            text_entry("a", "#one"),
            text_entry("b", "done"),
            Entry {
                key: "@a".to_string(),
                value: ArbValue::Meta(Metadata {
                    placeholders: vec![],
                }),
            },
        ],
    };
    let jobs = scan_catalog(&c, "fr", "l10n/app_fr.arb");
    assert_eq!(jobs.len(), 1);
    assert_eq!(jobs[0].key, "a");
    assert_eq!(jobs[0].text, "one");
    assert_eq!(jobs[0].lang, "fr");
    assert_eq!(jobs[0].arb_file.path, "l10n/app_fr.arb");
}

#[test]
fn translation_starting_with_sentinel_stays_marked() {
    // a provider answer that itself starts with the sentinel is stored as
    // given: the entry then still looks untranslated
    let mut lang = Catalog {
        entries: vec![text_entry("a", "#one")],
    };
    apply_translation(&mut lang, "a", "#uno");
    assert_eq!(get_text(&lang, "a"), Some("#uno".to_string()));
}
