use adoc::ast::{Attributes, Block, BlockMeta, Document, Inline, Location, Paragraph};
use adoc::parser::idgen::{derive_section_id, inlines_to_plain};
use adoc::registry::IdRegistry;
use adoc::strmap::StrSet;

fn s(name: &str) -> String {
    name.to_string()
}

#[test]
fn ascii_titles_lowercase_and_separate() {
    let none = StrSet::new();
    assert_eq!(derive_section_id("Introduction", &none), "_introduction");
    assert_eq!(derive_section_id("Hello, World!", &none), "_hello_world");
    assert_eq!(derive_section_id("API v2", &none), "_api_v2");
    assert_eq!(
        derive_section_id("--leading-- punctuation", &none),
        "_leading_punctuation"
    );
}

#[test]
fn empty_or_punctuation_only_falls_back_to_section() {
    let none = StrSet::new();
    assert_eq!(derive_section_id("", &none), "_section");
    assert_eq!(derive_section_id("?!?", &none), "_section");
}

#[test]
fn collisions_get_numeric_suffixes() {
    let mut existing = StrSet::new();
    existing.insert(s("_intro"));
    existing.insert(s("_intro_2"));
    assert_eq!(derive_section_id("Intro", &existing), "_intro_3");
}

#[test]
fn explicit_ids_block_auto_use() {
    let mut existing = StrSet::new();
    existing.insert(s("_introduction"));
    assert_eq!(
        derive_section_id("Introduction", &existing),
        "_introduction_2"
    );
}

#[test]
fn inline_to_plain_strips_formatting() {
    let title = vec![
        Inline::Text {
            value: "API ".into(),
        },
        Inline::Strong {
            children: vec![Inline::Text { value: "v2".into() }],
        },
        Inline::Text {
            value: " Reference".into(),
        },
    ];
    assert_eq!(inlines_to_plain(&title), "API v2 Reference");
}

#[test]
fn suffix_counts_past_nine() {
    let mut existing = StrSet::new();
    existing.insert(s("_x"));
    for n in 2..=10 {
        existing.insert(format!("_x_{n}"));
    }
    assert_eq!(derive_section_id("X", &existing), "_x_11");
}

#[test]
fn non_ascii_letters_become_separators() {
    let none = StrSet::new();
    assert_eq!(derive_section_id("Café Menu", &none), "_caf_menu");
}

#[test]
fn registry_lists_ids_in_ascending_order_once() {
    let mut meta = BlockMeta::new();
    meta.id = Some("first".to_string());
    let doc = Document {
        header: None,
        attributes: Attributes::new(),
        blocks: vec![Block::Paragraph(Paragraph {
            inlines: vec![
                Inline::RawHtml { value: r#"<a id="my-anchor"></a>"#.to_string() },
                Inline::Text { value: r#"id="not-me""#.to_string() },
            ],
            location: Location::synthetic(),
            meta,
        })],
    };
    let reg = IdRegistry::collect(&doc);
    assert_eq!(reg.ids(), vec!["first".to_string(), "my-anchor".to_string()]);
    assert!(!reg.contains("not-me"));
}
