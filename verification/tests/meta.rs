use adoc::ast::{Attributes, BlockMeta};
use adoc::parser::meta::{apply_attrlist, try_parse_attrlist, try_parse_block_anchor, try_parse_block_title};

fn parse(text: &str) -> BlockMeta {
    let mut meta = BlockMeta::new();
    let parts = try_parse_attrlist(text).expect("attrlist");
    apply_attrlist(&mut meta, parts, &Attributes::new());
    meta
}

#[test]
fn source_with_language() {
    let m = parse("[source,rust]");
    assert_eq!(m.style.as_deref(), Some("source"));
    assert_eq!(m.positional, vec!["rust".to_string()]);
}

#[test]
fn admonition_style() {
    let m = parse("[NOTE]");
    assert_eq!(m.style.as_deref(), Some("NOTE"));
    assert!(m.positional.is_empty());
}

#[test]
fn shorthand_id_role_option() {
    let m = parse("[#myid.warning%hardbreaks]");
    assert!(m.style.is_none());
    assert_eq!(m.id.as_deref(), Some("myid"));
    assert_eq!(m.roles, vec!["warning".to_string()]);
    assert_eq!(m.options, vec!["hardbreaks".to_string()]);
}

#[test]
fn shorthand_with_style_and_positional() {
    let m = parse("[source.lang#myid%hardbreaks,rust]");
    assert_eq!(m.style.as_deref(), Some("source"));
    assert_eq!(m.id.as_deref(), Some("myid"));
    assert_eq!(m.roles, vec!["lang".to_string()]);
    assert_eq!(m.options, vec!["hardbreaks".to_string()]);
    assert_eq!(m.positional, vec!["rust".to_string()]);
}

#[test]
fn named_attributes() {
    let m = parse("[caption=\"Listing 1.\",subs=\"-attributes\"]");
    assert_eq!(
        m.named.get("caption").map(String::as_str),
        Some("Listing 1.")
    );
    assert_eq!(m.named.get("subs").map(String::as_str), Some("-attributes"));
}

#[test]
fn named_id_role_options_fold_into_fields() {
    let m = parse("[id=\"foo\",role=\"warn info\",options=\"hardbreaks,nofollow\"]");
    assert_eq!(m.id.as_deref(), Some("foo"));
    assert_eq!(m.roles, vec!["warn".to_string(), "info".to_string()]);
    assert_eq!(
        m.options,
        vec!["hardbreaks".to_string(), "nofollow".to_string()]
    );
    assert!(m.named.is_empty());
}

#[test]
fn quoted_value_with_comma() {
    let m = parse("[source,rust,linenums=\"1,2,3\"]");
    assert_eq!(m.style.as_deref(), Some("source"));
    assert_eq!(m.positional, vec!["rust".to_string()]);
    assert_eq!(m.named.get("linenums").map(String::as_str), Some("1,2,3"));
}

#[test]
fn double_bracket_anchor_rejected() {
    assert!(try_parse_attrlist("[[anchor]]").is_none());
}

#[test]
fn block_title_recognised() {
    let attrs = Attributes::new();
    assert!(try_parse_block_title(".My Title", &attrs).is_some());
    assert!(try_parse_block_title(".5 stars", &attrs).is_some());
}

#[test]
fn block_title_rejects_list_marker_and_delimited() {
    let attrs = Attributes::new();
    assert!(try_parse_block_title(". item", &attrs).is_none());
    assert!(try_parse_block_title("....", &attrs).is_none());
    assert!(try_parse_block_title(".", &attrs).is_none());
}

#[test]
fn block_anchor_with_reftext() {
    assert_eq!(
        try_parse_block_anchor("[[intro, The Intro]]"),
        Some(("intro".to_string(), Some("The Intro".to_string())))
    );
    assert_eq!(try_parse_block_anchor("[[bad id]]"), None);
}
