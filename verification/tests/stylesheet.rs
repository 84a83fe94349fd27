//! Covers the five stylesheet modes.

use adoc::ast::{Attributes, Converter, Document};
use adoc::cli::{
    plan_stylesheet_copy, preprocessor_base_dir, resolve_output_path, resolve_style_path, CssCopy,
};
use adoc::convert::html5::{
    Html5Converter, Html5Options, Stylesheet, BUILTIN_CSS, BUILTIN_FILENAME,
};

fn empty_doc() -> Document {
    Document {
        header: None,
        attributes: Attributes::new(),
        blocks: Vec::new(),
    }
}

fn convert(stylesheet: Stylesheet) -> String {
    let converter = Html5Converter::with_options(Html5Options { stylesheet });
    converter.convert(&empty_doc()).expect("convert")
}

#[test]
fn builtin_embed_inlines_the_default_stylesheet() {
    let html = convert(Stylesheet::BuiltinEmbed);
    assert!(html.contains("<style>"));
    // Sentinel substring from the built-in CSS so we know it's really inlined.
    assert!(html.contains("--adoc-bg"));
    assert!(!html.contains(r#"<link rel="stylesheet""#));
}

#[test]
fn builtin_link_emits_link_to_default_name() {
    let html = convert(Stylesheet::BuiltinLink {
        href: BUILTIN_FILENAME.to_string(),
    });
    assert!(html.contains(r#"<link rel="stylesheet" href="adoc.css">"#));
    assert!(!html.contains("<style>"));
}

#[test]
fn custom_embed_inlines_supplied_css() {
    let css = "body{color:red}".to_string();
    let html = convert(Stylesheet::CustomEmbed { css: css.clone() });
    assert!(html.contains("<style>"));
    assert!(html.contains(&css));
    assert!(!html.contains("--adoc-bg"));
}

#[test]
fn custom_link_uses_supplied_href() {
    let html = convert(Stylesheet::CustomLink {
        href: "themes/custom.css".to_string(),
    });
    assert!(html.contains(r#"<link rel="stylesheet" href="themes/custom.css">"#));
}

#[test]
fn stylesheet_none_emits_nothing() {
    let html = convert(Stylesheet::Omit);
    assert!(!html.contains("<style>"));
    assert!(!html.contains(r#"<link rel="stylesheet""#));
}

#[test]
fn builtin_css_has_dark_mode_tokens() {
    // Guards against regressions in the default palette.
    assert!(BUILTIN_CSS.contains("color-scheme: light dark"));
    assert!(BUILTIN_CSS.contains("light-dark("));
    assert!(BUILTIN_CSS.contains("--adoc-bg"));
}

#[test]
fn custom_embed_gets_a_trailing_newline() {
    let html = convert(Stylesheet::CustomEmbed { css: "p{}".to_string() });
    assert!(html.contains("<style>\np{}\n</style>\n"));
    let html = convert(Stylesheet::CustomEmbed { css: "p{}\n".to_string() });
    assert!(html.contains("<style>\np{}\n</style>\n"));
}

#[test]
fn link_href_is_attribute_escaped() {
    let html = convert(Stylesheet::CustomLink { href: "a\"b&c".to_string() });
    assert!(html.contains(r#"href="a&quot;b&amp;c">"#));
}

#[test]
fn empty_document_page_shape() {
    let html = convert(Stylesheet::Omit);
    assert_eq!(
        html,
        "<!doctype html>\n<html lang=\"en\">\n<head>\n<meta charset=\"utf-8\">\n<meta name=\"viewport\" content=\"width=device-width, initial-scale=1\">\n<title>Untitled</title>\n</head>\n<body>\n</body>\n</html>\n"
    );
}

#[test]
fn style_path_resolves_under_base_dir() {
    assert_eq!(resolve_style_path("base", None, "site.css"), "base/site.css");
    assert_eq!(resolve_style_path("base", Some("css/"), "site.css"), "base/css/site.css");
    assert_eq!(resolve_style_path("base", None, "/abs/site.css"), "/abs/site.css");
}

#[test]
fn base_dir_defaults_to_the_input_directory() {
    assert_eq!(preprocessor_base_dir(None, Some("docs/guide.adoc")), "docs");
    assert_eq!(preprocessor_base_dir(None, None), ".");
    assert_eq!(preprocessor_base_dir(Some("root"), Some("docs/guide.adoc")), "root");
}

#[test]
fn copied_custom_stylesheet_keeps_only_its_file_name() {
    let sheet = Stylesheet::CustomLink { href: "styles/site.css".to_string() };
    match plan_stylesheet_copy(&sheet, &Attributes::new(), "base") {
        Some((CssCopy::File { path }, name)) => {
            assert_eq!(path, "base/styles/site.css");
            assert_eq!(name, "site.css");
        }
        _ => panic!("a linked custom stylesheet is copied from its file"),
    }
}

#[test]
fn output_path_goes_under_the_destination_directory() {
    assert_eq!(resolve_output_path(Some("a.html"), Some("out"), None), Some("out/a.html".to_string()));
    assert_eq!(resolve_output_path(Some("/abs/a.html"), Some("out"), None), Some("/abs/a.html".to_string()));
    assert_eq!(resolve_output_path(Some("a.html"), None, None), Some("a.html".to_string()));
    assert_eq!(resolve_output_path(None, Some("out"), Some("docs/guide.adoc")), Some("out/guide.html".to_string()));
    assert_eq!(resolve_output_path(None, Some("out"), Some("notes.v2.adoc")), Some("out/notes.v2.html".to_string()));
    assert_eq!(resolve_output_path(None, Some("out"), None), Some("out/out.html".to_string()));
    assert_eq!(resolve_output_path(None, None, Some("guide.adoc")), None);
}

#[test]
fn plain_input_name_has_an_empty_base_directory() {
    assert_eq!(preprocessor_base_dir(None, Some("guide.adoc")), "");
}
