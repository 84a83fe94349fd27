use adoc::ast::{AttributeValue, Attributes};
use adoc::parser::inline::parse;
use adoc::parser::subs::Subs;

fn show(text: &str) -> String {
    format!("{:?}", parse(text, &Attributes::new(), Subs::normal()))
}

fn show_with(text: &str, attrs: &Attributes, subs: Subs) -> String {
    format!("{:?}", parse(text, attrs, subs))
}

#[test]
fn empty_text_has_no_inlines() {
    assert_eq!(show(""), "[]");
}

#[test]
fn plain_text_is_one_node() {
    assert_eq!(show("just words"), r#"[Text { value: "just words" }]"#);
}

#[test]
fn verbatim_subs_keep_markup_as_text() {
    let got = show_with("*a* {x} (C) https://e.com", &Attributes::new(), Subs::verbatim());
    assert_eq!(got, r#"[Text { value: "*a* {x} (C) https://e.com" }]"#);
}

#[test]
fn constrained_strong_and_emphasis() {
    assert_eq!(
        show("*bold* and _it_"),
        r#"[Strong { children: [Text { value: "bold" }] }, Text { value: " and " }, Emphasis { children: [Text { value: "it" }] }]"#
    );
}

#[test]
fn constrained_marker_needs_a_word_boundary() {
    assert_eq!(show("a*b*c"), r#"[Text { value: "a*b*c" }]"#);
}

#[test]
fn unconstrained_strong_inside_a_word() {
    assert_eq!(
        show("un**bold**ed"),
        r#"[Text { value: "un" }, Strong { children: [Text { value: "bold" }] }, Text { value: "ed" }]"#
    );
}

#[test]
fn subscript_superscript_and_highlight() {
    assert_eq!(
        show("H~2~O x^2^ #hi#"),
        r#"[Text { value: "H" }, Subscript { children: [Text { value: "2" }] }, Text { value: "O x" }, Superscript { children: [Text { value: "2" }] }, Text { value: " " }, Highlight { children: [Text { value: "hi" }] }]"#
    );
}

#[test]
fn nested_spans_are_parsed_inside() {
    assert_eq!(
        show("*a _b_*"),
        r#"[Strong { children: [Text { value: "a " }, Emphasis { children: [Text { value: "b" }] }] }]"#
    );
}

#[test]
fn replacements_join_the_text() {
    assert_eq!(show("(C) a -- b..."), "[Text { value: \"\u{a9} a \u{2014} b\u{2026}\" }]");
}

#[test]
fn trailing_plus_is_a_line_break() {
    assert_eq!(show("end +"), r#"[Text { value: "end" }, LineBreak]"#);
}

#[test]
fn attribute_reference_resolves_into_text() {
    let mut attrs = Attributes::new();
    attrs.insert("name".to_string(), AttributeValue::String("World".to_string()));
    attrs.insert("on".to_string(), AttributeValue::Bool(true));
    let got = show_with("Hello {name}{on}, {missing}!", &attrs, Subs::normal());
    assert_eq!(got, r#"[Text { value: "Hello World, {missing}!" }]"#);
}

#[test]
fn bare_url_drops_trailing_punctuation() {
    assert_eq!(
        show("see https://example.com/a."),
        r#"[Text { value: "see " }, Link { href: "https://example.com/a", text: [Text { value: "https://example.com/a" }] }, Text { value: "." }]"#
    );
}

#[test]
fn bare_url_with_label() {
    assert_eq!(
        show("http://x.org[the site]"),
        r#"[Link { href: "http://x.org", text: [Text { value: "the site" }] }]"#
    );
}

#[test]
fn link_and_mailto_macros() {
    assert_eq!(
        show("link:guide.html[Guide] mailto:me@x.org[]"),
        r#"[Link { href: "guide.html", text: [Text { value: "Guide" }] }, Text { value: " " }, Link { href: "mailto:me@x.org", text: [Text { value: "me@x.org" }] }]"#
    );
}

#[test]
fn kbd_btn_and_menu_macros() {
    assert_eq!(
        show("kbd:[Ctrl+C]"),
        r#"[RawHtml { value: "<span class=\"keyseq\"><kbd>Ctrl</kbd>+<kbd>C</kbd></span>" }]"#
    );
    assert_eq!(show("btn:[Save]"), r#"[RawHtml { value: "<b class=\"button\">[Save]</b>" }]"#);
    assert_eq!(
        show("menu:File[Save > As]"),
        "[RawHtml { value: \"<span class=\\\"menuseq\\\"><span class=\\\"menu\\\">File</span> \u{203a} <span class=\\\"menuitem\\\">Save</span> \u{203a} <span class=\\\"menuitem\\\">As</span></span>\" }]"
    );
}

#[test]
fn empty_kbd_is_plain_text() {
    assert_eq!(show("kbd:[]"), r#"[Text { value: "kbd:[]" }]"#);
}

#[test]
fn image_macro_with_size() {
    assert_eq!(
        show("image:logo.png[Logo, 10, 20]"),
        r#"[Image { target: "logo.png", alt: "Logo", width: Some("10"), height: Some("20") }]"#
    );
}

#[test]
fn cross_references() {
    assert_eq!(
        show("<<intro, the *intro*>>"),
        r#"[Xref { target: "intro", text: Some([Text { value: "the " }, Strong { children: [Text { value: "intro" }] }]) }]"#
    );
    assert_eq!(show("xref:a.adoc[]"), r#"[Xref { target: "a.adoc", text: None }]"#);
    assert_eq!(show("<<  >>"), r#"[Text { value: "<<  >>" }]"#);
}

#[test]
fn footnotes_parse_their_text() {
    assert_eq!(
        show("x footnote:n1[a _b_]"),
        r#"[Text { value: "x " }, Footnote { id: Some("n1"), text: [Text { value: "a " }, Emphasis { children: [Text { value: "b" }] }] }]"#
    );
}

#[test]
fn passthroughs_and_pass_macro() {
    assert_eq!(
        show("++*x*++ and +<y>+ pass:[<b>]"),
        r#"[Passthrough { value: "*x*" }, Text { value: " and " }, Passthrough { value: "<y>" }, Text { value: " " }, RawHtml { value: "<b>" }]"#
    );
}

#[test]
fn smart_quotes_wrap_the_inner_text() {
    assert_eq!(
        show("\"`hi *you*`\""),
        "[Text { value: \"\u{201c}\" }, Text { value: \"hi \" }, Strong { children: [Text { value: \"you\" }] }, Text { value: \"\u{201d}\" }]"
    );
}

#[test]
fn anchor_macro_renders_empty_anchor() {
    assert_eq!(show("anchor:here[]"), r#"[RawHtml { value: "<a id=\"here\"></a>" }]"#);
}

#[test]
fn escaped_bracket_does_not_close_a_macro() {
    assert_eq!(show(r"btn:[a\]b]"), r#"[RawHtml { value: "<b class=\"button\">[a\\]b]</b>" }]"#);
}
