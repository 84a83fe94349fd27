use adoc::ast::{
    Attributes, Block, BlockMeta, Converter, DelimitedBlock, DelimitedContent, DelimitedStyle,
    Document, Inline, ListMarker, Location, Paragraph, SourceId,
};
use adoc::convert::html5::escape::{escape, escape_attr, substitute_conums};
use adoc::convert::html5::Html5Converter;
use adoc::parser::parse;
use adoc::preprocessor::source_lines;

fn render_src(src: &str) -> String {
    let lines = source_lines(src, SourceId(0));
    let doc = parse(&lines).expect("parse");
    Html5Converter::new().convert(&doc).expect("convert")
}

fn render_doc(src: &str) -> (Document, String) {
    let lines = source_lines(src, SourceId(0));
    let doc = parse(&lines).expect("parse");
    let html = Html5Converter::new().convert(&doc).expect("convert");
    (doc, html)
}

fn body(html: &str) -> &str {
    let start = html.find("<body>\n").unwrap() + "<body>\n".len();
    let end = html.find("</body>").unwrap();
    &html[start..end]
}

#[test]
fn source_highlighter_prism_emits_link_and_scripts() {
    let html = render_src(":source-highlighter: prism\n\nhi\n");
    assert!(html.contains("prismjs@1/themes/prism.min.css"));
    assert!(html.contains("prismjs@1/prism.min.js"));
    assert!(html.contains("prism-autoloader.min.js"));
    let link = html.find("prism.min.css").unwrap();
    let script = html.find("prism.min.js").unwrap();
    assert!(link < script, "link must appear in <head> before scripts");
}

#[test]
fn source_highlighter_prism_theme_attribute_overrides_default() {
    let html = render_src(":source-highlighter: prism\n:prism-theme: prism-tomorrow\n\nhi\n");
    assert!(html.contains("themes/prism-tomorrow.min.css"));
    assert!(!html.contains("themes/prism.min.css"));
}

#[test]
fn source_highlighter_highlightjs_emits_link_and_scripts() {
    let html = render_src(":source-highlighter: highlightjs\n\nhi\n");
    assert!(html.contains("highlight.js@11/styles/default.min.css"));
    assert!(html.contains("highlight.js@11/lib/common.min.js"));
    assert!(html.contains("hljs.highlightAll()"));
}

#[test]
fn source_highlighter_unknown_value_emits_nothing() {
    let html = render_src(":source-highlighter: rouge\n\nhi\n");
    assert!(!html.contains("prism"));
    assert!(!html.contains("highlight.js"));
    assert!(!html.contains("hljs"));
}

#[test]
fn source_highlighter_unset_emits_nothing() {
    let html = render_src("hi\n");
    assert!(!html.contains("prism"));
    assert!(!html.contains("highlight.js"));
}

#[test]
fn source_highlighter_value_is_case_insensitive() {
    let html = render_src(":source-highlighter: PrismJS\n\nhi\n");
    assert!(html.contains("prismjs@1/themes/prism.min.css"));
}

#[test]
fn delimited_style_roundtrip() {
    let styles = vec![
        DelimitedStyle::Listing,
        DelimitedStyle::Literal,
        DelimitedStyle::Example,
        DelimitedStyle::Quote,
        DelimitedStyle::Sidebar,
        DelimitedStyle::Passthrough,
        DelimitedStyle::Open,
    ];
    assert_eq!(styles.len(), 7);
}

#[test]
fn escape_text_and_attributes() {
    assert_eq!(escape("a<b>&\"c"), "a&lt;b&gt;&amp;\"c");
    assert_eq!(escape_attr("a<b>&\"c"), "a&lt;b&gt;&amp;&quot;c");
}

#[test]
fn conums_replace_escaped_markers() {
    assert_eq!(
        substitute_conums("let x = 1; &lt;1&gt; y &lt;12&gt;"),
        "let x = 1; <b class=\"conum\">(1)</b> y <b class=\"conum\">(12)</b>"
    );
    assert_eq!(substitute_conums("&lt;x&gt; &lt;&gt;"), "&lt;x&gt; &lt;&gt;");
    assert_eq!(substitute_conums("é &lt;3&gt;"), "é <b class=\"conum\">(3)</b>");
}

#[test]
fn paragraph_renders_as_p() {
    let html = render_src("A simple paragraph of text.\n\nSecond one.\n");
    assert!(html.contains("<p>A simple paragraph of text.</p>\n<p>Second one.</p>\n"));
    assert!(html.contains("<title>Untitled</title>"));
}

#[test]
fn header_title_authors_and_revision() {
    let html = render_src(
        "= Document Title\nAlice Author <alice@example.com>; Bob <bob@example.com>\nv1.2.3, 2026-04-18: Initial release\n\nBody.\n",
    );
    assert!(html.contains("<title>Document Title</title>"));
    assert!(html.contains("<header>\n<h1>Document Title</h1>\n"));
    assert!(html.contains("<p class=\"authors\">Alice Author, Bob</p>"));
    assert!(html.contains("<p class=\"revision\">v1.2.3 \u{b7} 2026-04-18 \u{b7} Initial release</p>"));
}

#[test]
fn toc_sectnums_sectanchors() {
    let html = render_src(
        "= Doc\n:toc:\n:sectnums:\n:sectanchors:\n\n== One\n\ntext\n\n=== Sub\n\nmore\n\n== Two\n\nend\n",
    );
    assert!(html.contains("<div id=\"toc\" class=\"toc\">\n<div class=\"toc-title\">Table of Contents</div>\n"));
    assert!(html.contains(
        "<ul>\n<li><a href=\"#_one\"><span class=\"sectnum\">1</span> One</a><ul>\n<li><a href=\"#_sub\"><span class=\"sectnum\">1.1</span> Sub</a></li>\n</ul>\n</li>\n<li><a href=\"#_two\"><span class=\"sectnum\">2</span> Two</a></li>\n</ul>\n</div>\n"
    ));
    assert!(html.contains("<h2><a class=\"anchor\" href=\"#_one\"></a><span class=\"sectnum\">1</span> One</h2>"));
    assert!(html.contains("<h3><a class=\"anchor\" href=\"#_sub\"></a><span class=\"sectnum\">1.1</span> Sub</h3>"));
}

#[test]
fn toc_without_sectnums_has_plain_links() {
    let html = render_src("= Doc\n:toc:\n\n== One\n\ntext\n");
    assert!(html.contains("<ul>\n<li><a href=\"#_one\">One</a></li>\n</ul>\n</div>\n"));
    assert!(html.contains("<section id=\"_one\">\n<h2>One</h2>\n"));
}

#[test]
fn nested_unordered_list() {
    let html = render_src("* one\n** two\n* three\n");
    assert!(html.contains("<ul>\n<li>one</li>\n<ul>\n<li>two</li>\n</ul>\n<li>three</li>\n</ul>\n"));
}

#[test]
fn ordered_list() {
    let (doc, html) = render_doc(". first\n. second\n. third\n");
    let list = doc
        .blocks
        .iter()
        .find_map(|b| match b {
            Block::List(l) => Some(l),
            _ => None,
        })
        .expect("list");
    assert_eq!(list.marker, ListMarker::Ordered);
    assert!(html.contains("<ol>"));
    assert!(html.contains("<ol>\n<li>first</li>\n<li>second</li>\n<li>third</li>\n</ol>\n"));
}

#[test]
fn description_list() {
    let (doc, html) = render_doc(
        "CPU:: The brain of the computer.\nRAM:: Memory.\nDisk:: Storage.\n",
    );
    let dlist = doc
        .blocks
        .iter()
        .find_map(|b| match b {
            Block::DescriptionList(d) => Some(d),
            _ => None,
        })
        .expect("description list");
    assert_eq!(dlist.items.len(), 3);
    assert!(html.contains("<dt>CPU</dt>"));
    assert!(html.contains("The brain of the computer"));
}

#[test]
fn listing_block_is_escaped_with_language_and_callouts() {
    let html = render_src("[source,rust]\n----\nlet x = a < b; // <1>\n----\n<1> Compare.\n");
    assert!(html.contains(
        "<pre data-lang=\"rust\"><code class=\"language-rust\">let x = a &lt; b; // <b class=\"conum\">(1)</b></code></pre>\n"
    ));
    assert!(html.contains("<ol class=\"colist\">\n<li value=\"1\">Compare.</li>\n</ol>\n"));
}

#[test]
fn literal_and_passthrough_blocks() {
    let html = render_src("....\n*not bold*\n....\n\n++++\n<b>raw</b>\n++++\n");
    assert!(html.contains("<pre>*not bold*</pre>\n"));
    assert!(html.contains("<b>raw</b>\n"));
}

#[test]
fn compound_delimited_blocks() {
    let html = render_src("====\nex\n====\n\n____\nquoted\n____\n\n****\nside\n****\n\n--\nopen\n--\n");
    assert!(html.contains("<div class=\"example\">\n<p>ex</p>\n</div>\n"));
    assert!(html.contains("<blockquote>\n<p>quoted</p>\n</blockquote>\n"));
    assert!(html.contains("<aside>\n<p>side</p>\n</aside>\n"));
    assert!(html.contains("<div>\n<p>open</p>\n</div>\n"));
}

#[test]
fn admonition_paragraph_and_block() {
    let html = render_src("NOTE: Be careful.\n\n[WARNING]\n.Heads up\n====\nInside.\n====\n");
    assert!(html.contains(
        "<div class=\"admonitionblock note\">\n<p class=\"label\">Note</p>\n<div class=\"content\">\n<p>Be careful.</p>\n</div>\n</div>\n"
    ));
    assert!(html.contains(
        "<div class=\"admonitionblock warning\">\n<p class=\"title\">Heads up</p>\n<div class=\"content\">\n<p>Inside.</p>\n</div>\n</div>\n"
    ));
}

#[test]
fn table_sections_and_cells() {
    let html = render_src("[cols=\"1,3\",options=\"header\"]\n|===\n|Name |Value\n|x |y\n|===\n");
    assert!(html.contains("<colgroup>\n<col style=\"width: 25.0000%;\">\n<col style=\"width: 75.0000%;\">\n</colgroup>\n"));
    assert!(html.contains("<thead>\n<tr><th>Name</th><th>Value</th></tr>\n</thead>\n<tbody>\n<tr><td>x</td><td>y</td></tr>\n</tbody>\n"));
}

#[test]
fn table_width_percentages_round_to_four_places() {
    let html = render_src("[cols=\"1,1,1\"]\n|===\n|a |b |c\n|===\n");
    assert_eq!(html.matches("<col style=\"width: 33.3333%;\">").count(), 3);
}

#[test]
fn block_id_role_and_title() {
    let html = render_src(".Caption\n[#intro.lead]\nHello.\n");
    assert!(html.contains("<div class=\"title\">Caption</div>\n<p id=\"intro\" class=\"lead\">Hello.</p>\n"));
}

#[test]
fn inline_formatting_and_links() {
    let html = render_src("*bold* _em_ `code` https://example.com[site]\n");
    assert!(html.contains("<strong>bold</strong>"));
    assert!(html.contains("<em>em</em>"));
    assert!(html.contains("<code>code</code>"));
    assert!(html.contains("<a href=\"https://example.com\">site</a>"));
}

#[test]
fn attributes_comment_lists_entries_in_key_order() {
    let html = render_src(":zeta: last\n:alpha: first\n\ntext\n");
    assert!(html.contains("<!-- attributes: alpha=first; zeta=last; -->\n"));
}

#[test]
fn mismatched_delimited_block_is_an_error() {
    let block = Block::Delimited(DelimitedBlock {
        style: DelimitedStyle::Listing,
        content: DelimitedContent::Blocks { blocks: Vec::new() },
        location: Location::synthetic(),
        meta: BlockMeta::new(),
    });
    let doc = Document { header: None, attributes: Attributes::new(), blocks: vec![block] };
    let err = Html5Converter::new().convert(&doc).unwrap_err();
    match err {
        adoc::ast::ConvertError::Message(m) => {
            assert_eq!(m, "delimited block style/content mismatch")
        }
    }
}

#[test]
fn hand_built_paragraph_escapes_text() {
    let p = Block::Paragraph(Paragraph {
        inlines: vec![Inline::Text { value: "a < b & c".to_string() }, Inline::LineBreak],
        location: Location::synthetic(),
        meta: BlockMeta::new(),
    });
    let doc = Document { header: None, attributes: Attributes::new(), blocks: vec![p] };
    let html = Html5Converter::new().convert(&doc).unwrap();
    assert_eq!(body(&html), "<p>a &lt; b &amp; c<br></p>\n");
}
