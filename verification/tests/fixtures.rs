//! Whole-pipeline scenarios: preprocessor, parser and HTML5 converter over
//! inline documents (included files are served from memory).

use adoc::ast::{
    AttributeValue, Block, CellStyle, Colist, Converter, Document, HAlign, Inline, ListMarker,
    RowKind, Section, Table,
};
use adoc::convert::html5::Html5Converter;
use adoc::parser::parse;
use adoc::preprocessor::{
    apply_str_op, source_lines, LineStep, PreprocessError, PreprocessedLine, Preprocessor,
};

/// Feeds one source through the preprocessor; `files` answers includes by
/// the last component of the resolved path.
fn feed(
    pre: &mut Preprocessor,
    source: &str,
    id: adoc::ast::SourceId,
    path: &str,
    files: &[(&str, &str)],
    output: &mut Vec<PreprocessedLine>,
) -> Result<(), PreprocessError> {
    for line in source_lines(source, id) {
        match pre.process_line(&line.text, line.location, path, output)? {
            LineStep::Done => {}
            LineStep::Ifeval(ops) => {
                let active = pre.emitting()
                    && match ops {
                        Some((l, op, r)) => apply_str_op(&l, op, &r),
                        None => false,
                    };
                pre.push_condition(active);
            }
            LineStep::Include { resolved, args } => {
                let raw = files
                    .iter()
                    .find(|(name, _)| resolved.ends_with(name))
                    .map(|(_, text)| text.to_string())
                    .expect("included file");
                pre.admit_include(&resolved, line.location)?;
                let (inc, filtered) = pre.begin_inclusion(resolved.clone(), raw, &args);
                feed(pre, &filtered, inc, &resolved, files, output)?;
                pre.end_inclusion();
            }
        }
    }
    Ok(())
}

fn render_with(src: &str, files: &[(&str, &str)]) -> (Document, String) {
    let mut pre = Preprocessor::new();
    let id = pre.begin_run(src, "<input>");
    let mut lines = Vec::new();
    feed(&mut pre, src, id, "<input>", files, &mut lines).expect("preprocess");
    pre.finish_run().expect("preprocess");
    let doc = parse(&lines).expect("parse");
    let html = Html5Converter::new().convert(&doc).expect("convert");
    (doc, html)
}

fn render(src: &str) -> (Document, String) {
    render_with(src, &[])
}

fn body(html: &str) -> &str {
    let start = html.find("<body>").expect("body open");
    let end = html.find("</body>").expect("body close");
    &html[start..end]
}

fn count_paragraphs(blocks: &[Block]) -> usize {
    blocks.iter().filter(|b| matches!(b, Block::Paragraph(_))).count()
}

fn find_list(blocks: &[Block]) -> Option<&adoc::ast::List> {
    blocks.iter().find_map(|b| match b {
        Block::List(l) => Some(l),
        _ => None,
    })
}

fn section_tables(doc: &Document) -> Vec<&Table> {
    doc.blocks
        .iter()
        .flat_map(|b| match b {
            Block::Section(s) => s
                .blocks
                .iter()
                .filter_map(|b| match b {
                    Block::Table(t) => Some(t),
                    _ => None,
                })
                .collect::<Vec<_>>(),
            _ => Vec::new(),
        })
        .collect()
}

fn first_text(inlines: &[Inline]) -> &str {
    match inlines.first() {
        Some(Inline::Text { value }) => value.as_str(),
        _ => "",
    }
}

#[test]
fn paragraph() {
    let (doc, html) = render("A simple paragraph of text.\n\nA second paragraph.\n");
    assert!(doc.header.is_none());
    assert_eq!(count_paragraphs(&doc.blocks), 2);
    assert!(html.contains("<p>A simple paragraph of text.</p>"));
}

#[test]
fn header_with_authors_and_revision() {
    let (doc, html) = render(
        "= Document Title\nAlice Author <alice@example.com>; Bob Builder <bob@example.com>\nv1.2.3, 2026-04-18: Initial release\n:toc:\n:source-highlighter: rouge\n\nBody text.\n",
    );
    let header = doc.header.expect("header");
    assert_eq!(header.authors.len(), 2);
    assert_eq!(header.authors[0].name, "Alice Author");
    assert_eq!(header.authors[0].email.as_deref(), Some("alice@example.com"));
    let rev = header.revision.expect("revision");
    assert_eq!(rev.number.as_deref(), Some("v1.2.3"));
    assert_eq!(rev.date.as_deref(), Some("2026-04-18"));
    assert_eq!(rev.remark.as_deref(), Some("Initial release"));
    assert_eq!(doc.attributes.get("toc"), Some(&AttributeValue::Bool(true)));
    assert_eq!(
        doc.attributes.get("source-highlighter").and_then(|v| v.as_str()),
        Some("rouge")
    );
    assert!(html.contains("<h1>Document Title</h1>"));
}

#[test]
fn nested_sections() {
    let (doc, html) = render(
        "== Level 1 Section\n\nOne.\n\n=== Level 2 Subsection\n\nTwo.\n\n==== Level 3\n\nThree.\n\n===== Level 4\n\nFour.\n",
    );
    let l1 = doc
        .blocks
        .iter()
        .find_map(|b| match b {
            Block::Section(s) if s.level == 1 => Some(s),
            _ => None,
        })
        .expect("level 1 section");
    assert!(l1.blocks.iter().any(|b| matches!(b, Block::Section(s) if s.level == 2)));
    assert!(html.contains("<h2>Level 1 Section</h2>"));
    assert!(html.contains("<h3>Level 2 Subsection</h3>"));
    assert!(html.contains("<h5>Level 4</h5>"));
}

#[test]
fn unordered_list_with_depth() {
    let (doc, html) = render(
        "* one\n* two\n* three\n** four\n** five\n*** Deeply nested\n* seven\n",
    );
    let list = find_list(&doc.blocks).expect("list");
    assert_eq!(list.marker, ListMarker::Unordered);
    let depths: Vec<u8> = list.items.iter().map(|i| i.depth).collect();
    assert_eq!(depths, vec![1, 1, 1, 2, 2, 3, 1]);
    assert!(html.contains("<ul>"));
    assert!(html.contains("<li>Deeply nested</li>"));
}

#[test]
fn table_rows_and_cells() {
    let (doc, html) = render(
        "|===\n|Name |Age |City\n|Alice |30 |Paris\n|Bob |25 |Rome\n|Carol |40 |Oslo\n|===\n",
    );
    let table = doc
        .blocks
        .iter()
        .find_map(|b| match b {
            Block::Table(t) => Some(t),
            _ => None,
        })
        .expect("table");
    assert_eq!(table.rows.len(), 4);
    assert_eq!(table.rows[0].cells.len(), 3);
    assert!(html.contains("<td>Alice</td>"));
}

#[test]
fn block_metadata_attaches_to_following_block() {
    let (doc, html) = render(&[
        ".A titled paragraph\n[#first.lead]\nFirst paragraph.\n\n",
        "[NOTE]\nA note paragraph.\n\n",
        ".Listing title\n[source,rust]\n----\nfn main() {}\n----\n\n",
        "[#xref-target.callout%hardbreaks,quoted]\nMixed shorthand.\n\n",
        "[caption=\"Figure 1.\",align=center]\nNamed attributes.\n\n",
        ".Important table\n[#prices]\n|===\n|a |b\n|===\n\n",
        "[#feature]\n== Feature\n\nSection body.\n",
    ].concat());
    let first = doc
        .blocks
        .iter()
        .find_map(|b| match b {
            Block::Paragraph(p) if p.meta.id.as_deref() == Some("first") => Some(p),
            _ => None,
        })
        .expect("paragraph #first");
    assert_eq!(first.meta.roles, vec!["lead".to_string()]);
    let title = first.meta.title.as_ref().expect("title");
    assert_eq!(first_text(title), "A titled paragraph");

    let note = doc
        .blocks
        .iter()
        .find_map(|b| match b {
            Block::Paragraph(p) if p.meta.style.as_deref() == Some("NOTE") => Some(p),
            _ => None,
        })
        .expect("NOTE paragraph");
    assert!(note.meta.id.is_none());

    let listing = doc
        .blocks
        .iter()
        .find_map(|b| match b {
            Block::Delimited(d) if d.meta.style.as_deref() == Some("source") => Some(d),
            _ => None,
        })
        .expect("source listing");
    assert_eq!(listing.meta.positional, vec!["rust".to_string()]);
    assert!(listing.meta.title.is_some());

    let mixed = doc
        .blocks
        .iter()
        .find_map(|b| match b {
            Block::Paragraph(p) if p.meta.id.as_deref() == Some("xref-target") => Some(p),
            _ => None,
        })
        .expect("xref-target paragraph");
    assert_eq!(mixed.meta.roles, vec!["callout".to_string()]);
    assert_eq!(mixed.meta.options, vec!["hardbreaks".to_string()]);
    assert_eq!(mixed.meta.positional, vec!["quoted".to_string()]);

    let named = doc
        .blocks
        .iter()
        .find_map(|b| match b {
            Block::Paragraph(p) if p.meta.named.contains_key("caption") => Some(p),
            _ => None,
        })
        .expect("named-attrs paragraph");
    assert_eq!(named.meta.named.get("caption").map(String::as_str), Some("Figure 1."));
    assert_eq!(named.meta.named.get("align").map(String::as_str), Some("center"));

    let table = doc
        .blocks
        .iter()
        .find_map(|b| match b {
            Block::Table(t) => Some(t),
            _ => None,
        })
        .expect("table");
    assert_eq!(table.meta.id.as_deref(), Some("prices"));
    assert!(table.meta.title.is_some());

    let section = doc
        .blocks
        .iter()
        .find_map(|b| match b {
            Block::Section(s) => Some(s),
            _ => None,
        })
        .expect("section");
    assert_eq!(section.meta.id.as_deref(), Some("feature"));

    assert!(html.contains(r#"<p id="first" class="lead">"#));
    assert!(html.contains(r#"<div class="title">A titled paragraph</div>"#));
    assert!(html.contains(r#"<table id="prices">"#));
    assert!(html.contains(r#"<div class="title">Important table</div>"#));
    assert!(html.contains(r#"<section id="feature">"#));
}

#[test]
fn preprocessor_conditionals_and_include() {
    let (doc, html) = render_with(
        &[
            ":feature:\n:edition: 2\n:lang: en\n\n",
            "ifdef::feature[]\nHello, this content is gated by a defined attribute.\nendif::[]\n\n",
            "ifndef::missing[]\nThis is shown because missing is not set.\nendif::[]\n\n",
            "ifeval::[{edition} >= 2]\nWe are on edition 2 or later.\nendif::[]\n\n",
            "ifeval::[\"{lang}\" == \"en\"]\nLocalised paragraph for English.\nendif::[]\n\n",
            "include::part.adoc[]\n\nThe end.\n",
        ].concat(),
        &[("part.adoc", "== Included Section\n\nifdef::edition[Edition number {edition}.]\n")],
    );
    assert!(html.contains("Hello, this content is gated by a defined attribute."));
    assert!(html.contains("This is shown because"));
    assert!(html.contains("We are on edition 2 or later."));
    assert!(html.contains("Localised paragraph for English."));
    let included = doc
        .blocks
        .iter()
        .find_map(|b| match b {
            Block::Section(s) if s.level == 1 => Some(s),
            _ => None,
        })
        .expect("included section");
    assert_eq!(first_text(&included.title), "Included Section");
    assert!(html.contains("Edition number 2."));
    assert!(html.contains("The end."));
}

#[test]
fn tables_header_inference_and_cell_formatters() {
    let (doc, html) = render(&[
        "== Inferred\n\n|===\n|Name |Value\n\n|a |1\n|b |2\n|===\n\n",
        "== Explicit\n\n[%header]\n|===\n|Name |Value\n|a |1\n|===\n\n",
        "== Formatters\n\n|===\n|plain s|strong cell e|emphasised cell |fourth\n",
        "|plain m|monospace text l|literal *not strong* h|forced th in body row\n|===\n",
    ].concat());
    let body = body(&html);
    let tables = section_tables(&doc);
    assert_eq!(tables.len(), 3, "expected 3 tables, got {}", tables.len());
    assert_eq!(tables[0].rows[0].kind, RowKind::Header);
    for row in &tables[0].rows[1..] {
        assert_eq!(row.kind, RowKind::Body);
    }
    assert_eq!(tables[1].rows[0].kind, RowKind::Header);
    let formatters = &tables[2];
    assert_eq!(formatters.rows[0].cells[0].style, None);
    assert_eq!(formatters.rows[0].cells[1].style, Some(CellStyle::Strong));
    assert_eq!(formatters.rows[0].cells[2].style, Some(CellStyle::Emphasis));
    assert_eq!(formatters.rows[1].cells[1].style, Some(CellStyle::Monospace));
    assert_eq!(formatters.rows[1].cells[2].style, Some(CellStyle::Literal));
    assert_eq!(formatters.rows[1].cells[3].style, Some(CellStyle::Header));
    assert!(body.matches("<thead>").count() >= 2);
    assert!(body.contains("<tbody>"));
    assert!(body.contains("<td><strong>strong cell</strong></td>"));
    assert!(body.contains("<td><em>emphasised cell</em></td>"));
    assert!(body.contains("<td><code>monospace text</code></td>"));
    assert!(body.contains("<td><pre>literal *not strong*</pre></td>"));
    assert!(body.contains("<th>forced th in body row</th>"));
}

#[test]
fn admonitions_paragraph_block_titled_and_source_language() {
    let (doc, html) = render(&[
        "NOTE: A note.\n\n.A titled note\nTIP: A tip with a title.\n\n",
        "IMPORTANT: Important.\n\nWARNING: Warning.\n\nCAUTION: Caution.\n\n",
        "[NOTE]\n====\nFirst inner paragraph.\n\nSecond inner paragraph.\n====\n\n",
        "[source,rust]\n----\nfn main() {}\n----\n\n",
        "[source]\n----\nno language attribute here\n----\n\n",
        "----\nplain listing\n----\n",
    ].concat());
    let body = body(&html);
    for (kw, class, label) in [
        ("NOTE", "note", "Note"),
        ("TIP", "tip", "Tip"),
        ("IMPORTANT", "important", "Important"),
        ("WARNING", "warning", "Warning"),
        ("CAUTION", "caution", "Caution"),
    ] {
        let any = doc.blocks.iter().any(|b| match b {
            Block::Paragraph(p) => p.meta.style.as_deref() == Some(kw),
            _ => false,
        });
        assert!(any, "no paragraph with style {kw}");
        let needle = format!(r#"<div class="admonitionblock {class}">"#);
        assert!(body.contains(&needle), "expected {needle}\nbody:\n{body}");
        if kw != "TIP" {
            let label_needle = format!(r#"<p class="label">{label}</p>"#);
            assert!(body.contains(&label_needle), "missing label {label_needle}");
        }
    }
    assert!(body.contains(r#"<p class="title">A titled note</p>"#));
    assert!(body.matches(r#"<div class="admonitionblock note">"#).count() >= 1);
    assert!(body.contains(r#"<pre data-lang="rust"><code class="language-rust">fn main()"#));
    assert!(body.contains(r#"<pre><code>no language attribute here"#));
    assert!(body.contains(r#"<pre><code>plain listing"#));
}

#[test]
fn section_ids_auto_explicit_and_xrefs() {
    let (doc, html) = render(&[
        "== Auto-generated\n\nOne.\n\n== Hello, World!\n\nTwo.\n\n== Auto-generated\n\nThree.\n\n",
        "[[explicit-anchor]]\n== Explicit Legacy\n\nFour.\n\n",
        "[#explicit-shorthand]\n== Explicit Shorthand\n\nFive.\n\n",
        "== Cross References\n\n",
        "See <<_auto_generated,first dup>>, <<_hello_world,via punctuation>>, ",
        "<<_auto_generated_2,second dup>>, <<explicit-anchor,legacy form>> and ",
        "xref:explicit-shorthand[shorthand form].\n",
    ].concat());
    let body = body(&html);
    let sections: Vec<&Section> = doc
        .blocks
        .iter()
        .filter_map(|b| match b {
            Block::Section(s) => Some(s),
            _ => None,
        })
        .collect();
    let ids: Vec<&str> = sections.iter().map(|s| s.meta.id.as_deref().unwrap_or("")).collect();
    assert_eq!(
        ids,
        vec![
            "_auto_generated",
            "_hello_world",
            "_auto_generated_2",
            "explicit-anchor",
            "explicit-shorthand",
            "_cross_references",
        ]
    );
    for id in &ids {
        let needle = format!(r#"<section id="{id}">"#);
        assert!(body.contains(&needle), "missing section opener {needle}\n{body}");
    }
    assert!(body.contains(r##"<a href="#_auto_generated">first dup</a>"##));
    assert!(body.contains(r##"<a href="#_hello_world">via punctuation</a>"##));
    assert!(body.contains(r##"<a href="#_auto_generated_2">second dup</a>"##));
    assert!(body.contains(r##"<a href="#explicit-anchor">legacy form</a>"##));
    assert!(body.contains(r##"<a href="#explicit-shorthand">shorthand form</a>"##));
}

#[test]
fn block_metadata_orphaned_by_blank_line_is_dropped() {
    let (doc, _html) = render("[#orphan]\n\nplain paragraph\n");
    let para = doc
        .blocks
        .iter()
        .find_map(|b| match b {
            Block::Paragraph(p) => Some(p),
            _ => None,
        })
        .expect("paragraph");
    assert!(para.meta.id.is_none(), "orphan id should not have attached");
}

#[test]
fn derived_header_attributes_link_substitution_anchors_discrete_blockimage() {
    let (doc, html) = render(&[
        "= Compatibility Round\n",
        "Alice Author <alice@example.com>; Bob Builder <bob@example.com>\n",
        "v3.1.4, 2026-04-25: Compat round\n:base-url: https://example.com\n\n",
        "Title is {doctitle}.\n\nFirst author is {author}.\n\n",
        "{author} ({firstname} {lastname}, initials {authorinitials}).\n\n",
        "All authors: {authors}.\n\nSecond author: {author_2}.\n\n",
        "Revision v{revnumber} on {revdate} \u{2014} {revremark}.\n\n",
        "link:{base-url}[Example]\n\nhttps://example.com[Example]\n\n",
        "An inline anchor anchor:my-anchor[] sits here.\n\n",
        "== Hosting a discrete heading\n\nBefore.\n\n[discrete]\n=== A discrete heading\n\nAfter.\n\n",
        ".A standalone block image\nimage::diagram.png[Diagram,400,200]\n",
    ].concat());
    let body = body(&html);
    assert!(body.contains("Title is Compatibility Round"));
    assert!(body.contains("First author is Alice Author"));
    assert!(body.contains("Alice Author (Alice Author, initials AA"));
    assert!(body.contains("All authors: Alice Author, Bob Builder"));
    assert!(body.contains("Second author: Bob Builder"));
    assert!(body.contains("Revision v3.1.4 on 2026-04-25 \u{2014} Compat round"));
    assert!(body.contains(r#"<a href="https://example.com">Example</a>"#));
    assert!(body.matches(r#"<a href="https://example.com">Example</a>"#).count() >= 2);
    assert!(body.contains(r#"<a id="my-anchor"></a>"#));
    assert!(body.contains(r#"<h3 class="discrete">A discrete heading</h3>"#));
    assert!(body.contains(r#"<div class="imageblock">"#));
    assert!(body.contains(r#"<img src="diagram.png" alt="Diagram" width="400" height="200">"#));
    assert!(body.contains(r#"<div class="title">A standalone block image</div>"#));
    let section_blocks = doc
        .blocks
        .iter()
        .find_map(|b| match b {
            Block::Section(s) => {
                if first_text(&s.title).contains("discrete")
                    || s.blocks.iter().any(|b| matches!(b, Block::DiscreteHeading(_)))
                {
                    Some(&s.blocks)
                } else {
                    None
                }
            }
            _ => None,
        })
        .expect("expected a section containing the discrete heading");
    assert!(section_blocks
        .iter()
        .any(|b| matches!(b, Block::DiscreteHeading(d) if d.level == 2)));
}

#[test]
fn table_cols_widths_and_alignment() {
    let (doc, html) = render(&[
        "== Tables\n\n",
        "[cols=\"1,3,1\"]\n|===\n|a |b |c\n|===\n\n",
        "[cols=\"<,^,>\"]\n|===\n|left |centre |right\n|===\n\n",
        "[cols=\"2<,1^\"]\n|===\n|x |y\n|===\n\n",
        "[cols=\"3*<\"]\n|===\n|p |q |r\n|===\n\n",
        "[cols=\"<,<,<\"]\n|===\n|x ^|centred override >|right override\n|y |col-default |z\n|===\n",
    ].concat());
    let body = body(&html);
    let tables = section_tables(&doc);
    assert_eq!(tables.len(), 5);
    assert_eq!(tables[0].cols.len(), 3);
    assert_eq!(tables[0].cols[0].width, 1);
    assert_eq!(tables[0].cols[1].width, 3);
    assert_eq!(tables[0].cols[2].width, 1);
    assert_eq!(tables[1].cols.len(), 3);
    assert_eq!(tables[1].cols[0].h_align, Some(HAlign::Left));
    assert_eq!(tables[1].cols[1].h_align, Some(HAlign::Center));
    assert_eq!(tables[1].cols[2].h_align, Some(HAlign::Right));
    assert_eq!(tables[2].cols[0].width, 2);
    assert_eq!(tables[2].cols[0].h_align, Some(HAlign::Left));
    assert_eq!(tables[2].cols[1].width, 1);
    assert_eq!(tables[2].cols[1].h_align, Some(HAlign::Center));
    assert_eq!(tables[3].cols.len(), 3);
    for col in &tables[3].cols {
        assert_eq!(col.h_align, Some(HAlign::Left));
    }
    assert!(body.contains("<colgroup>"));
    assert!(body.contains(r#"<col style="width: 20.0000%;">"#));
    assert!(body.contains(r#"<col style="width: 60.0000%;">"#));
    assert!(body.contains(r#"<td class="halign-left">left</td>"#));
    assert!(body.contains(r#"<td class="halign-center">centre</td>"#));
    assert!(body.contains(r#"<td class="halign-right">right</td>"#));
    assert!(body.contains(r#"<td class="halign-center">centred override</td>"#));
    assert!(body.contains(r#"<td class="halign-right">right override</td>"#));
    assert!(body.contains(r#"<td class="halign-left">col-default</td>"#));
}

#[test]
fn callouts_listing_markers_and_colist() {
    let (doc, html) = render(&[
        "== Source\n\n[source,rust]\n----\nlet s = \"hi\"; // <1>\nprintln!(\"hi\"); // <2>\n",
        "let a = 1; let b = 2; // <3>\n----\n<1> Bind a string slice to a local.\n",
        "<2> Format and print using an inline expression.\n",
        "<3> Two callouts can share a single line.\n\n",
        "== Plain and literal\n\n----\none <1>\n----\n<1> First.\n\n....\nlit <1>\n....\n<1> Literal one.\n\n",
        "== Without descriptions\n\n----\nno list <1>\n----\n",
    ].concat());
    let body = body(&html);
    assert!(body.contains(r#"<b class="conum">(1)</b>"#));
    assert!(body.contains(r#"<b class="conum">(2)</b>"#));
    assert!(body.contains(r#"<b class="conum">(3)</b>"#));
    assert!(body.contains(r#"<ol class="colist">"#));
    assert!(body.contains(r#"<li value="1">Bind a string slice to a local.</li>"#));
    assert!(body.contains(r#"<li value="2">Format and print using an inline expression.</li>"#));
    assert!(body.contains(r#"<li value="3">Two callouts can share a single line.</li>"#));
    assert_eq!(body.matches(r#"<ol class="colist">"#).count(), 3);
    let colists: Vec<&Colist> = doc
        .blocks
        .iter()
        .flat_map(|b| match b {
            Block::Section(s) => s
                .blocks
                .iter()
                .filter_map(|b| match b {
                    Block::Colist(c) => Some(c),
                    _ => None,
                })
                .collect::<Vec<_>>(),
            _ => Vec::new(),
        })
        .collect();
    assert_eq!(colists.len(), 3);
    assert_eq!(colists[0].items.len(), 3);
    assert_eq!(colists[0].items[0].number, 1);
    assert_eq!(colists[0].items[2].number, 3);
    let third = match &doc.blocks[2] {
        Block::Section(s) => s,
        _ => panic!("expected section 3"),
    };
    assert_eq!(third.blocks.iter().filter(|b| matches!(b, Block::Colist(_))).count(), 0);
}
