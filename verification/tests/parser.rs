use adoc::ast::{Block, DelimitedContent, DelimitedStyle, Document, ListMarker, RowKind, SourceId};
use adoc::parser::block::parse_cols_spec;
use adoc::parser::parse;
use adoc::preprocessor::source_lines;

fn doc_of(src: &str) -> Document {
    let lines = source_lines(src, SourceId(0));
    parse(&lines).expect("parse")
}

fn inl(v: &[adoc::ast::Inline]) -> String {
    format!("{:?}", v)
}

#[test]
fn header_title_authors_revision_and_entries() {
    let doc = doc_of("= My *Doc*\nJane Doe <jane@x.org>\nv1.2, 2024-01-01\n:toc:\n\nBody {author}.\n");
    let h = doc.header.as_ref().expect("header");
    assert_eq!(
        inl(&h.title),
        r#"[Text { value: "My " }, Strong { children: [Text { value: "Doc" }] }]"#
    );
    assert_eq!(h.authors.len(), 1);
    assert_eq!(h.authors[0].name, "Jane Doe");
    assert_eq!(h.authors[0].email.as_deref(), Some("jane@x.org"));
    assert!(h.revision.is_some());
    assert_eq!(doc.blocks.len(), 1);
    match &doc.blocks[0] {
        Block::Paragraph(p) => assert_eq!(inl(&p.inlines), r#"[Text { value: "Body Jane Doe." }]"#),
        _ => panic!("expected a paragraph"),
    }
}

#[test]
fn paragraph_lines_join_with_spaces() {
    let doc = doc_of("first line\nsecond *line*\n\nnext\n");
    assert_eq!(doc.blocks.len(), 2);
    match &doc.blocks[0] {
        Block::Paragraph(p) => assert_eq!(
            inl(&p.inlines),
            r#"[Text { value: "first line second " }, Strong { children: [Text { value: "line" }] }]"#
        ),
        _ => panic!("expected a paragraph"),
    }
}

#[test]
fn admonition_label_becomes_the_style() {
    let doc = doc_of("NOTE: Mind the gap.\n");
    match &doc.blocks[0] {
        Block::Paragraph(p) => {
            assert_eq!(p.meta.style.as_deref(), Some("NOTE"));
            assert_eq!(inl(&p.inlines), r#"[Text { value: "Mind the gap." }]"#);
        },
        _ => panic!("expected a paragraph"),
    }
}

#[test]
fn sections_nest_by_level_and_get_ids() {
    let doc = doc_of("== One\n\npara\n\n=== Inner\n\ntext\n\n== Two\n");
    assert_eq!(doc.blocks.len(), 2);
    match &doc.blocks[0] {
        Block::Section(s) => {
            assert_eq!(s.level, 1);
            assert_eq!(s.meta.id.as_deref(), Some("_one"));
            assert_eq!(s.blocks.len(), 2);
            match &s.blocks[1] {
                Block::Section(inner) => {
                    assert_eq!(inner.level, 2);
                    assert_eq!(inner.meta.id.as_deref(), Some("_inner"));
                },
                _ => panic!("expected a nested section"),
            }
        },
        _ => panic!("expected a section"),
    }
    match &doc.blocks[1] {
        Block::Section(s) => assert_eq!(s.meta.id.as_deref(), Some("_two")),
        _ => panic!("expected a section"),
    }
}

#[test]
fn lists_group_items_of_one_marker_kind() {
    let doc = doc_of("* a\n** b\n* c\n. one\n");
    assert_eq!(doc.blocks.len(), 2);
    match &doc.blocks[0] {
        Block::List(l) => {
            assert_eq!(l.marker, ListMarker::Unordered);
            assert_eq!(l.items.len(), 3);
            assert_eq!(l.items[1].depth, 2);
            assert_eq!(inl(&l.items[2].principal), r#"[Text { value: "c" }]"#);
        },
        _ => panic!("expected a list"),
    }
    match &doc.blocks[1] {
        Block::List(l) => assert_eq!(l.marker, ListMarker::Ordered),
        _ => panic!("expected a list"),
    }
}

#[test]
fn list_continuation_attaches_a_block() {
    let doc = doc_of("* item\n+\n----\ncode\n----\n* next\n");
    match &doc.blocks[0] {
        Block::List(l) => {
            assert_eq!(l.items.len(), 2);
            assert_eq!(l.items[0].blocks.len(), 1);
            match &l.items[0].blocks[0] {
                Block::Delimited(d) => assert_eq!(d.style, DelimitedStyle::Listing),
                _ => panic!("expected a listing"),
            }
        },
        _ => panic!("expected a list"),
    }
}

#[test]
fn description_list_terms_and_descriptions() {
    let doc = doc_of("CPU:: the brain\nRAM::\n");
    match &doc.blocks[0] {
        Block::DescriptionList(d) => {
            assert_eq!(d.items.len(), 2);
            assert_eq!(inl(&d.items[0].term), r#"[Text { value: "CPU" }]"#);
            assert_eq!(d.items[0].description.len(), 1);
            assert_eq!(d.items[1].description.len(), 0);
        },
        _ => panic!("expected a description list"),
    }
}

#[test]
fn listing_keeps_lines_and_takes_a_callout_list() {
    let doc = doc_of("----\nlet x = *1*; <1>\n----\n\n<1> the value\n");
    assert_eq!(doc.blocks.len(), 2);
    match &doc.blocks[0] {
        Block::Delimited(d) => match &d.content {
            DelimitedContent::Raw { text } => assert_eq!(text, "let x = *1*; <1>"),
            _ => panic!("expected raw content"),
        },
        _ => panic!("expected a listing"),
    }
    match &doc.blocks[1] {
        Block::Colist(c) => {
            assert_eq!(c.items.len(), 1);
            assert_eq!(c.items[0].number, 1);
        },
        _ => panic!("expected a callout list"),
    }
}

#[test]
fn example_block_holds_nested_blocks_and_entries_carry_on() {
    let doc = doc_of("====\n:inner: yes\ninside\n====\n\nafter {inner}\n");
    assert_eq!(doc.blocks.len(), 2);
    match &doc.blocks[0] {
        Block::Delimited(d) => match &d.content {
            DelimitedContent::Blocks { blocks } => assert_eq!(blocks.len(), 1),
            _ => panic!("expected nested blocks"),
        },
        _ => panic!("expected an example block"),
    }
    match &doc.blocks[1] {
        Block::Paragraph(p) => assert_eq!(inl(&p.inlines), r#"[Text { value: "after yes" }]"#),
        _ => panic!("expected a paragraph"),
    }
}

#[test]
fn table_rows_cells_and_inferred_header() {
    let doc = doc_of("[cols=\"1,2\"]\n|===\n|A |B\n\n|c |d\n|===\n");
    match &doc.blocks[0] {
        Block::Table(t) => {
            assert_eq!(t.cols.len(), 2);
            assert_eq!(t.rows.len(), 2);
            assert_eq!(t.rows[0].kind, RowKind::Header);
            assert_eq!(t.rows[1].kind, RowKind::Body);
            assert_eq!(t.rows[1].cells.len(), 2);
            assert_eq!(inl(&t.rows[1].cells[0].inlines), r#"[Text { value: "c" }]"#);
            assert_eq!(inl(&t.rows[1].cells[1].inlines), r#"[Text { value: "d" }]"#);
        },
        _ => panic!("expected a table"),
    }
}

#[test]
fn metadata_lines_attach_and_a_blank_line_detaches() {
    let doc = doc_of(".Title\n[#pid.role]\ntext\n\n[.lost]\n\nplain\n");
    assert_eq!(doc.blocks.len(), 2);
    match &doc.blocks[0] {
        Block::Paragraph(p) => {
            assert_eq!(p.meta.id.as_deref(), Some("pid"));
            assert_eq!(p.meta.roles, vec!["role".to_string()]);
            assert_eq!(inl(p.meta.title.as_ref().unwrap()), r#"[Text { value: "Title" }]"#);
        },
        _ => panic!("expected a paragraph"),
    }
    match &doc.blocks[1] {
        Block::Paragraph(p) => assert!(p.meta.roles.is_empty()),
        _ => panic!("expected a paragraph"),
    }
}

#[test]
fn title_cross_reference_points_at_the_section_id() {
    let doc = doc_of("== Getting Started\n\nsee <<Getting Started>>\n");
    match &doc.blocks[0] {
        Block::Section(s) => match &s.blocks[0] {
            Block::Paragraph(p) => assert_eq!(
                inl(&p.inlines),
                r#"[Text { value: "see " }, Xref { target: "_getting_started", text: Some([Text { value: "Getting Started" }]) }]"#
            ),
            _ => panic!("expected a paragraph"),
        },
        _ => panic!("expected a section"),
    }
}

#[test]
fn bare_integer_cols_means_equal_columns() {
    let cols = parse_cols_spec(Some("3"));
    assert_eq!(cols.len(), 3);
    assert!(cols.iter().all(|c| c.width == cols[0].width && c.h_align.is_none()));
    let widths: Vec<u32> = parse_cols_spec(Some("1,3,1")).iter().map(|c| c.width).collect();
    assert_eq!(widths, vec![1, 3, 1]);
}

#[test]
fn sections_nested_in_blocks_get_ids_that_avoid_explicit_ones() {
    let doc = doc_of("[#_inner]\nfirst\n\n====\n== Inner\n\ntext\n====\n");
    let nested = doc
        .blocks
        .iter()
        .find_map(|b| match b {
            Block::Delimited(d) => match &d.content {
                DelimitedContent::Blocks { blocks } => blocks.iter().find_map(|b| match b {
                    Block::Section(s) => Some(s),
                    _ => None,
                }),
                _ => None,
            },
            _ => None,
        })
        .expect("section inside the example block");
    assert_eq!(nested.meta.id.as_deref(), Some("_inner_2"));
}
