use adoc::ast::SourceId;
use adoc::chunks::{block_plain_text, collect, hash_bytes, leaf_blocks};
use adoc::parser::parse;
use adoc::preprocessor::source_lines;

fn doc_of(src: &str) -> adoc::ast::Document {
    parse(&source_lines(src, SourceId(0))).expect("parse")
}

#[test]
fn hash_bytes_is_sha256_hex() {
    assert_eq!(
        hash_bytes(b"abc"),
        "sha256:ba7816bf8f01cfea414140de5dae2223b00361a396177a9cb410ff61f20015ad"
    );
    assert_eq!(
        hash_bytes(b""),
        "sha256:e3b0c44298fc1c149afbf4c8996fb92427ae41e4649b934ca495991b7852b855"
    );
}

#[test]
fn chunks_follow_sections_and_skip_blank_text() {
    let doc = doc_of("Preamble text.\n\n== Methods\n\nWe compared.\n\n* a\n* b\n");
    let leaves = leaf_blocks(&doc);
    assert_eq!(leaves.len(), 3);
    let json: Vec<Vec<u8>> = vec![b"one".to_vec(), b"two".to_vec(), b"abc".to_vec()];
    let chunks = collect(&doc, &json);
    assert_eq!(chunks.len(), 3);
    assert!(chunks[0].section_path.is_empty());
    assert_eq!(chunks[0].section_title, "");
    assert_eq!(chunks[0].block_index, 0);
    assert_eq!(chunks[0].kind, "paragraph");
    assert_eq!(chunks[0].text, "Preamble text.");
    assert_eq!(chunks[1].section_path, vec!["_methods".to_string()]);
    assert_eq!(chunks[1].section_title, "Methods");
    assert_eq!(chunks[1].block_index, 0);
    assert_eq!(chunks[2].kind, "list");
    assert_eq!(chunks[2].text, "a\nb");
    assert_eq!(chunks[2].block_index, 1);
    assert_eq!(
        chunks[2].hash,
        "sha256:ba7816bf8f01cfea414140de5dae2223b00361a396177a9cb410ff61f20015ad"
    );
}

#[test]
fn plain_text_of_tables_and_description_lists() {
    let doc = doc_of("|===\n|x |y\n|z |w\n|===\n\nTerm:: Desc.\nBare::\n");
    assert_eq!(block_plain_text(&doc.blocks[0]), "x | y\nz | w");
    assert_eq!(block_plain_text(&doc.blocks[1]), "Term: Desc.\nBare");
}

#[test]
fn style_letter_before_a_bar_formats_the_next_cell() {
    // `a ` before `|` is the AsciiDoc formatter of the next cell, not text.
    let doc = doc_of("|===\n|a |b\n|===\n");
    assert_eq!(block_plain_text(&doc.blocks[0]), " | b");
}
