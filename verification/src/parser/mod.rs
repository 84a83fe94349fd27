//! The AsciiDoc parser: consumes preprocessed lines and produces a
//! [`crate::ast::Document`]. The block parser is recursive descent; the
//! inline parser is a single-pass character walker. Attribute entries
//! accumulate through the document and resolve `{name}` references in the
//! inline content that follows them.
pub mod block;
pub mod block_grammar;
pub mod cursor;
pub mod header;
pub mod idgen;
pub mod inline;
pub mod inline_grammar;
pub mod meta;
pub mod subs;

use vstd::prelude::*;

use crate::ast::{blocks_v, AttrV, Attributes, Document};
use crate::parser::block_grammar::blocks_run;
use crate::parser::cursor::texts;
use crate::parser::header::{header_is, header_state};
use crate::parser::idgen::{assign_seq, explicit_ids};
use crate::registry::{collect_titles, rw_blocks};
use crate::diag::Diagnostic;
use crate::preprocessor::PreprocessedLine;

verus! {

#[derive(Debug)]
pub enum ParseError {
    Message(String),
    /// A span-carrying error, rendered with its source location.
    Diagnostic(Box<Diagnostic>),
}

impl ParseError {
    /// A span-carrying error from a diagnostic.
    pub fn diagnostic(d: Diagnostic) -> (res: Self)
        ensures
            res matches ParseError::Diagnostic(b) && *b == d,
    {
        ParseError::Diagnostic(Box::new(d))
    }

    /// The diagnostic payload, if there is one.
    pub fn as_diagnostic(&self) -> (res: Option<&Diagnostic>)
        ensures
            self matches ParseError::Diagnostic(b) ==> res matches Some(d) && *d == *b,
            self is Message ==> res is None,
    {
        match self {
            ParseError::Diagnostic(d) => Some(&**d),
            _ => None,
        }
    }

    /// The error's message text.
    pub fn message(&self) -> (res: String)
        ensures
            self matches ParseError::Message(m) ==> res@ == m@,
            self matches ParseError::Diagnostic(d) ==> res@ == d.message@,
    {
        match self {
            ParseError::Message(m) => m.clone(),
            ParseError::Diagnostic(d) => d.message.clone(),
        }
    }
}

/// The document that `lines` make, starting from the attributes `initial`:
/// the header, then the blocks with the attributes the header left, auto
/// ids given to sections that lack one, and cross references that name a
/// section title pointed at that section's id.
pub open spec fn parsed_document(
    doc: Document,
    lines: Seq<PreprocessedLine>,
    initial: Map<Seq<char>, AttrV>,
) -> bool {
    let (p, a) = header_state(texts(lines), 0, initial);
    let (bs, _, a2) = blocks_run(lines, p, a, 0, Seq::empty());
    let assigned = assign_seq(bs, explicit_ids(bs)).0;
    let (t2i, ex) = collect_titles(assigned, Map::empty(), Set::empty());
    &&& header_is(doc.header, lines, 0, initial)
    &&& doc.attributes@ == a2
    &&& blocks_v(doc.blocks@) == if t2i.len() == 0 {
        assigned
    } else {
        rw_blocks(assigned, t2i, ex)
    }
}

pub fn parse(lines: &[PreprocessedLine]) -> (res: Result<Document, ParseError>)
    ensures
        res matches Ok(doc) && parsed_document(doc, lines@, Map::empty()),
{
    let initial = Attributes::new();
    parse_with(lines, initial)
}

/// Parse with a seeded attribute set (typically the command line's);
/// document entries override seeded values.
pub fn parse_with(lines: &[PreprocessedLine], initial: Attributes) -> (res: Result<
    Document,
    ParseError,
>)
    ensures
        res matches Ok(doc) && parsed_document(doc, lines@, initial@),
{
    let mut cursor = cursor::Cursor::new(lines);
    let mut attributes = initial;
    let header = header::try_parse_header(&mut cursor, &mut attributes);
    let mut blocks = block::parse_blocks(&mut cursor, &mut attributes, 0);
    idgen::assign_ids(&mut blocks);
    let mut doc = Document { header, attributes, blocks };
    crate::registry::resolve_title_xrefs(&mut doc);
    Ok(doc)
}

} // verus!
