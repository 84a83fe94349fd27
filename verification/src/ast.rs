//! AST types for the AsciiDoc toolchain, with their mathematical views.
//!
//! The parser produces these values and the converters consume them. Every
//! string field is viewed as a `Seq<char>`, every vector as a `Seq` of
//! views, so contracts can speak of documents as plain values.
use vstd::prelude::*;

use crate::strmap::StrMap;
use crate::text::{push_char, push_str};

verus! {

// ---------------------------------------------------------------------------
// attributes
// ---------------------------------------------------------------------------

#[derive(Debug, Clone, PartialEq, Eq)]
pub enum AttributeValue {
    Bool(bool),
    String(String),
}

pub enum AttrV {
    Bool(bool),
    Str(Seq<char>),
}

impl View for AttributeValue {
    type V = AttrV;

    open spec fn view(&self) -> AttrV {
        match self {
            AttributeValue::Bool(b) => AttrV::Bool(*b),
            AttributeValue::String(s) => AttrV::Str(s@),
        }
    }
}

impl AttributeValue {
    pub fn as_str(&self) -> (res: Option<&str>)
        ensures
            res matches Some(s) ==> self@ == AttrV::Str(s@),
            res is None ==> self@ is Bool,
    {
        match self {
            AttributeValue::String(s) => Some(s.as_str()),
            AttributeValue::Bool(_) => None,
        }
    }
}

/// Document attributes, iterated in key order.
pub type Attributes = StrMap<AttributeValue>;

/// The value of attribute `name` when it is a string.
pub open spec fn attr_str(attrs: Map<Seq<char>, AttrV>, name: Seq<char>) -> Option<Seq<char>> {
    if attrs.contains_key(name) {
        match attrs[name] {
            AttrV::Str(s) => Some(s),
            AttrV::Bool(_) => None,
        }
    } else {
        None
    }
}

// ---------------------------------------------------------------------------
// locations and sources
// ---------------------------------------------------------------------------

#[derive(Debug, Clone, Copy, PartialEq, Eq, Hash)]
pub struct SourceId(pub u32);

#[derive(Debug, Clone, Copy, PartialEq, Eq)]
pub struct Location {
    pub source: SourceId,
    pub byte_start: u32,
    pub byte_end: u32,
    pub line: u32,
    pub column: u32,
}

impl Location {
    /// The location of content that no source line produced.
    pub open spec fn synthetic_spec() -> Location {
        Location { source: SourceId(0), byte_start: 0, byte_end: 0, line: 0, column: 0 }
    }

    pub fn synthetic() -> (res: Self)
        ensures
            res == Location::synthetic_spec(),
    {
        Location { source: SourceId(0), byte_start: 0, byte_end: 0, line: 0, column: 0 }
    }

    /// `(byte_offset, byte_length)`; the length saturates at zero.
    pub fn span(&self) -> (res: (usize, usize))
        ensures
            res.0 == self.byte_start,
            res.1 == (if self.byte_end >= self.byte_start {
                self.byte_end - self.byte_start
            } else {
                0
            }),
    {
        let start = self.byte_start as usize;
        let end = self.byte_end as usize;
        let len = if end >= start {
            end - start
        } else {
            0
        };
        (start, len)
    }
}

/// One source file the preprocessor pulled in.
#[derive(Debug, Clone)]
pub struct SourceFile {
    pub path: String,
    pub content: String,
}

/// Maps every `SourceId` in a document to its file path and text.
#[derive(Debug, Clone)]
pub struct SourceMap {
    sources: Vec<SourceFile>,
}

impl SourceMap {
    /// Registered `(path, content)` pairs, in registration order.
    pub closed spec fn files(&self) -> Seq<(Seq<char>, Seq<char>)> {
        self.sources@.map_values(|f: SourceFile| (f.path@, f.content@))
    }

    pub fn new() -> (res: Self)
        ensures
            res.files() == Seq::<(Seq<char>, Seq<char>)>::empty(),
    {
        let res = SourceMap { sources: Vec::new() };
        assert(res.files() =~= Seq::<(Seq<char>, Seq<char>)>::empty());
        res
    }

    /// Appends a file; the returned id is its index.
    pub fn push(&mut self, path: String, content: String) -> (id: SourceId)
        requires
            old(self).files().len() < u32::MAX,
        ensures
            id.0 == old(self).files().len(),
            final(self).files() == old(self).files().push((path@, content@)),
    {
        let id = SourceId(self.sources.len() as u32);
        let ghost pv = path@;
        let ghost cv = content@;
        self.sources.push(SourceFile { path, content });
        assert(self.files() =~= old(self).files().push((pv, cv)));
        id
    }

    pub fn get(&self, id: SourceId) -> (res: Option<&SourceFile>)
        ensures
            res matches Some(f) ==> id.0 < self.files().len() && (f.path@, f.content@)
                == self.files()[id.0 as int],
            res is None ==> id.0 >= self.files().len(),
    {
        let i = id.0 as usize;
        if i < self.sources.len() {
            Some(&self.sources[i])
        } else {
            None
        }
    }

    pub fn path_of(&self, id: SourceId) -> (res: Option<&str>)
        ensures
            res matches Some(p) ==> id.0 < self.files().len() && p@ == self.files()[id.0 as int].0,
            res is None ==> id.0 >= self.files().len(),
    {
        match self.get(id) {
            Some(f) => Some(f.path.as_str()),
            None => None,
        }
    }

    pub fn content_of(&self, id: SourceId) -> (res: Option<&str>)
        ensures
            res matches Some(c) ==> id.0 < self.files().len() && c@ == self.files()[id.0 as int].1,
            res is None ==> id.0 >= self.files().len(),
    {
        match self.get(id) {
            Some(f) => Some(f.content.as_str()),
            None => None,
        }
    }

    pub fn len(&self) -> (n: usize)
        ensures
            n == self.files().len(),
    {
        self.sources.len()
    }

    pub fn is_empty(&self) -> (b: bool)
        ensures
            b == (self.files().len() == 0),
    {
        self.sources.len() == 0
    }
}

// ---------------------------------------------------------------------------
// inline content
// ---------------------------------------------------------------------------

/// Inline content node.
#[derive(Debug)]
pub enum Inline {
    Text { value: String },
    Strong { children: Vec<Inline> },
    Emphasis { children: Vec<Inline> },
    Monospace { children: Vec<Inline> },
    /// `~text~` — renders as `<sub>`.
    Subscript { children: Vec<Inline> },
    /// `^text^` — renders as `<sup>`.
    Superscript { children: Vec<Inline> },
    /// `#text#` or `##text##` — renders as `<mark>`.
    Highlight { children: Vec<Inline> },
    Link { href: String, text: Vec<Inline> },
    Xref { target: String, text: Option<Vec<Inline>> },
    Image { target: String, alt: String, width: Option<String>, height: Option<String> },
    /// `footnote:[text]` (anonymous) or `footnote:id[text]` (named).
    Footnote { id: Option<String>, text: Vec<Inline> },
    AttributeRef { name: String },
    LineBreak,
    /// `+text+` / `++text++`: escaped, no further substitutions.
    Passthrough { value: String },
    /// `pass:[text]`: emitted verbatim.
    RawHtml { value: String },
}

/// Which quote-like wrapper an inline carries.
#[derive(Debug, Clone, Copy, PartialEq, Eq, Structural)]
pub enum Wrap {
    Strong,
    Emphasis,
    Monospace,
    Subscript,
    Superscript,
    Highlight,
}

pub enum InlineV {
    Text(Seq<char>),
    Wrapped(Wrap, Seq<InlineV>),
    Link { href: Seq<char>, text: Seq<InlineV> },
    Xref { target: Seq<char>, text: Option<Seq<InlineV>> },
    Image {
        target: Seq<char>,
        alt: Seq<char>,
        width: Option<Seq<char>>,
        height: Option<Seq<char>>,
    },
    Footnote { id: Option<Seq<char>>, text: Seq<InlineV> },
    AttributeRef(Seq<char>),
    LineBreak,
    Passthrough(Seq<char>),
    RawHtml(Seq<char>),
}

pub open spec fn opt_str_v(o: Option<String>) -> Option<Seq<char>> {
    match o {
        Some(s) => Some(s@),
        None => None,
    }
}

pub open spec fn inline_v(i: Inline) -> InlineV
    decreases i,
{
    match i {
        Inline::Text { value } => InlineV::Text(value@),
        Inline::Strong { children } => InlineV::Wrapped(Wrap::Strong, inlines_v(children@)),
        Inline::Emphasis { children } => InlineV::Wrapped(Wrap::Emphasis, inlines_v(children@)),
        Inline::Monospace { children } => InlineV::Wrapped(Wrap::Monospace, inlines_v(children@)),
        Inline::Subscript { children } => InlineV::Wrapped(Wrap::Subscript, inlines_v(children@)),
        Inline::Superscript { children } => InlineV::Wrapped(
            Wrap::Superscript,
            inlines_v(children@),
        ),
        Inline::Highlight { children } => InlineV::Wrapped(Wrap::Highlight, inlines_v(children@)),
        Inline::Link { href, text } => InlineV::Link { href: href@, text: inlines_v(text@) },
        Inline::Xref { target, text } => InlineV::Xref {
            target: target@,
            text: match text {
                Some(t) => Some(inlines_v(t@)),
                None => None,
            },
        },
        Inline::Image { target, alt, width, height } => InlineV::Image {
            target: target@,
            alt: alt@,
            width: opt_str_v(width),
            height: opt_str_v(height),
        },
        Inline::Footnote { id, text } => InlineV::Footnote { id: opt_str_v(id), text: inlines_v(text@) },
        Inline::AttributeRef { name } => InlineV::AttributeRef(name@),
        Inline::LineBreak => InlineV::LineBreak,
        Inline::Passthrough { value } => InlineV::Passthrough(value@),
        Inline::RawHtml { value } => InlineV::RawHtml(value@),
    }
}

pub open spec fn inlines_v(s: Seq<Inline>) -> Seq<InlineV>
    decreases s,
{
    if s.len() == 0 {
        Seq::empty()
    } else {
        inlines_v(s.drop_last()).push(inline_v(s.last()))
    }
}

pub proof fn lemma_inlines_v_len(s: Seq<Inline>)
    ensures
        inlines_v(s).len() == s.len(),
        forall|i: int| 0 <= i < s.len() ==> #[trigger] inlines_v(s)[i] == inline_v(s[i]),
    decreases s.len(),
{
    if s.len() > 0 {
        lemma_inlines_v_len(s.drop_last());
        assert forall|i: int| 0 <= i < s.len() implies #[trigger] inlines_v(s)[i] == inline_v(
            s[i],
        ) by {
            if i < s.len() - 1 {
                assert(s.drop_last()[i] == s[i]);
            }
        }
    }
}

pub proof fn lemma_inlines_v_push(s: Seq<Inline>, x: Inline)
    ensures
        inlines_v(s.push(x)) == inlines_v(s).push(inline_v(x)),
{
    assert(s.push(x).drop_last() =~= s);
}

pub proof fn lemma_inlines_v_add(a: Seq<Inline>, b: Seq<Inline>)
    ensures
        inlines_v(a + b) == inlines_v(a) + inlines_v(b),
    decreases b.len(),
{
    if b.len() == 0 {
        assert(a + b =~= a);
        assert(inlines_v(a) + inlines_v(b) =~= inlines_v(a));
    } else {
        lemma_inlines_v_add(a, b.drop_last());
        assert((a + b).drop_last() =~= a + b.drop_last());
        assert((a + b).last() == b.last());
        assert(inlines_v(a) + inlines_v(b) =~= (inlines_v(a) + inlines_v(b.drop_last())).push(
            inline_v(b.last()),
        ));
    }
}

impl View for Inline {
    type V = InlineV;

    open spec fn view(&self) -> InlineV {
        inline_v(*self)
    }
}

// ---------------------------------------------------------------------------
// blocks
// ---------------------------------------------------------------------------

/// Metadata attached to a block via `.Title` and `[...]` lines.
pub struct BlockMeta {
    /// Explicit block ID (`[#myid]` shorthand or `id="myid"` attribute).
    pub id: Option<String>,
    /// Block title (`.Title` line), inline-parsed.
    pub title: Option<Vec<Inline>>,
    /// Block style — first positional attribute.
    pub style: Option<String>,
    /// Roles (`.role` shorthand or `role="..."`).
    pub roles: Vec<String>,
    /// Options (`%opt` shorthand or `options="..."`).
    pub options: Vec<String>,
    /// Positional values after the style.
    pub positional: Vec<String>,
    /// Named attributes not folded into the fields above.
    pub named: StrMap<String>,
}

pub struct MetaV {
    pub id: Option<Seq<char>>,
    pub title: Option<Seq<InlineV>>,
    pub style: Option<Seq<char>>,
    pub roles: Seq<Seq<char>>,
    pub options: Seq<Seq<char>>,
    pub positional: Seq<Seq<char>>,
    pub named: Map<Seq<char>, Seq<char>>,
}

pub open spec fn strs_v(v: Seq<String>) -> Seq<Seq<char>> {
    v.map_values(|s: String| s@)
}

pub open spec fn meta_v(m: BlockMeta) -> MetaV {
    MetaV {
        id: opt_str_v(m.id),
        title: match m.title {
            Some(t) => Some(inlines_v(t@)),
            None => None,
        },
        style: opt_str_v(m.style),
        roles: strs_v(m.roles@),
        options: strs_v(m.options@),
        positional: strs_v(m.positional@),
        named: m.named@,
    }
}

impl View for BlockMeta {
    type V = MetaV;

    open spec fn view(&self) -> MetaV {
        meta_v(*self)
    }
}

pub open spec fn empty_meta() -> MetaV {
    MetaV {
        id: None,
        title: None,
        style: None,
        roles: Seq::empty(),
        options: Seq::empty(),
        positional: Seq::empty(),
        named: Map::empty(),
    }
}

impl BlockMeta {
    pub fn new() -> (res: Self)
        ensures
            res@ == empty_meta(),
    {
        let res = BlockMeta {
            id: None,
            title: None,
            style: None,
            roles: Vec::new(),
            options: Vec::new(),
            positional: Vec::new(),
            named: StrMap::new(),
        };
        assert(res@.roles =~= Seq::<Seq<char>>::empty());
        assert(res@.options =~= Seq::<Seq<char>>::empty());
        assert(res@.positional =~= Seq::<Seq<char>>::empty());
        res
    }

    pub fn is_empty(&self) -> (b: bool)
        ensures
            b == (self@.id is None && self@.title is None && self@.style is None && self@.roles.len()
                == 0 && self@.options.len() == 0 && self@.positional.len() == 0
                && self@.named.len() == 0),
    {
        self.id.is_none() && self.title.is_none() && self.style.is_none() && self.roles.len() == 0
            && self.options.len() == 0 && self.positional.len() == 0 && self.named.is_empty()
    }
}

#[derive(Debug, Clone, Copy, PartialEq, Eq, Structural)]
pub enum ListMarker {
    Unordered,
    Ordered,
}

#[derive(Debug, Clone, Copy, PartialEq, Eq, Structural)]
pub enum DelimitedStyle {
    Listing,
    Literal,
    Example,
    Quote,
    Sidebar,
    Passthrough,
    Open,
}

#[derive(Debug, Clone, Copy, PartialEq, Eq, Structural)]
pub enum HAlign {
    Left,
    Center,
    Right,
}

/// One entry of a `cols=` spec: a relative width (0 = unspecified) and an
/// optional alignment.
#[derive(Debug, Clone, Copy, PartialEq, Eq, Structural)]
pub struct ColumnSpec {
    pub width: u32,
    pub h_align: Option<HAlign>,
}

/// Whether a row is part of the table header, body, or footer.
#[derive(Debug, Clone, Copy, PartialEq, Eq, Structural)]
pub enum RowKind {
    Header,
    Body,
    Footer,
}

impl RowKind {
    pub fn is_default(&self) -> (b: bool)
        ensures
            b == (*self == RowKind::Body),
    {
        match self {
            RowKind::Body => true,
            _ => false,
        }
    }
}

/// Cell style from a formatter prefix on the `|` cell separator.
#[derive(Debug, Clone, Copy, PartialEq, Eq, Structural)]
pub enum CellStyle {
    AsciiDoc,
    Monospace,
    Strong,
    Emphasis,
    Header,
    Literal,
}

pub struct Section {
    pub level: u8,
    pub title: Vec<Inline>,
    pub blocks: Vec<Block>,
    pub location: Location,
    pub meta: BlockMeta,
}

pub struct Paragraph {
    pub inlines: Vec<Inline>,
    pub location: Location,
    pub meta: BlockMeta,
}

pub struct List {
    pub marker: ListMarker,
    pub items: Vec<ListItem>,
    pub location: Location,
    pub meta: BlockMeta,
}

pub struct ListItem {
    pub depth: u8,
    pub principal: Vec<Inline>,
    pub blocks: Vec<Block>,
}

pub struct DescriptionList {
    pub items: Vec<DescriptionListItem>,
    pub location: Location,
    pub meta: BlockMeta,
}

pub struct DescriptionListItem {
    pub term: Vec<Inline>,
    pub description: Vec<Block>,
}

pub struct DelimitedBlock {
    pub style: DelimitedStyle,
    pub content: DelimitedContent,
    pub location: Location,
    pub meta: BlockMeta,
}

pub enum DelimitedContent {
    /// Raw text with substitutions suppressed (listing, literal, passthrough).
    Raw { text: String },
    /// Nested blocks (example, quote, sidebar, open).
    Blocks { blocks: Vec<Block> },
}

pub struct Table {
    pub rows: Vec<TableRow>,
    /// Column specifications from `cols="…"`; empty when none was given.
    pub cols: Vec<ColumnSpec>,
    pub location: Location,
    pub meta: BlockMeta,
}

pub struct TableRow {
    pub cells: Vec<TableCell>,
    pub kind: RowKind,
}

pub struct TableCell {
    pub inlines: Vec<Inline>,
    /// Parsed blocks of `a|` cells; empty for other styles.
    pub blocks: Vec<Block>,
    pub style: Option<CellStyle>,
    pub h_align: Option<HAlign>,
    pub colspan: u32,
    pub rowspan: u32,
}

/// A `[discrete]` heading: section title syntax, flat in the tree.
pub struct DiscreteHeading {
    pub level: u8,
    pub title: Vec<Inline>,
    pub location: Location,
    pub meta: BlockMeta,
}

/// Callout list — the `<N> description` lines after a listing block.
pub struct Colist {
    pub items: Vec<ColistItem>,
    pub location: Location,
    pub meta: BlockMeta,
}

pub struct ColistItem {
    pub number: u32,
    pub inlines: Vec<Inline>,
}

pub enum Block {
    Section(Section),
    Paragraph(Paragraph),
    List(List),
    DescriptionList(DescriptionList),
    Delimited(DelimitedBlock),
    Table(Table),
    Colist(Colist),
    /// A `[discrete]` heading.
    DiscreteHeading(DiscreteHeading),
}

// --- block views ---

pub struct ListItemV {
    pub depth: u8,
    pub principal: Seq<InlineV>,
    pub blocks: Seq<BlockV>,
}

pub struct DlistItemV {
    pub term: Seq<InlineV>,
    pub description: Seq<BlockV>,
}

pub enum ContentV {
    Raw(Seq<char>),
    Blocks(Seq<BlockV>),
}

pub struct CellV {
    pub inlines: Seq<InlineV>,
    pub blocks: Seq<BlockV>,
    pub style: Option<CellStyle>,
    pub h_align: Option<HAlign>,
    pub colspan: u32,
    pub rowspan: u32,
}

pub struct RowV {
    pub cells: Seq<CellV>,
    pub kind: RowKind,
}

pub enum BlockV {
    Section {
        level: u8,
        title: Seq<InlineV>,
        blocks: Seq<BlockV>,
        location: Location,
        meta: MetaV,
    },
    Paragraph { inlines: Seq<InlineV>, location: Location, meta: MetaV },
    List { marker: ListMarker, items: Seq<ListItemV>, location: Location, meta: MetaV },
    DescriptionList { items: Seq<DlistItemV>, location: Location, meta: MetaV },
    Delimited {
        style: DelimitedStyle,
        content: ContentV,
        location: Location,
        meta: MetaV,
    },
    Table { rows: Seq<RowV>, cols: Seq<ColumnSpec>, location: Location, meta: MetaV },
    Colist { items: Seq<(u32, Seq<InlineV>)>, location: Location, meta: MetaV },
    DiscreteHeading { level: u8, title: Seq<InlineV>, location: Location, meta: MetaV },
}

pub open spec fn block_v(b: Block) -> BlockV
    decreases b,
{
    match b {
        Block::Section(s) => BlockV::Section {
            level: s.level,
            title: inlines_v(s.title@),
            blocks: blocks_v(s.blocks@),
            location: s.location,
            meta: meta_v(s.meta),
        },
        Block::Paragraph(p) => BlockV::Paragraph {
            inlines: inlines_v(p.inlines@),
            location: p.location,
            meta: meta_v(p.meta),
        },
        Block::List(l) => BlockV::List {
            marker: l.marker,
            items: list_items_v(l.items@),
            location: l.location,
            meta: meta_v(l.meta),
        },
        Block::DescriptionList(d) => BlockV::DescriptionList {
            items: dlist_items_v(d.items@),
            location: d.location,
            meta: meta_v(d.meta),
        },
        Block::Delimited(d) => BlockV::Delimited {
            style: d.style,
            content: match d.content {
                DelimitedContent::Raw { text } => ContentV::Raw(text@),
                DelimitedContent::Blocks { blocks } => ContentV::Blocks(blocks_v(blocks@)),
            },
            location: d.location,
            meta: meta_v(d.meta),
        },
        Block::Table(t) => BlockV::Table {
            rows: rows_v(t.rows@),
            cols: t.cols@,
            location: t.location,
            meta: meta_v(t.meta),
        },
        Block::Colist(c) => BlockV::Colist {
            items: colist_items_v(c.items@),
            location: c.location,
            meta: meta_v(c.meta),
        },
        Block::DiscreteHeading(d) => BlockV::DiscreteHeading {
            level: d.level,
            title: inlines_v(d.title@),
            location: d.location,
            meta: meta_v(d.meta),
        },
    }
}

pub open spec fn blocks_v(s: Seq<Block>) -> Seq<BlockV>
    decreases s,
{
    if s.len() == 0 {
        Seq::empty()
    } else {
        blocks_v(s.drop_last()).push(block_v(s.last()))
    }
}

pub open spec fn list_items_v(s: Seq<ListItem>) -> Seq<ListItemV>
    decreases s,
{
    if s.len() == 0 {
        Seq::empty()
    } else {
        let it = s.last();
        list_items_v(s.drop_last()).push(
            ListItemV {
                depth: it.depth,
                principal: inlines_v(it.principal@),
                blocks: blocks_v(it.blocks@),
            },
        )
    }
}

pub open spec fn dlist_items_v(s: Seq<DescriptionListItem>) -> Seq<DlistItemV>
    decreases s,
{
    if s.len() == 0 {
        Seq::empty()
    } else {
        let it = s.last();
        dlist_items_v(s.drop_last()).push(
            DlistItemV { term: inlines_v(it.term@), description: blocks_v(it.description@) },
        )
    }
}

pub open spec fn rows_v(s: Seq<TableRow>) -> Seq<RowV>
    decreases s,
{
    if s.len() == 0 {
        Seq::empty()
    } else {
        let r = s.last();
        rows_v(s.drop_last()).push(RowV { cells: cells_v(r.cells@), kind: r.kind })
    }
}

pub open spec fn cell_v(c: TableCell) -> CellV {
    CellV {
        inlines: inlines_v(c.inlines@),
        blocks: blocks_v(c.blocks@),
        style: c.style,
        h_align: c.h_align,
        colspan: c.colspan,
        rowspan: c.rowspan,
    }
}

pub open spec fn cells_v(s: Seq<TableCell>) -> Seq<CellV>
    decreases s,
{
    if s.len() == 0 {
        Seq::empty()
    } else {
        let c = s.last();
        cells_v(s.drop_last()).push(
            CellV {
                inlines: inlines_v(c.inlines@),
                blocks: blocks_v(c.blocks@),
                style: c.style,
                h_align: c.h_align,
                colspan: c.colspan,
                rowspan: c.rowspan,
            },
        )
    }
}

pub open spec fn colist_items_v(s: Seq<ColistItem>) -> Seq<(u32, Seq<InlineV>)> {
    s.map_values(|it: ColistItem| (it.number, inlines_v(it.inlines@)))
}

impl View for Block {
    type V = BlockV;

    open spec fn view(&self) -> BlockV {
        block_v(*self)
    }
}

pub proof fn lemma_blocks_v_push(s: Seq<Block>, x: Block)
    ensures
        blocks_v(s.push(x)) == blocks_v(s).push(block_v(x)),
{
    assert(s.push(x).drop_last() =~= s);
}

pub proof fn lemma_blocks_v_len(s: Seq<Block>)
    ensures
        blocks_v(s).len() == s.len(),
        forall|i: int| 0 <= i < s.len() ==> #[trigger] blocks_v(s)[i] == block_v(s[i]),
    decreases s.len(),
{
    if s.len() > 0 {
        lemma_blocks_v_len(s.drop_last());
        assert forall|i: int| 0 <= i < s.len() implies #[trigger] blocks_v(s)[i] == block_v(
            s[i],
        ) by {
            if i < s.len() - 1 {
                assert(s.drop_last()[i] == s[i]);
            }
        }
    }
}

pub proof fn lemma_list_items_v(s: Seq<ListItem>)
    ensures
        list_items_v(s).len() == s.len(),
        forall|i: int|
            0 <= i < s.len() ==> #[trigger] list_items_v(s)[i] == (ListItemV {
                depth: s[i].depth,
                principal: inlines_v(s[i].principal@),
                blocks: blocks_v(s[i].blocks@),
            }),
    decreases s.len(),
{
    if s.len() > 0 {
        lemma_list_items_v(s.drop_last());
        assert forall|i: int| 0 <= i < s.len() - 1 implies s.drop_last()[i] == s[i] by {}
    }
}

pub proof fn lemma_dlist_items_v(s: Seq<DescriptionListItem>)
    ensures
        dlist_items_v(s).len() == s.len(),
        forall|i: int|
            0 <= i < s.len() ==> #[trigger] dlist_items_v(s)[i] == (DlistItemV {
                term: inlines_v(s[i].term@),
                description: blocks_v(s[i].description@),
            }),
    decreases s.len(),
{
    if s.len() > 0 {
        lemma_dlist_items_v(s.drop_last());
        assert forall|i: int| 0 <= i < s.len() - 1 implies s.drop_last()[i] == s[i] by {}
    }
}

pub proof fn lemma_rows_v(s: Seq<TableRow>)
    ensures
        rows_v(s).len() == s.len(),
        forall|i: int|
            0 <= i < s.len() ==> #[trigger] rows_v(s)[i] == (RowV {
                cells: cells_v(s[i].cells@),
                kind: s[i].kind,
            }),
    decreases s.len(),
{
    if s.len() > 0 {
        lemma_rows_v(s.drop_last());
        assert forall|i: int| 0 <= i < s.len() - 1 implies s.drop_last()[i] == s[i] by {}
    }
}

pub proof fn lemma_cells_v(s: Seq<TableCell>)
    ensures
        cells_v(s).len() == s.len(),
        forall|i: int| 0 <= i < s.len() ==> #[trigger] cells_v(s)[i] == cell_v(s[i]),
    decreases s.len(),
{
    if s.len() > 0 {
        lemma_cells_v(s.drop_last());
        assert forall|i: int| 0 <= i < s.len() - 1 implies s.drop_last()[i] == s[i] by {}
    }
}

// ---------------------------------------------------------------------------
// documents
// ---------------------------------------------------------------------------

#[derive(Debug, Clone)]
pub struct Author {
    pub name: String,
    pub email: Option<String>,
}

#[derive(Debug, Clone)]
pub struct Revision {
    pub number: Option<String>,
    pub date: Option<String>,
    pub remark: Option<String>,
}

pub struct Header {
    pub title: Vec<Inline>,
    pub authors: Vec<Author>,
    pub revision: Option<Revision>,
    pub location: Location,
}

pub struct Document {
    pub header: Option<Header>,
    pub attributes: Attributes,
    pub blocks: Vec<Block>,
}

/// Conversion failure.
#[derive(Debug)]
pub enum ConvertError {
    Message(String),
}

/// An output backend.
pub trait Converter {
    fn convert(&self, doc: &Document) -> Result<String, ConvertError>;
}

// ---------------------------------------------------------------------------
// plain text
// ---------------------------------------------------------------------------

/// Plain-text form of an inline: formatting dropped, text of links, xrefs,
/// footnotes and images kept.
pub open spec fn plain_inline(i: InlineV) -> Seq<char>
    decreases i,
{
    match i {
        InlineV::Text(v) => v,
        InlineV::Wrapped(_, c) => plain_seq(c),
        InlineV::Link { text, .. } => plain_seq(text),
        InlineV::Xref { target, text } => match text {
            Some(t) => if t.len() == 0 {
                target
            } else {
                plain_seq(t)
            },
            None => target,
        },
        InlineV::Image { alt, .. } => alt,
        InlineV::Footnote { text, .. } => plain_seq(text),
        InlineV::AttributeRef(name) => seq!['{'] + name + seq!['}'],
        InlineV::LineBreak => seq![' '],
        InlineV::Passthrough(v) => v,
        InlineV::RawHtml(_) => Seq::empty(),
    }
}

pub open spec fn plain_seq(s: Seq<InlineV>) -> Seq<char>
    decreases s,
{
    if s.len() == 0 {
        Seq::empty()
    } else {
        plain_seq(s.drop_last()) + plain_inline(s.last())
    }
}

/// Render an inline sequence to plain text.
pub fn inlines_to_plain(inlines: &[Inline]) -> (res: String)
    ensures
        res@ == plain_seq(inlines_v(inlines@)),
{
    let mut out = String::new();
    write_plain_seq(&mut out, inlines);
    out
}

fn write_plain_seq(out: &mut String, inlines: &[Inline])
    ensures
        final(out)@ == old(out)@ + plain_seq(inlines_v(inlines@)),
    decreases inlines@,
{
    let mut i: usize = 0;
    while i < inlines.len()
        invariant
            i <= inlines.len(),
            out@ == old(out)@ + plain_seq(inlines_v(inlines@.take(i as int))),
        decreases inlines.len() - i,
    {
        proof {
            assert(decreases_to!(inlines@ => inlines@[i as int]));
        }
        let ghost before = out@;
        write_plain(out, &inlines[i]);
        proof {
            let t = inlines@.take(i as int);
            let x = inlines@[i as int];
            assert(inlines@.take(i + 1) =~= t.push(x));
            lemma_inlines_v_push(t, x);
            let vs = inlines_v(t);
            assert(vs.push(inline_v(x)).drop_last() =~= vs);
            assert(out@ =~= old(out)@ + (plain_seq(vs) + plain_inline(inline_v(x))));
        }
        i += 1;
    }
    assert(inlines@.take(inlines.len() as int) =~= inlines@);
}

fn write_plain(out: &mut String, inline: &Inline)
    ensures
        final(out)@ == old(out)@ + plain_inline(inline_v(*inline)),
    decreases *inline,
{
    match inline {
        Inline::Text { value } => push_str(out, value.as_str()),
        Inline::Strong { children }
        | Inline::Emphasis { children }
        | Inline::Monospace { children }
        | Inline::Subscript { children }
        | Inline::Superscript { children }
        | Inline::Highlight { children } => {
            write_plain_seq(out, children.as_slice());
        },
        Inline::Link { text, .. } => {
            write_plain_seq(out, text.as_slice());
        },
        Inline::Xref { target, text } => {
            match text {
                Some(t) => {
                    if t.len() == 0 {
                        push_str(out, target.as_str());
                    } else {
                        write_plain_seq(out, t.as_slice());
                    }
                    proof {
                        if t.len() == 0 {
                            assert(t@ =~= Seq::<Inline>::empty());
                        } else {
                            lemma_inlines_v_len(t@);
                        }
                    }
                },
                None => push_str(out, target.as_str()),
            }
        },
        Inline::Image { alt, .. } => push_str(out, alt.as_str()),
        Inline::Footnote { text, .. } => {
            write_plain_seq(out, text.as_slice());
        },
        Inline::AttributeRef { name } => {
            push_char(out, '{');
            push_str(out, name.as_str());
            push_char(out, '}');
            assert(final(out)@ =~= old(out)@ + (seq!['{'] + name@ + seq!['}']));
        },
        Inline::LineBreak => {
            push_char(out, ' ');
            assert(final(out)@ =~= old(out)@ + seq![' ']);
        },
        Inline::Passthrough { value } => push_str(out, value.as_str()),
        Inline::RawHtml { .. } => {
            assert(final(out)@ =~= old(out)@ + Seq::<char>::empty());
        },
    }
}

} // verus!
