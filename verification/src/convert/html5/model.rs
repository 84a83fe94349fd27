//! The HTML each document node renders to, stated as spec functions over
//! the AST views.
use vstd::prelude::*;

use crate::ast::{
    AttrV, BlockV, CellStyle, CellV, ColumnSpec, ContentV, DelimitedStyle, DlistItemV, HAlign,
    InlineV, ListItemV, ListMarker, MetaV, RowKind, RowV,
};
use crate::convert::html5::escape::{conums_from, escape_attr_html, escape_html};
use crate::convert::html5::inline::{inlines_html, opt_attr};
use crate::text::{dec_digits, join, lower, trim};

verus! {

// ---------------------------------------------------------------------------
// small pieces
// ---------------------------------------------------------------------------

/// `s` repeated `n` times.
pub open spec fn rep(s: Seq<char>, n: nat) -> Seq<char>
    decreases n,
{
    if n == 0 {
        Seq::empty()
    } else {
        s + rep(s, (n - 1) as nat)
    }
}

/// ASCII lowercase of every character.
pub open spec fn lower_ascii(s: Seq<char>) -> Seq<char> {
    s.map_values(|c: char| lower(c))
}

/// Plain text of an inline, as the converter writes it into `<title>`,
/// the table of contents and literal cells.
pub open spec fn text_of_inline(i: InlineV) -> Seq<char>
    decreases i,
{
    match i {
        InlineV::Text(v) => v,
        InlineV::Wrapped(_, c) => text_of(c),
        InlineV::Footnote { text, .. } => text_of(text),
        InlineV::Passthrough(v) => v,
        InlineV::Link { text, .. } => text_of(text),
        InlineV::Xref { target, text } => match text {
            Some(t) => text_of(t),
            None => target,
        },
        InlineV::Image { alt, .. } => alt,
        InlineV::AttributeRef(name) => seq!['{'] + name + seq!['}'],
        InlineV::LineBreak => seq![' '],
        InlineV::RawHtml(_) => Seq::empty(),
    }
}

pub open spec fn text_of(s: Seq<InlineV>) -> Seq<char>
    decreases s,
{
    if s.len() == 0 {
        Seq::empty()
    } else {
        text_of_inline(s[0]) + text_of(s.subrange(1, s.len() as int))
    }
}

// ---------------------------------------------------------------------------
// block metadata
// ---------------------------------------------------------------------------

/// Roles escaped and joined with single spaces.
pub open spec fn roles_html(roles: Seq<Seq<char>>) -> Seq<char> {
    join(roles.map_values(|r: Seq<char>| escape_attr_html(r)), " "@)
}

/// ` class="…"` holding `intrinsic` followed by the roles.
pub open spec fn class_with(intrinsic: Seq<char>, roles: Seq<Seq<char>>) -> Seq<char> {
    " class=\""@ + intrinsic + (if roles.len() == 0 {
        Seq::empty()
    } else {
        " "@ + roles_html(roles)
    }) + "\""@
}

/// ` id="…"` when the block has an id.
pub open spec fn id_attr(m: MetaV) -> Seq<char> {
    opt_attr(" id=\""@, m.id)
}

/// ` id="…" class="…"` from the block's id and roles; each part only when
/// present.
pub open spec fn meta_attrs_html(m: MetaV) -> Seq<char> {
    id_attr(m) + (if m.roles.len() == 0 {
        Seq::empty()
    } else {
        " class=\""@ + roles_html(m.roles) + "\""@
    })
}

/// The block title line, when the block has a title.
pub open spec fn title_html(m: MetaV) -> Seq<char> {
    match m.title {
        Some(t) => "<div class=\"title\">"@ + inlines_html(t) + "</div>\n"@,
        None => Seq::empty(),
    }
}

/// The admonition keyword carried by the block style, if it is one.
pub open spec fn admonition_kw(m: MetaV) -> Option<Seq<char>> {
    match m.style {
        Some(s) => if s == "NOTE"@ || s == "TIP"@ || s == "IMPORTANT"@ || s == "WARNING"@ || s
            == "CAUTION"@ {
            Some(s)
        } else {
            None
        },
        None => None,
    }
}

pub open spec fn admonition_label(kw: Seq<char>) -> Seq<char> {
    if kw == "TIP"@ {
        "Tip"@
    } else if kw == "IMPORTANT"@ {
        "Important"@
    } else if kw == "WARNING"@ {
        "Warning"@
    } else if kw == "CAUTION"@ {
        "Caution"@
    } else {
        "Note"@
    }
}

pub open spec fn admonition_class(kw: Seq<char>) -> Seq<char> {
    if kw == "TIP"@ {
        "tip"@
    } else if kw == "IMPORTANT"@ {
        "important"@
    } else if kw == "WARNING"@ {
        "warning"@
    } else if kw == "CAUTION"@ {
        "caution"@
    } else {
        "note"@
    }
}

/// Opening of an admonition: wrapper, then the title or the label, then
/// the content wrapper.
pub open spec fn admonition_open(m: MetaV, kw: Seq<char>) -> Seq<char> {
    "<div"@ + id_attr(m) + " class=\"admonitionblock "@ + admonition_class(kw) + "\">\n"@ + (
    match m.title {
        Some(t) => "<p class=\"title\">"@ + inlines_html(t) + "</p>\n"@,
        None => "<p class=\"label\">"@ + admonition_label(kw) + "</p>\n"@,
    }) + "<div class=\"content\">\n"@
}

/// The language of a `[source,LANG]` block.
pub open spec fn source_language(m: MetaV) -> Option<Seq<char>> {
    if m.style == Some("source"@) && m.positional.len() > 0 && trim(m.positional[0]).len() > 0 {
        Some(trim(m.positional[0]))
    } else {
        None
    }
}

pub open spec fn heading_tag(level: u8) -> Seq<char> {
    if level == 1 {
        "h2"@
    } else if level == 2 {
        "h3"@
    } else if level == 3 {
        "h4"@
    } else if level == 4 {
        "h5"@
    } else {
        "h6"@
    }
}

// ---------------------------------------------------------------------------
// render context
// ---------------------------------------------------------------------------

/// What block rendering reads from the document-wide pre-walk.
pub struct CtxV {
    pub sectanchors: bool,
    /// Section id to its number (`"1.2"`, or empty without `:sectnums:`).
    pub numbers: Map<Seq<char>, Seq<char>>,
}

/// `<span class="sectnum">N</span> ` before a numbered section's title.
pub open spec fn sectnum_prefix(ctx: CtxV, id: Option<Seq<char>>) -> Seq<char> {
    match id {
        Some(id) => if ctx.numbers.contains_key(id) && ctx.numbers[id].len() > 0 {
            "<span class=\"sectnum\">"@ + ctx.numbers[id] + "</span> "@
        } else {
            Seq::empty()
        },
        None => Seq::empty(),
    }
}

/// The self-link placed in a section heading under `:sectanchors:`.
pub open spec fn anchor_html(ctx: CtxV, id: Option<Seq<char>>) -> Seq<char> {
    match id {
        Some(id) => if ctx.sectanchors {
            "<a class=\"anchor\" href=\"#"@ + escape_attr_html(id) + "\"></a>"@
        } else {
            Seq::empty()
        },
        None => Seq::empty(),
    }
}

// ---------------------------------------------------------------------------
// tables
// ---------------------------------------------------------------------------

/// `n / d` rounded to the nearest integer, ties to even.
pub open spec fn div_round_even(n: nat, d: nat) -> nat
    recommends
        d > 0,
{
    let q = n / d;
    let r = n % d;
    if 2 * r > d || (2 * r == d && q % 2 == 1) {
        q + 1
    } else {
        q
    }
}

/// The four-digit zero-padded decimal of `n < 10000`.
pub open spec fn four_digits(n: nat) -> Seq<char> {
    rep(seq!['0'], (4 - dec_digits(n).len()) as nat) + dec_digits(n)
}

/// `width` as a percentage of `total`, with four decimals.
pub open spec fn percent_text(width: nat, total: nat) -> Seq<char> {
    let scaled = div_round_even(width * 1000000, total);
    dec_digits(scaled / 10000) + "."@ + four_digits(scaled % 10000)
}

pub open spec fn widths_total(cols: Seq<ColumnSpec>) -> nat
    decreases cols.len(),
{
    if cols.len() == 0 {
        0
    } else {
        widths_total(cols.drop_last()) + cols.last().width as nat
    }
}

pub open spec fn col_html(c: ColumnSpec, total: nat) -> Seq<char> {
    if total > 0 && c.width > 0 {
        "<col style=\"width: "@ + percent_text(c.width as nat, total) + "%;\">\n"@
    } else {
        "<col>\n"@
    }
}

pub open spec fn cols_html(cols: Seq<ColumnSpec>, total: nat) -> Seq<char>
    decreases cols.len(),
{
    if cols.len() == 0 {
        Seq::empty()
    } else {
        cols_html(cols.drop_last(), total) + col_html(cols.last(), total)
    }
}

/// The `<colgroup>` of a table with `cols=` widths; nothing without them.
pub open spec fn colgroup_html(cols: Seq<ColumnSpec>) -> Seq<char> {
    if cols.len() == 0 {
        Seq::empty()
    } else {
        "<colgroup>\n"@ + cols_html(cols, widths_total(cols)) + "</colgroup>\n"@
    }
}

pub open spec fn halign_class(a: HAlign) -> Seq<char> {
    match a {
        HAlign::Left => "halign-left"@,
        HAlign::Center => "halign-center"@,
        HAlign::Right => "halign-right"@,
    }
}

pub open spec fn row_open(k: RowKind) -> Seq<char> {
    match k {
        RowKind::Header => "<thead>\n"@,
        RowKind::Body => "<tbody>\n"@,
        RowKind::Footer => "<tfoot>\n"@,
    }
}

pub open spec fn row_close(k: RowKind) -> Seq<char> {
    match k {
        RowKind::Header => "</thead>\n"@,
        RowKind::Body => "</tbody>\n"@,
        RowKind::Footer => "</tfoot>\n"@,
    }
}

/// Whether a cell renders as `<th>`.
pub open spec fn cell_is_th(c: CellV, kind: RowKind) -> bool {
    c.style == Some(CellStyle::Header) || kind == RowKind::Header
}

/// The cell's alignment: its own, else its column's.
pub open spec fn cell_align(c: CellV, col: Option<ColumnSpec>) -> Option<HAlign> {
    match c.h_align {
        Some(a) => Some(a),
        None => match col {
            Some(cs) => cs.h_align,
            None => None,
        },
    }
}

/// ` colspan="N"` and ` rowspan="N"` for spans over one.
pub open spec fn span_attrs(c: CellV) -> Seq<char> {
    (if c.colspan > 1 {
        " colspan=\""@ + dec_digits(c.colspan as nat) + "\""@
    } else {
        Seq::empty()
    }) + (if c.rowspan > 1 {
        " rowspan=\""@ + dec_digits(c.rowspan as nat) + "\""@
    } else {
        Seq::empty()
    })
}

/// ` class="halign-…"` for an aligned cell.
pub open spec fn align_attr(c: CellV, col: Option<ColumnSpec>) -> Seq<char> {
    match cell_align(c, col) {
        Some(a) => " class=\""@ + halign_class(a) + "\""@,
        None => Seq::empty(),
    }
}

pub open spec fn cell_tag(c: CellV, kind: RowKind) -> Seq<char> {
    if cell_is_th(c, kind) {
        "th"@
    } else {
        "td"@
    }
}

/// Opening `<td>`/`<th>` with its span and alignment attributes.
pub open spec fn cell_open(c: CellV, kind: RowKind, col: Option<ColumnSpec>) -> Seq<char> {
    "<"@ + cell_tag(c, kind) + span_attrs(c) + align_attr(c, col) + ">"@
}

pub open spec fn cell_close(c: CellV, kind: RowKind) -> Seq<char> {
    "</"@ + cell_tag(c, kind) + ">"@
}

/// Body of a cell that is not an AsciiDoc cell.
pub open spec fn cell_inline_body(c: CellV, kind: RowKind) -> Seq<char> {
    let th = cell_is_th(c, kind);
    if c.style == Some(CellStyle::Monospace) && !th {
        "<code>"@ + inlines_html(c.inlines) + "</code>"@
    } else if c.style == Some(CellStyle::Strong) && !th {
        "<strong>"@ + inlines_html(c.inlines) + "</strong>"@
    } else if c.style == Some(CellStyle::Emphasis) && !th {
        "<em>"@ + inlines_html(c.inlines) + "</em>"@
    } else if c.style == Some(CellStyle::Literal) {
        "<pre>"@ + escape_html(text_of(c.inlines)) + "</pre>"@
    } else {
        inlines_html(c.inlines)
    }
}

pub open spec fn col_at(cols: Seq<ColumnSpec>, i: int) -> Option<ColumnSpec> {
    if 0 <= i < cols.len() {
        Some(cols[i])
    } else {
        None
    }
}

// ---------------------------------------------------------------------------
// blocks
// ---------------------------------------------------------------------------

/// A section up to its nested blocks: wrapper, title, heading.
pub open spec fn section_head(ctx: CtxV, level: u8, title: Seq<InlineV>, meta: MetaV) -> Seq<char> {
    "<section"@ + meta_attrs_html(meta) + ">\n"@ + title_html(meta) + "<"@ + heading_tag(level)
        + ">"@ + anchor_html(ctx, meta.id) + sectnum_prefix(ctx, meta.id) + inlines_html(title)
        + "</"@ + heading_tag(level) + ">\n"@
}

/// What comes before the nested blocks of a compound delimited block.
pub open spec fn delimited_open(style: DelimitedStyle, meta: MetaV) -> Seq<char> {
    match admonition_kw(meta) {
        Some(kw) => admonition_open(meta, kw),
        None => title_html(meta) + match style {
            DelimitedStyle::Example => "<div"@ + id_attr(meta) + class_with("example"@, meta.roles)
                + ">\n"@,
            DelimitedStyle::Quote => "<blockquote"@ + meta_attrs_html(meta) + ">\n"@,
            DelimitedStyle::Sidebar => "<aside"@ + meta_attrs_html(meta) + ">\n"@,
            _ => "<div"@ + meta_attrs_html(meta) + ">\n"@,
        },
    }
}

/// What comes after the nested blocks of a compound delimited block.
pub open spec fn delimited_close(style: DelimitedStyle, meta: MetaV) -> Seq<char> {
    match admonition_kw(meta) {
        Some(_) => "</div>\n</div>\n"@,
        None => match style {
            DelimitedStyle::Quote => "</blockquote>\n"@,
            DelimitedStyle::Sidebar => "</aside>\n"@,
            _ => "</div>\n"@,
        },
    }
}

/// A verbatim delimited block: listing, literal or passthrough.
pub open spec fn raw_html(style: DelimitedStyle, text: Seq<char>, meta: MetaV) -> Seq<char> {
    title_html(meta) + match style {
        DelimitedStyle::Listing => "<pre"@ + meta_attrs_html(meta) + opt_attr(
            " data-lang=\""@,
            source_language(meta),
        ) + "><code"@ + opt_attr(" class=\"language-"@, source_language(meta)) + ">"@ + conums_from(
            escape_html(text),
            0,
        ) + "</code></pre>\n"@,
        DelimitedStyle::Literal => "<pre"@ + meta_attrs_html(meta) + ">"@ + conums_from(
            escape_html(text),
            0,
        ) + "</pre>\n"@,
        _ => text + "\n"@,
    }
}

/// A paragraph: an admonition, an image block, or a plain `<p>`.
pub open spec fn paragraph_html(inlines: Seq<InlineV>, meta: MetaV) -> Seq<char> {
    match admonition_kw(meta) {
        Some(kw) => admonition_open(meta, kw) + "<p>"@ + inlines_html(inlines) + "</p>\n"@
            + "</div>\n</div>\n"@,
        None => if meta.style == Some("image"@) {
            "<div"@ + id_attr(meta) + " class=\"imageblock\">\n"@ + "<div class=\"content\">"@
                + inlines_html(inlines) + "</div>\n"@ + (match meta.title {
                Some(t) => "<div class=\"title\">"@ + inlines_html(t) + "</div>\n"@,
                None => Seq::empty(),
            }) + "</div>\n"@
        } else {
            title_html(meta) + "<p"@ + meta_attrs_html(meta) + ">"@ + inlines_html(inlines)
                + "</p>\n"@
        },
    }
}

/// Whether a block renders without error: every delimited block pairs its
/// style with the content that style takes (or is an admonition with
/// nested blocks), throughout the tree.
pub open spec fn block_ok(b: BlockV) -> bool
    decreases b,
{
    match b {
        BlockV::Section { blocks, .. } => blocks_ok(blocks),
        BlockV::Paragraph { .. } => true,
        BlockV::List { items, .. } => items_ok(items),
        BlockV::DescriptionList { items, .. } => ditems_ok(items),
        BlockV::Delimited { style, content, meta, .. } => match content {
            ContentV::Blocks(bs) => (admonition_kw(meta) is Some || style == DelimitedStyle::Example
                || style == DelimitedStyle::Quote || style == DelimitedStyle::Sidebar || style
                == DelimitedStyle::Open) && blocks_ok(bs),
            ContentV::Raw(_) => style == DelimitedStyle::Listing || style == DelimitedStyle::Literal
                || style == DelimitedStyle::Passthrough,
        },
        BlockV::Table { rows, .. } => rows_ok(rows),
        BlockV::Colist { .. } => true,
        BlockV::DiscreteHeading { .. } => true,
    }
}

pub open spec fn blocks_ok(bs: Seq<BlockV>) -> bool
    decreases bs,
{
    if bs.len() == 0 {
        true
    } else {
        block_ok(bs[0]) && blocks_ok(bs.subrange(1, bs.len() as int))
    }
}

pub open spec fn items_ok(items: Seq<ListItemV>) -> bool
    decreases items,
{
    if items.len() == 0 {
        true
    } else {
        blocks_ok(items[0].blocks) && items_ok(items.subrange(1, items.len() as int))
    }
}

pub open spec fn ditems_ok(items: Seq<DlistItemV>) -> bool
    decreases items,
{
    if items.len() == 0 {
        true
    } else {
        blocks_ok(items[0].description) && ditems_ok(items.subrange(1, items.len() as int))
    }
}

pub open spec fn cells_ok(cells: Seq<CellV>) -> bool
    decreases cells,
{
    if cells.len() == 0 {
        true
    } else {
        (cells[0].style != Some(CellStyle::AsciiDoc) || blocks_ok(cells[0].blocks)) && cells_ok(
            cells.subrange(1, cells.len() as int),
        )
    }
}

pub open spec fn rows_ok(rows: Seq<RowV>) -> bool
    decreases rows,
{
    if rows.len() == 0 {
        true
    } else {
        cells_ok(rows[0].cells) && rows_ok(rows.subrange(1, rows.len() as int))
    }
}

/// The HTML of one block.
pub open spec fn block_html(ctx: CtxV, b: BlockV) -> Seq<char>
    decreases b,
{
    match b {
        BlockV::Section { level, title, blocks, meta, .. } => section_head(ctx, level, title, meta)
            + blocks_html(ctx, blocks) + "</section>\n"@,
        BlockV::Paragraph { inlines, meta, .. } => paragraph_html(inlines, meta),
        BlockV::List { marker, items, meta, .. } => {
            let tag = match marker {
                ListMarker::Unordered => "ul"@,
                ListMarker::Ordered => "ol"@,
            };
            title_html(meta) + items_html(ctx, tag, meta_attrs_html(meta), items, 0, false)
        },
        BlockV::DescriptionList { items, meta, .. } => title_html(meta) + "<dl"@ + meta_attrs_html(
            meta,
        ) + ">\n"@ + ditems_html(ctx, items) + "</dl>\n"@,
        BlockV::Delimited { style, content, meta, .. } => match content {
            ContentV::Blocks(bs) => delimited_open(style, meta) + blocks_html(ctx, bs)
                + delimited_close(style, meta),
            ContentV::Raw(text) => raw_html(style, text, meta),
        },
        BlockV::Table { rows, cols, meta, .. } => title_html(meta) + "<table"@ + meta_attrs_html(meta)
            + ">\n"@ + colgroup_html(cols) + rows_html(ctx, cols, rows, None) + "</table>\n"@,
        BlockV::Colist { items, meta, .. } => title_html(meta) + "<ol class=\"colist\">\n"@
            + colist_html(items) + "</ol>\n"@,
        BlockV::DiscreteHeading { level, title, meta, .. } => "<"@ + heading_tag(level) + id_attr(
            meta,
        ) + class_with("discrete"@, meta.roles) + ">"@ + inlines_html(title) + "</"@ + heading_tag(
            level,
        ) + ">\n"@,
    }
}

/// The HTML of a block sequence: each block in turn.
pub open spec fn blocks_html(ctx: CtxV, bs: Seq<BlockV>) -> Seq<char>
    decreases bs,
{
    if bs.len() == 0 {
        Seq::empty()
    } else {
        block_html(ctx, bs[0]) + blocks_html(ctx, bs.subrange(1, bs.len() as int))
    }
}

/// Blocks nested in a list item, each after a line break.
pub open spec fn item_blocks_html(ctx: CtxV, bs: Seq<BlockV>) -> Seq<char>
    decreases bs,
{
    if bs.len() == 0 {
        Seq::empty()
    } else {
        "\n"@ + block_html(ctx, bs[0]) + item_blocks_html(ctx, bs.subrange(1, bs.len() as int))
    }
}

/// List items from the current nesting `depth` on. Lists open and close
/// as item depths rise and fall; the block's attributes go on the first
/// list element opened (`attrs_used` once it is).
pub open spec fn items_html(
    ctx: CtxV,
    tag: Seq<char>,
    attrs: Seq<char>,
    items: Seq<ListItemV>,
    depth: nat,
    attrs_used: bool,
) -> Seq<char>
    decreases items,
{
    if items.len() == 0 {
        rep("</"@ + tag + ">\n"@, depth)
    } else {
        let it = items[0];
        let d = it.depth as nat;
        let moves = if depth < d {
            "<"@ + tag + (if attrs_used {
                Seq::empty()
            } else {
                attrs
            }) + ">\n"@ + rep("<"@ + tag + ">\n"@, (d - depth - 1) as nat)
        } else {
            rep("</"@ + tag + ">\n"@, (depth - d) as nat)
        };
        moves + "<li>"@ + inlines_html(it.principal) + item_blocks_html(ctx, it.blocks) + "</li>\n"@
            + items_html(
            ctx,
            tag,
            attrs,
            items.subrange(1, items.len() as int),
            d,
            attrs_used || depth < d,
        )
    }
}

pub open spec fn ditems_html(ctx: CtxV, items: Seq<DlistItemV>) -> Seq<char>
    decreases items,
{
    if items.len() == 0 {
        Seq::empty()
    } else {
        "<dt>"@ + inlines_html(items[0].term) + "</dt>\n"@ + "<dd>"@ + blocks_html(
            ctx,
            items[0].description,
        ) + "</dd>\n"@ + ditems_html(ctx, items.subrange(1, items.len() as int))
    }
}

pub open spec fn colist_html(items: Seq<(u32, Seq<InlineV>)>) -> Seq<char>
    decreases items.len(),
{
    if items.len() == 0 {
        Seq::empty()
    } else {
        "<li value=\""@ + dec_digits(items[0].0 as nat) + "\">"@ + inlines_html(items[0].1)
            + "</li>\n"@ + colist_html(items.subrange(1, items.len() as int))
    }
}

/// Table rows; a `<thead>`/`<tbody>`/`<tfoot>` group opens where the row
/// kind changes and closes before the next group or at the end.
pub open spec fn rows_html(
    ctx: CtxV,
    cols: Seq<ColumnSpec>,
    rows: Seq<RowV>,
    prev: Option<RowKind>,
) -> Seq<char>
    decreases rows,
{
    if rows.len() == 0 {
        match prev {
            Some(k) => row_close(k),
            None => Seq::empty(),
        }
    } else {
        let r = rows[0];
        (if prev == Some(r.kind) {
            Seq::empty()
        } else {
            (match prev {
                Some(k) => row_close(k),
                None => Seq::empty(),
            }) + row_open(r.kind)
        }) + "<tr>"@ + cells_html(ctx, cols, r.kind, r.cells, 0) + "</tr>\n"@ + rows_html(
            ctx,
            cols,
            rows.subrange(1, rows.len() as int),
            Some(r.kind),
        )
    }
}

/// Cells of a row, the first being column `idx`.
pub open spec fn cells_html(
    ctx: CtxV,
    cols: Seq<ColumnSpec>,
    kind: RowKind,
    cells: Seq<CellV>,
    idx: int,
) -> Seq<char>
    decreases cells,
{
    if cells.len() == 0 {
        Seq::empty()
    } else {
        let c = cells[0];
        cell_open(c, kind, col_at(cols, idx)) + (if c.style == Some(CellStyle::AsciiDoc) {
            blocks_html(ctx, c.blocks)
        } else {
            cell_inline_body(c, kind)
        }) + cell_close(c, kind) + cells_html(
            ctx,
            cols,
            kind,
            cells.subrange(1, cells.len() as int),
            idx + 1,
        )
    }
}

// ---------------------------------------------------------------------------
// table of contents and section numbers
// ---------------------------------------------------------------------------

/// One table-of-contents entry: a section with an id.
pub struct TocV {
    pub level: u8,
    pub id: Seq<char>,
    pub number: Seq<char>,
    pub title: Seq<char>,
}

/// Section counters after entering a section at `level`: that level's
/// counter steps (wrapping as a `u32`), deeper ones restart.
pub open spec fn bump(c: Seq<u32>, level: int) -> Seq<u32> {
    Seq::new(
        7,
        |k: int|
            if k == level {
                (if c[k] == u32::MAX {
                    0
                } else {
                    (c[k] + 1) as u32
                })
            } else if k > level {
                0
            } else {
                c[k]
            },
    )
}

/// `"c[1].c[2]…c[level]"`.
pub open spec fn number_text(c: Seq<u32>, level: int) -> Seq<char> {
    join(Seq::new(level as nat, |k: int| dec_digits(c[k + 1] as nat)), "."@)
}

pub open spec fn min6(level: u8) -> int {
    if level > 6 {
        6
    } else {
        level as int
    }
}

/// The pre-walk over sections: counters after the walk and the entries
/// for sections with ids, in document order.
pub open spec fn walk_sections(bs: Seq<BlockV>, c: Seq<u32>, sectnums: bool) -> (
    Seq<u32>,
    Seq<TocV>,
)
    decreases bs,
{
    if bs.len() == 0 {
        (c, Seq::empty())
    } else {
        let rest = bs.subrange(1, bs.len() as int);
        match bs[0] {
            BlockV::Section { level, title, blocks, meta, .. } => {
                let lv = min6(level);
                let c1 = bump(c, lv);
                let number = if sectnums {
                    number_text(c1, lv)
                } else {
                    Seq::empty()
                };
                let here = match meta.id {
                    Some(id) => seq![TocV { level, id, number, title: text_of(title) }],
                    None => Seq::empty(),
                };
                let inner = walk_sections(blocks, c1, sectnums);
                let after = walk_sections(rest, inner.0, sectnums);
                (after.0, here + inner.1 + after.1)
            },
            _ => walk_sections(rest, c, sectnums),
        }
    }
}

/// Section id to number, the later entry winning for a repeated id.
pub open spec fn numbers_of(e: Seq<TocV>) -> Map<Seq<char>, Seq<char>>
    decreases e.len(),
{
    if e.len() == 0 {
        Map::empty()
    } else {
        numbers_of(e.drop_last()).insert(e.last().id, e.last().number)
    }
}

/// One entry's link.
pub open spec fn toc_link(e: TocV) -> Seq<char> {
    "<li><a href=\"#"@ + escape_attr_html(e.id) + "\">"@ + (if e.number.len() == 0 {
        Seq::empty()
    } else {
        "<span class=\"sectnum\">"@ + e.number + "</span> "@
    }) + escape_html(e.title) + "</a>"@
}

/// Closing what is open at the end: the last item, then each level.
pub open spec fn toc_close(depth: nat, li_open: bool) -> Seq<char> {
    (if li_open {
        "</li>\n"@
    } else {
        Seq::empty()
    }) + (if depth == 0 {
        Seq::empty()
    } else {
        rep("</ul>\n</li>\n"@, (depth - 1) as nat) + "</ul>\n"@
    })
}

/// Entries from the current nesting `depth` on: a deeper entry's list
/// goes inside the preceding item, which closes only when the walk comes
/// back to its level or above.
pub open spec fn toc_items(e: Seq<TocV>, depth: nat, li_open: bool) -> Seq<char>
    decreases e.len(),
{
    if e.len() == 0 {
        toc_close(depth, li_open)
    } else {
        let lv = e[0].level as nat;
        (if lv > depth {
            rep("<ul>\n"@, (lv - depth) as nat)
        } else {
            (if li_open {
                "</li>\n"@
            } else {
                Seq::empty()
            }) + rep("</ul>\n</li>\n"@, (depth - lv) as nat)
        }) + toc_link(e[0]) + toc_items(e.subrange(1, e.len() as int), lv, true)
    }
}

/// The table of contents; nothing when no section has an id.
pub open spec fn toc_html(e: Seq<TocV>) -> Seq<char> {
    if e.len() == 0 {
        Seq::empty()
    } else {
        "<div id=\"toc\" class=\"toc\">"@ + "\n"@ + "<div class=\"toc-title\">Table of Contents</div>"@
            + "\n"@ + toc_items(e, 0, false) + "</div>\n"@
    }
}

/// Whether an attribute value turns a flag on: `true`, or a non-empty
/// string other than `false` in any case.
pub open spec fn truthy(v: Option<AttrV>) -> bool {
    match v {
        Some(AttrV::Bool(b)) => b,
        Some(AttrV::Str(s)) => s.len() > 0 && lower_ascii(s) != "false"@,
        None => false,
    }
}

} // verus!
