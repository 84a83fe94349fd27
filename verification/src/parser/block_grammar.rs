//! What the block parser produces, stated as spec functions over the
//! preprocessed lines: where each block starts and ends, what it holds,
//! and how attribute entries met on the way change the attributes that
//! later content sees.
use vstd::prelude::*;

use crate::ast::{
    empty_meta, AttrV, BlockV, ContentV, DelimitedStyle, DlistItemV, InlineV, ListItemV,
    ListMarker, Location, MetaV,
};
use crate::parser::block::{
    admonition_prefix, block_boundary, callout, cols_spec, delimited_spec, lines_inlines,
    list_marker_spec, merge_texts, section_level, table_delim, table_rows, term_end,
};
use crate::parser::cursor::texts;
use crate::parser::header::{entries_from, entry_spec, skip_blank_from};
use crate::parser::inline_grammar::{image_macro, inline_parse, normal_subs};
use crate::parser::meta::meta_from;
use crate::preprocessor::PreprocessedLine;
use crate::text::{is_blank, join, split_char, starts_with, trim, trim_end};

verus! {

/// The location the parser gives a block that starts at line `p`.
pub open spec fn loc_at(ls: Seq<PreprocessedLine>, p: int) -> Location {
    if 0 <= p < ls.len() {
        ls[p].location
    } else if ls.len() > 0 {
        ls.last().location
    } else {
        Location::synthetic_spec()
    }
}

// ---------------------------------------------------------------------------
// paragraphs, description lists, tables, callout lists
// ---------------------------------------------------------------------------

/// The first line at or after `i` that ends a paragraph: a blank line or
/// the start of another block (or the end).
pub open spec fn para_end(ls: Seq<PreprocessedLine>, i: int) -> int
    decreases ls.len() - i,
{
    if i < 0 || i >= ls.len() || is_blank(ls[i].text@) || block_boundary(ls[i].text@) {
        i
    } else {
        para_end(ls, i + 1)
    }
}

/// A paragraph from line `p`: its lines up to the next blank line or
/// block, an admonition label on the first line taken as the style (when
/// none is set), the lines parsed one by one and joined by spaces.
pub open spec fn paragraph_block(
    ls: Seq<PreprocessedLine>,
    p: int,
    attrs: Map<Seq<char>, AttrV>,
    meta: MetaV,
) -> (BlockV, int) {
    let e = para_end(ls, p);
    let raw = texts(ls).subrange(p, e);
    let (lines, m) = if p < e && admonition_prefix(raw[0]) is Some {
        let (kw, rest) = admonition_prefix(raw[0])->Some_0;
        (
            raw.update(0, rest),
            if meta.style is None {
                MetaV { style: Some(kw), ..meta }
            } else {
                meta
            },
        )
    } else {
        (raw, meta)
    };
    (
        BlockV::Paragraph {
            inlines: merge_texts(
                lines_inlines(split_char(join(lines, seq!['\n']), '\n'), attrs, normal_subs()),
            ),
            location: loc_at(ls, p),
            meta: m,
        },
        e,
    )
}

/// The items of a description list from line `i`, and where they end.
pub open spec fn dlist_items(ls: Seq<PreprocessedLine>, i: int, attrs: Map<Seq<char>, AttrV>) -> (
    Seq<DlistItemV>,
    int,
)
    decreases ls.len() - i,
{
    if i < 0 || i >= ls.len() || is_blank(ls[i].text@) {
        (Seq::empty(), i)
    } else {
        let t = ls[i].text@;
        match term_end(t) {
            None => (Seq::empty(), i),
            Some(k) => {
                let term = inline_parse(trim(t.take(k)), attrs, normal_subs());
                let d = trim(t.skip(k + 2));
                let description = if d.len() > 0 {
                    seq![
                        BlockV::Paragraph {
                            inlines: inline_parse(d, attrs, normal_subs()),
                            location: ls[i].location,
                            meta: empty_meta(),
                        },
                    ]
                } else {
                    Seq::empty()
                };
                let (rest, e) = dlist_items(ls, i + 1, attrs);
                (seq![DlistItemV { term, description }] + rest, e)
            },
        }
    }
}

/// A description list from line `p`.
pub open spec fn dlist_block(
    ls: Seq<PreprocessedLine>,
    p: int,
    attrs: Map<Seq<char>, AttrV>,
    meta: MetaV,
) -> (BlockV, int) {
    let (items, e) = dlist_items(ls, p, attrs);
    (BlockV::DescriptionList { items, location: loc_at(ls, p), meta }, e)
}

/// The first line at or after `i` that reads `|===` (trailing whitespace
/// aside), or the end.
pub open spec fn table_end(ls: Seq<PreprocessedLine>, i: int) -> int
    decreases ls.len() - i,
{
    if i < 0 || i >= ls.len() {
        ls.len() as int
    } else if trim_end(ls[i].text@) == seq!['|', '=', '=', '='] {
        i
    } else {
        table_end(ls, i + 1)
    }
}

/// The `cols` attribute of a block, if any.
pub open spec fn cols_attr(meta: MetaV) -> Option<Seq<char>> {
    if meta.named.contains_key("cols"@) {
        Some(meta.named["cols"@])
    } else {
        None
    }
}

/// A table opening at line `p`: its body runs to the closing `|===`,
/// which is consumed.
pub open spec fn table_block(
    ls: Seq<PreprocessedLine>,
    p: int,
    attrs: Map<Seq<char>, AttrV>,
    meta: MetaV,
) -> (BlockV, int) {
    let e = table_end(ls, p + 1);
    let body = texts(ls).subrange(p + 1, e);
    (
        BlockV::Table {
            rows: table_rows(body, attrs, meta),
            cols: cols_spec(cols_attr(meta)),
            location: loc_at(ls, p),
            meta,
        },
        if e < ls.len() {
            e + 1
        } else {
            e
        },
    )
}

/// The callout items from line `i`, and where they end.
pub open spec fn colist_items(ls: Seq<PreprocessedLine>, i: int, attrs: Map<Seq<char>, AttrV>) -> (
    Seq<(u32, Seq<InlineV>)>,
    int,
)
    decreases ls.len() - i,
{
    if i < 0 || i >= ls.len() {
        (Seq::empty(), i)
    } else {
        match callout(ls[i].text@) {
            None => (Seq::empty(), i),
            Some((n, body)) => {
                let (rest, e) = colist_items(ls, i + 1, attrs);
                (seq![(n as u32, inline_parse(body, attrs, normal_subs()))] + rest, e)
            },
        }
    }
}

/// A callout list at line `p`, if one starts there.
pub open spec fn colist_block(ls: Seq<PreprocessedLine>, p: int, attrs: Map<Seq<char>, AttrV>) -> Option<
    (BlockV, int),
> {
    let (items, e) = colist_items(ls, p, attrs);
    if items.len() == 0 {
        None
    } else {
        Some((BlockV::Colist { items, location: loc_at(ls, p), meta: empty_meta() }, e))
    }
}

// ---------------------------------------------------------------------------
// delimited blocks
// ---------------------------------------------------------------------------

/// The first line at or after `i` whose text, trailing whitespace aside,
/// is `delim` (or the end).
pub open spec fn delim_end(ls: Seq<PreprocessedLine>, i: int, delim: Seq<char>) -> int
    decreases ls.len() - i,
{
    if i < 0 || i >= ls.len() {
        ls.len() as int
    } else if trim_end(ls[i].text@) == delim {
        i
    } else {
        delim_end(ls, i + 1, delim)
    }
}

/// Listing, literal and passthrough blocks keep their lines verbatim.
pub open spec fn raw_style(style: DelimitedStyle) -> bool {
    style == DelimitedStyle::Listing || style == DelimitedStyle::Literal || style
        == DelimitedStyle::Passthrough
}

// ---------------------------------------------------------------------------
// the recursive part: blocks, sections, lists, nested content
// ---------------------------------------------------------------------------

/// A delimited block opening at line `p`: it runs to the same delimiter
/// line, which is consumed; its lines are kept verbatim or parsed as
/// blocks of their own, whose attribute entries carry on after it.
pub open spec fn delimited_block(
    ls: Seq<PreprocessedLine>,
    p: int,
    attrs: Map<Seq<char>, AttrV>,
    style: DelimitedStyle,
    meta: MetaV,
) -> (BlockV, int, Map<Seq<char>, AttrV>)
    decreases ls.len() - p, 2int,
{
    if p < 0 || p >= ls.len() {
        (BlockV::Delimited { style, content: ContentV::Raw(Seq::empty()), location: loc_at(ls, p), meta }, p, attrs)
    } else {
        let e = delim_end(ls, p + 1, trim_end(ls[p].text@));
        let next = if e < ls.len() {
            e + 1
        } else {
            e
        };
        if raw_style(style) {
            (
                BlockV::Delimited {
                    style,
                    content: ContentV::Raw(join(texts(ls).subrange(p + 1, e), seq!['\n'])),
                    location: ls[p].location,
                    meta,
                },
                next,
                attrs,
            )
        } else if p + 1 <= e <= ls.len() {
            let (bs, _, a2) = blocks_loop(ls.subrange(p + 1, e), 0, attrs, 0, Seq::empty());
            (
                BlockV::Delimited { style, content: ContentV::Blocks(bs), location: ls[p].location, meta },
                next,
                a2,
            )
        } else {
            (BlockV::Delimited { style, content: ContentV::Raw(Seq::empty()), location: ls[p].location, meta }, next, attrs)
        }
    }
}

/// The blocks attached to a list item from line `i`: each `+` line brings
/// the next block (after blank lines and metadata lines) into the item.
pub open spec fn attachments_from(ls: Seq<PreprocessedLine>, i: int, attrs: Map<Seq<char>, AttrV>) -> (
    Seq<BlockV>,
    int,
    Map<Seq<char>, AttrV>,
)
    decreases ls.len() - i, 1int,
{
    if i < 0 || i >= ls.len() || trim(ls[i].text@) != seq!['+'] {
        (Seq::empty(), i, attrs)
    } else {
        let ts = texts(ls);
        let k = skip_blank_from(ts, i + 1);
        if k >= ls.len() || k <= i {
            (Seq::empty(), k, attrs)
        } else {
            let (k2, m) = meta_from(ts, k, empty_meta(), attrs);
            if k2 <= i || k2 > ls.len() {
                (Seq::empty(), k2, attrs)
            } else {
                let (bs, j, a2) = match one_block(ls, k2, attrs, m) {
                    Some((b, j, a2)) => (seq![b], j, a2),
                    None => (Seq::empty(), k2, attrs),
                };
                if i < j <= ls.len() {
                    let (rest, e, a3) = attachments_from(ls, j, a2);
                    (bs + rest, e, a3)
                } else {
                    (bs, j, a2)
                }
            }
        }
    }
}

/// The items of a list from line `i` with the given marker kind: each its
/// principal text and attached blocks; a blank line, another kind of
/// marker or a line that is no item ends the list.
pub open spec fn list_items_from(
    ls: Seq<PreprocessedLine>,
    i: int,
    attrs: Map<Seq<char>, AttrV>,
    marker: ListMarker,
) -> (Seq<ListItemV>, int, Map<Seq<char>, AttrV>)
    decreases ls.len() - i, 2int,
{
    if i < 0 || i >= ls.len() || is_blank(ls[i].text@) {
        (Seq::empty(), i, attrs)
    } else {
        let t = ls[i].text@;
        match list_marker_spec(t) {
            Some((mk, depth, plen)) => if mk != marker {
                (Seq::empty(), i, attrs)
            } else {
                let item_principal = inline_parse(trim_end(t.skip(plen)), attrs, normal_subs());
                let (blocks, j, a2) = attachments_from(ls, i + 1, attrs);
                let item = ListItemV { depth: depth as u8, principal: item_principal, blocks };
                if i < j <= ls.len() {
                    let (rest, e, a3) = list_items_from(ls, j, a2, marker);
                    (seq![item] + rest, e, a3)
                } else {
                    (seq![item], j, a2)
                }
            },
            None => (Seq::empty(), i, attrs),
        }
    }
}

/// The block (other than a section) that starts at line `p`: a delimited
/// block, a table, a list, a description list or a paragraph, tried in
/// that order; none at the end of the lines.
pub open spec fn one_block(
    ls: Seq<PreprocessedLine>,
    p: int,
    attrs: Map<Seq<char>, AttrV>,
    meta: MetaV,
) -> Option<(BlockV, int, Map<Seq<char>, AttrV>)>
    decreases ls.len() - p, 3int,
{
    if p < 0 || p >= ls.len() {
        None
    } else {
        let t = ls[p].text@;
        match delimited_spec(t) {
            Some(style) => Some(delimited_block(ls, p, attrs, style, meta)),
            None => if table_delim(t) {
                let (b, e) = table_block(ls, p, attrs, meta);
                Some((b, e, attrs))
            } else {
                if block_image(t) is Some {
                    Some(
                        (
                            BlockV::Paragraph {
                                inlines: seq![block_image(t).unwrap()],
                                location: ls[p].location,
                                meta: MetaV { style: Some("image"@), ..meta },
                            },
                            p + 1,
                            attrs,
                        ),
                    )
                } else {
                match list_marker_spec(t) {
                    Some((mk, _, _)) => {
                        let (items, e, a2) = list_items_from(ls, p, attrs, mk);
                        Some(
                            (
                                BlockV::List { marker: mk, items, location: ls[p].location, meta },
                                e,
                                a2,
                            ),
                        )
                    },
                    None => if term_end(t) is Some {
                        let (b, e) = dlist_block(ls, p, attrs, meta);
                        Some((b, e, attrs))
                    } else {
                        let (b, e) = paragraph_block(ls, p, attrs, meta);
                        Some((b, e, attrs))
                    },
                }
                }
            },
        }
    }
}

/// A line that is a whole block image macro, `image::target[attrs]`: the
/// image it shows.
pub open spec fn block_image(t: Seq<char>) -> Option<InlineV> {
    if starts_with(t, seq!['i', 'm', 'a', 'g', 'e', ':', ':']) {
        match image_macro(t.take(6) + t.skip(7)) {
            Some((img, e)) => if e == t.len() - 1 {
                Some(img)
            } else {
                None
            },
            None => None,
        }
    } else {
        None
    }
}

/// A header line under `[discrete]` metadata: a heading that opens no
/// section.
pub open spec fn is_discrete(m: MetaV) -> bool {
    m.style == Some("discrete"@)
}

/// The discrete heading on line `p`.
pub open spec fn discrete_block(
    ls: Seq<PreprocessedLine>,
    p: int,
    attrs: Map<Seq<char>, AttrV>,
    level: u8,
    meta: MetaV,
) -> BlockV {
    BlockV::DiscreteHeading {
        level,
        title: inline_parse(trim(ls[p].text@.skip(level + 2)), attrs, normal_subs()),
        location: ls[p].location,
        meta,
    }
}

/// A section whose header is line `p`: its title, then its blocks up to
/// the next header of its level or shallower.
pub open spec fn section_block(
    ls: Seq<PreprocessedLine>,
    p: int,
    attrs: Map<Seq<char>, AttrV>,
    level: u8,
    meta: MetaV,
) -> (BlockV, int, Map<Seq<char>, AttrV>)
    decreases ls.len() - p, 4int,
{
    if p < 0 || p >= ls.len() {
        (BlockV::Section { level, title: Seq::empty(), blocks: Seq::empty(), location: loc_at(ls, p), meta }, p, attrs)
    } else {
        let title = inline_parse(trim(ls[p].text@.skip(level + 2)), attrs, normal_subs());
        let (bs, e, a2) = blocks_loop(ls, p + 1, attrs, level, Seq::empty());
        (BlockV::Section { level, title, blocks: bs, location: ls[p].location, meta }, e, a2)
    }
}

/// Listing and literal blocks may be followed by a callout list.
pub open spec fn takes_colist(b: BlockV) -> bool {
    b matches BlockV::Delimited { style, .. } && (style == DelimitedStyle::Listing || style
        == DelimitedStyle::Literal)
}

/// The blocks from line `p0` under a section of level `level` (0 at the
/// top), after `out`: blank lines are skipped, attribute entries update
/// the attributes, metadata lines attach to the next block (a blank line
/// detaches them), a header of a deeper level opens a section, one of
/// `level` or shallower ends the run (handed back with its metadata
/// lines); any other line starts a block. Where a step consumes no line,
/// the run ends.
pub open spec fn blocks_loop(
    ls: Seq<PreprocessedLine>,
    p0: int,
    attrs: Map<Seq<char>, AttrV>,
    level: u8,
    out: Seq<BlockV>,
) -> (Seq<BlockV>, int, Map<Seq<char>, AttrV>)
    decreases ls.len() - p0, 5int,
{
    let ts = texts(ls);
    let p1 = skip_blank_from(ts, p0);
    if p0 < 0 || p0 > ls.len() || p1 < p0 || p1 >= ls.len() {
        (out, p1, attrs)
    } else if entry_spec(ts[p1]) is Some {
        let (p2, a2) = entries_from(ts, p1, attrs);
        if p0 < p2 <= ls.len() {
            blocks_loop(ls, p2, a2, level, out)
        } else {
            (out, p2, a2)
        }
    } else {
        let (p3, m) = meta_from(ts, p1, empty_meta(), attrs);
        if p3 < p1 || p3 >= ls.len() {
            (out, p3, attrs)
        } else if is_blank(ts[p3]) {
            if p0 < p3 {
                blocks_loop(ls, p3, attrs, level, out)
            } else {
                (out, p3, attrs)
            }
        } else {
            match section_level(ts[p3]) {
                Some(l) => if is_discrete(m) {
                    blocks_loop(ls, p3 + 1, attrs, level, out.push(discrete_block(ls, p3, attrs, l, m)))
                } else if l <= level {
                    (out, p1, attrs)
                } else {
                    let (b, p4, a4) = section_block(ls, p3, attrs, l, m);
                    if p0 < p4 <= ls.len() {
                        blocks_loop(ls, p4, a4, level, out.push(b))
                    } else {
                        (out.push(b), p4, a4)
                    }
                },
                None => match one_block(ls, p3, attrs, m) {
                    None => (out, p3, attrs),
                    Some((b, p4, a4)) => {
                        let (out2, p5) = if takes_colist(b) && 0 <= p4 <= ls.len() {
                            let q = skip_blank_from(ts, p4);
                            match colist_block(ls, q, a4) {
                                Some((c, e)) => (out.push(b).push(c), e),
                                None => (out.push(b), q),
                            }
                        } else {
                            (out.push(b), p4)
                        };
                        if p0 < p5 <= ls.len() {
                            blocks_loop(ls, p5, a4, level, out2)
                        } else {
                            (out2, p5, a4)
                        }
                    },
                },
            }
        }
    }
}

/// The result of the block loop, as one name.
#[verifier::opaque]
pub open spec fn blocks_run(
    ls: Seq<PreprocessedLine>,
    p0: int,
    attrs: Map<Seq<char>, AttrV>,
    level: u8,
    out: Seq<BlockV>,
) -> (Seq<BlockV>, int, Map<Seq<char>, AttrV>) {
    blocks_loop(ls, p0, attrs, level, out)
}

} // verus!
