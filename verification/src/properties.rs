//! Properties of the library that span several functions, proved over the
//! spec functions the functions' contracts are stated in.
use vstd::prelude::*;

use crate::ast::{empty_meta, plain_seq, BlockV, CellStyle, DelimitedStyle, ListMarker, MetaV, CellV, ContentV, DlistItemV, InlineV, ListItemV, RowV};
use crate::chunks::{block_text, chunks_walk, leaves, ChunkV};
use crate::convert::html5::escape::{conums_from, escape_attr_html, escape_html};
use crate::convert::html5::model::{
    admonition_class, admonition_kw, admonition_label, block_ok, blocks_html, blocks_ok, bump, cells_ok, min6, number_text, walk_sections, ditems_ok, items_ok, rows_ok, CtxV,
};
use crate::parser::inline::replacement_at;
use crate::parser::header::{first_author_attrs, words_from, AuthorV};
use crate::preprocessor::{str_cmp_holds, CmpOp};
use crate::text::{dec_digits, is_digit, is_ws, join, starts_with, trail_ws};
use crate::parser::inline_grammar::normal_subs;
use crate::ast::{blocks_v, AttrV, Document};
use crate::parser::idgen::{
    assign_block, assign_cells, assign_ditems, assign_items, assign_rows, assign_seq, derived_id,
    explicit_ids,
};
use crate::parser::inline_grammar::{inline_parse, step_at, walk_from, Step};
use crate::parser::block::{
    lead_digits, lead_run, body_rows, delimited_spec, list_marker_spec, row_cells, row_srcs, section_level, split_cells,
    table_delim, table_rows, term_end, CellPrefix,
};
use crate::parser::block_grammar::{
    attachments_from, blocks_loop, blocks_run, colist_block, delim_end, delimited_block,
    discrete_block, is_discrete, block_image,
    dlist_items, list_items_from, one_block, raw_style, section_block, table_end, takes_colist,
};
use crate::parser::cursor::texts;
use crate::parser::header::{entries_from, entry_spec, skip_blank_from};
use crate::parser::meta::meta_from;
use crate::parser::parsed_document;
use crate::parser::subs::Subs;
use crate::preprocessor::{include_refusal_spec, IncludeRefusal, PreprocessedLine, SafeMode};
use crate::registry::{collect_titles, rw_block, rw_blocks, rw_cells, rw_ditems, rw_items, rw_rows};
use crate::text::{is_blank, trim, trim_end};

verus! {

/// Rendering is compositional: the HTML of two block sequences one after
/// the other is the HTML of the first followed by that of the second, and
/// the pair renders without error exactly when each does.
pub proof fn blocks_render_by_concatenation(ctx: CtxV, a: Seq<BlockV>, b: Seq<BlockV>)
    ensures
        blocks_html(ctx, a + b) == blocks_html(ctx, a) + blocks_html(ctx, b),
        blocks_ok(a + b) == (blocks_ok(a) && blocks_ok(b)),
    decreases a.len(),
{
    if a.len() == 0 {
        assert(a + b =~= b);
    } else {
        let t = a.subrange(1, a.len() as int);
        blocks_render_by_concatenation(ctx, t, b);
        assert((a + b)[0] == a[0]);
        assert((a + b).subrange(1, (a + b).len() as int) =~= t + b);
        assert(blocks_html(ctx, a + b) =~= blocks_html(ctx, a) + blocks_html(ctx, b));
    }
}

/// Plain text is compositional: the plain text of two inline sequences
/// one after the other is the first's followed by the second's.
pub proof fn plain_text_by_concatenation(a: Seq<InlineV>, b: Seq<InlineV>)
    ensures
        plain_seq(a + b) == plain_seq(a) + plain_seq(b),
    decreases b.len(),
{
    if b.len() == 0 {
        assert(a + b =~= a);
    } else {
        plain_text_by_concatenation(a, b.drop_last());
        assert((a + b).drop_last() =~= a + b.drop_last());
        assert((a + b).last() == b.last());
        assert(plain_seq(a + b) =~= plain_seq(a) + plain_seq(b));
    }
}

/// A listing body with no `&` in it (so no escaped `&lt;N&gt;` marker)
/// comes through callout substitution unchanged.
pub proof fn listing_without_markers_is_unchanged(s: Seq<char>, i: int)
    requires
        0 <= i <= s.len(),
        forall|k: int| 0 <= k < s.len() ==> s[k] != '&',
    ensures
        conums_from(s, i) == s.skip(i),
    decreases s.len() - i,
{
    if i < s.len() {
        listing_without_markers_is_unchanged(s, i + 1);
        reveal_strlit("&lt;");
        assert(!crate::text::starts_with(s.skip(i), "&lt;"@)) by {
            assert("&lt;"@[0] == '&');
            if crate::text::starts_with(s.skip(i), "&lt;"@) {
                assert(s.skip(i).take(4)[0] == s[i]);
            }
        }
        assert(s.skip(i) =~= seq![s[i]] + s.skip(i + 1));
    } else {
        assert(s.skip(i) =~= Seq::<char>::empty());
    }
}

/// Every chunk carries non-blank text, and there is at most one chunk per
/// non-section block.
pub proof fn chunks_are_nonblank_leaves(
    bs: Seq<BlockV>,
    path: Seq<Seq<char>>,
    title: Seq<char>,
    idx: nat,
    k: int,
    json: Seq<Seq<u8>>,
)
    ensures
        chunks_walk(bs, path, title, idx, k, json).len() <= leaves(bs).len(),
        forall|j: int|
            0 <= j < chunks_walk(bs, path, title, idx, k, json).len() ==> !is_blank(
                #[trigger] chunks_walk(bs, path, title, idx, k, json)[j].text,
            ),
    decreases bs,
{
    if bs.len() > 0 {
        let rest = bs.subrange(1, bs.len() as int);
        match bs[0] {
            BlockV::Section { title: t, blocks, meta, .. } => {
                let id = match meta.id {
                    Some(i) => i,
                    None => "section-"@ + crate::text::dec_digits(idx),
                };
                let inner = chunks_walk(blocks, path.push(id), plain_seq(t), 0, k, json);
                let after = chunks_walk(rest, path, title, idx + 1, k + leaves(blocks).len(), json);
                chunks_are_nonblank_leaves(blocks, path.push(id), plain_seq(t), 0, k, json);
                chunks_are_nonblank_leaves(rest, path, title, idx + 1, k + leaves(blocks).len(), json);
                let all = chunks_walk(bs, path, title, idx, k, json);
                assert(all == inner + after);
                assert forall|j: int| 0 <= j < all.len() implies !is_blank(#[trigger] all[j].text) by {
                    if j < inner.len() {
                        assert(all[j] == inner[j]);
                    } else {
                        assert(all[j] == after[j - inner.len()]);
                    }
                }
            },
            _ => {
                let after = chunks_walk(rest, path, title, idx + 1, k + 1, json);
                chunks_are_nonblank_leaves(rest, path, title, idx + 1, k + 1, json);
                let all = chunks_walk(bs, path, title, idx, k, json);
                let here = if is_blank(block_text(bs[0])) {
                    Seq::<ChunkV>::empty()
                } else {
                    seq![
                        ChunkV {
                            section_path: path,
                            section_title: title,
                            block_index: idx,
                            kind: crate::chunks::kind_of(bs[0]),
                            text: block_text(bs[0]),
                            hash: crate::chunks::hash_text(json[k]),
                        },
                    ]
                };
                assert(all == here + after);
                assert forall|j: int| 0 <= j < all.len() implies !is_blank(#[trigger] all[j].text) by {
                    if j < here.len() {
                        assert(all[j] == here[j]);
                    } else {
                        assert(all[j] == after[j - here.len()]);
                    }
                }
            },
        }
    }
}

/// No escaped character is markup: what escaping writes for text holds
/// no `<` or `>`, and for an attribute value also no `"`.
pub proof fn escaped_text_has_no_markup(s: Seq<char>)
    ensures
        forall|i: int| 0 <= i < escape_html(s).len() ==> #[trigger] escape_html(s)[i] != '<'
            && escape_html(s)[i] != '>',
        forall|i: int|
            0 <= i < escape_attr_html(s).len() ==> #[trigger] escape_attr_html(s)[i] != '<'
                && escape_attr_html(s)[i] != '>' && escape_attr_html(s)[i] != '"',
    decreases s.len(),
{
    if s.len() > 0 {
        escaped_text_has_no_markup(s.drop_last());
        reveal_strlit("&amp;");
        reveal_strlit("&lt;");
        reveal_strlit("&gt;");
        reveal_strlit("&quot;");
        let c = s.last();
        let e = crate::convert::html5::escape::esc_char(c);
        let ea = crate::convert::html5::escape::esc_attr_char(c);
        assert(forall|i: int| 0 <= i < e.len() ==> #[trigger] e[i] != '<' && e[i] != '>');
        assert(forall|i: int| 0 <= i < ea.len() ==> #[trigger] ea[i] != '<' && ea[i] != '>' && ea[i] != '"');
        let p = escape_html(s.drop_last());
        let pa = escape_attr_html(s.drop_last());
        assert forall|i: int| 0 <= i < escape_html(s).len() implies #[trigger] escape_html(s)[i] != '<'
            && escape_html(s)[i] != '>' by {
            if i < p.len() {
                assert(escape_html(s)[i] == p[i]);
            } else {
                assert(escape_html(s)[i] == e[i - p.len()]);
            }
        }
        assert forall|i: int| 0 <= i < escape_attr_html(s).len() implies #[trigger] escape_attr_html(s)[i]
            != '<' && escape_attr_html(s)[i] != '>' && escape_attr_html(s)[i] != '"' by {
            if i < pa.len() {
                assert(escape_attr_html(s)[i] == pa[i]);
            } else {
                assert(escape_attr_html(s)[i] == ea[i - pa.len()]);
            }
        }
    }
}

/// Escaping is compositional: escaping two texts one after the other is
/// escaping each in turn.
pub proof fn escape_by_concatenation(a: Seq<char>, b: Seq<char>)
    ensures
        escape_html(a + b) == escape_html(a) + escape_html(b),
        escape_attr_html(a + b) == escape_attr_html(a) + escape_attr_html(b),
{
    crate::convert::html5::escape::lemma_escape_add(a, b);
}

/// Whether every section in `bs`, nested ones included, has an id.
pub open spec fn sections_have_ids(bs: Seq<BlockV>) -> bool
    decreases bs,
{
    if bs.len() == 0 {
        true
    } else {
        sections_have_ids(bs.drop_last()) && section_has_ids(bs.last())
    }
}

pub open spec fn section_has_ids(b: BlockV) -> bool
    decreases b,
{
    match b {
        BlockV::Section { blocks, meta, .. } => meta.id is Some && sections_have_ids(blocks),
        BlockV::List { items, .. } => items_have_ids(items),
        BlockV::DescriptionList { items, .. } => ditems_have_ids(items),
        BlockV::Delimited { content: ContentV::Blocks(bs), .. } => sections_have_ids(bs),
        BlockV::Table { rows, .. } => rows_have_ids(rows),
        _ => true,
    }
}

pub open spec fn items_have_ids(items: Seq<ListItemV>) -> bool
    decreases items,
{
    if items.len() == 0 {
        true
    } else {
        items_have_ids(items.drop_last()) && sections_have_ids(items.last().blocks)
    }
}

pub open spec fn ditems_have_ids(items: Seq<DlistItemV>) -> bool
    decreases items,
{
    if items.len() == 0 {
        true
    } else {
        ditems_have_ids(items.drop_last()) && sections_have_ids(items.last().description)
    }
}

pub open spec fn rows_have_ids(rows: Seq<RowV>) -> bool
    decreases rows,
{
    if rows.len() == 0 {
        true
    } else {
        rows_have_ids(rows.drop_last()) && cells_have_ids(rows.last().cells)
    }
}

pub open spec fn cells_have_ids(cells: Seq<CellV>) -> bool
    decreases cells,
{
    if cells.len() == 0 {
        true
    } else {
        cells_have_ids(cells.drop_last()) && sections_have_ids(cells.last().blocks)
    }
}

/// After id assignment every section, at every depth, has an id, and the
/// set of taken ids has only grown.
pub proof fn assigned_sections_all_have_ids(bs: Seq<BlockV>, ex: Set<Seq<char>>)
    ensures
        sections_have_ids(assign_seq(bs, ex).0),
        assign_seq(bs, ex).0.len() == bs.len(),
        ex.subset_of(assign_seq(bs, ex).1),
    decreases bs,
{
    if bs.len() > 0 {
        let (pre, ex1) = assign_seq(bs.drop_last(), ex);
        assigned_sections_all_have_ids(bs.drop_last(), ex);
        assigned_block_has_ids(bs.last(), ex1);
        let (b, ex2) = assign_block(bs.last(), ex1);
        assert(assign_seq(bs, ex).0 == pre.push(b));
        assert(pre.push(b).drop_last() =~= pre);
    }
}

/// One block after id assignment: a section has an id, as do all the
/// sections nested in it; the taken set has only grown.
pub proof fn assigned_block_has_ids(b: BlockV, ex: Set<Seq<char>>)
    ensures
        section_has_ids(assign_block(b, ex).0),
        ex.subset_of(assign_block(b, ex).1),
    decreases b,
{
    match b {
        BlockV::Section { level, title, blocks, location, meta } => {
            let ex1 = match meta.id {
                Some(id) => ex,
                None => ex.insert(derived_id(plain_seq(title), ex)),
            };
            assigned_sections_all_have_ids(blocks, ex1);
        },
        BlockV::List { items, .. } => {
            assigned_items_have_ids(items, ex);
        },
        BlockV::DescriptionList { items, .. } => {
            assigned_ditems_have_ids(items, ex);
        },
        BlockV::Delimited { content: ContentV::Blocks(bs), .. } => {
            assigned_sections_all_have_ids(bs, ex);
        },
        BlockV::Table { rows, .. } => {
            assigned_rows_have_ids(rows, ex);
        },
        _ => {},
    }
}

proof fn assigned_items_have_ids(items: Seq<ListItemV>, ex: Set<Seq<char>>)
    ensures
        items_have_ids(assign_items(items, ex).0),
        ex.subset_of(assign_items(items, ex).1),
    decreases items,
{
    if items.len() > 0 {
        let (pre, ex1) = assign_items(items.drop_last(), ex);
        assigned_items_have_ids(items.drop_last(), ex);
        assigned_sections_all_have_ids(items.last().blocks, ex1);
        let r = assign_items(items, ex).0;
        assert(r.drop_last() =~= pre);
    }
}

proof fn assigned_ditems_have_ids(items: Seq<DlistItemV>, ex: Set<Seq<char>>)
    ensures
        ditems_have_ids(assign_ditems(items, ex).0),
        ex.subset_of(assign_ditems(items, ex).1),
    decreases items,
{
    if items.len() > 0 {
        let (pre, ex1) = assign_ditems(items.drop_last(), ex);
        assigned_ditems_have_ids(items.drop_last(), ex);
        assigned_sections_all_have_ids(items.last().description, ex1);
        let r = assign_ditems(items, ex).0;
        assert(r.drop_last() =~= pre);
    }
}

proof fn assigned_rows_have_ids(rows: Seq<RowV>, ex: Set<Seq<char>>)
    ensures
        rows_have_ids(assign_rows(rows, ex).0),
        ex.subset_of(assign_rows(rows, ex).1),
    decreases rows,
{
    if rows.len() > 0 {
        let (pre, ex1) = assign_rows(rows.drop_last(), ex);
        assigned_rows_have_ids(rows.drop_last(), ex);
        assigned_cells_have_ids(rows.last().cells, ex1);
        let r = assign_rows(rows, ex).0;
        assert(r.drop_last() =~= pre);
    }
}

proof fn assigned_cells_have_ids(cells: Seq<CellV>, ex: Set<Seq<char>>)
    ensures
        cells_have_ids(assign_cells(cells, ex).0),
        ex.subset_of(assign_cells(cells, ex).1),
    decreases cells,
{
    if cells.len() > 0 {
        let (pre, ex1) = assign_cells(cells.drop_last(), ex);
        assigned_cells_have_ids(cells.drop_last(), ex);
        assigned_sections_all_have_ids(cells.last().blocks, ex1);
        let r = assign_cells(cells, ex).0;
        assert(r.drop_last() =~= pre);
    }
}

/// How many sections in `bs`, at any depth, have no id.
pub open spec fn unnamed_sections(bs: Seq<BlockV>) -> nat
    decreases bs,
{
    if bs.len() == 0 {
        0
    } else {
        unnamed_sections(bs.drop_last()) + unnamed_in(bs.last())
    }
}

pub open spec fn unnamed_in(b: BlockV) -> nat
    decreases b,
{
    match b {
        BlockV::Section { blocks, meta, .. } => (if meta.id is None {
            1nat
        } else {
            0nat
        }) + unnamed_sections(blocks),
        BlockV::List { items, .. } => unnamed_items(items),
        BlockV::DescriptionList { items, .. } => unnamed_ditems(items),
        BlockV::Delimited { content: ContentV::Blocks(bs), .. } => unnamed_sections(bs),
        BlockV::Table { rows, .. } => unnamed_rows(rows),
        _ => 0,
    }
}

pub open spec fn unnamed_items(items: Seq<ListItemV>) -> nat
    decreases items,
{
    if items.len() == 0 {
        0
    } else {
        unnamed_items(items.drop_last()) + unnamed_sections(items.last().blocks)
    }
}

pub open spec fn unnamed_ditems(items: Seq<DlistItemV>) -> nat
    decreases items,
{
    if items.len() == 0 {
        0
    } else {
        unnamed_ditems(items.drop_last()) + unnamed_sections(items.last().description)
    }
}

pub open spec fn unnamed_rows(rows: Seq<RowV>) -> nat
    decreases rows,
{
    if rows.len() == 0 {
        0
    } else {
        unnamed_rows(rows.drop_last()) + unnamed_cells(rows.last().cells)
    }
}

pub open spec fn unnamed_cells(cells: Seq<CellV>) -> nat
    decreases cells,
{
    if cells.len() == 0 {
        0
    } else {
        unnamed_cells(cells.drop_last()) + unnamed_sections(cells.last().blocks)
    }
}

/// Id assignment takes one new id for every section that had none, at
/// any depth: the taken set only grows, and by exactly that many ids, so
/// the new ids differ from one another and from every id taken before
/// (with the document's explicit ids as the taken set, from all of them).
pub proof fn assignment_takes_one_fresh_id_per_unnamed_section(bs: Seq<BlockV>, ex: Set<Seq<char>>)
    requires
        ex.finite(),
    ensures
        ex.subset_of(assign_seq(bs, ex).1),
        assign_seq(bs, ex).1.finite(),
        assign_seq(bs, ex).1.len() == ex.len() + unnamed_sections(bs),
    decreases bs,
{
    if bs.len() > 0 {
        let (pre, ex1) = assign_seq(bs.drop_last(), ex);
        assignment_takes_one_fresh_id_per_unnamed_section(bs.drop_last(), ex);
        fresh_ids_block(bs.last(), ex1);
    }
}

proof fn fresh_ids_block(b: BlockV, ex: Set<Seq<char>>)
    requires
        ex.finite(),
    ensures
        ex.subset_of(assign_block(b, ex).1),
        assign_block(b, ex).1.finite(),
        assign_block(b, ex).1.len() == ex.len() + unnamed_in(b),
    decreases b,
{
    match b {
        BlockV::Section { title, blocks, meta, .. } => {
            match meta.id {
                Some(id) => {
                    assignment_takes_one_fresh_id_per_unnamed_section(blocks, ex);
                },
                None => {
                    let d = derived_id(plain_seq(title), ex);
                    crate::parser::idgen::derived_id_is_least_free(plain_seq(title), ex);
                    let ex1 = ex.insert(d);
                    assert(ex1.len() == ex.len() + 1);
                    assignment_takes_one_fresh_id_per_unnamed_section(blocks, ex1);
                },
            }
        },
        BlockV::List { items, .. } => {
            fresh_ids_items(items, ex);
        },
        BlockV::DescriptionList { items, .. } => {
            fresh_ids_ditems(items, ex);
        },
        BlockV::Delimited { content: ContentV::Blocks(bs), .. } => {
            assignment_takes_one_fresh_id_per_unnamed_section(bs, ex);
        },
        BlockV::Table { rows, .. } => {
            fresh_ids_rows(rows, ex);
        },
        _ => {},
    }
}

proof fn fresh_ids_items(items: Seq<ListItemV>, ex: Set<Seq<char>>)
    requires
        ex.finite(),
    ensures
        ex.subset_of(assign_items(items, ex).1),
        assign_items(items, ex).1.finite(),
        assign_items(items, ex).1.len() == ex.len() + unnamed_items(items),
    decreases items,
{
    if items.len() > 0 {
        let (pre, ex1) = assign_items(items.drop_last(), ex);
        fresh_ids_items(items.drop_last(), ex);
        assignment_takes_one_fresh_id_per_unnamed_section(items.last().blocks, ex1);
    }
}

proof fn fresh_ids_ditems(items: Seq<DlistItemV>, ex: Set<Seq<char>>)
    requires
        ex.finite(),
    ensures
        ex.subset_of(assign_ditems(items, ex).1),
        assign_ditems(items, ex).1.finite(),
        assign_ditems(items, ex).1.len() == ex.len() + unnamed_ditems(items),
    decreases items,
{
    if items.len() > 0 {
        let (pre, ex1) = assign_ditems(items.drop_last(), ex);
        fresh_ids_ditems(items.drop_last(), ex);
        assignment_takes_one_fresh_id_per_unnamed_section(items.last().description, ex1);
    }
}

proof fn fresh_ids_rows(items: Seq<RowV>, ex: Set<Seq<char>>)
    requires
        ex.finite(),
    ensures
        ex.subset_of(assign_rows(items, ex).1),
        assign_rows(items, ex).1.finite(),
        assign_rows(items, ex).1.len() == ex.len() + unnamed_rows(items),
    decreases items,
{
    if items.len() > 0 {
        let (pre, ex1) = assign_rows(items.drop_last(), ex);
        fresh_ids_rows(items.drop_last(), ex);
        fresh_ids_cells(items.last().cells, ex1);
    }
}

proof fn fresh_ids_cells(items: Seq<CellV>, ex: Set<Seq<char>>)
    requires
        ex.finite(),
    ensures
        ex.subset_of(assign_cells(items, ex).1),
        assign_cells(items, ex).1.finite(),
        assign_cells(items, ex).1.len() == ex.len() + unnamed_cells(items),
    decreases items,
{
    if items.len() > 0 {
        let (pre, ex1) = assign_cells(items.drop_last(), ex);
        fresh_ids_cells(items.drop_last(), ex);
        assignment_takes_one_fresh_id_per_unnamed_section(items.last().blocks, ex1);
    }
}

/// The explicit ids of a document are finitely many.
pub proof fn explicit_ids_finite(bs: Seq<BlockV>)
    ensures
        explicit_ids(bs).finite(),
    decreases bs,
{
    if bs.len() > 0 {
        explicit_ids_finite(bs.drop_last());
        explicit_ids_of_finite(bs.last());
    }
}

proof fn explicit_ids_of_finite(b: BlockV)
    ensures
        crate::parser::idgen::explicit_ids_of(b).finite(),
    decreases b,
{
    match b {
        BlockV::Section { blocks, .. } => explicit_ids_finite(blocks),
        BlockV::List { items, .. } => ids_items_finite(items),
        BlockV::DescriptionList { items, .. } => ids_ditems_finite(items),
        BlockV::Delimited { content: ContentV::Blocks(bs), .. } => explicit_ids_finite(bs),
        BlockV::Table { rows, .. } => ids_rows_finite(rows),
        _ => {},
    }
}

proof fn ids_items_finite(items: Seq<ListItemV>)
    ensures
        crate::parser::idgen::explicit_ids_items(items).finite(),
    decreases items,
{
    if items.len() > 0 {
        ids_items_finite(items.drop_last());
        explicit_ids_finite(items.last().blocks);
    }
}

proof fn ids_ditems_finite(items: Seq<DlistItemV>)
    ensures
        crate::parser::idgen::explicit_ids_ditems(items).finite(),
    decreases items,
{
    if items.len() > 0 {
        ids_ditems_finite(items.drop_last());
        explicit_ids_finite(items.last().description);
    }
}

proof fn ids_rows_finite(items: Seq<RowV>)
    ensures
        crate::parser::idgen::explicit_ids_rows(items).finite(),
    decreases items,
{
    if items.len() > 0 {
        ids_rows_finite(items.drop_last());
        ids_cells_finite(items.last().cells);
    }
}

proof fn ids_cells_finite(items: Seq<CellV>)
    ensures
        crate::parser::idgen::explicit_ids_cells(items).finite(),
    decreases items,
{
    if items.len() > 0 {
        ids_cells_finite(items.drop_last());
        explicit_ids_finite(items.last().blocks);
    }
}

/// The ids that `assign_ids` gives are fresh: one for each section
/// without an id, different from one another and from every explicit id
/// anywhere in the document.
pub proof fn assigned_ids_avoid_explicit_ids(bs: Seq<BlockV>)
    ensures
        explicit_ids(bs).subset_of(assign_seq(bs, explicit_ids(bs)).1),
        assign_seq(bs, explicit_ids(bs)).1.len() == explicit_ids(bs).len() + unnamed_sections(bs),
{
    explicit_ids_finite(bs);
    assignment_takes_one_fresh_id_per_unnamed_section(bs, explicit_ids(bs));
}

/// Rewriting title cross references leaves every section's id in place.
pub proof fn rewrite_keeps_section_ids(bs: Seq<BlockV>, t2i: Map<Seq<char>, Seq<char>>, ex: Set<Seq<char>>)
    requires
        sections_have_ids(bs),
    ensures
        sections_have_ids(rw_blocks(bs, t2i, ex)),
    decreases bs,
{
    if bs.len() > 0 {
        rewrite_keeps_section_ids(bs.drop_last(), t2i, ex);
        rewrite_keeps_block_ids(bs.last(), t2i, ex);
        let r = rw_blocks(bs, t2i, ex);
        assert(r.drop_last() =~= rw_blocks(bs.drop_last(), t2i, ex));
    }
}

/// One block: rewriting keeps a section's id and those nested in it.
pub proof fn rewrite_keeps_block_ids(b: BlockV, t2i: Map<Seq<char>, Seq<char>>, ex: Set<Seq<char>>)
    requires
        section_has_ids(b),
    ensures
        section_has_ids(rw_block(b, t2i, ex)),
    decreases b,
{
    match b {
        BlockV::Section { blocks, .. } => {
            rewrite_keeps_section_ids(blocks, t2i, ex);
        },
        BlockV::List { items, .. } => {
            rewrite_keeps_items_ids(items, t2i, ex);
        },
        BlockV::DescriptionList { items, .. } => {
            rewrite_keeps_ditems_ids(items, t2i, ex);
        },
        BlockV::Delimited { content: ContentV::Blocks(bs), .. } => {
            rewrite_keeps_section_ids(bs, t2i, ex);
        },
        BlockV::Table { rows, .. } => {
            rewrite_keeps_rows_ids(rows, t2i, ex);
        },
        _ => {},
    }
}

proof fn rewrite_keeps_items_ids(items: Seq<ListItemV>, t2i: Map<Seq<char>, Seq<char>>, ex: Set<Seq<char>>)
    requires
        items_have_ids(items),
    ensures
        items_have_ids(rw_items(items, t2i, ex)),
    decreases items,
{
    if items.len() > 0 {
        rewrite_keeps_items_ids(items.drop_last(), t2i, ex);
        rewrite_keeps_section_ids(items.last().blocks, t2i, ex);
        let r = rw_items(items, t2i, ex);
        assert(r.drop_last() =~= rw_items(items.drop_last(), t2i, ex));
    }
}

proof fn rewrite_keeps_ditems_ids(items: Seq<DlistItemV>, t2i: Map<Seq<char>, Seq<char>>, ex: Set<Seq<char>>)
    requires
        ditems_have_ids(items),
    ensures
        ditems_have_ids(rw_ditems(items, t2i, ex)),
    decreases items,
{
    if items.len() > 0 {
        rewrite_keeps_ditems_ids(items.drop_last(), t2i, ex);
        rewrite_keeps_section_ids(items.last().description, t2i, ex);
        let r = rw_ditems(items, t2i, ex);
        assert(r.drop_last() =~= rw_ditems(items.drop_last(), t2i, ex));
    }
}

proof fn rewrite_keeps_rows_ids(rows: Seq<RowV>, t2i: Map<Seq<char>, Seq<char>>, ex: Set<Seq<char>>)
    requires
        rows_have_ids(rows),
    ensures
        rows_have_ids(rw_rows(rows, t2i, ex)),
    decreases rows,
{
    if rows.len() > 0 {
        rewrite_keeps_rows_ids(rows.drop_last(), t2i, ex);
        rewrite_keeps_cells_ids(rows.last().cells, t2i, ex);
        let r = rw_rows(rows, t2i, ex);
        assert(r.drop_last() =~= rw_rows(rows.drop_last(), t2i, ex));
    }
}

proof fn rewrite_keeps_cells_ids(cells: Seq<CellV>, t2i: Map<Seq<char>, Seq<char>>, ex: Set<Seq<char>>)
    requires
        cells_have_ids(cells),
    ensures
        cells_have_ids(rw_cells(cells, t2i, ex)),
    decreases cells,
{
    if cells.len() > 0 {
        rewrite_keeps_cells_ids(cells.drop_last(), t2i, ex);
        rewrite_keeps_section_ids(cells.last().blocks, t2i, ex);
        let r = rw_cells(cells, t2i, ex);
        assert(r.drop_last() =~= rw_cells(cells.drop_last(), t2i, ex));
    }
}

/// Every section of a parsed document has an id, wherever it is nested:
/// in sections, list items, description items, compound delimited blocks
/// or table cells.
pub proof fn parsed_sections_have_ids(
    doc: Document,
    lines: Seq<PreprocessedLine>,
    initial: Map<Seq<char>, AttrV>,
)
    requires
        parsed_document(doc, lines, initial),
    ensures
        sections_have_ids(blocks_v(doc.blocks@)),
{
    let (p, a) = crate::parser::header::header_state(crate::parser::cursor::texts(lines), 0, initial);
    let (bs, _, a2) = crate::parser::block_grammar::blocks_run(lines, p, a, 0, Seq::empty());
    let assigned = assign_seq(bs, explicit_ids(bs)).0;
    assigned_sections_all_have_ids(bs, explicit_ids(bs));
    let (t2i, ex) = collect_titles(assigned, Map::empty(), Set::empty());
    if t2i.len() != 0 {
        rewrite_keeps_section_ids(assigned, t2i, ex);
    }
}

/// The include policy: an include is allowed exactly when the mode is not
/// secure, the target is not an absolute path in safe or server mode, it
/// closes no cycle and the chain is below the depth limit; secure mode
/// refuses every include.
pub proof fn include_allowed_exactly_when(
    mode: SafeMode,
    absolute: bool,
    cycle: bool,
    depth: nat,
    limit: nat,
)
    ensures
        include_refusal_spec(mode, absolute, cycle, depth, limit) is None <==> (mode
            != SafeMode::Secure && !((mode == SafeMode::Safe || mode == SafeMode::Server) && absolute)
            && !cycle && depth < limit),
        mode == SafeMode::Secure ==> include_refusal_spec(mode, absolute, cycle, depth, limit)
            == Some(IncludeRefusal::SecureMode),
        (mode == SafeMode::Safe || mode == SafeMode::Server) && absolute ==> include_refusal_spec(
            mode,
            absolute,
            cycle,
            depth,
            limit,
        ) is Some,
{
}

/// Only special characters (or nothing) are substituted.
pub open spec fn no_inline_subs(subs: Subs) -> bool {
    !subs.quotes && !subs.attributes && !subs.replacements && !subs.macros && !subs.post_replacements
}

/// With no substitution group but special characters active, a
/// non-empty text parses to itself as one text node.
pub proof fn unsubstituted_text_is_one_node(s: Seq<char>, attrs: Map<Seq<char>, AttrV>, subs: Subs)
    requires
        no_inline_subs(subs),
        s.len() > 0,
    ensures
        inline_parse(s, attrs, subs) == seq![InlineV::Text(s)],
{
    assert(s.take(0) =~= Seq::<char>::empty());
    unsubstituted_walk(s, attrs, subs, 0);
}

proof fn unsubstituted_walk(s: Seq<char>, attrs: Map<Seq<char>, AttrV>, subs: Subs, pos: int)
    requires
        no_inline_subs(subs),
        s.len() > 0,
        0 <= pos <= s.len(),
    ensures
        walk_from(s, attrs, subs, pos, s.take(pos), Seq::empty()) == seq![InlineV::Text(s)],
    decreases s.len() - pos,
{
    if pos == s.len() {
        assert(s.take(pos) =~= s);
    } else {
        assert(step_at(s, attrs, subs, pos, s.take(pos)) == Step::Chars(seq![s[pos]], 1));
        assert(s.take(pos) + seq![s[pos]] =~= s.take(pos + 1));
        unsubstituted_walk(s, attrs, subs, pos + 1);
    }
}

/// The leaf each chunk of `bs` comes from, as an index into the
/// serialized forms of the leaves (the first leaf being number `k`).
pub open spec fn chunk_sources(bs: Seq<BlockV>, k: int) -> Seq<int>
    decreases bs,
{
    if bs.len() == 0 {
        Seq::empty()
    } else {
        let rest = bs.subrange(1, bs.len() as int);
        match bs[0] {
            BlockV::Section { blocks, .. } => chunk_sources(blocks, k) + chunk_sources(
                rest,
                k + leaves(blocks).len(),
            ),
            _ => (if is_blank(block_text(bs[0])) {
                Seq::empty()
            } else {
                seq![k]
            }) + chunk_sources(rest, k + 1),
        }
    }
}

/// Chunks made from two sets of serialized leaves differ only in their
/// hashes: each chunk's hash is that of its own leaf's serialized form,
/// the leaves taken in order, each at most once.
pub proof fn chunk_hashes_follow_their_leaves(
    bs: Seq<BlockV>,
    path: Seq<Seq<char>>,
    title: Seq<char>,
    idx: nat,
    k: int,
    json1: Seq<Seq<u8>>,
    json2: Seq<Seq<u8>>,
)
    ensures
        ({
            let c1 = chunks_walk(bs, path, title, idx, k, json1);
            let c2 = chunks_walk(bs, path, title, idx, k, json2);
            let src = chunk_sources(bs, k);
            &&& c1.len() == src.len()
            &&& c2.len() == src.len()
            &&& forall|i: int|
                0 <= i < src.len() ==> k <= #[trigger] src[i] < k + leaves(bs).len() && c1[i].hash
                    == crate::chunks::hash_text(json1[src[i]]) && c2[i].hash
                    == crate::chunks::hash_text(json2[src[i]]) && c1[i] == (ChunkV {
                    hash: c1[i].hash,
                    ..c2[i]
                })
            &&& forall|i: int, i2: int| 0 <= i < i2 < src.len() ==> src[i] < src[i2]
        }),
    decreases bs,
{
    if bs.len() > 0 {
        let rest = bs.subrange(1, bs.len() as int);
        match bs[0] {
            BlockV::Section { title: t, blocks, meta, .. } => {
                let id = match meta.id {
                    Some(i) => i,
                    None => "section-"@ + crate::text::dec_digits(idx),
                };
                let k2 = k + leaves(blocks).len();
                chunk_hashes_follow_their_leaves(blocks, path.push(id), plain_seq(t), 0, k, json1, json2);
                chunk_hashes_follow_their_leaves(rest, path, title, idx + 1, k2, json1, json2);
                let in1 = chunks_walk(blocks, path.push(id), plain_seq(t), 0, k, json1);
                let in2 = chunks_walk(blocks, path.push(id), plain_seq(t), 0, k, json2);
                let af1 = chunks_walk(rest, path, title, idx + 1, k2, json1);
                let af2 = chunks_walk(rest, path, title, idx + 1, k2, json2);
                let si = chunk_sources(blocks, k);
                let sa = chunk_sources(rest, k2);
                let src = chunk_sources(bs, k);
                assert(src == si + sa);
                assert(chunks_walk(bs, path, title, idx, k, json1) == in1 + af1);
                assert(chunks_walk(bs, path, title, idx, k, json2) == in2 + af2);
                assert(leaves(bs) == leaves(blocks) + leaves(rest));
                assert forall|i: int, i2: int| 0 <= i < i2 < src.len() implies src[i] < src[i2] by {
                    if i2 < si.len() {
                        assert(src[i] == si[i] && src[i2] == si[i2]);
                    } else if i < si.len() {
                        assert(src[i] == si[i] && src[i2] == sa[i2 - si.len()]);
                    } else {
                        assert(src[i] == sa[i - si.len()] && src[i2] == sa[i2 - si.len()]);
                    }
                }
            },
            _ => {
                chunk_hashes_follow_their_leaves(rest, path, title, idx + 1, k + 1, json1, json2);
                let src = chunk_sources(bs, k);
                let sa = chunk_sources(rest, k + 1);
                assert(leaves(bs) == seq![bs[0]] + leaves(rest));
                if is_blank(block_text(bs[0])) {
                    assert(src =~= sa);
                    assert(chunks_walk(bs, path, title, idx, k, json1) =~= chunks_walk(
                        rest,
                        path,
                        title,
                        idx + 1,
                        k + 1,
                        json1,
                    ));
                    assert(chunks_walk(bs, path, title, idx, k, json2) =~= chunks_walk(
                        rest,
                        path,
                        title,
                        idx + 1,
                        k + 1,
                        json2,
                    ));
                } else {
                    assert(src == seq![k] + sa);
                    assert forall|i: int, i2: int| 0 <= i < i2 < src.len() implies src[i] < src[i2] by {
                        if i == 0 {
                            assert(src[i2] == sa[i2 - 1]);
                        } else {
                            assert(src[i] == sa[i - 1] && src[i2] == sa[i2 - 1]);
                        }
                    }
                }
            },
        }
    }
}

/// An edit to one leaf block's serialized form changes at most one chunk,
/// and only that chunk's hash.
pub proof fn one_leaf_edit_changes_one_hash(
    bs: Seq<BlockV>,
    json: Seq<Seq<u8>>,
    j: int,
    x: Seq<u8>,
)
    requires
        json.len() == leaves(bs).len(),
        0 <= j < json.len(),
    ensures
        ({
            let c1 = chunks_walk(bs, Seq::empty(), Seq::empty(), 0, 0, json);
            let c2 = chunks_walk(bs, Seq::empty(), Seq::empty(), 0, 0, json.update(j, x));
            &&& c1.len() == c2.len()
            &&& forall|i: int| 0 <= i < c1.len() ==> #[trigger] c1[i] == (ChunkV { hash: c1[i].hash, ..c2[i] })
            &&& forall|i: int, i2: int|
                0 <= i < c1.len() && 0 <= i2 < c1.len() && i != i2 && c1[i].hash != c2[i].hash
                    ==> c1[i2].hash == c2[i2].hash
        }),
{
    let json2 = json.update(j, x);
    chunk_hashes_follow_their_leaves(bs, Seq::empty(), Seq::empty(), 0, 0, json, json2);
    let c1 = chunks_walk(bs, Seq::empty(), Seq::empty(), 0, 0, json);
    let c2 = chunks_walk(bs, Seq::empty(), Seq::empty(), 0, 0, json2);
    let src = chunk_sources(bs, 0);
    assert forall|i: int| 0 <= i < c1.len() implies #[trigger] c1[i] == (ChunkV {
        hash: c1[i].hash,
        ..c2[i]
    }) by {
        assert(0 <= src[i]);
    }
    assert forall|i: int, i2: int|
        0 <= i < c1.len() && 0 <= i2 < c1.len() && i != i2 && c1[i].hash != c2[i].hash implies c1[i2].hash
        == c2[i2].hash by {
        assert(json[src[i]] != json2[src[i]]);
        assert(src[i] == j);
        if i < i2 {
            assert(src[i] < src[i2]);
        } else {
            assert(src[i2] < src[i]);
        }
        assert(json[src[i2]] == json2[src[i2]]);
    }
}

// ---------------------------------------------------------------------------
// documents the converter accepts
// ---------------------------------------------------------------------------

/// A block sequence is accepted exactly when each block is.
pub proof fn lemma_blocks_ok_all(bs: Seq<BlockV>)
    ensures
        blocks_ok(bs) <==> forall|i: int| 0 <= i < bs.len() ==> #[trigger] block_ok(bs[i]),
    decreases bs.len(),
{
    if bs.len() > 0 {
        let t = bs.subrange(1, bs.len() as int);
        lemma_blocks_ok_all(t);
        if forall|i: int| 0 <= i < bs.len() ==> #[trigger] block_ok(bs[i]) {
            assert forall|i: int| 0 <= i < t.len() implies #[trigger] block_ok(t[i]) by {
                assert(t[i] == bs[i + 1]);
            }
            assert(block_ok(bs[0]));
        }
        if blocks_ok(bs) {
            assert forall|i: int| 0 <= i < bs.len() implies #[trigger] block_ok(bs[i]) by {
                if i > 0 {
                    assert(bs[i] == t[i - 1]);
                }
            }
        }
    }
}

pub proof fn lemma_items_ok_all(items: Seq<ListItemV>)
    ensures
        items_ok(items) <==> forall|i: int| 0 <= i < items.len() ==> blocks_ok(#[trigger] items[i].blocks),
    decreases items.len(),
{
    if items.len() > 0 {
        let t = items.subrange(1, items.len() as int);
        lemma_items_ok_all(t);
        if forall|i: int| 0 <= i < items.len() ==> blocks_ok(#[trigger] items[i].blocks) {
            assert forall|i: int| 0 <= i < t.len() implies blocks_ok(#[trigger] t[i].blocks) by {
                assert(t[i] == items[i + 1]);
            }
        }
        if items_ok(items) {
            assert forall|i: int| 0 <= i < items.len() implies blocks_ok(#[trigger] items[i].blocks) by {
                if i > 0 {
                    assert(items[i] == t[i - 1]);
                }
            }
        }
    }
}

pub proof fn lemma_ditems_ok_all(items: Seq<DlistItemV>)
    ensures
        ditems_ok(items) <==> forall|i: int| 0 <= i < items.len() ==> blocks_ok(#[trigger] items[i].description),
    decreases items.len(),
{
    if items.len() > 0 {
        let t = items.subrange(1, items.len() as int);
        lemma_ditems_ok_all(t);
        if forall|i: int| 0 <= i < items.len() ==> blocks_ok(#[trigger] items[i].description) {
            assert forall|i: int| 0 <= i < t.len() implies blocks_ok(#[trigger] t[i].description) by {
                assert(t[i] == items[i + 1]);
            }
        }
        if ditems_ok(items) {
            assert forall|i: int| 0 <= i < items.len() implies blocks_ok(#[trigger] items[i].description) by {
                if i > 0 {
                    assert(items[i] == t[i - 1]);
                }
            }
        }
    }
}

pub open spec fn cell_ok(c: CellV) -> bool {
    c.style != Some(CellStyle::AsciiDoc) || blocks_ok(c.blocks)
}

pub proof fn lemma_cells_ok_all(cells: Seq<CellV>)
    ensures
        cells_ok(cells) <==> forall|i: int| 0 <= i < cells.len() ==> cell_ok(#[trigger] cells[i]),
    decreases cells.len(),
{
    if cells.len() > 0 {
        let t = cells.subrange(1, cells.len() as int);
        lemma_cells_ok_all(t);
        if forall|i: int| 0 <= i < cells.len() ==> cell_ok(#[trigger] cells[i]) {
            assert forall|i: int| 0 <= i < t.len() implies cell_ok(#[trigger] t[i]) by {
                assert(t[i] == cells[i + 1]);
            }
        }
        if cells_ok(cells) {
            assert forall|i: int| 0 <= i < cells.len() implies cell_ok(#[trigger] cells[i]) by {
                if i > 0 {
                    assert(cells[i] == t[i - 1]);
                }
            }
        }
    }
}

pub proof fn lemma_rows_ok_all(rows: Seq<RowV>)
    ensures
        rows_ok(rows) <==> forall|i: int| 0 <= i < rows.len() ==> cells_ok(#[trigger] rows[i].cells),
    decreases rows.len(),
{
    if rows.len() > 0 {
        let t = rows.subrange(1, rows.len() as int);
        lemma_rows_ok_all(t);
        if forall|i: int| 0 <= i < rows.len() ==> cells_ok(#[trigger] rows[i].cells) {
            assert forall|i: int| 0 <= i < t.len() implies cells_ok(#[trigger] t[i].cells) by {
                assert(t[i] == rows[i + 1]);
            }
        }
        if rows_ok(rows) {
            assert forall|i: int| 0 <= i < rows.len() implies cells_ok(#[trigger] rows[i].cells) by {
                if i > 0 {
                    assert(rows[i] == t[i - 1]);
                }
            }
        }
    }
}

/// Giving sections ids keeps a block sequence acceptable.
pub proof fn assign_keeps_blocks_ok(bs: Seq<BlockV>, ex: Set<Seq<char>>)
    requires
        blocks_ok(bs),
    ensures
        blocks_ok(assign_seq(bs, ex).0),
        assign_seq(bs, ex).0.len() == bs.len(),
    decreases bs,
{
    if bs.len() > 0 {
        let (pre, ex1) = assign_seq(bs.drop_last(), ex);
        let (b, ex2) = assign_block(bs.last(), ex1);
        lemma_blocks_ok_all(bs);
        lemma_blocks_ok_all(bs.drop_last());
        assert(blocks_ok(bs.drop_last())) by {
            assert forall|i: int| 0 <= i < bs.drop_last().len() implies #[trigger] block_ok(
                bs.drop_last()[i],
            ) by {
                assert(bs.drop_last()[i] == bs[i]);
            }
        }
        assign_keeps_blocks_ok(bs.drop_last(), ex);
        assert(block_ok(bs.last()));
        assign_keeps_block_ok(bs.last(), ex1);
        let r = pre.push(b);
        assert(assign_seq(bs, ex).0 == r);
        lemma_blocks_ok_all(pre);
        lemma_blocks_ok_all(r);
        assert forall|i: int| 0 <= i < r.len() implies #[trigger] block_ok(r[i]) by {
            if i < pre.len() {
                assert(r[i] == pre[i]);
            }
        }
    }
}

pub proof fn assign_keeps_block_ok(b: BlockV, ex: Set<Seq<char>>)
    requires
        block_ok(b),
    ensures
        block_ok(assign_block(b, ex).0),
    decreases b,
{
    match b {
        BlockV::Section { title, blocks, meta, .. } => {
            let ex1 = match meta.id {
                Some(id) => ex,
                None => ex.insert(derived_id(plain_seq(title), ex)),
            };
            assign_keeps_blocks_ok(blocks, ex1);
        },
        BlockV::List { items, .. } => {
            assign_keeps_items_ok(items, ex);
        },
        BlockV::DescriptionList { items, .. } => {
            assign_keeps_ditems_ok(items, ex);
        },
        BlockV::Delimited { content: ContentV::Blocks(bs), .. } => {
            assign_keeps_blocks_ok(bs, ex);
        },
        BlockV::Table { rows, .. } => {
            assign_keeps_rows_ok(rows, ex);
        },
        _ => {},
    }
}

proof fn assign_keeps_items_ok(items: Seq<ListItemV>, ex: Set<Seq<char>>)
    requires
        items_ok(items),
    ensures
        items_ok(assign_items(items, ex).0),
        assign_items(items, ex).0.len() == items.len(),
    decreases items,
{
    if items.len() > 0 {
        let d = items.drop_last();
        let (pre, ex1) = assign_items(d, ex);
        lemma_items_ok_all(items);
        lemma_items_ok_all(d);
        assert forall|i: int| 0 <= i < d.len() implies blocks_ok(#[trigger] d[i].blocks) by {
            assert(d[i] == items[i]);
        }
        assign_keeps_items_ok(d, ex);
        assert(blocks_ok(items[items.len() - 1].blocks));
        assign_keeps_blocks_ok(items.last().blocks, ex1);
        let r = assign_items(items, ex).0;
        lemma_items_ok_all(pre);
        lemma_items_ok_all(r);
        assert forall|i: int| 0 <= i < r.len() implies blocks_ok(#[trigger] r[i].blocks) by {
            if i < pre.len() {
                assert(r[i] == pre[i]);
            }
        }
    }
}

proof fn assign_keeps_ditems_ok(items: Seq<DlistItemV>, ex: Set<Seq<char>>)
    requires
        ditems_ok(items),
    ensures
        ditems_ok(assign_ditems(items, ex).0),
        assign_ditems(items, ex).0.len() == items.len(),
    decreases items,
{
    if items.len() > 0 {
        let d = items.drop_last();
        let (pre, ex1) = assign_ditems(d, ex);
        lemma_ditems_ok_all(items);
        lemma_ditems_ok_all(d);
        assert forall|i: int| 0 <= i < d.len() implies blocks_ok(#[trigger] d[i].description) by {
            assert(d[i] == items[i]);
        }
        assign_keeps_ditems_ok(d, ex);
        assert(blocks_ok(items[items.len() - 1].description));
        assign_keeps_blocks_ok(items.last().description, ex1);
        let r = assign_ditems(items, ex).0;
        lemma_ditems_ok_all(pre);
        lemma_ditems_ok_all(r);
        assert forall|i: int| 0 <= i < r.len() implies blocks_ok(#[trigger] r[i].description) by {
            if i < pre.len() {
                assert(r[i] == pre[i]);
            }
        }
    }
}

proof fn assign_keeps_rows_ok(rows: Seq<RowV>, ex: Set<Seq<char>>)
    requires
        rows_ok(rows),
    ensures
        rows_ok(assign_rows(rows, ex).0),
        assign_rows(rows, ex).0.len() == rows.len(),
    decreases rows,
{
    if rows.len() > 0 {
        let d = rows.drop_last();
        let (pre, ex1) = assign_rows(d, ex);
        lemma_rows_ok_all(rows);
        lemma_rows_ok_all(d);
        assert forall|i: int| 0 <= i < d.len() implies cells_ok(#[trigger] d[i].cells) by {
            assert(d[i] == rows[i]);
        }
        assign_keeps_rows_ok(d, ex);
        assert(cells_ok(rows[rows.len() - 1].cells));
        assign_keeps_cells_ok(rows.last().cells, ex1);
        let r = assign_rows(rows, ex).0;
        lemma_rows_ok_all(pre);
        lemma_rows_ok_all(r);
        assert forall|i: int| 0 <= i < r.len() implies cells_ok(#[trigger] r[i].cells) by {
            if i < pre.len() {
                assert(r[i] == pre[i]);
            }
        }
    }
}

proof fn assign_keeps_cells_ok(cells: Seq<CellV>, ex: Set<Seq<char>>)
    requires
        cells_ok(cells),
    ensures
        cells_ok(assign_cells(cells, ex).0),
        assign_cells(cells, ex).0.len() == cells.len(),
    decreases cells,
{
    if cells.len() > 0 {
        let d = cells.drop_last();
        let (pre, ex1) = assign_cells(d, ex);
        lemma_cells_ok_all(cells);
        lemma_cells_ok_all(d);
        assert forall|i: int| 0 <= i < d.len() implies cell_ok(#[trigger] d[i]) by {
            assert(d[i] == cells[i]);
        }
        assign_keeps_cells_ok(d, ex);
        let c = cells.last();
        assert(cell_ok(cells[cells.len() - 1]));
        if c.style == Some(CellStyle::AsciiDoc) {
            assign_keeps_blocks_ok(c.blocks, ex1);
        }
        let r = assign_cells(cells, ex).0;
        lemma_cells_ok_all(pre);
        lemma_cells_ok_all(r);
        assert forall|i: int| 0 <= i < r.len() implies cell_ok(#[trigger] r[i]) by {
            if i < pre.len() {
                assert(r[i] == pre[i]);
            }
        }
    }
}

/// Rewriting title cross references keeps a block sequence acceptable.
pub proof fn rewrite_keeps_blocks_ok(bs: Seq<BlockV>, t2i: Map<Seq<char>, Seq<char>>, ex: Set<Seq<char>>)
    requires
        blocks_ok(bs),
    ensures
        blocks_ok(rw_blocks(bs, t2i, ex)),
        rw_blocks(bs, t2i, ex).len() == bs.len(),
    decreases bs,
{
    if bs.len() > 0 {
        let pre = rw_blocks(bs.drop_last(), t2i, ex);
        lemma_blocks_ok_all(bs);
        lemma_blocks_ok_all(bs.drop_last());
        assert(blocks_ok(bs.drop_last())) by {
            assert forall|i: int| 0 <= i < bs.drop_last().len() implies #[trigger] block_ok(
                bs.drop_last()[i],
            ) by {
                assert(bs.drop_last()[i] == bs[i]);
            }
        }
        rewrite_keeps_blocks_ok(bs.drop_last(), t2i, ex);
        assert(block_ok(bs.last()));
        rewrite_keeps_block_ok(bs.last(), t2i, ex);
        let r = rw_blocks(bs, t2i, ex);
        assert(r == pre.push(rw_block(bs.last(), t2i, ex)));
        lemma_blocks_ok_all(pre);
        lemma_blocks_ok_all(r);
        assert forall|i: int| 0 <= i < r.len() implies #[trigger] block_ok(r[i]) by {
            if i < pre.len() {
                assert(r[i] == pre[i]);
            }
        }
    }
}

pub proof fn rewrite_keeps_block_ok(b: BlockV, t2i: Map<Seq<char>, Seq<char>>, ex: Set<Seq<char>>)
    requires
        block_ok(b),
    ensures
        block_ok(rw_block(b, t2i, ex)),
    decreases b,
{
    match b {
        BlockV::Section { blocks, .. } => {
            rewrite_keeps_blocks_ok(blocks, t2i, ex);
        },
        BlockV::List { items, .. } => {
            rewrite_keeps_items_ok(items, t2i, ex);
        },
        BlockV::DescriptionList { items, .. } => {
            rewrite_keeps_ditems_ok(items, t2i, ex);
        },
        BlockV::Delimited { content, .. } => {
            match content {
                ContentV::Blocks(bs) => {
                    rewrite_keeps_blocks_ok(bs, t2i, ex);
                },
                ContentV::Raw(_) => {},
            }
        },
        BlockV::Table { rows, .. } => {
            rewrite_keeps_rows_ok(rows, t2i, ex);
        },
        _ => {},
    }
}

pub proof fn rewrite_keeps_items_ok(items: Seq<ListItemV>, t2i: Map<Seq<char>, Seq<char>>, ex: Set<Seq<char>>)
    requires
        items_ok(items),
    ensures
        items_ok(rw_items(items, t2i, ex)),
        rw_items(items, t2i, ex).len() == items.len(),
    decreases items,
{
    if items.len() > 0 {
        let pre = rw_items(items.drop_last(), t2i, ex);
        lemma_items_ok_all(items);
        lemma_items_ok_all(items.drop_last());
        assert(items_ok(items.drop_last())) by {
            assert forall|i: int| 0 <= i < items.drop_last().len() implies blocks_ok(
                #[trigger] items.drop_last()[i].blocks,
            ) by {
                assert(items.drop_last()[i] == items[i]);
            }
        }
        rewrite_keeps_items_ok(items.drop_last(), t2i, ex);
        let it = items.last();
        assert(blocks_ok(it.blocks));
        rewrite_keeps_blocks_ok(it.blocks, t2i, ex);
        let r = rw_items(items, t2i, ex);
        lemma_items_ok_all(pre);
        lemma_items_ok_all(r);
        assert forall|i: int| 0 <= i < r.len() implies blocks_ok(#[trigger] r[i].blocks) by {
            if i < pre.len() {
                assert(r[i] == pre[i]);
            }
        }
    }
}

pub proof fn rewrite_keeps_ditems_ok(items: Seq<DlistItemV>, t2i: Map<Seq<char>, Seq<char>>, ex: Set<Seq<char>>)
    requires
        ditems_ok(items),
    ensures
        ditems_ok(rw_ditems(items, t2i, ex)),
        rw_ditems(items, t2i, ex).len() == items.len(),
    decreases items,
{
    if items.len() > 0 {
        let pre = rw_ditems(items.drop_last(), t2i, ex);
        lemma_ditems_ok_all(items);
        lemma_ditems_ok_all(items.drop_last());
        assert(ditems_ok(items.drop_last())) by {
            assert forall|i: int| 0 <= i < items.drop_last().len() implies blocks_ok(
                #[trigger] items.drop_last()[i].description,
            ) by {
                assert(items.drop_last()[i] == items[i]);
            }
        }
        rewrite_keeps_ditems_ok(items.drop_last(), t2i, ex);
        let it = items.last();
        assert(blocks_ok(it.description));
        rewrite_keeps_blocks_ok(it.description, t2i, ex);
        let r = rw_ditems(items, t2i, ex);
        lemma_ditems_ok_all(pre);
        lemma_ditems_ok_all(r);
        assert forall|i: int| 0 <= i < r.len() implies blocks_ok(#[trigger] r[i].description) by {
            if i < pre.len() {
                assert(r[i] == pre[i]);
            }
        }
    }
}

pub proof fn rewrite_keeps_cells_ok(cells: Seq<CellV>, t2i: Map<Seq<char>, Seq<char>>, ex: Set<Seq<char>>)
    requires
        cells_ok(cells),
    ensures
        cells_ok(rw_cells(cells, t2i, ex)),
        rw_cells(cells, t2i, ex).len() == cells.len(),
    decreases cells,
{
    if cells.len() > 0 {
        let pre = rw_cells(cells.drop_last(), t2i, ex);
        lemma_cells_ok_all(cells);
        lemma_cells_ok_all(cells.drop_last());
        assert(cells_ok(cells.drop_last())) by {
            assert forall|i: int| 0 <= i < cells.drop_last().len() implies cell_ok(
                #[trigger] cells.drop_last()[i],
            ) by {
                assert(cells.drop_last()[i] == cells[i]);
            }
        }
        rewrite_keeps_cells_ok(cells.drop_last(), t2i, ex);
        let c = cells.last();
        assert(cell_ok(c));
        if c.style == Some(CellStyle::AsciiDoc) {
            rewrite_keeps_blocks_ok(c.blocks, t2i, ex);
        }
        let r = rw_cells(cells, t2i, ex);
        lemma_cells_ok_all(pre);
        lemma_cells_ok_all(r);
        assert forall|i: int| 0 <= i < r.len() implies cell_ok(#[trigger] r[i]) by {
            if i < pre.len() {
                assert(r[i] == pre[i]);
            }
        }
    }
}

pub proof fn rewrite_keeps_rows_ok(rows: Seq<RowV>, t2i: Map<Seq<char>, Seq<char>>, ex: Set<Seq<char>>)
    requires
        rows_ok(rows),
    ensures
        rows_ok(rw_rows(rows, t2i, ex)),
        rw_rows(rows, t2i, ex).len() == rows.len(),
    decreases rows,
{
    if rows.len() > 0 {
        let pre = rw_rows(rows.drop_last(), t2i, ex);
        lemma_rows_ok_all(rows);
        lemma_rows_ok_all(rows.drop_last());
        assert(rows_ok(rows.drop_last())) by {
            assert forall|i: int| 0 <= i < rows.drop_last().len() implies cells_ok(
                #[trigger] rows.drop_last()[i].cells,
            ) by {
                assert(rows.drop_last()[i] == rows[i]);
            }
        }
        rewrite_keeps_rows_ok(rows.drop_last(), t2i, ex);
        let rw = rows.last();
        assert(cells_ok(rw.cells));
        rewrite_keeps_cells_ok(rw.cells, t2i, ex);
        let r = rw_rows(rows, t2i, ex);
        lemma_rows_ok_all(pre);
        lemma_rows_ok_all(r);
        assert forall|i: int| 0 <= i < r.len() implies cells_ok(#[trigger] r[i].cells) by {
            if i < pre.len() {
                assert(r[i] == pre[i]);
            }
        }
    }
}

proof fn lemma_ok_push(out: Seq<BlockV>, b: BlockV)
    requires
        blocks_ok(out),
        block_ok(b),
    ensures
        blocks_ok(out.push(b)),
{
    lemma_blocks_ok_all(out);
    lemma_blocks_ok_all(out.push(b));
    assert forall|i: int| 0 <= i < out.push(b).len() implies #[trigger] block_ok(out.push(b)[i]) by {
        if i < out.len() {
            assert(out.push(b)[i] == out[i]);
        }
    }
}

proof fn lemma_ok_cons(b: BlockV, rest: Seq<BlockV>)
    requires
        block_ok(b),
        blocks_ok(rest),
    ensures
        blocks_ok(seq![b] + rest),
{
    assert((seq![b] + rest).subrange(1, (seq![b] + rest).len() as int) =~= rest);
    assert((seq![b] + rest)[0] == b);
}

proof fn lemma_delim_end_bounds(ls: Seq<PreprocessedLine>, i: int, d: Seq<char>)
    requires
        0 <= i <= ls.len(),
    ensures
        i <= delim_end(ls, i, d) <= ls.len(),
    decreases ls.len() - i,
{
    if i < ls.len() && trim_end(ls[i].text@) != d {
        lemma_delim_end_bounds(ls, i + 1, d);
    }
}

proof fn lemma_row_cells_ok(cs: Seq<(CellPrefix, Seq<char>)>, attrs: Map<Seq<char>, AttrV>)
    ensures
        cells_ok(row_cells(cs, attrs)),
        row_cells(cs, attrs).len() == cs.len(),
    decreases cs.len(),
{
    if cs.len() > 0 {
        lemma_row_cells_ok(cs.drop_last(), attrs);
        let pre = row_cells(cs.drop_last(), attrs);
        let r = row_cells(cs, attrs);
        lemma_cells_ok_all(pre);
        lemma_cells_ok_all(r);
        assert(blocks_ok(Seq::<BlockV>::empty()));
        assert forall|i: int| 0 <= i < r.len() implies cell_ok(#[trigger] r[i]) by {
            if i < pre.len() {
                assert(r[i] == pre[i]);
            }
        }
    }
}

proof fn lemma_body_rows_ok(srcs: Seq<Seq<char>>, attrs: Map<Seq<char>, AttrV>)
    ensures
        rows_ok(body_rows(srcs, attrs)),
        body_rows(srcs, attrs).len() == srcs.len(),
    decreases srcs.len(),
{
    if srcs.len() > 0 {
        lemma_body_rows_ok(srcs.drop_last(), attrs);
        lemma_row_cells_ok(split_cells(srcs.last()), attrs);
        let pre = body_rows(srcs.drop_last(), attrs);
        let r = body_rows(srcs, attrs);
        lemma_rows_ok_all(pre);
        lemma_rows_ok_all(r);
        assert forall|i: int| 0 <= i < r.len() implies cells_ok(#[trigger] r[i].cells) by {
            if i < pre.len() {
                assert(r[i] == pre[i]);
            }
        }
    }
}

proof fn lemma_table_rows_ok(lv: Seq<Seq<char>>, attrs: Map<Seq<char>, AttrV>, meta: MetaV)
    ensures
        rows_ok(table_rows(lv, attrs, meta)),
{
    let rows = body_rows(row_srcs(lv), attrs);
    lemma_body_rows_ok(row_srcs(lv), attrs);
    lemma_rows_ok_all(rows);
    let t = table_rows(lv, attrs, meta);
    lemma_rows_ok_all(t);
    assert forall|i: int| 0 <= i < t.len() implies cells_ok(#[trigger] t[i].cells) by {
        assert(t[i].cells == rows[i].cells);
    }
}

proof fn lemma_ditems_cons(x: DlistItemV, rest: Seq<DlistItemV>)
    requires
        blocks_ok(x.description),
        ditems_ok(rest),
    ensures
        ditems_ok(seq![x] + rest),
{
    assert((seq![x] + rest).subrange(1, (seq![x] + rest).len() as int) =~= rest);
    assert((seq![x] + rest)[0] == x);
}

proof fn lemma_items_cons(x: ListItemV, rest: Seq<ListItemV>)
    requires
        blocks_ok(x.blocks),
        items_ok(rest),
    ensures
        items_ok(seq![x] + rest),
{
    assert((seq![x] + rest).subrange(1, (seq![x] + rest).len() as int) =~= rest);
    assert((seq![x] + rest)[0] == x);
}

proof fn lemma_one_ok(b: BlockV)
    requires
        block_ok(b),
    ensures
        blocks_ok(seq![b]),
{
    let one = seq![b];
    assert(one.subrange(1, one.len() as int) =~= Seq::<BlockV>::empty());
    assert(blocks_ok(Seq::<BlockV>::empty()));
    assert(one[0] == b);
}

#[verifier::spinoff_prover]
proof fn lemma_dlist_items_ok(ls: Seq<PreprocessedLine>, i: int, attrs: Map<Seq<char>, AttrV>)
    ensures
        ditems_ok(dlist_items(ls, i, attrs).0),
    decreases ls.len() - i,
{
    if 0 <= i < ls.len() && !is_blank(ls[i].text@) {
        let t = ls[i].text@;
        match term_end(t) {
            None => {},
            Some(k) => {
                lemma_dlist_items_ok(ls, i + 1, attrs);
                let rest = dlist_items(ls, i + 1, attrs).0;
                let all = dlist_items(ls, i, attrs).0;
                let x = all[0];
                assert(all == seq![x] + rest);
                assert(blocks_ok(x.description)) by {
                    if x.description.len() > 0 {
                        lemma_one_ok(x.description[0]);
                        assert(x.description =~= seq![x.description[0]]);
                    }
                }
                lemma_ditems_cons(x, rest);
            },
        }
    }
}

/// Every block sequence the block parser produces from line `p0` on,
/// after an acceptable `out`, is one the converter accepts.
pub proof fn parsed_blocks_ok(
    ls: Seq<PreprocessedLine>,
    p0: int,
    attrs: Map<Seq<char>, AttrV>,
    level: u8,
    out: Seq<BlockV>,
)
    requires
        blocks_ok(out),
    ensures
        blocks_ok(blocks_loop(ls, p0, attrs, level, out).0),
    decreases ls.len() - p0, 5int,
{
    let ts = texts(ls);
    let p1 = skip_blank_from(ts, p0);
    if p0 < 0 || p0 > ls.len() || p1 < p0 || p1 >= ls.len() {
    } else if entry_spec(ts[p1]) is Some {
        let (p2, a2) = entries_from(ts, p1, attrs);
        if p0 < p2 <= ls.len() {
            parsed_blocks_ok(ls, p2, a2, level, out);
        }
    } else {
        let (p3, m) = meta_from(ts, p1, empty_meta(), attrs);
        if p3 < p1 || p3 >= ls.len() {
        } else if is_blank(ts[p3]) {
            if p0 < p3 {
                parsed_blocks_ok(ls, p3, attrs, level, out);
            }
        } else {
            match section_level(ts[p3]) {
                Some(l) => if is_discrete(m) {
                    let d = discrete_block(ls, p3, attrs, l, m);
                    assert(block_ok(d));
                    lemma_ok_push(out, d);
                    parsed_blocks_ok(ls, p3 + 1, attrs, level, out.push(d));
                } else if l <= level {
                } else {
                    let (b, p4, a4) = section_block(ls, p3, attrs, l, m);
                    parsed_section_ok(ls, p3, attrs, l, m);
                    lemma_ok_push(out, b);
                    if p0 < p4 <= ls.len() {
                        parsed_blocks_ok(ls, p4, a4, level, out.push(b));
                    }
                },
                None => match one_block(ls, p3, attrs, m) {
                    None => {},
                    Some((b, p4, a4)) => {
                        parsed_block_ok(ls, p3, attrs, m);
                        lemma_ok_push(out, b);
                        let (out2, p5) = if takes_colist(b) && 0 <= p4 <= ls.len() {
                            let q = skip_blank_from(ts, p4);
                            match colist_block(ls, q, a4) {
                                Some((c, e)) => {
                                    assert(block_ok(c));
                                    lemma_ok_push(out.push(b), c);
                                    (out.push(b).push(c), e)
                                },
                                None => (out.push(b), q),
                            }
                        } else {
                            (out.push(b), p4)
                        };
                        if p0 < p5 <= ls.len() {
                            parsed_blocks_ok(ls, p5, a4, level, out2);
                        }
                    },
                },
            }
        }
    }
}

proof fn parsed_section_ok(
    ls: Seq<PreprocessedLine>,
    p: int,
    attrs: Map<Seq<char>, AttrV>,
    level: u8,
    meta: MetaV,
)
    ensures
        block_ok(section_block(ls, p, attrs, level, meta).0),
    decreases ls.len() - p, 4int,
{
    if 0 <= p < ls.len() {
        parsed_blocks_ok(ls, p + 1, attrs, level, Seq::empty());
    }
}

proof fn parsed_block_ok(ls: Seq<PreprocessedLine>, p: int, attrs: Map<Seq<char>, AttrV>, meta: MetaV)
    ensures
        one_block(ls, p, attrs, meta) matches Some((b, _, _)) ==> block_ok(b),
    decreases ls.len() - p, 3int,
{
    if 0 <= p < ls.len() {
        let t = ls[p].text@;
        match delimited_spec(t) {
            Some(style) => {
                parsed_delimited_ok(ls, p, attrs, style, meta);
            },
            None => if table_delim(t) {
                let e = table_end(ls, p + 1);
                lemma_table_rows_ok(texts(ls).subrange(p + 1, e), attrs, meta);
            } else {
                match list_marker_spec(t) {
                    Some((mk, _, _)) => {
                        parsed_items_ok(ls, p, attrs, mk);
                    },
                    None => if term_end(t) is Some {
                        lemma_dlist_items_ok(ls, p, attrs);
                    } else {
                    },
                }
            },
        }
    }
}

proof fn parsed_delimited_ok(
    ls: Seq<PreprocessedLine>,
    p: int,
    attrs: Map<Seq<char>, AttrV>,
    style: DelimitedStyle,
    meta: MetaV,
)
    requires
        0 <= p < ls.len(),
    ensures
        block_ok(delimited_block(ls, p, attrs, style, meta).0),
    decreases ls.len() - p, 2int,
{
    let e = delim_end(ls, p + 1, trim_end(ls[p].text@));
    lemma_delim_end_bounds(ls, p + 1, trim_end(ls[p].text@));
    if !raw_style(style) {
        let inner = ls.subrange(p + 1, e);
        parsed_blocks_ok(inner, 0, attrs, 0, Seq::empty());
    }
}

#[verifier::spinoff_prover]
proof fn parsed_items_ok(
    ls: Seq<PreprocessedLine>,
    i: int,
    attrs: Map<Seq<char>, AttrV>,
    marker: ListMarker,
)
    ensures
        items_ok(list_items_from(ls, i, attrs, marker).0),
    decreases ls.len() - i, 2int,
{
    if 0 <= i < ls.len() && !is_blank(ls[i].text@) {
        let t = ls[i].text@;
        match list_marker_spec(t) {
            Some((mk, depth, plen)) => if mk == marker {
                let (blocks, j, a2) = attachments_from(ls, i + 1, attrs);
                parsed_attachments_ok(ls, i + 1, attrs);
                let all = list_items_from(ls, i, attrs, marker).0;
                let x = all[0];
                assert(x.blocks == blocks);
                if i < j <= ls.len() {
                    parsed_items_ok(ls, j, a2, marker);
                    let rest = list_items_from(ls, j, a2, marker).0;
                    assert(all == seq![x] + rest);
                    lemma_items_cons(x, rest);
                } else {
                    assert(all == seq![x] + Seq::<ListItemV>::empty());
                    lemma_items_cons(x, Seq::<ListItemV>::empty());
                }
            },
            None => {},
        }
    }
}

#[verifier::spinoff_prover]
proof fn parsed_attachments_ok(ls: Seq<PreprocessedLine>, i: int, attrs: Map<Seq<char>, AttrV>)
    ensures
        blocks_ok(attachments_from(ls, i, attrs).0),
    decreases ls.len() - i, 1int,
{
    if 0 <= i < ls.len() && trim(ls[i].text@) == seq!['+'] {
        let ts = texts(ls);
        let k = skip_blank_from(ts, i + 1);
        if k < ls.len() && k > i {
            let (k2, m) = meta_from(ts, k, empty_meta(), attrs);
            if i < k2 <= ls.len() {
                parsed_block_ok(ls, k2, attrs, m);
                let ob = one_block(ls, k2, attrs, m);
                let (bs, j, a2) = match ob {
                    Some((b, j, a2)) => (seq![b], j, a2),
                    None => (Seq::empty(), k2, attrs),
                };
                assert(blocks_ok(bs)) by {
                    match ob {
                        Some((b, _, _)) => {
                            lemma_one_ok(b);
                        },
                        None => {},
                    }
                }
                if i < j <= ls.len() {
                    parsed_attachments_ok(ls, j, a2);
                    let rest = attachments_from(ls, j, a2).0;
                    blocks_render_by_concatenation_ok(bs, rest);
                    assert(attachments_from(ls, i, attrs).0 == bs + rest);
                } else {
                    assert(attachments_from(ls, i, attrs).0 == bs);
                }
            }
        }
    }
}

proof fn blocks_render_by_concatenation_ok(a: Seq<BlockV>, b: Seq<BlockV>)
    requires
        blocks_ok(a),
        blocks_ok(b),
    ensures
        blocks_ok(a + b),
{
    lemma_blocks_ok_all(a);
    lemma_blocks_ok_all(b);
    lemma_blocks_ok_all(a + b);
    assert forall|i: int| 0 <= i < (a + b).len() implies #[trigger] block_ok((a + b)[i]) by {
        if i < a.len() {
            assert((a + b)[i] == a[i]);
        } else {
            assert((a + b)[i] == b[i - a.len()]);
        }
    }
}

/// Every document the parser produces is one the converter accepts: its
/// conversion to HTML cannot fail.
pub proof fn parsed_documents_convert(
    doc: Document,
    lines: Seq<PreprocessedLine>,
    initial: Map<Seq<char>, AttrV>,
)
    requires
        parsed_document(doc, lines, initial),
    ensures
        blocks_ok(blocks_v(doc.blocks@)),
{
    let (p, a) = crate::parser::header::header_state(texts(lines), 0, initial);
    reveal(blocks_run);
    let (bs, _, a2) = blocks_loop(lines, p, a, 0, Seq::empty());
    parsed_blocks_ok(lines, p, a, 0, Seq::empty());
    assign_keeps_blocks_ok(bs, explicit_ids(bs));
    let assigned = assign_seq(bs, explicit_ids(bs)).0;
    let (t2i, ex) = collect_titles(assigned, Map::empty(), Set::empty());
    if t2i.len() != 0 {
        rewrite_keeps_blocks_ok(assigned, t2i, ex);
    }
}


// ---------------------------------------------------------------------------
// list markers
// ---------------------------------------------------------------------------

proof fn lemma_lead_digits_of(d: Seq<char>, rest: Seq<char>)
    requires
        forall|i: int| 0 <= i < d.len() ==> is_digit(#[trigger] d[i]),
        rest.len() > 0,
        !is_digit(rest[0]),
    ensures
        lead_digits(d + rest) == d.len(),
    decreases d.len(),
{
    if d.len() > 0 {
        assert((d + rest).drop_first() =~= d.drop_first() + rest);
        lemma_lead_digits_of(d.drop_first(), rest);
    } else {
        assert(d + rest =~= rest);
    }
}

proof fn lemma_lead_run_of(c: char, n: nat, rest: Seq<char>)
    requires
        rest.len() > 0,
        rest[0] != c,
    ensures
        lead_run(Seq::new(n, |i: int| c) + rest, c) == n,
    decreases n,
{
    let t = Seq::new(n, |i: int| c) + rest;
    if n > 0 {
        assert(t.drop_first() =~= Seq::new((n - 1) as nat, |i: int| c) + rest);
        lemma_lead_run_of(c, (n - 1) as nat, rest);
    } else {
        assert(t =~= rest);
    }
}

/// A line made of one or more ASCII digits, `.` and a space opens an
/// ordered list item at depth 1, whose text starts after the space.
pub proof fn numbered_line_opens_ordered_item(d: Seq<char>, rest: Seq<char>)
    requires
        d.len() > 0,
        forall|i: int| 0 <= i < d.len() ==> is_digit(#[trigger] d[i]),
    ensures
        list_marker_spec(d + seq!['.', ' '] + rest) == Some((ListMarker::Ordered, 1int, d.len() as int + 2)),
{
    let t = d + seq!['.', ' '] + rest;
    assert(t =~= d + (seq!['.', ' '] + rest));
    lemma_lead_digits_of(d, seq!['.', ' '] + rest);
    assert(t[0] == d[0]);
    assert(is_digit(d[0]));
    assert(t[d.len() as int] == '.');
    assert(t[d.len() as int + 1] == ' ');
}

/// One to five `*` and a space open an unordered item nested that deep;
/// one to five `.` and a space an ordered one. The item text starts after
/// the space.
pub proof fn bullet_lines_open_items(n: nat, rest: Seq<char>)
    requires
        1 <= n <= 5,
    ensures
        list_marker_spec(Seq::new(n, |i: int| '*') + seq![' '] + rest) == Some(
            (ListMarker::Unordered, n as int, n as int + 1),
        ),
        list_marker_spec(Seq::new(n, |i: int| '.') + seq![' '] + rest) == Some(
            (ListMarker::Ordered, n as int, n as int + 1),
        ),
{
    let ts = Seq::new(n, |i: int| '*') + seq![' '] + rest;
    let td = Seq::new(n, |i: int| '.') + seq![' '] + rest;
    assert(ts =~= Seq::new(n, |i: int| '*') + (seq![' '] + rest));
    assert(td =~= Seq::new(n, |i: int| '.') + (seq![' '] + rest));
    lemma_lead_run_of('*', n, seq![' '] + rest);
    lemma_lead_run_of('.', n, seq![' '] + rest);
    assert(ts[0] == '*');
    assert(ts[n as int] == ' ');
    assert(td[0] == '.');
    assert(td[n as int] == ' ');
}

proof fn lemma_full_run(t: Seq<char>, c: char)
    requires
        lead_run(t, c) == t.len(),
    ensures
        forall|i: int| 0 <= i < t.len() ==> #[trigger] t[i] == c,
    decreases t.len(),
{
    if t.len() > 0 {
        lemma_full_run(t.drop_first(), c);
        assert forall|i: int| 0 <= i < t.len() implies #[trigger] t[i] == c by {
            if i > 0 {
                assert(t[i] == t.drop_first()[i - 1]);
            }
        }
    }
}

/// A line of ASCII digits, `.`, a space and text, wherever the block
/// parser meets it, starts an ordered list whose first item is at depth 1
/// and holds that text.
pub proof fn numbered_line_starts_ordered_list(
    ls: Seq<PreprocessedLine>,
    p: int,
    attrs: Map<Seq<char>, AttrV>,
    meta: MetaV,
    d: Seq<char>,
    rest: Seq<char>,
)
    requires
        0 <= p < ls.len(),
        ls[p].text@ == d + seq!['.', ' '] + rest,
        d.len() > 0,
        forall|i: int| 0 <= i < d.len() ==> is_digit(#[trigger] d[i]),
    ensures
        one_block(ls, p, attrs, meta) matches Some((BlockV::List { marker, items, .. }, _, _))
            && marker == ListMarker::Ordered && items.len() >= 1 && items[0].depth == 1
            && items[0].principal == inline_parse(trim_end(rest), attrs, normal_subs()),
{
    let t = ls[p].text@;
    let n = d.len() as int;
    numbered_line_is_only_a_list_item(d, rest);
    assert(t.skip(n + 2) =~= rest);
    let (items, e, a3) = list_items_from(ls, p, attrs, ListMarker::Ordered);
    assert(items.len() >= 1 && items[0].depth == 1 && items[0].principal == inline_parse(
        trim_end(rest),
        attrs,
        normal_subs(),
    ));
}

proof fn numbered_line_is_only_a_list_item(d: Seq<char>, rest: Seq<char>)
    requires
        d.len() > 0,
        forall|i: int| 0 <= i < d.len() ==> is_digit(#[trigger] d[i]),
    ensures
        ({
            let t = d + seq!['.', ' '] + rest;
            &&& delimited_spec(t) is None
            &&& !table_delim(t)
            &&& block_image(t) is None
            &&& !is_blank(t)
            &&& list_marker_spec(t) == Some((ListMarker::Ordered, 1int, d.len() as int + 2))
        }),
{
    let t = d + seq!['.', ' '] + rest;
    let n = d.len() as int;
    assert(t[0] == d[0]);
    assert(is_digit(d[0]));
    assert(t[n] == '.');
    assert(!is_ws(t[0]));
    assert(!is_ws(t[n]));
    // not a delimiter line
    let tt = trim_end(t);
    crate::text::lemma_trail_ws_bound(t);
    assert(trail_ws(t) < t.len() - n) by {
        if trail_ws(t) >= t.len() - n {
            assert(is_ws(t[n]));
        }
    }
    assert(tt[0] == t[0]);
    assert(tt[n] == '.');
    if tt.len() >= 4 && lead_run(tt, tt[0]) == tt.len() {
        lemma_full_run(tt, tt[0]);
        assert(tt[n] == tt[0]);
    }
    assert(tt != seq!['-', '-']) by {
        if tt == seq!['-', '-'] {
            assert(tt[0] == '-');
        }
    }
    assert(delimited_spec(t) is None);
    // not a table delimiter
    crate::text::lemma_lead_ws_char(t, 0);
    assert(crate::text::trim_start(t) =~= t);
    assert(!table_delim(t)) by {
        if t == seq!['|', '=', '=', '='] {
            assert(t[0] == '|');
        }
    }
    // not a block image
    assert(block_image(t) is None) by {
        if starts_with(t, seq!['i', 'm', 'a', 'g', 'e', ':', ':']) {
            assert(t.take(7)[0] == t[0]);
        }
    }
    numbered_line_opens_ordered_item(d, rest);
    assert(!is_blank(t));
}

/// `=` repeated two to six times, a space and a non-blank title make a
/// section title of level one less than the count.
pub proof fn section_title_levels(n: nat, title: Seq<char>)
    requires
        2 <= n <= 6,
        !is_blank(title),
    ensures
        section_level(Seq::new(n, |i: int| '=') + seq![' '] + title) == Some((n - 1) as u8),
{
    let t = Seq::new(n, |i: int| '=') + seq![' '] + title;
    assert(t =~= Seq::new(n, |i: int| '=') + (seq![' '] + title));
    lemma_lead_run_of('=', n, seq![' '] + title);
    assert(t[n as int] == ' ');
    assert(t.skip(n as int + 1) =~= title);
}

/// A line of four or more of one delimiter character opens its block:
/// `-` listing, `.` literal, `=` example, `_` quote, `*` sidebar, `+`
/// passthrough; `--` opens an open block.
pub proof fn delimiter_lines_open_their_blocks(n: nat)
    requires
        n >= 4,
    ensures
        delimited_spec(Seq::new(n, |i: int| '-')) == Some(DelimitedStyle::Listing),
        delimited_spec(Seq::new(n, |i: int| '.')) == Some(DelimitedStyle::Literal),
        delimited_spec(Seq::new(n, |i: int| '=')) == Some(DelimitedStyle::Example),
        delimited_spec(Seq::new(n, |i: int| '_')) == Some(DelimitedStyle::Quote),
        delimited_spec(Seq::new(n, |i: int| '*')) == Some(DelimitedStyle::Sidebar),
        delimited_spec(Seq::new(n, |i: int| '+')) == Some(DelimitedStyle::Passthrough),
        delimited_spec(seq!['-', '-']) == Some(DelimitedStyle::Open),
{
    lemma_delim_run('-', n);
    lemma_delim_run('.', n);
    lemma_delim_run('=', n);
    lemma_delim_run('_', n);
    lemma_delim_run('*', n);
    lemma_delim_run('+', n);
    crate::text::lemma_trail_ws_char(seq!['-', '-'], 2);
    assert(trim_end(seq!['-', '-']) =~= seq!['-', '-']);
}

proof fn lemma_delim_run(c: char, n: nat)
    requires
        !is_ws(c),
        n >= 4,
    ensures
        trim_end(Seq::new(n, |i: int| c)) == Seq::new(n, |i: int| c),
        lead_run(Seq::new(n, |i: int| c), c) == n,
        Seq::new(n, |i: int| c) != seq![c, c],
{
    let t = Seq::new(n, |i: int| c);
    crate::text::lemma_trail_ws_char(t, n as int);
    assert(trim_end(t) =~= t);
    crate::parser::block::lemma_lead_run(t, c, n as int);
}

/// Each letter lowercased.
pub open spec fn lower_all(s: Seq<char>) -> Seq<char> {
    s.map_values(|c: char| crate::text::lower(c))
}

/// An admonition's class is its keyword in lower case, and its default
/// label the keyword with only the first letter kept upper case.
pub proof fn admonition_class_and_label(kw: Seq<char>)
    requires
        admonition_kw(MetaV { style: Some(kw), ..empty_meta() }) is Some,
    ensures
        admonition_class(kw) == lower_all(kw),
        admonition_label(kw) == seq![kw[0]] + lower_all(kw.skip(1)),
{
    reveal_strlit("NOTE");
    reveal_strlit("TIP");
    reveal_strlit("IMPORTANT");
    reveal_strlit("WARNING");
    reveal_strlit("CAUTION");
    reveal_strlit("note");
    reveal_strlit("tip");
    reveal_strlit("important");
    reveal_strlit("warning");
    reveal_strlit("caution");
    reveal_strlit("Note");
    reveal_strlit("Tip");
    reveal_strlit("Important");
    reveal_strlit("Warning");
    reveal_strlit("Caution");
    assert(admonition_class("NOTE"@) =~= lower_all("NOTE"@));
    assert(admonition_label("NOTE"@) =~= seq!["NOTE"@[0]] + lower_all("NOTE"@.skip(1)));
    assert(admonition_class("TIP"@) =~= lower_all("TIP"@));
    assert(admonition_label("TIP"@) =~= seq!["TIP"@[0]] + lower_all("TIP"@.skip(1)));
    assert(admonition_class("IMPORTANT"@) =~= lower_all("IMPORTANT"@));
    assert(admonition_label("IMPORTANT"@) =~= seq!["IMPORTANT"@[0]] + lower_all("IMPORTANT"@.skip(1)));
    assert(admonition_class("WARNING"@) =~= lower_all("WARNING"@));
    assert(admonition_label("WARNING"@) =~= seq!["WARNING"@[0]] + lower_all("WARNING"@.skip(1)));
    assert(admonition_class("CAUTION"@) =~= lower_all("CAUTION"@));
    assert(admonition_label("CAUTION"@) =~= seq!["CAUTION"@[0]] + lower_all("CAUTION"@.skip(1)));
}

// ---------------------------------------------------------------------------
// typographic replacements
// ---------------------------------------------------------------------------

/// Each typographic pattern stands for its fixed character, whatever
/// follows it: `(C)` ©, `(R)` ®, `(TM)` ™, `...` …, `--` —, `->` →,
/// `=>` ⇒, `<-` ←, `<=` ⇐.
pub proof fn replacements_give_their_characters(rest: Seq<char>)
    ensures
        replacement_at(seq!['(', 'C', ')'] + rest) == Some((seq!['\u{00A9}'], 3int)),
        replacement_at(seq!['(', 'R', ')'] + rest) == Some((seq!['\u{00AE}'], 3int)),
        replacement_at(seq!['(', 'T', 'M', ')'] + rest) == Some((seq!['\u{2122}'], 4int)),
        replacement_at(seq!['.', '.', '.'] + rest) == Some((seq!['\u{2026}'], 3int)),
        replacement_at(seq!['-', '-'] + rest) == Some((seq!['\u{2014}'], 2int)),
        replacement_at(seq!['-', '>'] + rest) == Some((seq!['\u{2192}'], 2int)),
        replacement_at(seq!['=', '>'] + rest) == Some((seq!['\u{21D2}'], 2int)),
        replacement_at(seq!['<', '-'] + rest) == Some((seq!['\u{2190}'], 2int)),
        replacement_at(seq!['<', '='] + rest) == Some((seq!['\u{21D0}'], 2int)),
{
    assert((seq!['(', 'C', ')'] + rest).take(3) =~= seq!['(', 'C', ')']);
    assert((seq!['(', 'R', ')'] + rest).take(3) =~= seq!['(', 'R', ')']);
    assert((seq!['(', 'T', 'M', ')'] + rest).take(4) =~= seq!['(', 'T', 'M', ')']);
    assert((seq!['.', '.', '.'] + rest).take(3) =~= seq!['.', '.', '.']);
    assert((seq!['-', '-'] + rest).take(2) =~= seq!['-', '-']);
    assert((seq!['-', '>'] + rest).take(2) =~= seq!['-', '>']);
    assert((seq!['=', '>'] + rest).take(2) =~= seq!['=', '>']);
    assert((seq!['<', '-'] + rest).take(2) =~= seq!['<', '-']);
    assert((seq!['<', '='] + rest).take(2) =~= seq!['<', '=']);
}

// ---------------------------------------------------------------------------
// section numbers
// ---------------------------------------------------------------------------

/// Numbering a section of level `l` steps that level's counter, keeps the
/// shallower ones and zeroes every deeper one; so the first subsection
/// of any section is numbered that section's number followed by `.1`.
pub proof fn section_numbers_restart_below(c: Seq<u32>, l: int)
    requires
        c.len() == 7,
        1 <= l < 6,
        c[l] < u32::MAX,
    ensures
        bump(c, l)[l] == c[l] + 1,
        forall|k: int| 0 <= k < l ==> #[trigger] bump(c, l)[k] == c[k],
        forall|k: int| l < k < 7 ==> #[trigger] bump(c, l)[k] == 0,
        bump(bump(c, l), l + 1)[l + 1] == 1,
        forall|k: int| 0 <= k <= l ==> #[trigger] bump(bump(c, l), l + 1)[k] == bump(c, l)[k],
{
}

/// With section numbers on, a section's first subsection is numbered that
/// section's number followed by `.1`, whatever sections came before.
pub proof fn first_subsection_is_numbered_dot_one(bs: Seq<BlockV>, c: Seq<u32>, l: u8)
    requires
        c.len() == 7,
        1 <= l <= 5,
        c[l as int] < u32::MAX,
        bs.len() > 0,
        bs[0] matches BlockV::Section { level, blocks, meta, .. } && level == l && meta.id is Some
            && blocks.len() > 0 && (blocks[0] matches BlockV::Section { level: l2, meta: m2, .. } && l2
            == l + 1 && m2.id is Some),
    ensures
        ({
            let e = walk_sections(bs, c, true).1;
            e.len() >= 2 && e[1].number == e[0].number + seq!['.', '1']
        }),
{
    let lv = l as int;
    let c1 = bump(c, lv);
    let c2 = bump(c1, lv + 1);
    match bs[0] {
        BlockV::Section { blocks, meta, .. } => {
            let inner = walk_sections(blocks, c1, true);
            let rest = bs.subrange(1, bs.len() as int);
            let after = walk_sections(rest, inner.0, true);
            assert(min6(l) == lv);
            assert(min6((l + 1) as u8) == lv + 1);
            match blocks[0] {
                BlockV::Section { blocks: b2, meta: m2, .. } => {
                    let brest = blocks.subrange(1, blocks.len() as int);
                    let i2 = walk_sections(b2, c2, true);
                    let a2 = walk_sections(brest, i2.0, true);
                    assert(inner.1[0].number == number_text(c2, lv + 1));
                },
                _ => {},
            }
            let e = walk_sections(bs, c, true).1;
            assert(e[0].number == number_text(c1, lv));
            assert(e[1] == inner.1[0]);
            // number_text(c2, lv + 1) = number_text(c1, lv) + "." + "1"
            let f1 = Seq::new(lv as nat, |k: int| dec_digits(c1[k + 1] as nat));
            let f2 = Seq::new((lv + 1) as nat, |k: int| dec_digits(c2[k + 1] as nat));
            reveal_strlit(".");
            assert(f2.drop_last() =~= f1);
            assert(c2[lv + 1] == 1);
            assert(dec_digits(1) == seq!['1']);
            assert(f2.last() == seq!['1']);
            assert(number_text(c2, lv + 1) == join(f1, "."@) + "."@ + seq!['1']);
            assert(join(f1, "."@) + "."@ + seq!['1'] =~= number_text(c1, lv) + seq!['.', '1']);
        },
        _ => {},
    }
}

// ---------------------------------------------------------------------------
// ifeval string comparisons
// ---------------------------------------------------------------------------

/// String comparison in `ifeval`: `==` holds exactly when the operands
/// are equal and `!=` exactly when they differ; `<` and `>` are each
/// other's mirror and exclude equality, `<=` is `<` or equal, and `>=`
/// holds exactly when `<` does not.
pub proof fn string_comparisons_mean_what_they_say(l: Seq<char>, r: Seq<char>)
    ensures
        str_cmp_holds(l, CmpOp::Eq, r) <==> l == r,
        str_cmp_holds(l, CmpOp::Ne, r) <==> l != r,
        str_cmp_holds(l, CmpOp::Lt, r) <==> str_cmp_holds(r, CmpOp::Gt, l),
        str_cmp_holds(l, CmpOp::Lt, r) ==> l != r,
        str_cmp_holds(l, CmpOp::Le, r) <==> (str_cmp_holds(l, CmpOp::Lt, r) || l == r),
        str_cmp_holds(l, CmpOp::Ge, r) <==> !str_cmp_holds(l, CmpOp::Lt, r),
        str_cmp_holds(l, CmpOp::Le, r) <==> !str_cmp_holds(l, CmpOp::Gt, r),
{
    crate::strmap::lemma_seq_lt_total(l, r);
    crate::strmap::lemma_seq_lt_irrefl(l);
    if crate::strmap::seq_lt(l, r) {
        crate::strmap::lemma_seq_lt_asym(l, r);
    }
    if crate::strmap::seq_lt(r, l) {
        crate::strmap::lemma_seq_lt_asym(r, l);
    }
}

// ---------------------------------------------------------------------------
// derived author attributes
// ---------------------------------------------------------------------------

/// The first author's derived attributes, where the document has not set
/// them: `{firstname}` is the first word of the name; for two or more
/// words `{lastname}` is the last word; for three or more `{middlename}`
/// is the words strictly between, joined by spaces.
pub proof fn author_name_parts(m: Map<Seq<char>, AttrV>, a: AuthorV)
    requires
        !m.contains_key("firstname"@),
        !m.contains_key("middlename"@),
        !m.contains_key("lastname"@),
    ensures
        ({
            let ws = words_from(a.name, 0);
            let out = first_author_attrs(m, a);
            &&& ws.len() >= 1 ==> out.contains_key("firstname"@) && out["firstname"@] == AttrV::Str(ws[0])
            &&& ws.len() >= 2 ==> out.contains_key("lastname"@) && out["lastname"@] == AttrV::Str(
                ws[ws.len() - 1],
            )
            &&& ws.len() >= 3 ==> out.contains_key("middlename"@) && out["middlename"@] == AttrV::Str(
                join(ws.subrange(1, ws.len() - 1), seq![' ']),
            )
            &&& ws.len() <= 2 ==> !out.contains_key("middlename"@)
        }),
{
    reveal_strlit("firstname");
    reveal_strlit("middlename");
    reveal_strlit("lastname");
    reveal_strlit("author");
    reveal_strlit("email");
    reveal_strlit("authorinitials");
    assert("author"@.len() == 6 && "email"@.len() == 5 && "authorinitials"@.len() == 14);
    assert("firstname"@.len() == 9 && "middlename"@.len() == 10 && "lastname"@.len() == 8);
    assert("author"@ != "firstname"@ && "author"@ != "middlename"@ && "author"@ != "lastname"@);
    assert("email"@ != "firstname"@ && "email"@ != "middlename"@ && "email"@ != "lastname"@);
    assert("authorinitials"@ != "firstname"@ && "authorinitials"@ != "middlename"@
        && "authorinitials"@ != "lastname"@);
    assert("firstname"@ != "middlename"@ && "firstname"@ != "lastname"@ && "middlename"@
        != "lastname"@);
}

} // verus!
