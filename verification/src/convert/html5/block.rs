//! Block rendering.
use vstd::prelude::*;

use crate::ast::{
    block_v, blocks_v, colist_items_v, dlist_items_v, inlines_v, lemma_blocks_v_len,
    lemma_dlist_items_v, lemma_list_items_v, list_items_v, strs_v, Block, BlockMeta, Colist,
    ConvertError, DelimitedBlock, DelimitedContent, DelimitedStyle, DescriptionList,
    DiscreteHeading, List, ListItem, ListMarker, Paragraph, Section,
};
use crate::convert::html5::ctx::RenderCtx;
use crate::convert::html5::escape::{escape, push_escaped_attr, substitute_conums};
use crate::convert::html5::inline::{inlines_html, write_inlines};
use crate::convert::html5::model::{
    admonition_class, admonition_kw, admonition_label, anchor_html, block_html, block_ok,
    blocks_html, blocks_ok, class_with, colist_html, ditems_html, ditems_ok, id_attr,
    item_blocks_html, items_html, items_ok, meta_attrs_html, rep, roles_html, sectnum_prefix,
    source_language, title_html, section_head, delimited_open, delimited_close, raw_html,
};
use crate::convert::html5::table::render_table;
use crate::strmap::str_eq;
use crate::text::{chars_of, join, push_decimal, push_str, string_of, trim_vec};

verus! {

// ---------------------------------------------------------------------------
// metadata fragments
// ---------------------------------------------------------------------------

/// Appends the roles, escaped and joined with single spaces.
fn push_roles(out: &mut String, roles: &Vec<String>)
    ensures
        final(out)@ == old(out)@ + roles_html(strs_v(roles@)),
{
    let ghost p = strs_v(roles@).map_values(|r: Seq<char>| crate::convert::html5::escape::escape_attr_html(r));
    let mut i: usize = 0;
    while i < roles.len()
        invariant
            i <= roles.len(),
            p == strs_v(roles@).map_values(|r: Seq<char>| crate::convert::html5::escape::escape_attr_html(r)),
            out@ == old(out)@ + join(p.take(i as int), " "@),
        decreases roles.len() - i,
    {
        if i > 0 {
            push_str(out, " ");
        }
        push_escaped_attr(out, roles[i].as_str());
        proof {
            assert(p.take(i + 1).drop_last() =~= p.take(i as int));
            assert(p[i as int] == crate::convert::html5::escape::escape_attr_html(roles@[i as int]@));
            if i == 0 {
                assert(p.take(1) =~= seq![p[0]]);
            }
        }
        i += 1;
    }
    assert(p.take(roles.len() as int) =~= p);
}

/// Appends ` id="…"` when the block has an id.
fn write_id_attr(out: &mut String, meta: &BlockMeta)
    ensures
        final(out)@ == old(out)@ + id_attr(meta@),
{
    match &meta.id {
        Some(id) => {
            push_str(out, " id=\"");
            push_escaped_attr(out, id.as_str());
            push_str(out, "\"");
        },
        None => {},
    }
    assert(final(out)@ =~= old(out)@ + id_attr(meta@));
}

/// Appends ` id="…" class="…"`, each part only when present.
fn write_meta_attrs(out: &mut String, meta: &BlockMeta)
    ensures
        final(out)@ == old(out)@ + meta_attrs_html(meta@),
{
    write_id_attr(out, meta);
    if meta.roles.len() > 0 {
        push_str(out, " class=\"");
        push_roles(out, &meta.roles);
        push_str(out, "\"");
    }
    assert(final(out)@ =~= old(out)@ + meta_attrs_html(meta@));
}

/// ` id="…" class="…"` as a string.
pub fn meta_attrs(meta: &BlockMeta) -> (res: String)
    ensures
        res@ == meta_attrs_html(meta@),
{
    let mut out = String::new();
    write_meta_attrs(&mut out, meta);
    out
}

/// Appends ` class="…"` holding `intrinsic` followed by the roles.
fn write_class_with(out: &mut String, intrinsic: &str, roles: &Vec<String>)
    ensures
        final(out)@ == old(out)@ + class_with(intrinsic@, strs_v(roles@)),
{
    push_str(out, " class=\"");
    push_str(out, intrinsic);
    if roles.len() > 0 {
        push_str(out, " ");
        push_roles(out, roles);
    }
    push_str(out, "\"");
    assert(final(out)@ =~= old(out)@ + class_with(intrinsic@, strs_v(roles@)));
}

/// Appends the block title line, when there is a title.
pub(crate) fn write_title(out: &mut String, meta: &BlockMeta)
    ensures
        final(out)@ == old(out)@ + title_html(meta@),
{
    match &meta.title {
        Some(t) => {
            push_str(out, "<div class=\"title\">");
            write_inlines(out, t.as_slice());
            push_str(out, "</div>\n");
        },
        None => {},
    }
    assert(final(out)@ =~= old(out)@ + title_html(meta@));
}

/// The admonition keyword carried by the block style, if it is one.
fn admonition_keyword(meta: &BlockMeta) -> (res: Option<&str>)
    ensures
        res matches Some(k) ==> admonition_kw(meta@) == Some(k@),
        res is None ==> admonition_kw(meta@) is None,
{
    match &meta.style {
        Some(s) => {
            let st = s.as_str();
            if str_eq(st, "NOTE") || str_eq(st, "TIP") || str_eq(st, "IMPORTANT") || str_eq(
                st,
                "WARNING",
            ) || str_eq(st, "CAUTION") {
                Some(st)
            } else {
                None
            }
        },
        None => None,
    }
}

fn label_of(kw: &str) -> (res: &'static str)
    ensures
        res@ == admonition_label(kw@),
{
    if str_eq(kw, "TIP") {
        "Tip"
    } else if str_eq(kw, "IMPORTANT") {
        "Important"
    } else if str_eq(kw, "WARNING") {
        "Warning"
    } else if str_eq(kw, "CAUTION") {
        "Caution"
    } else {
        "Note"
    }
}

fn class_of(kw: &str) -> (res: &'static str)
    ensures
        res@ == admonition_class(kw@),
{
    if str_eq(kw, "TIP") {
        "tip"
    } else if str_eq(kw, "IMPORTANT") {
        "important"
    } else if str_eq(kw, "WARNING") {
        "warning"
    } else if str_eq(kw, "CAUTION") {
        "caution"
    } else {
        "note"
    }
}

/// Appends the opening of an admonition block.
fn write_admonition_open(out: &mut String, meta: &BlockMeta, kw: &str)
    ensures
        final(out)@ == old(out)@ + crate::convert::html5::model::admonition_open(meta@, kw@),
{
    push_str(out, "<div");
    write_id_attr(out, meta);
    push_str(out, " class=\"admonitionblock ");
    push_str(out, class_of(kw));
    push_str(out, "\">\n");
    match &meta.title {
        Some(t) => {
            push_str(out, "<p class=\"title\">");
            write_inlines(out, t.as_slice());
            push_str(out, "</p>\n");
        },
        None => {
            push_str(out, "<p class=\"label\">");
            push_str(out, label_of(kw));
            push_str(out, "</p>\n");
        },
    }
    push_str(out, "<div class=\"content\">\n");
    assert(final(out)@ =~= old(out)@ + crate::convert::html5::model::admonition_open(meta@, kw@));
}

/// The language of a `[source,LANG]` block, trimmed.
fn source_lang(meta: &BlockMeta) -> (res: Option<String>)
    ensures
        res matches Some(l) ==> source_language(meta@) == Some(l@),
        res is None ==> source_language(meta@) is None,
{
    let is_source = match &meta.style {
        Some(s) => str_eq(s.as_str(), "source"),
        None => false,
    };
    if !is_source || meta.positional.len() == 0 {
        return None;
    }
    let cs = chars_of(meta.positional[0].as_str());
    let t = trim_vec(cs.as_slice());
    if t.len() == 0 {
        None
    } else {
        Some(string_of(t.as_slice()))
    }
}

fn tag_for_level(level: u8) -> (res: &'static str)
    ensures
        res@ == crate::convert::html5::model::heading_tag(level),
{
    if level == 1 {
        "h2"
    } else if level == 2 {
        "h3"
    } else if level == 3 {
        "h4"
    } else if level == 4 {
        "h5"
    } else {
        "h6"
    }
}

pub proof fn lemma_rep_snoc(s: Seq<char>, n: nat)
    ensures
        rep(s, n + 1) == rep(s, n) + s,
    decreases n,
{
    if n == 0 {
        assert(rep(s, 1) =~= s + rep(s, 0));
        assert(rep(s, 1) =~= rep(s, 0) + s);
    } else {
        lemma_rep_snoc(s, (n - 1) as nat);
        assert(rep(s, n + 1) =~= s + rep(s, n));
        assert(rep(s, n + 1) =~= rep(s, n) + s);
    }
}

// ---------------------------------------------------------------------------
// blocks
// ---------------------------------------------------------------------------

/// The error for a delimited block whose style and content do not match.
pub open spec fn mismatch(e: ConvertError) -> bool {
    e matches ConvertError::Message(m) && m@ == "delimited block style/content mismatch"@
}

fn mismatch_error() -> (e: ConvertError)
    ensures
        mismatch(e),
{
    ConvertError::Message("delimited block style/content mismatch".to_owned())
}

/// Appends the HTML of one block; fails, with nothing promised of `out`,
/// exactly when a delimited block in it pairs a style with the wrong
/// content.
pub(crate) fn render_block(out: &mut String, b: &Block, ctx: &RenderCtx) -> (r: Result<(), ConvertError>)
    ensures
        r is Ok <==> block_ok(block_v(*b)),
        r is Ok ==> final(out)@ == old(out)@ + block_html(ctx.cv(), block_v(*b)),
        r matches Err(e) ==> mismatch(e),
    decreases *b,
{
    match b {
        Block::Section(s) => render_section(out, s, ctx),
        Block::Paragraph(p) => {
            render_paragraph(out, p);
            Ok(())
        },
        Block::List(l) => render_list(out, l, ctx),
        Block::DescriptionList(d) => render_description_list(out, d, ctx),
        Block::Delimited(d) => render_delimited(out, d, ctx),
        Block::Table(t) => render_table(out, t, ctx),
        Block::Colist(c) => {
            render_colist(out, c);
            Ok(())
        },
        Block::DiscreteHeading(d) => {
            render_discrete_heading(out, d);
            Ok(())
        },
    }
}

/// Appends the HTML of each block in turn.
pub(crate) fn render_blocks(out: &mut String, bs: &[Block], ctx: &RenderCtx) -> (r: Result<
    (),
    ConvertError,
>)
    ensures
        r is Ok <==> blocks_ok(blocks_v(bs@)),
        r is Ok ==> final(out)@ == old(out)@ + blocks_html(ctx.cv(), blocks_v(bs@)),
        r matches Err(e) ==> mismatch(e),
    decreases bs@,
{
    let ghost all = blocks_v(bs@);
    proof {
        lemma_blocks_v_len(bs@);
    }
    let ghost start = out@;
    assert(all.skip(0) =~= all);
    let mut i: usize = 0;
    while i < bs.len()
        invariant
            i <= bs.len(),
            all == blocks_v(bs@),
            all.len() == bs@.len(),
            forall|k: int| 0 <= k < bs@.len() ==> #[trigger] all[k] == block_v(bs@[k]),
            start + blocks_html(ctx.cv(), all) == out@ + blocks_html(ctx.cv(), all.skip(i as int)),
            blocks_ok(all) == blocks_ok(all.skip(i as int)),
        decreases bs.len() - i,
    {
        proof {
            assert(decreases_to!(bs@ => bs@[i as int]));
        }
        let ghost before = out@;
        let r = render_block(out, &bs[i], ctx);
        proof {
            let t = all.skip(i as int);
            assert(t[0] == all[i as int]);
            assert(t.subrange(1, t.len() as int) =~= all.skip(i + 1));
        }
        if r.is_err() {
            return r;
        }
        proof {
            assert(out@ + blocks_html(ctx.cv(), all.skip(i + 1)) =~= before + blocks_html(
                ctx.cv(),
                all.skip(i as int),
            ));
        }
        i += 1;
    }
    assert(all.skip(bs.len() as int) =~= Seq::<crate::ast::BlockV>::empty());
    assert(out@ + Seq::<char>::empty() =~= out@);
    Ok(())
}

/// Appends the blocks nested in a list item, each after a line break.
fn render_item_blocks(out: &mut String, bs: &[Block], ctx: &RenderCtx) -> (r: Result<
    (),
    ConvertError,
>)
    ensures
        r is Ok <==> blocks_ok(blocks_v(bs@)),
        r is Ok ==> final(out)@ == old(out)@ + item_blocks_html(ctx.cv(), blocks_v(bs@)),
        r matches Err(e) ==> mismatch(e),
    decreases bs@,
{
    let ghost all = blocks_v(bs@);
    proof {
        lemma_blocks_v_len(bs@);
    }
    let ghost start = out@;
    assert(all.skip(0) =~= all);
    let mut i: usize = 0;
    while i < bs.len()
        invariant
            i <= bs.len(),
            all == blocks_v(bs@),
            all.len() == bs@.len(),
            forall|k: int| 0 <= k < bs@.len() ==> #[trigger] all[k] == block_v(bs@[k]),
            start + item_blocks_html(ctx.cv(), all) == out@ + item_blocks_html(
                ctx.cv(),
                all.skip(i as int),
            ),
            blocks_ok(all) == blocks_ok(all.skip(i as int)),
        decreases bs.len() - i,
    {
        proof {
            assert(decreases_to!(bs@ => bs@[i as int]));
        }
        let ghost before = out@;
        push_str(out, "\n");
        let r = render_block(out, &bs[i], ctx);
        proof {
            let t = all.skip(i as int);
            assert(t[0] == all[i as int]);
            assert(t.subrange(1, t.len() as int) =~= all.skip(i + 1));
        }
        if r.is_err() {
            return r;
        }
        proof {
            assert(out@ + item_blocks_html(ctx.cv(), all.skip(i + 1)) =~= before
                + item_blocks_html(ctx.cv(), all.skip(i as int)));
        }
        i += 1;
    }
    assert(all.skip(bs.len() as int) =~= Seq::<crate::ast::BlockV>::empty());
    assert(out@ + Seq::<char>::empty() =~= out@);
    Ok(())
}

/// Appends the `:sectanchors:` self-link and the `:sectnums:` number of a
/// section heading.
fn write_heading_marks(out: &mut String, ctx: &RenderCtx, meta: &BlockMeta)
    ensures
        final(out)@ == old(out)@ + anchor_html(ctx.cv(), meta@.id) + sectnum_prefix(ctx.cv(), meta@.id),
{
    match &meta.id {
        Some(id) => {
            if ctx.sectanchors {
                push_str(out, "<a class=\"anchor\" href=\"#");
                push_escaped_attr(out, id.as_str());
                push_str(out, "\"></a>");
            }
            match ctx.section_numbers.get(id.as_str()) {
                Some(n) => {
                    if !n.as_str().is_empty() {
                        push_str(out, "<span class=\"sectnum\">");
                        push_str(out, n.as_str());
                        push_str(out, "</span> ");
                    }
                },
                None => {},
            }
        },
        None => {},
    }
    assert(final(out)@ =~= old(out)@ + anchor_html(ctx.cv(), meta@.id) + sectnum_prefix(ctx.cv(), meta@.id));
}

fn write_section_head(out: &mut String, s: &Section, ctx: &RenderCtx)
    ensures
        final(out)@ == old(out)@ + section_head(ctx.cv(), s.level, inlines_v(s.title@), s.meta@),
{
    push_str(out, "<section");
    write_meta_attrs(out, &s.meta);
    push_str(out, ">\n");
    write_title(out, &s.meta);
    let tag = tag_for_level(s.level);
    push_str(out, "<");
    push_str(out, tag);
    push_str(out, ">");
    write_heading_marks(out, ctx, &s.meta);
    write_inlines(out, s.title.as_slice());
    push_str(out, "</");
    push_str(out, tag);
    push_str(out, ">\n");
    assert(final(out)@ =~= old(out)@ + section_head(ctx.cv(), s.level, inlines_v(s.title@), s.meta@));
}

fn render_section(out: &mut String, s: &Section, ctx: &RenderCtx) -> (r: Result<(), ConvertError>)
    ensures
        r is Ok <==> block_ok(block_v(Block::Section(*s))),
        r is Ok ==> final(out)@ == old(out)@ + block_html(ctx.cv(), block_v(Block::Section(*s))),
        r matches Err(e) ==> mismatch(e),
    decreases *s,
{
    write_section_head(out, s, ctx);
    let ghost mid = out@;
    proof {
        assert(decreases_to!(*s => s.blocks));
        assert(decreases_to!(s.blocks => s.blocks@));
    }
    let r = render_blocks(out, s.blocks.as_slice(), ctx);
    if r.is_err() {
        return r;
    }
    push_str(out, "</section>\n");
    proof {
        let h = section_head(ctx.cv(), s.level, inlines_v(s.title@), s.meta@);
        let bh = blocks_html(ctx.cv(), blocks_v(s.blocks@));
        assert(block_html(ctx.cv(), block_v(Block::Section(*s))) == h + bh + "</section>\n"@);
        assert(final(out)@ =~= old(out)@ + (h + bh + "</section>\n"@));
    }
    Ok(())
}

#[verifier::spinoff_prover]
#[verifier::rlimit(60)]
fn render_paragraph(out: &mut String, p: &Paragraph)
    ensures
        forall|c: crate::convert::html5::model::CtxV|
            final(out)@ == old(out)@ + #[trigger] block_html(c, block_v(Block::Paragraph(*p))),
{
    match admonition_keyword(&p.meta) {
        Some(kw) => {
            write_admonition_open(out, &p.meta, kw);
            push_str(out, "<p>");
            write_inlines(out, p.inlines.as_slice());
            push_str(out, "</p>\n");
            push_str(out, "</div>\n</div>\n");
        },
        None => {
            let is_image = match &p.meta.style {
                Some(st) => str_eq(st.as_str(), "image"),
                None => false,
            };
            if is_image {
                push_str(out, "<div");
                write_id_attr(out, &p.meta);
                push_str(out, " class=\"imageblock\">\n");
                push_str(out, "<div class=\"content\">");
                write_inlines(out, p.inlines.as_slice());
                push_str(out, "</div>\n");
                match &p.meta.title {
                    Some(t) => {
                        push_str(out, "<div class=\"title\">");
                        write_inlines(out, t.as_slice());
                        push_str(out, "</div>\n");
                    },
                    None => {},
                }
                push_str(out, "</div>\n");
            } else {
                write_title(out, &p.meta);
                push_str(out, "<p");
                write_meta_attrs(out, &p.meta);
                push_str(out, ">");
                write_inlines(out, p.inlines.as_slice());
                push_str(out, "</p>\n");
            }
        },
    }
    assert forall|c: crate::convert::html5::model::CtxV|
        final(out)@ == old(out)@ + #[trigger] block_html(c, block_v(Block::Paragraph(*p))) by {
        assert(final(out)@ =~= old(out)@ + block_html(c, block_v(Block::Paragraph(*p))));
    }
}

/// Appends the list opens or closes that take the nesting from `depth` to
/// `d`; the block attributes go on the first list opened.
fn write_list_moves(out: &mut String, tag: &str, attrs: &str, depth: u8, d: u8, used: bool)
    ensures
        final(out)@ == old(out)@ + (if depth < d {
            "<"@ + tag@ + (if used {
                Seq::<char>::empty()
            } else {
                attrs@
            }) + ">\n"@ + rep("<"@ + tag@ + ">\n"@, (d - depth - 1) as nat)
        } else {
            rep("</"@ + tag@ + ">\n"@, (depth - d) as nat)
        }),
{
    let ghost open_s = "<"@ + tag@ + ">\n"@;
    let ghost close_s = "</"@ + tag@ + ">\n"@;
    if depth < d {
        push_str(out, "<");
        push_str(out, tag);
        if !used {
            push_str(out, attrs);
        }
        push_str(out, ">\n");
        let ghost first = out@;
        let mut e: u8 = depth + 1;
        while e < d
            invariant
                depth < e <= d,
                open_s == "<"@ + tag@ + ">\n"@,
                out@ == first + rep(open_s, (e - depth - 1) as nat),
            decreases d - e,
        {
            push_str(out, "<");
            push_str(out, tag);
            push_str(out, ">\n");
            proof {
                lemma_rep_snoc(open_s, (e - depth - 1) as nat);
            }
            e += 1;
        }
        assert(final(out)@ =~= old(out)@ + ("<"@ + tag@ + (if used {
            Seq::<char>::empty()
        } else {
            attrs@
        }) + ">\n"@ + rep(open_s, (d - depth - 1) as nat)));
    } else {
        let mut e: u8 = depth;
        while e > d
            invariant
                d <= e <= depth,
                close_s == "</"@ + tag@ + ">\n"@,
                out@ == old(out)@ + rep(close_s, (depth - e) as nat),
            decreases e,
        {
            push_str(out, "</");
            push_str(out, tag);
            push_str(out, ">\n");
            proof {
                lemma_rep_snoc(close_s, (depth - e) as nat);
            }
            e -= 1;
        }
    }
}

/// Appends one list item: its principal text, then its nested blocks.
fn render_list_item(out: &mut String, item: &ListItem, ctx: &RenderCtx) -> (r: Result<
    (),
    ConvertError,
>)
    ensures
        r is Ok <==> blocks_ok(blocks_v(item.blocks@)),
        r is Ok ==> final(out)@ == old(out)@ + "<li>"@ + inlines_html(inlines_v(item.principal@))
            + item_blocks_html(ctx.cv(), blocks_v(item.blocks@)) + "</li>\n"@,
        r matches Err(e) ==> mismatch(e),
    decreases *item,
{
    push_str(out, "<li>");
    write_inlines(out, item.principal.as_slice());
    proof {
        assert(decreases_to!(*item => item.blocks));
        assert(decreases_to!(item.blocks => item.blocks@));
    }
    let r = render_item_blocks(out, item.blocks.as_slice(), ctx);
    if r.is_err() {
        return r;
    }
    push_str(out, "</li>\n");
    Ok(())
}

fn render_list(out: &mut String, l: &List, ctx: &RenderCtx) -> (r: Result<(), ConvertError>)
    ensures
        r is Ok <==> block_ok(block_v(Block::List(*l))),
        r is Ok ==> final(out)@ == old(out)@ + block_html(ctx.cv(), block_v(Block::List(*l))),
        r matches Err(e) ==> mismatch(e),
    decreases *l,
{
    let tag: &str = match l.marker {
        ListMarker::Unordered => "ul",
        ListMarker::Ordered => "ol",
    };
    write_title(out, &l.meta);
    let attrs = meta_attrs(&l.meta);
    let ghost all = list_items_v(l.items@);
    proof {
        lemma_list_items_v(l.items@);
    }
    let ghost start = out@;
    assert(all.skip(0) =~= all);
    let ghost close_s = "</"@ + tag@ + ">\n"@;
    let mut depth: u8 = 0;
    let mut used = false;
    let mut k: usize = 0;
    while k < l.items.len()
        invariant
            k <= l.items.len(),
            all == list_items_v(l.items@),
            all.len() == l.items@.len(),
            forall|j: int|
                0 <= j < l.items@.len() ==> #[trigger] all[j] == (crate::ast::ListItemV {
                    depth: l.items@[j].depth,
                    principal: inlines_v(l.items@[j].principal@),
                    blocks: blocks_v(l.items@[j].blocks@),
                }),
            start + items_html(ctx.cv(), tag@, attrs@, all, 0, false) == out@ + items_html(
                ctx.cv(),
                tag@,
                attrs@,
                all.skip(k as int),
                depth as nat,
                used,
            ),
            items_ok(all) == items_ok(all.skip(k as int)),
        decreases l.items.len() - k,
    {
        let item = &l.items[k];
        let d = item.depth;
        let ghost before = out@;
        let ghost t = all.skip(k as int);
        proof {
            assert(t[0] == all[k as int]);
            assert(t.subrange(1, t.len() as int) =~= all.skip(k + 1));
        }
        write_list_moves(out, tag, attrs.as_str(), depth, d, used);
        proof {
            assert(decreases_to!(*l => l.items));
            assert(decreases_to!(l.items => l.items@));
            assert(decreases_to!(l.items@ => l.items@[k as int]));
        }
        let r = render_list_item(out, item, ctx);
        if r.is_err() {
            return r;
        }
        proof {
            assert(out@ + items_html(ctx.cv(), tag@, attrs@, all.skip(k + 1), d as nat, used || depth < d)
                =~= before + items_html(ctx.cv(), tag@, attrs@, t, depth as nat, used));
        }
        used = used || depth < d;
        depth = d;
        k += 1;
    }
    let ghost before = out@;
    let mut e: u8 = depth;
    while e > 0
        invariant
            e <= depth,
            close_s == "</"@ + tag@ + ">\n"@,
            out@ == before + rep(close_s, (depth - e) as nat),
        decreases e,
    {
        push_str(out, "</");
        push_str(out, tag);
        push_str(out, ">\n");
        proof {
            lemma_rep_snoc(close_s, (depth - e) as nat);
        }
        e -= 1;
    }
    assert(all.skip(l.items.len() as int) =~= Seq::<crate::ast::ListItemV>::empty());
    assert(final(out)@ =~= old(out)@ + block_html(ctx.cv(), block_v(Block::List(*l))));
    Ok(())
}

fn render_description_list(out: &mut String, d: &DescriptionList, ctx: &RenderCtx) -> (r: Result<
    (),
    ConvertError,
>)
    ensures
        r is Ok <==> block_ok(block_v(Block::DescriptionList(*d))),
        r is Ok ==> final(out)@ == old(out)@ + block_html(
            ctx.cv(),
            block_v(Block::DescriptionList(*d)),
        ),
        r matches Err(e) ==> mismatch(e),
    decreases *d,
{
    write_title(out, &d.meta);
    push_str(out, "<dl");
    write_meta_attrs(out, &d.meta);
    push_str(out, ">\n");
    let ghost all = dlist_items_v(d.items@);
    proof {
        lemma_dlist_items_v(d.items@);
    }
    let ghost start = out@;
    assert(all.skip(0) =~= all);
    let mut k: usize = 0;
    while k < d.items.len()
        invariant
            k <= d.items.len(),
            all == dlist_items_v(d.items@),
            all.len() == d.items@.len(),
            forall|j: int|
                0 <= j < d.items@.len() ==> #[trigger] all[j] == (crate::ast::DlistItemV {
                    term: inlines_v(d.items@[j].term@),
                    description: blocks_v(d.items@[j].description@),
                }),
            start + ditems_html(ctx.cv(), all) == out@ + ditems_html(ctx.cv(), all.skip(k as int)),
            ditems_ok(all) == ditems_ok(all.skip(k as int)),
        decreases d.items.len() - k,
    {
        let item = &d.items[k];
        let ghost before = out@;
        let ghost t = all.skip(k as int);
        proof {
            assert(t[0] == all[k as int]);
            assert(t.subrange(1, t.len() as int) =~= all.skip(k + 1));
        }
        push_str(out, "<dt>");
        write_inlines(out, item.term.as_slice());
        push_str(out, "</dt>\n");
        push_str(out, "<dd>");
        proof {
            assert(decreases_to!(*d => d.items));
            assert(decreases_to!(d.items => d.items@));
            assert(decreases_to!(d.items@ => d.items@[k as int]));
            assert(decreases_to!(d.items@[k as int] => d.items@[k as int].description));
            assert(decreases_to!(d.items@[k as int].description => d.items@[k as int].description@));
        }
        let r = render_blocks(out, item.description.as_slice(), ctx);
        if r.is_err() {
            return r;
        }
        push_str(out, "</dd>\n");
        proof {
            assert(out@ + ditems_html(ctx.cv(), all.skip(k + 1)) =~= before + ditems_html(
                ctx.cv(),
                t,
            ));
        }
        k += 1;
    }
    assert(all.skip(d.items.len() as int) =~= Seq::<crate::ast::DlistItemV>::empty());
    push_str(out, "</dl>\n");
    assert(final(out)@ =~= old(out)@ + block_html(ctx.cv(), block_v(Block::DescriptionList(*d))));
    Ok(())
}

/// Appends `<pre…>…</pre>` bodies: the raw text escaped, callout markers
/// turned into badges.
fn push_listing_body(out: &mut String, text: &str)
    ensures
        final(out)@ == old(out)@ + crate::convert::html5::escape::conums_from(
            crate::convert::html5::escape::escape_html(text@),
            0,
        ),
{
    let esc = escape(text);
    let body = substitute_conums(esc.as_str());
    push_str(out, body.as_str());
}

fn write_delimited_open(out: &mut String, style: DelimitedStyle, meta: &BlockMeta)
    ensures
        final(out)@ == old(out)@ + delimited_open(style, meta@),
{
    match admonition_keyword(meta) {
        Some(kw) => write_admonition_open(out, meta, kw),
        None => {
            write_title(out, meta);
            match style {
                DelimitedStyle::Example => {
                    push_str(out, "<div");
                    write_id_attr(out, meta);
                    write_class_with(out, "example", &meta.roles);
                },
                DelimitedStyle::Quote => {
                    push_str(out, "<blockquote");
                    write_meta_attrs(out, meta);
                },
                DelimitedStyle::Sidebar => {
                    push_str(out, "<aside");
                    write_meta_attrs(out, meta);
                },
                _ => {
                    push_str(out, "<div");
                    write_meta_attrs(out, meta);
                },
            }
            push_str(out, ">\n");
        },
    }
    assert(final(out)@ =~= old(out)@ + delimited_open(style, meta@));
}

fn write_delimited_close(out: &mut String, style: DelimitedStyle, meta: &BlockMeta)
    ensures
        final(out)@ == old(out)@ + delimited_close(style, meta@),
{
    match admonition_keyword(meta) {
        Some(_) => push_str(out, "</div>\n</div>\n"),
        None => match style {
            DelimitedStyle::Quote => push_str(out, "</blockquote>\n"),
            DelimitedStyle::Sidebar => push_str(out, "</aside>\n"),
            _ => push_str(out, "</div>\n"),
        },
    }
}

#[verifier::spinoff_prover]
#[verifier::rlimit(60)]
fn write_raw(out: &mut String, style: DelimitedStyle, text: &str, meta: &BlockMeta)
    ensures
        final(out)@ == old(out)@ + raw_html(style, text@, meta@),
{
    write_title(out, meta);
    match style {
        DelimitedStyle::Listing => {
            push_str(out, "<pre");
            write_meta_attrs(out, meta);
            let lang = source_lang(meta);
            match &lang {
                Some(l) => {
                    push_str(out, " data-lang=\"");
                    push_escaped_attr(out, l.as_str());
                    push_str(out, "\"");
                },
                None => {},
            }
            push_str(out, "><code");
            match &lang {
                Some(l) => {
                    push_str(out, " class=\"language-");
                    push_escaped_attr(out, l.as_str());
                    push_str(out, "\"");
                },
                None => {},
            }
            push_str(out, ">");
            push_listing_body(out, text);
            push_str(out, "</code></pre>\n");
        },
        DelimitedStyle::Literal => {
            push_str(out, "<pre");
            write_meta_attrs(out, meta);
            push_str(out, ">");
            push_listing_body(out, text);
            push_str(out, "</pre>\n");
        },
        _ => {
            push_str(out, text);
            push_str(out, "\n");
        },
    }
    assert(final(out)@ =~= old(out)@ + raw_html(style, text@, meta@));
}

fn render_delimited(out: &mut String, d: &DelimitedBlock, ctx: &RenderCtx) -> (r: Result<
    (),
    ConvertError,
>)
    ensures
        r is Ok <==> block_ok(block_v(Block::Delimited(*d))),
        r is Ok ==> final(out)@ == old(out)@ + block_html(ctx.cv(), block_v(Block::Delimited(*d))),
        r matches Err(e) ==> mismatch(e),
    decreases *d,
{
    match &d.content {
        DelimitedContent::Blocks { blocks } => {
            let is_adm = admonition_keyword(&d.meta).is_some();
            let takes_blocks = match d.style {
                DelimitedStyle::Example | DelimitedStyle::Quote | DelimitedStyle::Sidebar
                | DelimitedStyle::Open => true,
                _ => false,
            };
            if !is_adm && !takes_blocks {
                return Err(mismatch_error());
            }
            proof {
                assert(decreases_to!(*d => d.content));
                assert(decreases_to!(d.content => (d.content)->Blocks_blocks));
                assert(decreases_to!((d.content)->Blocks_blocks => (d.content)->Blocks_blocks@));
            }
            write_delimited_open(out, d.style, &d.meta);
            let r = render_blocks(out, blocks.as_slice(), ctx);
            if r.is_err() {
                return r;
            }
            write_delimited_close(out, d.style, &d.meta);
            proof {
                let o = delimited_open(d.style, d.meta@);
                let bh = blocks_html(ctx.cv(), blocks_v(blocks@));
                let c = delimited_close(d.style, d.meta@);
                assert(block_html(ctx.cv(), block_v(Block::Delimited(*d))) == o + bh + c);
                assert(final(out)@ =~= old(out)@ + (o + bh + c));
            }
        },
        DelimitedContent::Raw { text } => {
            let ok = match d.style {
                DelimitedStyle::Listing | DelimitedStyle::Literal | DelimitedStyle::Passthrough => true,
                _ => false,
            };
            if !ok {
                return Err(mismatch_error());
            }
            write_raw(out, d.style, text.as_str(), &d.meta);
        },
    }
    Ok(())
}

fn render_colist(out: &mut String, c: &Colist)
    ensures
        forall|x: crate::convert::html5::model::CtxV|
            final(out)@ == old(out)@ + #[trigger] block_html(x, block_v(Block::Colist(*c))),
{
    write_title(out, &c.meta);
    push_str(out, "<ol class=\"colist\">\n");
    let ghost all = colist_items_v(c.items@);
    let ghost start = out@;
    assert(all.skip(0) =~= all);
    let mut k: usize = 0;
    while k < c.items.len()
        invariant
            k <= c.items.len(),
            all == colist_items_v(c.items@),
            start + colist_html(all) == out@ + colist_html(all.skip(k as int)),
        decreases c.items.len() - k,
    {
        let ghost before = out@;
        let ghost t = all.skip(k as int);
        proof {
            assert(t[0] == all[k as int]);
            assert(t.subrange(1, t.len() as int) =~= all.skip(k + 1));
        }
        push_str(out, "<li value=\"");
        push_decimal(out, c.items[k].number as u128);
        push_str(out, "\">");
        write_inlines(out, c.items[k].inlines.as_slice());
        push_str(out, "</li>\n");
        proof {
            assert(out@ + colist_html(all.skip(k + 1)) =~= before + colist_html(t));
        }
        k += 1;
    }
    assert(all.skip(c.items.len() as int) =~= Seq::<(u32, Seq<crate::ast::InlineV>)>::empty());
    push_str(out, "</ol>\n");
    assert forall|x: crate::convert::html5::model::CtxV|
        final(out)@ == old(out)@ + #[trigger] block_html(x, block_v(Block::Colist(*c))) by {
        assert(final(out)@ =~= old(out)@ + block_html(x, block_v(Block::Colist(*c))));
    }
}

fn render_discrete_heading(out: &mut String, d: &DiscreteHeading)
    ensures
        forall|x: crate::convert::html5::model::CtxV|
            final(out)@ == old(out)@ + #[trigger] block_html(
                x,
                block_v(Block::DiscreteHeading(*d)),
            ),
{
    let tag = tag_for_level(d.level);
    push_str(out, "<");
    push_str(out, tag);
    write_id_attr(out, &d.meta);
    write_class_with(out, "discrete", &d.meta.roles);
    push_str(out, ">");
    write_inlines(out, d.title.as_slice());
    push_str(out, "</");
    push_str(out, tag);
    push_str(out, ">\n");
    assert forall|x: crate::convert::html5::model::CtxV|
        final(out)@ == old(out)@ + #[trigger] block_html(x, block_v(Block::DiscreteHeading(*d))) by {
        assert(final(out)@ =~= old(out)@ + block_html(x, block_v(Block::DiscreteHeading(*d))));
    }
}

} // verus!
