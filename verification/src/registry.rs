//! Document-wide ID registry and title-based cross-reference resolution.
use vstd::prelude::*;

use crate::ast::{
    block_v, blocks_v, cells_v, colist_items_v, dlist_items_v, inline_v, inlines_v, list_items_v,
    rows_v, Block, BlockMeta, BlockV, CellV, Colist, ColistItem, ContentV, DelimitedBlock,
    DelimitedContent, DescriptionList, DescriptionListItem, DiscreteHeading, DlistItemV, Document,
    Inline, InlineV, List, ListItem, ListItemV, MetaV, Paragraph, RowV, Section, Table, TableCell,
    TableRow,
};
use crate::strmap::{lemma_seq_lt_irrefl, seq_lt, sorted_keys, StrMap};
use crate::strmap::StrSet;
use crate::text::{chars_of, find_char, find_char_in, starts_with_at, starts_with_lit, string_of, sub_vec};

verus! {

// ---------------------------------------------------------------------------
// ids in raw HTML
// ---------------------------------------------------------------------------

/// Every non-empty `id="…"` value in `html`, scanning from `i`.
pub open spec fn scan_ids_from(html: Seq<char>, i: int) -> Set<Seq<char>>
    decreases html.len() - i,
{
    if i < 0 || i + 4 > html.len() {
        Set::empty()
    } else if html.subrange(i, i + 4) == seq!['i', 'd', '=', '"'] {
        match find_char(html.skip(i + 4), '"') {
            Some(e) => if e < 0 || i + 4 + e >= html.len() {
                Set::empty()
            } else {
                let id = html.subrange(i + 4, i + 4 + e);
                let here = if id.len() > 0 {
                    set![id]
                } else {
                    Set::empty()
                };
                here.union(scan_ids_from(html, i + 4 + e + 1))
            },
            None => scan_ids_from(html, i + 1),
        }
    } else {
        scan_ids_from(html, i + 1)
    }
}

fn scan_id_attrs(ids: &mut StrSet, html: &[char])
    ensures
        final(ids)@ == old(ids)@.union(scan_ids_from(html@, 0)),
{
    proof {
        reveal_strlit("id=\"");
        assert("id=\""@ =~= seq!['i', 'd', '=', '"']);
    }
    let mut i: usize = 0;
    while i < html.len()
        invariant
            i <= html.len(),
            "id=\""@ == seq!['i', 'd', '=', '"'],
            ids@.union(scan_ids_from(html@, i as int)) == old(ids)@.union(scan_ids_from(html@, 0)),
        decreases html.len() - i,
    {
        let hit = starts_with_lit(html, i, "id=\"");
        assert(html@.skip(i as int).take(4) =~= html@.subrange(i as int, i + 4) || i + 4 > html.len());
        if hit {
            let start = i + 4;
            match find_char_in(html, '"', start, html.len()) {
                Some(end) => {
                    assert(html@.subrange(start as int, html.len() as int) =~= html@.skip(start as int));
                    let id = sub_vec(html, start, end);
                    let ghost before = ids@;
                    if id.len() > 0 {
                        ids.insert(string_of(id.as_slice()));
                    }
                    proof {
                        let here = if id@.len() > 0 {
                            set![id@]
                        } else {
                            Set::empty()
                        };
                        assert(ids@ =~= before.union(here));
                        assert(ids@.union(scan_ids_from(html@, end + 1)) =~= before.union(
                            scan_ids_from(html@, i as int),
                        ));
                    }
                    i = end + 1;
                    continue;
                },
                None => {
                    assert(html@.subrange(start as int, html.len() as int) =~= html@.skip(start as int));
                },
            }
        }
        i += 1;
    }
    assert(scan_ids_from(html@, i as int) =~= Set::<Seq<char>>::empty());
    assert(ids@.union(Set::<Seq<char>>::empty()) =~= ids@);
}

// ---------------------------------------------------------------------------
// ids in a document
// ---------------------------------------------------------------------------

pub open spec fn meta_ids(m: MetaV) -> Set<Seq<char>> {
    match m.id {
        Some(id) => set![id],
        None => Set::empty(),
    }
}

pub open spec fn ids_inlines(s: Seq<InlineV>) -> Set<Seq<char>>
    decreases s,
{
    if s.len() == 0 {
        Set::empty()
    } else {
        ids_inlines(s.drop_last()).union(ids_inline(s.last()))
    }
}

pub open spec fn ids_inline(i: InlineV) -> Set<Seq<char>>
    decreases i,
{
    match i {
        InlineV::Wrapped(_, c) => ids_inlines(c),
        InlineV::Link { text, .. } => ids_inlines(text),
        InlineV::Footnote { text, .. } => ids_inlines(text),
        InlineV::Xref { text, .. } => match text {
            Some(t) => ids_inlines(t),
            None => Set::empty(),
        },
        InlineV::RawHtml(v) => scan_ids_from(v, 0),
        _ => Set::empty(),
    }
}

pub open spec fn ids_blocks(bs: Seq<BlockV>) -> Set<Seq<char>>
    decreases bs,
{
    if bs.len() == 0 {
        Set::empty()
    } else {
        ids_blocks(bs.drop_last()).union(ids_block(bs.last()))
    }
}

pub open spec fn ids_items(s: Seq<ListItemV>) -> Set<Seq<char>>
    decreases s,
{
    if s.len() == 0 {
        Set::empty()
    } else {
        ids_items(s.drop_last()).union(ids_inlines(s.last().principal)).union(
            ids_blocks(s.last().blocks),
        )
    }
}

pub open spec fn ids_ditems(s: Seq<DlistItemV>) -> Set<Seq<char>>
    decreases s,
{
    if s.len() == 0 {
        Set::empty()
    } else {
        ids_ditems(s.drop_last()).union(ids_inlines(s.last().term)).union(
            ids_blocks(s.last().description),
        )
    }
}

pub open spec fn ids_cells(s: Seq<CellV>) -> Set<Seq<char>>
    decreases s,
{
    if s.len() == 0 {
        Set::empty()
    } else {
        ids_cells(s.drop_last()).union(ids_inlines(s.last().inlines)).union(
            ids_blocks(s.last().blocks),
        )
    }
}

pub open spec fn ids_rows(s: Seq<RowV>) -> Set<Seq<char>>
    decreases s,
{
    if s.len() == 0 {
        Set::empty()
    } else {
        ids_rows(s.drop_last()).union(ids_cells(s.last().cells))
    }
}

pub open spec fn ids_colist(s: Seq<(u32, Seq<InlineV>)>) -> Set<Seq<char>>
    decreases s,
{
    if s.len() == 0 {
        Set::empty()
    } else {
        ids_colist(s.drop_last()).union(ids_inlines(s.last().1))
    }
}

/// Every id a block declares: its metadata id, inline anchors, and the ids
/// of everything nested in it.
pub open spec fn ids_block(b: BlockV) -> Set<Seq<char>>
    decreases b,
{
    match b {
        BlockV::Section { title, blocks, meta, .. } => meta_ids(meta).union(ids_inlines(title)).union(
            ids_blocks(blocks),
        ),
        BlockV::Paragraph { inlines, meta, .. } => meta_ids(meta).union(ids_inlines(inlines)),
        BlockV::List { items, meta, .. } => meta_ids(meta).union(ids_items(items)),
        BlockV::DescriptionList { items, meta, .. } => meta_ids(meta).union(ids_ditems(items)),
        BlockV::Delimited { content, meta, .. } => meta_ids(meta).union(
            match content {
                ContentV::Blocks(bs) => ids_blocks(bs),
                ContentV::Raw(_) => Set::empty(),
            },
        ),
        BlockV::Table { rows, meta, .. } => meta_ids(meta).union(ids_rows(rows)),
        BlockV::Colist { items, meta, .. } => meta_ids(meta).union(ids_colist(items)),
        BlockV::DiscreteHeading { title, meta, .. } => meta_ids(meta).union(ids_inlines(title)),
    }
}


/// Doc-wide ID registry — every section, block, inline anchor and
/// bibliography id, collected in one walk so cross-reference resolution
/// and validation need not walk the tree again.
pub struct IdRegistry {
    ids: StrSet,
}

impl IdRegistry {
    /// The registered ids.
    pub closed spec fn view(&self) -> Set<Seq<char>> {
        self.ids@
    }

    pub fn collect(doc: &Document) -> (res: Self)
        ensures
            res@ == ids_blocks(blocks_v(doc.blocks@)),
    {
        let mut ids = StrSet::new();
        walk_blocks(&mut ids, doc.blocks.as_slice());
        assert(ids@ =~= ids_blocks(blocks_v(doc.blocks@)));
        IdRegistry { ids }
    }

    pub fn contains(&self, id: &str) -> (res: bool)
        ensures
            res == self@.contains(id@),
    {
        self.ids.contains(id)
    }

    /// The ids in ascending order, each once.
    pub fn ids(&self) -> (res: Vec<String>)
        ensures
            forall|q: Seq<char>| self@.contains(q) <==> res@.map_values(|s: String| s@).contains(q),
            sorted_keys(res@.map_values(|s: String| s@)),
            forall|i: int, j: int|
                0 <= i < j < res@.len() ==> #[trigger] res@[i]@ != #[trigger] res@[j]@,
    {
        let v = self.ids.to_vec();
        proof {
            let ks = v@.map_values(|s: String| s@);
            assert forall|i: int, j: int| 0 <= i < j < v@.len() implies #[trigger] v@[i]@
                != #[trigger] v@[j]@ by {
                assert(seq_lt(ks[i], ks[j]));
                lemma_seq_lt_irrefl(ks[i]);
            }
        }
        v
    }
}

fn add_meta(ids: &mut StrSet, meta: &BlockMeta)
    ensures
        final(ids)@ == old(ids)@.union(meta_ids(crate::ast::meta_v(*meta))),
{
    if let Some(id) = &meta.id {
        ids.insert(id.clone());
    }
    assert(ids@ =~= old(ids)@.union(meta_ids(crate::ast::meta_v(*meta))));
}

fn walk_inlines(ids: &mut StrSet, inlines: &[Inline])
    ensures
        final(ids)@ == old(ids)@.union(ids_inlines(inlines_v(inlines@))),
    decreases inlines@,
{
    let mut i: usize = 0;
    while i < inlines.len()
        invariant
            i <= inlines.len(),
            ids@ == old(ids)@.union(ids_inlines(inlines_v(inlines@.take(i as int)))),
        decreases inlines.len() - i,
    {
        proof {
            assert(decreases_to!(inlines@ => inlines@[i as int]));
        }
        walk_inline(ids, &inlines[i]);
        proof {
            let t = inlines@.take(i as int);
            assert(inlines@.take(i + 1) =~= t.push(inlines@[i as int]));
            crate::ast::lemma_inlines_v_push(t, inlines@[i as int]);
            assert(inlines_v(t).push(inline_v(inlines@[i as int])).drop_last() =~= inlines_v(t));
            assert(ids@ =~= old(ids)@.union(ids_inlines(inlines_v(inlines@.take(i + 1)))));
        }
        i += 1;
    }
    assert(inlines@.take(inlines.len() as int) =~= inlines@);
}

fn walk_inline(ids: &mut StrSet, i: &Inline)
    ensures
        final(ids)@ == old(ids)@.union(ids_inline(inline_v(*i))),
    decreases *i,
{
    match i {
        Inline::Strong { children }
        | Inline::Emphasis { children }
        | Inline::Monospace { children }
        | Inline::Subscript { children }
        | Inline::Superscript { children }
        | Inline::Highlight { children } => walk_inlines(ids, children.as_slice()),
        Inline::Link { text, .. } => walk_inlines(ids, text.as_slice()),
        Inline::Footnote { text, .. } => walk_inlines(ids, text.as_slice()),
        Inline::Xref { text, .. } => {
            match text {
                Some(t) => walk_inlines(ids, t.as_slice()),
                None => {
                    assert(ids@ =~= old(ids)@.union(Set::<Seq<char>>::empty()));
                },
            }
        },
        Inline::RawHtml { value } => {
            let v = chars_of(value.as_str());
            scan_id_attrs(ids, v.as_slice());
        },
        _ => {
            assert(ids@ =~= old(ids)@.union(Set::<Seq<char>>::empty()));
        },
    }
}

fn walk_blocks(ids: &mut StrSet, blocks: &[Block])
    ensures
        final(ids)@ == old(ids)@.union(ids_blocks(blocks_v(blocks@))),
    decreases blocks@,
{
    let mut i: usize = 0;
    while i < blocks.len()
        invariant
            i <= blocks.len(),
            ids@ == old(ids)@.union(ids_blocks(blocks_v(blocks@.take(i as int)))),
        decreases blocks.len() - i,
    {
        proof {
            assert(decreases_to!(blocks@ => blocks@[i as int]));
        }
        walk_block(ids, &blocks[i]);
        proof {
            let t = blocks@.take(i as int);
            assert(blocks@.take(i + 1) =~= t.push(blocks@[i as int]));
            crate::ast::lemma_blocks_v_push(t, blocks@[i as int]);
            assert(blocks_v(t).push(block_v(blocks@[i as int])).drop_last() =~= blocks_v(t));
            assert(ids@ =~= old(ids)@.union(ids_blocks(blocks_v(blocks@.take(i + 1)))));
        }
        i += 1;
    }
    assert(blocks@.take(blocks.len() as int) =~= blocks@);
}

fn walk_block(ids: &mut StrSet, b: &Block)
    ensures
        final(ids)@ == old(ids)@.union(ids_block(block_v(*b))),
    decreases *b,
{
    match b {
        Block::Section(s) => {
            add_meta(ids, &s.meta);
            walk_inlines(ids, s.title.as_slice());
            walk_blocks(ids, s.blocks.as_slice());
        },
        Block::Paragraph(p) => {
            add_meta(ids, &p.meta);
            walk_inlines(ids, p.inlines.as_slice());
        },
        Block::List(l) => {
            add_meta(ids, &l.meta);
            let ghost base = ids@;
            let mut k: usize = 0;
            while k < l.items.len()
                invariant
                    k <= l.items.len(),
                    ids@ == base.union(ids_items(crate::ast::list_items_v(l.items@.take(k as int)))),
                    *b == Block::List(*l),
                decreases l.items.len() - k,
            {
                let item = &l.items[k];
                walk_inlines(ids, item.principal.as_slice());
                proof {
                    assert(decreases_to!(*b => (*b)->List_0));
                    assert(decreases_to!((*b)->List_0 => (*b)->List_0.items));
                    assert(decreases_to!((*b)->List_0.items => (*b)->List_0.items@));
                    assert(decreases_to!((*b)->List_0.items@ => (*b)->List_0.items@[k as int]));
                    assert(decreases_to!((*b)->List_0.items@[k as int] => (*b)->List_0.items@[k as int].blocks));
                    assert(decreases_to!((*b)->List_0.items@[k as int].blocks => (*b)->List_0.items@[k as int].blocks@));
                }
                walk_blocks(ids, item.blocks.as_slice());
                proof {
                    assert(l.items@.take(k + 1).drop_last() =~= l.items@.take(k as int));
                    assert(list_items_v(l.items@.take(k + 1)).drop_last() =~= list_items_v(l.items@.take(k as int)));
                    assert(ids@ =~= base.union(ids_items(crate::ast::list_items_v(l.items@.take(k + 1)))));
                }
                k += 1;
            }
            assert(l.items@.take(l.items.len() as int) =~= l.items@);
        },
        Block::DescriptionList(d) => {
            add_meta(ids, &d.meta);
            let ghost base = ids@;
            let mut k: usize = 0;
            while k < d.items.len()
                invariant
                    k <= d.items.len(),
                    ids@ == base.union(ids_ditems(crate::ast::dlist_items_v(d.items@.take(k as int)))),
                    *b == Block::DescriptionList(*d),
                decreases d.items.len() - k,
            {
                let item = &d.items[k];
                walk_inlines(ids, item.term.as_slice());
                proof {
                    assert(decreases_to!(*b => (*b)->DescriptionList_0));
                    assert(decreases_to!((*b)->DescriptionList_0 => (*b)->DescriptionList_0.items));
                    assert(decreases_to!((*b)->DescriptionList_0.items => (*b)->DescriptionList_0.items@));
                    assert(decreases_to!((*b)->DescriptionList_0.items@ => (*b)->DescriptionList_0.items@[k as int]));
                    assert(decreases_to!((*b)->DescriptionList_0.items@[k as int] => (*b)->DescriptionList_0.items@[k as int].description));
                    assert(decreases_to!((*b)->DescriptionList_0.items@[k as int].description => (*b)->DescriptionList_0.items@[k as int].description@));
                }
                walk_blocks(ids, item.description.as_slice());
                proof {
                    assert(d.items@.take(k + 1).drop_last() =~= d.items@.take(k as int));
                    assert(dlist_items_v(d.items@.take(k + 1)).drop_last() =~= dlist_items_v(d.items@.take(k as int)));
                    assert(ids@ =~= base.union(ids_ditems(crate::ast::dlist_items_v(d.items@.take(k + 1)))));
                }
                k += 1;
            }
            assert(d.items@.take(d.items.len() as int) =~= d.items@);
        },
        Block::Delimited(d) => {
            add_meta(ids, &d.meta);
            match &d.content {
                DelimitedContent::Blocks { blocks } => walk_blocks(ids, blocks.as_slice()),
                DelimitedContent::Raw { .. } => {
                    assert(ids@ =~= ids@.union(Set::<Seq<char>>::empty()));
                },
            }
        },
        Block::Table(t) => {
            add_meta(ids, &t.meta);
            let ghost base = ids@;
            let mut r: usize = 0;
            while r < t.rows.len()
                invariant
                    r <= t.rows.len(),
                    ids@ == base.union(ids_rows(crate::ast::rows_v(t.rows@.take(r as int)))),
                    *b == Block::Table(*t),
                decreases t.rows.len() - r,
            {
                let row = &t.rows[r];
                let ghost rbase = ids@;
                let mut c: usize = 0;
                while c < row.cells.len()
                    invariant
                        c <= row.cells.len(),
                        ids@ == rbase.union(ids_cells(crate::ast::cells_v(row.cells@.take(c as int)))),
                        *b == Block::Table(*t),
                        r < t.rows@.len(),
                        *row == t.rows@[r as int],
                    decreases row.cells.len() - c,
                {
                    let cell = &row.cells[c];
                    walk_inlines(ids, cell.inlines.as_slice());
                    proof {
                        assert(decreases_to!(*b => (*b)->Table_0));
                        assert(decreases_to!((*b)->Table_0 => (*b)->Table_0.rows));
                        assert(decreases_to!((*b)->Table_0.rows => (*b)->Table_0.rows@));
                        assert(decreases_to!((*b)->Table_0.rows@ => (*b)->Table_0.rows@[r as int]));
                        assert(decreases_to!((*b)->Table_0.rows@[r as int] => (*b)->Table_0.rows@[r as int].cells));
                        assert(decreases_to!((*b)->Table_0.rows@[r as int].cells => (*b)->Table_0.rows@[r as int].cells@));
                        assert(decreases_to!((*b)->Table_0.rows@[r as int].cells@ => (*b)->Table_0.rows@[r as int].cells@[c as int]));
                        assert(decreases_to!((*b)->Table_0.rows@[r as int].cells@[c as int] => (*b)->Table_0.rows@[r as int].cells@[c as int].blocks));
                        assert(decreases_to!((*b)->Table_0.rows@[r as int].cells@[c as int].blocks => (*b)->Table_0.rows@[r as int].cells@[c as int].blocks@));
                    }
                    walk_blocks(ids, cell.blocks.as_slice());
                    proof {
                        assert(row.cells@.take(c + 1).drop_last() =~= row.cells@.take(c as int));
                        assert(cells_v(row.cells@.take(c + 1)).drop_last() =~= cells_v(row.cells@.take(c as int)));
                        assert(ids@ =~= rbase.union(ids_cells(crate::ast::cells_v(row.cells@.take(c + 1)))));
                    }
                    c += 1;
                }
                proof {
                    assert(row.cells@.take(row.cells.len() as int) =~= row.cells@);
                    assert(t.rows@.take(r + 1).drop_last() =~= t.rows@.take(r as int));
                    assert(rows_v(t.rows@.take(r + 1)).drop_last() =~= rows_v(t.rows@.take(r as int)));
                    assert(ids@ =~= base.union(ids_rows(crate::ast::rows_v(t.rows@.take(r + 1)))));
                }
                r += 1;
            }
            assert(t.rows@.take(t.rows.len() as int) =~= t.rows@);
        },
        Block::Colist(cl) => {
            add_meta(ids, &cl.meta);
            let ghost base = ids@;
            let mut k: usize = 0;
            while k < cl.items.len()
                invariant
                    k <= cl.items.len(),
                    ids@ == base.union(ids_colist(crate::ast::colist_items_v(cl.items@.take(k as int)))),
                    *b == Block::Colist(*cl),
                decreases cl.items.len() - k,
            {
                walk_inlines(ids, cl.items[k].inlines.as_slice());
                proof {
                    let v = crate::ast::colist_items_v(cl.items@.take(k + 1));
                    assert(v.drop_last() =~= crate::ast::colist_items_v(cl.items@.take(k as int)));
                    assert(ids@ =~= base.union(ids_colist(v)));
                }
                k += 1;
            }
            assert(cl.items@.take(cl.items.len() as int) =~= cl.items@);
        },
        Block::DiscreteHeading(d) => {
            add_meta(ids, &d.meta);
            walk_inlines(ids, d.title.as_slice());
        },
    }
    assert(ids@ =~= old(ids)@.union(ids_block(block_v(*b))));
}


// ---------------------------------------------------------------------------
// title-based cross references
// ---------------------------------------------------------------------------

/// Section titles (trimmed plain text) to ids, and the set of section
/// ids, collected from sections that have an id; the first section with a
/// given title wins. Only sections are entered.
pub open spec fn collect_titles(
    bs: Seq<BlockV>,
    t2i: Map<Seq<char>, Seq<char>>,
    ex: Set<Seq<char>>,
) -> (Map<Seq<char>, Seq<char>>, Set<Seq<char>>)
    decreases bs,
{
    if bs.len() == 0 {
        (t2i, ex)
    } else {
        let (m1, e1) = collect_titles(bs.drop_last(), t2i, ex);
        collect_title(bs.last(), m1, e1)
    }
}

pub open spec fn collect_title(b: BlockV, t2i: Map<Seq<char>, Seq<char>>, ex: Set<Seq<char>>) -> (
    Map<Seq<char>, Seq<char>>,
    Set<Seq<char>>,
)
    decreases b,
{
    match b {
        BlockV::Section { title, blocks, meta, .. } => {
            let (m1, e1) = match meta.id {
                Some(id) => {
                    let tt = crate::text::trim(crate::ast::plain_seq(title));
                    (
                        if tt.len() > 0 && !t2i.contains_key(tt) {
                            t2i.insert(tt, id)
                        } else {
                            t2i
                        },
                        ex.insert(id),
                    )
                },
                None => (t2i, ex),
            };
            collect_titles(blocks, m1, e1)
        },
        _ => (t2i, ex),
    }
}

/// An xref whose target is no known id but some section's title points
/// at that section's id instead; without explicit text, the old target
/// becomes the link text.
pub open spec fn rw_inline(i: InlineV, t2i: Map<Seq<char>, Seq<char>>, ex: Set<Seq<char>>) -> InlineV
    decreases i,
{
    match i {
        InlineV::Xref { target, text } => {
            let hit = !ex.contains(target) && t2i.contains_key(target);
            InlineV::Xref {
                target: if hit {
                    t2i[target]
                } else {
                    target
                },
                text: match text {
                    Some(t) => Some(rw_inlines(t, t2i, ex)),
                    None => if hit {
                        Some(seq![InlineV::Text(target)])
                    } else {
                        None
                    },
                },
            }
        },
        InlineV::Wrapped(w, c) => InlineV::Wrapped(w, rw_inlines(c, t2i, ex)),
        InlineV::Link { href, text } => InlineV::Link { href, text: rw_inlines(text, t2i, ex) },
        InlineV::Footnote { id, text } => InlineV::Footnote { id, text: rw_inlines(text, t2i, ex) },
        _ => i,
    }
}

pub open spec fn rw_inlines(s: Seq<InlineV>, t2i: Map<Seq<char>, Seq<char>>, ex: Set<Seq<char>>) -> Seq<
    InlineV,
>
    decreases s,
{
    if s.len() == 0 {
        s
    } else {
        rw_inlines(s.drop_last(), t2i, ex).push(rw_inline(s.last(), t2i, ex))
    }
}

pub open spec fn rw_blocks(s: Seq<BlockV>, t2i: Map<Seq<char>, Seq<char>>, ex: Set<Seq<char>>) -> Seq<
    BlockV,
>
    decreases s,
{
    if s.len() == 0 {
        s
    } else {
        rw_blocks(s.drop_last(), t2i, ex).push(rw_block(s.last(), t2i, ex))
    }
}

pub open spec fn rw_items(s: Seq<ListItemV>, t2i: Map<Seq<char>, Seq<char>>, ex: Set<Seq<char>>) -> Seq<
    ListItemV,
>
    decreases s,
{
    if s.len() == 0 {
        s
    } else {
        let it = s.last();
        rw_items(s.drop_last(), t2i, ex).push(
            ListItemV {
                depth: it.depth,
                principal: rw_inlines(it.principal, t2i, ex),
                blocks: rw_blocks(it.blocks, t2i, ex),
            },
        )
    }
}

pub open spec fn rw_ditems(s: Seq<DlistItemV>, t2i: Map<Seq<char>, Seq<char>>, ex: Set<Seq<char>>) -> Seq<
    DlistItemV,
>
    decreases s,
{
    if s.len() == 0 {
        s
    } else {
        let it = s.last();
        rw_ditems(s.drop_last(), t2i, ex).push(
            DlistItemV {
                term: rw_inlines(it.term, t2i, ex),
                description: rw_blocks(it.description, t2i, ex),
            },
        )
    }
}

pub open spec fn rw_cells(s: Seq<CellV>, t2i: Map<Seq<char>, Seq<char>>, ex: Set<Seq<char>>) -> Seq<
    CellV,
>
    decreases s,
{
    if s.len() == 0 {
        s
    } else {
        let c = s.last();
        rw_cells(s.drop_last(), t2i, ex).push(
            CellV {
                inlines: rw_inlines(c.inlines, t2i, ex),
                blocks: rw_blocks(c.blocks, t2i, ex),
                ..c
            },
        )
    }
}

pub open spec fn rw_rows(s: Seq<RowV>, t2i: Map<Seq<char>, Seq<char>>, ex: Set<Seq<char>>) -> Seq<RowV>
    decreases s,
{
    if s.len() == 0 {
        s
    } else {
        let r = s.last();
        rw_rows(s.drop_last(), t2i, ex).push(RowV { cells: rw_cells(r.cells, t2i, ex), kind: r.kind })
    }
}

pub open spec fn rw_colist(
    s: Seq<(u32, Seq<InlineV>)>,
    t2i: Map<Seq<char>, Seq<char>>,
    ex: Set<Seq<char>>,
) -> Seq<(u32, Seq<InlineV>)>
    decreases s,
{
    if s.len() == 0 {
        s
    } else {
        rw_colist(s.drop_last(), t2i, ex).push((s.last().0, rw_inlines(s.last().1, t2i, ex)))
    }
}

/// Title-based xrefs rewritten in every inline of a block.
pub open spec fn rw_block(b: BlockV, t2i: Map<Seq<char>, Seq<char>>, ex: Set<Seq<char>>) -> BlockV
    decreases b,
{
    match b {
        BlockV::Section { level, title, blocks, location, meta } => BlockV::Section {
            level,
            title: rw_inlines(title, t2i, ex),
            blocks: rw_blocks(blocks, t2i, ex),
            location,
            meta,
        },
        BlockV::Paragraph { inlines, location, meta } => BlockV::Paragraph {
            inlines: rw_inlines(inlines, t2i, ex),
            location,
            meta,
        },
        BlockV::List { marker, items, location, meta } => BlockV::List {
            marker,
            items: rw_items(items, t2i, ex),
            location,
            meta,
        },
        BlockV::DescriptionList { items, location, meta } => BlockV::DescriptionList {
            items: rw_ditems(items, t2i, ex),
            location,
            meta,
        },
        BlockV::Delimited { style, content, location, meta } => BlockV::Delimited {
            style,
            content: match content {
                ContentV::Blocks(bs) => ContentV::Blocks(rw_blocks(bs, t2i, ex)),
                ContentV::Raw(r) => ContentV::Raw(r),
            },
            location,
            meta,
        },
        BlockV::Table { rows, cols, location, meta } => BlockV::Table {
            rows: rw_rows(rows, t2i, ex),
            cols,
            location,
            meta,
        },
        BlockV::Colist { items, location, meta } => BlockV::Colist {
            items: rw_colist(items, t2i, ex),
            location,
            meta,
        },
        BlockV::DiscreteHeading { level, title, location, meta } => BlockV::DiscreteHeading {
            level,
            title: rw_inlines(title, t2i, ex),
            location,
            meta,
        },
    }
}


fn collect_section_titles(blocks: &[Block], t2i: &mut StrMap<String>, ex: &mut StrSet)
    ensures
        (final(t2i)@, final(ex)@) == collect_titles(blocks_v(blocks@), old(t2i)@, old(ex)@),
    decreases blocks@,
{
    let mut i: usize = 0;
    while i < blocks.len()
        invariant
            i <= blocks.len(),
            (t2i@, ex@) == collect_titles(blocks_v(blocks@.take(i as int)), old(t2i)@, old(ex)@),
        decreases blocks.len() - i,
    {
        proof {
            assert(decreases_to!(blocks@ => blocks@[i as int]));
            let t = blocks@.take(i as int);
            assert(blocks@.take(i + 1) =~= t.push(blocks@[i as int]));
            crate::ast::lemma_blocks_v_push(t, blocks@[i as int]);
            assert(blocks_v(t).push(block_v(blocks@[i as int])).drop_last() =~= blocks_v(t));
        }
        let ghost m0 = t2i@;
        let ghost e0 = ex@;
        if let Block::Section(s) = &blocks[i] {
            if let Some(id) = &s.meta.id {
                ex.insert(id.clone());
                let plain = crate::ast::inlines_to_plain(s.title.as_slice());
                let pc = chars_of(plain.as_str());
                let tt = crate::text::trim_vec(pc.as_slice());
                let key = string_of(tt.as_slice());
                if tt.len() > 0 && !t2i.contains_key(key.as_str()) {
                    t2i.insert(key, id.clone());
                }
            }
            let ghost m1 = t2i@;
            let ghost e1 = ex@;
            collect_section_titles(s.blocks.as_slice(), t2i, ex);
            proof {
                let bv = block_v(blocks@[i as int]);
                assert(bv matches BlockV::Section { .. });
                assert((t2i@, ex@) == collect_titles(blocks_v(s.blocks@), m1, e1));
                assert((t2i@, ex@) == collect_title(bv, m0, e0));
            }
        } else {
            assert((t2i@, ex@) == collect_title(block_v(blocks@[i as int]), m0, e0));
        }
        i += 1;
    }
    assert(blocks@.take(blocks.len() as int) =~= blocks@);
}

fn rewrite_inlines(v: Vec<Inline>, t2i: &StrMap<String>, ex: &StrSet) -> (res: Vec<Inline>)
    ensures
        inlines_v(res@) == rw_inlines(inlines_v(v@), t2i@, ex@),
    decreases v@,
{
    let n = v.len();
    let ghost all = v@;
    let mut rest = crate::text::reversed(v);
    let mut out: Vec<Inline> = Vec::new();
    let mut k: usize = 0;
    while k < n
        invariant
            k <= n == all.len(),
            all == v@,
            rest@ == all.subrange(k as int, n as int).reverse(),
            inlines_v(out@) == rw_inlines(inlines_v(all.take(k as int)), t2i@, ex@),
        decreases n - k,
    {
        assert(rest@.len() == n - k);
        assert(rest@.last() == all[k as int]);
        let x = rest.pop().unwrap();
        assert(rest@ =~= all.subrange(k + 1, n as int).reverse());
        proof {
            assert(decreases_to!(all => all[k as int]));
        }
        let y = rewrite_inline(x, t2i, ex);
        let ghost prev = out@;
        out.push(y);
        proof {
            let t = all.take(k as int);
            assert(all.take(k + 1) =~= t.push(all[k as int]));
            crate::ast::lemma_inlines_v_push(t, all[k as int]);
            crate::ast::lemma_inlines_v_push(prev, y);
            assert(inlines_v(t).push(inline_v(all[k as int])).drop_last() =~= inlines_v(t));
        }
        k += 1;
    }
    assert(all.take(n as int) =~= all);
    out
}

fn rewrite_inline(i: Inline, t2i: &StrMap<String>, ex: &StrSet) -> (res: Inline)
    ensures
        inline_v(res) == rw_inline(inline_v(i), t2i@, ex@),
    decreases i,
{
    match i {
        Inline::Xref { target, text } => {
            let hit = !ex.contains(target.as_str()) && t2i.contains_key(target.as_str());
            let new_text = match text {
                Some(t) => Some(rewrite_inlines(t, t2i, ex)),
                None => {
                    if hit {
                        let mut v: Vec<Inline> = Vec::new();
                        let tv = target.clone();
                        v.push(Inline::Text { value: tv });
                        proof {
                            crate::ast::lemma_inlines_v_push(Seq::empty(), Inline::Text { value: tv });
                            assert(Seq::<Inline>::empty().push(Inline::Text { value: tv }) =~= v@);
                            assert(inlines_v(Seq::<Inline>::empty()) =~= Seq::<InlineV>::empty());
                        }
                        Some(v)
                    } else {
                        None
                    }
                },
            };
            let new_target = if hit {
                match t2i.get(target.as_str()) {
                    Some(id) => id.clone(),
                    None => target,
                }
            } else {
                target
            };
            Inline::Xref { target: new_target, text: new_text }
        },
        Inline::Strong { children } => Inline::Strong { children: rewrite_inlines(children, t2i, ex) },
        Inline::Emphasis { children } => Inline::Emphasis { children: rewrite_inlines(children, t2i, ex) },
        Inline::Monospace { children } => Inline::Monospace { children: rewrite_inlines(children, t2i, ex) },
        Inline::Subscript { children } => Inline::Subscript { children: rewrite_inlines(children, t2i, ex) },
        Inline::Superscript { children } => Inline::Superscript {
            children: rewrite_inlines(children, t2i, ex),
        },
        Inline::Highlight { children } => Inline::Highlight { children: rewrite_inlines(children, t2i, ex) },
        Inline::Link { href, text } => Inline::Link { href, text: rewrite_inlines(text, t2i, ex) },
        Inline::Footnote { id, text } => Inline::Footnote { id, text: rewrite_inlines(text, t2i, ex) },
        other => other,
    }
}

fn rewrite_blocks(v: Vec<Block>, t2i: &StrMap<String>, ex: &StrSet) -> (res: Vec<Block>)
    ensures
        blocks_v(res@) == rw_blocks(blocks_v(v@), t2i@, ex@),
    decreases v@,
{
    let n = v.len();
    let ghost all = v@;
    let mut rest = crate::text::reversed(v);
    let mut out: Vec<Block> = Vec::new();
    let mut k: usize = 0;
    while k < n
        invariant
            k <= n == all.len(),
            all == v@,
            rest@ == all.subrange(k as int, n as int).reverse(),
            blocks_v(out@) == rw_blocks(blocks_v(all.take(k as int)), t2i@, ex@),
        decreases n - k,
    {
        assert(rest@.len() == n - k);
        assert(rest@.last() == all[k as int]);
        let x = rest.pop().unwrap();
        assert(rest@ =~= all.subrange(k + 1, n as int).reverse());
        proof {
            assert(decreases_to!(all => all[k as int]));
        }
        let y = rewrite_block(x, t2i, ex);
        let ghost prev = out@;
        out.push(y);
        proof {
            let t = all.take(k as int);
            assert(all.take(k + 1) =~= t.push(all[k as int]));
            crate::ast::lemma_blocks_v_push(t, all[k as int]);
            crate::ast::lemma_blocks_v_push(prev, y);
            assert(blocks_v(t).push(block_v(all[k as int])).drop_last() =~= blocks_v(t));
        }
        k += 1;
    }
    assert(all.take(n as int) =~= all);
    out
}

fn rewrite_items(v: Vec<ListItem>, t2i: &StrMap<String>, ex: &StrSet) -> (res: Vec<ListItem>)
    ensures
        list_items_v(res@) == rw_items(list_items_v(v@), t2i@, ex@),
    decreases v@,
{
    let n = v.len();
    let ghost all = v@;
    let mut rest = crate::text::reversed(v);
    let mut out: Vec<ListItem> = Vec::new();
    let mut k: usize = 0;
    while k < n
        invariant
            k <= n == all.len(),
            all == v@,
            rest@ == all.subrange(k as int, n as int).reverse(),
            list_items_v(out@) == rw_items(list_items_v(all.take(k as int)), t2i@, ex@),
        decreases n - k,
    {
        assert(rest@.len() == n - k);
        assert(rest@.last() == all[k as int]);
        let x = rest.pop().unwrap();
        assert(rest@ =~= all.subrange(k + 1, n as int).reverse());
        proof {
            assert(decreases_to!(all => all[k as int]));
        }
        let ListItem { depth, principal, blocks } = x;
        let y = ListItem {
            depth,
            principal: rewrite_inlines(principal, t2i, ex),
            blocks: rewrite_blocks(blocks, t2i, ex),
        };
        let ghost prev = out@;
        out.push(y);
        proof {
            assert(all.take(k + 1).drop_last() =~= all.take(k as int));
            assert(out@.drop_last() =~= prev);
            assert(list_items_v(all.take(k + 1)).drop_last() =~= list_items_v(all.take(k as int)));
            assert(list_items_v(out@).drop_last() =~= list_items_v(prev));
        }
        k += 1;
    }
    assert(all.take(n as int) =~= all);
    out
}

fn rewrite_ditems(v: Vec<DescriptionListItem>, t2i: &StrMap<String>, ex: &StrSet) -> (res: Vec<
    DescriptionListItem,
>)
    ensures
        dlist_items_v(res@) == rw_ditems(dlist_items_v(v@), t2i@, ex@),
    decreases v@,
{
    let n = v.len();
    let ghost all = v@;
    let mut rest = crate::text::reversed(v);
    let mut out: Vec<DescriptionListItem> = Vec::new();
    let mut k: usize = 0;
    while k < n
        invariant
            k <= n == all.len(),
            all == v@,
            rest@ == all.subrange(k as int, n as int).reverse(),
            dlist_items_v(out@) == rw_ditems(dlist_items_v(all.take(k as int)), t2i@, ex@),
        decreases n - k,
    {
        assert(rest@.len() == n - k);
        assert(rest@.last() == all[k as int]);
        let x = rest.pop().unwrap();
        assert(rest@ =~= all.subrange(k + 1, n as int).reverse());
        proof {
            assert(decreases_to!(all => all[k as int]));
        }
        let DescriptionListItem { term, description } = x;
        let y = DescriptionListItem {
            term: rewrite_inlines(term, t2i, ex),
            description: rewrite_blocks(description, t2i, ex),
        };
        let ghost prev = out@;
        out.push(y);
        proof {
            assert(all.take(k + 1).drop_last() =~= all.take(k as int));
            assert(out@.drop_last() =~= prev);
            assert(dlist_items_v(all.take(k + 1)).drop_last() =~= dlist_items_v(all.take(k as int)));
            assert(dlist_items_v(out@).drop_last() =~= dlist_items_v(prev));
        }
        k += 1;
    }
    assert(all.take(n as int) =~= all);
    out
}

fn rewrite_cells(v: Vec<TableCell>, t2i: &StrMap<String>, ex: &StrSet) -> (res: Vec<TableCell>)
    ensures
        cells_v(res@) == rw_cells(cells_v(v@), t2i@, ex@),
    decreases v@,
{
    let n = v.len();
    let ghost all = v@;
    let mut rest = crate::text::reversed(v);
    let mut out: Vec<TableCell> = Vec::new();
    let mut k: usize = 0;
    while k < n
        invariant
            k <= n == all.len(),
            all == v@,
            rest@ == all.subrange(k as int, n as int).reverse(),
            cells_v(out@) == rw_cells(cells_v(all.take(k as int)), t2i@, ex@),
        decreases n - k,
    {
        assert(rest@.len() == n - k);
        assert(rest@.last() == all[k as int]);
        let x = rest.pop().unwrap();
        assert(rest@ =~= all.subrange(k + 1, n as int).reverse());
        proof {
            assert(decreases_to!(all => all[k as int]));
        }
        let TableCell { inlines, blocks, style, h_align, colspan, rowspan } = x;
        let y = TableCell {
            inlines: rewrite_inlines(inlines, t2i, ex),
            blocks: rewrite_blocks(blocks, t2i, ex),
            style,
            h_align,
            colspan,
            rowspan,
        };
        let ghost prev = out@;
        out.push(y);
        proof {
            assert(all.take(k + 1).drop_last() =~= all.take(k as int));
            assert(out@.drop_last() =~= prev);
            assert(cells_v(all.take(k + 1)).drop_last() =~= cells_v(all.take(k as int)));
            assert(cells_v(out@).drop_last() =~= cells_v(prev));
        }
        k += 1;
    }
    assert(all.take(n as int) =~= all);
    out
}

fn rewrite_rows(v: Vec<TableRow>, t2i: &StrMap<String>, ex: &StrSet) -> (res: Vec<TableRow>)
    ensures
        rows_v(res@) == rw_rows(rows_v(v@), t2i@, ex@),
    decreases v@,
{
    let n = v.len();
    let ghost all = v@;
    let mut rest = crate::text::reversed(v);
    let mut out: Vec<TableRow> = Vec::new();
    let mut k: usize = 0;
    while k < n
        invariant
            k <= n == all.len(),
            all == v@,
            rest@ == all.subrange(k as int, n as int).reverse(),
            rows_v(out@) == rw_rows(rows_v(all.take(k as int)), t2i@, ex@),
        decreases n - k,
    {
        assert(rest@.len() == n - k);
        assert(rest@.last() == all[k as int]);
        let x = rest.pop().unwrap();
        assert(rest@ =~= all.subrange(k + 1, n as int).reverse());
        proof {
            assert(decreases_to!(all => all[k as int]));
        }
        let TableRow { cells, kind } = x;
        let y = TableRow { cells: rewrite_cells(cells, t2i, ex), kind };
        let ghost prev = out@;
        out.push(y);
        proof {
            assert(all.take(k + 1).drop_last() =~= all.take(k as int));
            assert(out@.drop_last() =~= prev);
            assert(rows_v(all.take(k + 1)).drop_last() =~= rows_v(all.take(k as int)));
            assert(rows_v(out@).drop_last() =~= rows_v(prev));
        }
        k += 1;
    }
    assert(all.take(n as int) =~= all);
    out
}

fn rewrite_colist(v: Vec<ColistItem>, t2i: &StrMap<String>, ex: &StrSet) -> (res: Vec<ColistItem>)
    ensures
        colist_items_v(res@) == rw_colist(colist_items_v(v@), t2i@, ex@),
    decreases v@,
{
    let n = v.len();
    let ghost all = v@;
    let mut rest = crate::text::reversed(v);
    let mut out: Vec<ColistItem> = Vec::new();
    let mut k: usize = 0;
    while k < n
        invariant
            k <= n == all.len(),
            all == v@,
            rest@ == all.subrange(k as int, n as int).reverse(),
            colist_items_v(out@) =~= rw_colist(colist_items_v(all.take(k as int)), t2i@, ex@),
        decreases n - k,
    {
        assert(rest@.len() == n - k);
        assert(rest@.last() == all[k as int]);
        let x = rest.pop().unwrap();
        assert(rest@ =~= all.subrange(k + 1, n as int).reverse());
        proof {
            assert(decreases_to!(all => all[k as int]));
        }
        let ColistItem { number, inlines } = x;
        let y = ColistItem { number, inlines: rewrite_inlines(inlines, t2i, ex) };
        let ghost prev = out@;
        out.push(y);
        proof {
            let cv = colist_items_v(all.take(k + 1));
            assert(cv.drop_last() =~= colist_items_v(all.take(k as int)));
            assert(colist_items_v(out@) =~= colist_items_v(prev).push((y.number, inlines_v(y.inlines@))));
        }
        k += 1;
    }
    assert(all.take(n as int) =~= all);
    out
}

fn rewrite_block(b: Block, t2i: &StrMap<String>, ex: &StrSet) -> (res: Block)
    ensures
        block_v(res) == rw_block(block_v(b), t2i@, ex@),
    decreases b,
{
    match b {
        Block::Section(s) => {
            let Section { level, title, blocks, location, meta } = s;
            Block::Section(
                Section {
                    level,
                    title: rewrite_inlines(title, t2i, ex),
                    blocks: rewrite_blocks(blocks, t2i, ex),
                    location,
                    meta,
                },
            )
        },
        Block::Paragraph(p) => {
            let Paragraph { inlines, location, meta } = p;
            Block::Paragraph(Paragraph { inlines: rewrite_inlines(inlines, t2i, ex), location, meta })
        },
        Block::List(l) => {
            let List { marker, items, location, meta } = l;
            Block::List(List { marker, items: rewrite_items(items, t2i, ex), location, meta })
        },
        Block::DescriptionList(d) => {
            let DescriptionList { items, location, meta } = d;
            Block::DescriptionList(
                DescriptionList { items: rewrite_ditems(items, t2i, ex), location, meta },
            )
        },
        Block::Delimited(d) => {
            let DelimitedBlock { style, content, location, meta } = d;
            let content = match content {
                DelimitedContent::Blocks { blocks } => DelimitedContent::Blocks {
                    blocks: rewrite_blocks(blocks, t2i, ex),
                },
                DelimitedContent::Raw { text } => DelimitedContent::Raw { text },
            };
            Block::Delimited(DelimitedBlock { style, content, location, meta })
        },
        Block::Table(t) => {
            let Table { rows, cols, location, meta } = t;
            Block::Table(Table { rows: rewrite_rows(rows, t2i, ex), cols, location, meta })
        },
        Block::Colist(c) => {
            let Colist { items, location, meta } = c;
            Block::Colist(Colist { items: rewrite_colist(items, t2i, ex), location, meta })
        },
        Block::DiscreteHeading(d) => {
            let DiscreteHeading { level, title, location, meta } = d;
            Block::DiscreteHeading(
                DiscreteHeading { level, title: rewrite_inlines(title, t2i, ex), location, meta },
            )
        },
    }
}

/// Rewrite every `Inline::Xref` whose target matches a section's plain
/// text title (case-sensitive) to point at that section's id — the
/// `<<Section Title>>` form. Targets that already name a known section
/// id, and targets matching no title, are left as they are.
pub fn resolve_title_xrefs(doc: &mut Document)
    ensures
        final(doc).header == old(doc).header,
        final(doc).attributes == old(doc).attributes,
        ({
            let (t2i, ex) = collect_titles(blocks_v(old(doc).blocks@), Map::empty(), Set::empty());
            blocks_v(final(doc).blocks@) == if t2i.len() == 0 {
                blocks_v(old(doc).blocks@)
            } else {
                rw_blocks(blocks_v(old(doc).blocks@), t2i, ex)
            }
        }),
{
    let mut title_to_id: StrMap<String> = StrMap::new();
    let mut existing_ids = StrSet::new();
    collect_section_titles(doc.blocks.as_slice(), &mut title_to_id, &mut existing_ids);
    assert(title_to_id@ =~= Map::<Seq<char>, Seq<char>>::empty() || true);
    if title_to_id.is_empty() {
        return;
    }
    let mut taken: Vec<Block> = Vec::new();
    std::mem::swap(&mut taken, &mut doc.blocks);
    doc.blocks = rewrite_blocks(taken, &title_to_id, &existing_ids);
}

} // verus!
