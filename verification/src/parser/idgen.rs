//! Section-ID derivation and post-parse ID assignment.
//!
//! Auto-derivation: lowercase ASCII letters and digits are kept, each run of
//! other characters becomes one `_`, trailing `_` are trimmed and a `_` is
//! prepended (`idprefix=_`, `idseparator=_`). A title with nothing left
//! becomes `_section`. On collision with an existing ID, `_2`, `_3`, … is
//! appended: the smallest suffix not yet taken.
use vstd::prelude::*;

pub use crate::ast::inlines_to_plain;
use crate::ast::{
    blocks_v, cells_v, dlist_items_v, lemma_blocks_v_push, list_items_v, meta_v, opt_str_v,
    plain_seq, rows_v, Block, BlockV, CellV, ContentV, DelimitedBlock, DelimitedContent,
    DescriptionList, DescriptionListItem, DlistItemV, List, ListItem, ListItemV, MetaV, RowV,
    Section, Table, TableCell, TableRow,
};
use crate::strmap::StrSet;
use crate::text::{
    chars_of, dec_digits, is_ascii_alphanumeric, lemma_dec_injective, push_char, push_decimal,
    push_str, to_ascii_lowercase, is_ascii_alnum, lower,
};

verus! {

// ---------------------------------------------------------------------------
// deriving one id
// ---------------------------------------------------------------------------

/// The slug body of `s` and whether the last character emitted was a
/// separator (initially true, so leading punctuation emits nothing).
pub open spec fn slug_state(s: Seq<char>) -> (Seq<char>, bool)
    decreases s.len(),
{
    if s.len() == 0 {
        (Seq::empty(), true)
    } else {
        let (body, prev_sep) = slug_state(s.drop_last());
        let c = s.last();
        if is_ascii_alnum(c) {
            (body.push(lower(c)), false)
        } else if !prev_sep {
            (body.push('_'), true)
        } else {
            (body, prev_sep)
        }
    }
}

/// `s` with every trailing `c` removed.
pub open spec fn strip_trailing(s: Seq<char>, c: char) -> Seq<char>
    decreases s.len(),
{
    if s.len() > 0 && s.last() == c {
        strip_trailing(s.drop_last(), c)
    } else {
        s
    }
}

pub open spec fn section_word() -> Seq<char> {
    seq!['s', 'e', 'c', 't', 'i', 'o', 'n']
}

/// The id a title yields before any collision handling.
pub open spec fn id_candidate(title: Seq<char>) -> Seq<char> {
    let t = strip_trailing(slug_state(title).0, '_');
    seq!['_'] + (if t.len() == 0 {
        section_word()
    } else {
        t
    })
}

/// `c` with the numeric suffix `_n`.
pub open spec fn suffixed(c: Seq<char>, n: nat) -> Seq<char> {
    c + seq!['_'] + dec_digits(n)
}

/// `n` is the first suffix from 2 on whose id is free.
pub open spec fn first_free(c: Seq<char>, existing: Set<Seq<char>>, n: nat) -> bool {
    &&& n >= 2
    &&& !existing.contains(suffixed(c, n))
    &&& forall|k: nat| 2 <= k < n ==> existing.contains(#[trigger] suffixed(c, k))
}

/// The id derived from plain-text `title` given the ids already taken.
pub open spec fn derived_id(title: Seq<char>, existing: Set<Seq<char>>) -> Seq<char> {
    let c = id_candidate(title);
    if !existing.contains(c) {
        c
    } else {
        suffixed(c, choose|n: nat| first_free(c, existing, n))
    }
}

pub proof fn lemma_suffixed_injective(c: Seq<char>, a: nat, b: nat)
    requires
        suffixed(c, a) == suffixed(c, b),
    ensures
        a == b,
{
    let pa = suffixed(c, a);
    let pb = suffixed(c, b);
    let k = c.len() + 1;
    assert(pa.subrange(k as int, pa.len() as int) =~= dec_digits(a));
    assert(pb.subrange(k as int, pb.len() as int) =~= dec_digits(b));
    lemma_dec_injective(a, b);
}

/// There is one first free suffix at most.
pub proof fn lemma_first_free_unique(c: Seq<char>, existing: Set<Seq<char>>, a: nat, b: nat)
    requires
        first_free(c, existing, a),
        first_free(c, existing, b),
    ensures
        a == b,
{
    if a < b {
        assert(existing.contains(suffixed(c, a)));
    } else if b < a {
        assert(existing.contains(suffixed(c, b)));
    }
}

/// Scanning suffixes upward from `n`, past the taken ones already seen,
/// reaches a free one: a finite set cannot hold them all.
proof fn lemma_free_suffix_from(
    c: Seq<char>,
    existing: Set<Seq<char>>,
    n: nat,
    seen: Set<Seq<char>>,
)
    requires
        existing.finite(),
        2 <= n,
        seen.finite(),
        seen.len() == n - 2,
        seen.subset_of(existing),
        forall|x: Seq<char>| #[trigger]
            seen.contains(x) ==> exists|k: nat| 2 <= k < n && x == suffixed(c, k),
        forall|k: nat| 2 <= k < n ==> existing.contains(#[trigger] suffixed(c, k)),
    ensures
        exists|m: nat| first_free(c, existing, m),
    decreases existing.len() + 2 - n,
{
    vstd::set_lib::lemma_len_subset(seen, existing);
    let x = suffixed(c, n);
    if !existing.contains(x) {
        assert(first_free(c, existing, n));
    } else {
        if seen.contains(x) {
            let k = choose|k: nat| 2 <= k < n && x == suffixed(c, k);
            lemma_suffixed_injective(c, k, n);
        }
        let seen2 = seen.insert(x);
        vstd::set_lib::lemma_len_subset(seen2, existing);
        assert forall|y: Seq<char>| #[trigger] seen2.contains(y) implies exists|k: nat|
            2 <= k < n + 1 && y == suffixed(c, k) by {
            if y == x {
                assert(2 <= n < n + 1 && y == suffixed(c, n));
            } else {
                let k = choose|k: nat| 2 <= k < n && y == suffixed(c, k);
                assert(2 <= k < n + 1 && y == suffixed(c, k));
            }
        }
        lemma_free_suffix_from(c, existing, n + 1, seen2);
    }
}

/// A derived id is free among the ids already taken; it is the title's
/// candidate when that is free, and otherwise the candidate with the
/// least numeric suffix from 2 on that is free.
pub proof fn derived_id_is_least_free(title: Seq<char>, existing: Set<Seq<char>>)
    requires
        existing.finite(),
    ensures
        !existing.contains(derived_id(title, existing)),
        !existing.contains(id_candidate(title)) ==> derived_id(title, existing) == id_candidate(title),
        existing.contains(id_candidate(title)) ==> exists|n: nat|
            #![trigger suffixed(id_candidate(title), n)]
            derived_id(title, existing) == suffixed(id_candidate(title), n) && first_free(
                id_candidate(title),
                existing,
                n,
            ),
{
    let c = id_candidate(title);
    if existing.contains(c) {
        lemma_free_suffix_from(c, existing, 2, Set::empty());
        let m = choose|m: nat| first_free(c, existing, m);
        assert(derived_id(title, existing) == suffixed(c, m));
    }
}

fn slug_body(title: &[char]) -> (res: Vec<char>)
    ensures
        res@ == slug_state(title@).0,
{
    let mut body: Vec<char> = Vec::new();
    let mut prev_sep = true;
    let mut i: usize = 0;
    while i < title.len()
        invariant
            i <= title.len(),
            (body@, prev_sep) == slug_state(title@.take(i as int)),
        decreases title.len() - i,
    {
        let ch = title[i];
        proof {
            assert(title@.take(i + 1).drop_last() =~= title@.take(i as int));
        }
        if is_ascii_alphanumeric(ch) {
            body.push(to_ascii_lowercase(ch));
            prev_sep = false;
        } else if !prev_sep {
            body.push('_');
            prev_sep = true;
        }
        i += 1;
    }
    assert(title@.take(title.len() as int) =~= title@);
    body
}

fn strip_trailing_underscores(s: &mut Vec<char>)
    ensures
        final(s)@ == strip_trailing(old(s)@, '_'),
{
    while s.len() > 0 && s[s.len() - 1] == '_'
        invariant
            strip_trailing(s@, '_') == strip_trailing(old(s)@, '_'),
        decreases s.len(),
    {
        let ghost before = s@;
        s.pop();
        assert(s@ == before.drop_last());
    }
}

/// Derive an ID from `title` (already-plain text), avoiding any name
/// already in `existing`.
pub fn derive_section_id(title: &str, existing: &StrSet) -> (res: String)
    ensures
        res@ == derived_id(title@, existing@),
        !existing@.contains(res@),
{
    let chars = chars_of(title);
    let mut body = slug_body(chars.as_slice());
    strip_trailing_underscores(&mut body);
    let mut candidate = String::new();
    push_char(&mut candidate, '_');
    if body.len() == 0 {
        push_str(&mut candidate, "section");
        proof {
            reveal_strlit("section");
        }
    } else {
        let mut i: usize = 0;
        while i < body.len()
            invariant
                i <= body.len(),
                candidate@ == seq!['_'] + body@.take(i as int),
            decreases body.len() - i,
        {
            push_char(&mut candidate, body[i]);
            assert(body@.take(i + 1) =~= body@.take(i as int).push(body@[i as int]));
            i += 1;
        }
        assert(body@.take(body.len() as int) =~= body@);
    }
    assert(candidate@ =~= id_candidate(title@));
    if !existing.contains(candidate.as_str()) {
        return candidate;
    }
    let ghost c = candidate@;
    let ghost ex = existing@;
    let len = existing.len();
    let mut n: u128 = 2;
    let ghost mut seen: Set<Seq<char>> = Set::empty();
    loop
        invariant
            c == candidate@,
            c == id_candidate(title@),
            ex.contains(c),
            ex == existing@,
            ex.finite(),
            len == ex.len(),
            2 <= n,
            seen.finite(),
            seen.len() == n - 2,
            seen.subset_of(ex),
            forall|x: Seq<char>| #[trigger]
                seen.contains(x) ==> exists|k: nat| 2 <= k < n && x == suffixed(c, k),
            forall|k: nat| 2 <= k < n ==> ex.contains(#[trigger] suffixed(c, k)),
        decreases len + 2 - n,
    {
        let mut with_suffix = candidate.clone();
        push_char(&mut with_suffix, '_');
        push_decimal(&mut with_suffix, n);
        assert(with_suffix@ =~= suffixed(c, n as nat));
        if !existing.contains(with_suffix.as_str()) {
            proof {
                assert(first_free(c, ex, n as nat));
                let m = choose|m: nat| first_free(c, ex, m);
                lemma_first_free_unique(c, ex, m, n as nat);
            }
            return with_suffix;
        }
        proof {
            let x = suffixed(c, n as nat);
            if seen.contains(x) {
                let k = choose|k: nat| 2 <= k < n && x == suffixed(c, k);
                lemma_suffixed_injective(c, k, n as nat);
            }
            seen = seen.insert(x);
            vstd::set_lib::lemma_len_subset(seen, ex);
            assert forall|y: Seq<char>| #[trigger] seen.contains(y) implies exists|k: nat|
                2 <= k < n + 1 && y == suffixed(c, k) by {
                if y == x {
                    assert(2 <= n < n + 1 && y == suffixed(c, n as nat));
                } else {
                    let k = choose|k: nat| 2 <= k < n && y == suffixed(c, k);
                    assert(2 <= k < n + 1 && y == suffixed(c, k));
                }
            }
        }
        n = n + 1;
    }
}

// ---------------------------------------------------------------------------
// assigning ids over a document
// ---------------------------------------------------------------------------

/// The metadata every block carries.
pub open spec fn block_meta_v(b: BlockV) -> MetaV {
    match b {
        BlockV::Section { meta, .. } => meta,
        BlockV::Paragraph { meta, .. } => meta,
        BlockV::List { meta, .. } => meta,
        BlockV::DescriptionList { meta, .. } => meta,
        BlockV::Delimited { meta, .. } => meta,
        BlockV::Table { meta, .. } => meta,
        BlockV::Colist { meta, .. } => meta,
        BlockV::DiscreteHeading { meta, .. } => meta,
    }
}

/// Explicit ids of `bs`: the ids on the blocks themselves and on every
/// block nested in them (in sections, list items, description items,
/// compound delimited blocks and table cells).
pub open spec fn explicit_ids(bs: Seq<BlockV>) -> Set<Seq<char>>
    decreases bs,
{
    if bs.len() == 0 {
        Set::empty()
    } else {
        explicit_ids(bs.drop_last()).union(explicit_ids_of(bs.last()))
    }
}

pub open spec fn explicit_ids_of(b: BlockV) -> Set<Seq<char>>
    decreases b,
{
    let own = match block_meta_v(b).id {
        Some(id) => set![id],
        None => Set::empty(),
    };
    match b {
        BlockV::Section { blocks, .. } => own.union(explicit_ids(blocks)),
        BlockV::List { items, .. } => own.union(explicit_ids_items(items)),
        BlockV::DescriptionList { items, .. } => own.union(explicit_ids_ditems(items)),
        BlockV::Delimited { content: ContentV::Blocks(bs), .. } => own.union(explicit_ids(bs)),
        BlockV::Table { rows, .. } => own.union(explicit_ids_rows(rows)),
        _ => own,
    }
}

pub open spec fn explicit_ids_items(items: Seq<ListItemV>) -> Set<Seq<char>>
    decreases items,
{
    if items.len() == 0 {
        Set::empty()
    } else {
        explicit_ids_items(items.drop_last()).union(explicit_ids(items.last().blocks))
    }
}

pub open spec fn explicit_ids_ditems(items: Seq<DlistItemV>) -> Set<Seq<char>>
    decreases items,
{
    if items.len() == 0 {
        Set::empty()
    } else {
        explicit_ids_ditems(items.drop_last()).union(explicit_ids(items.last().description))
    }
}

pub open spec fn explicit_ids_rows(rows: Seq<RowV>) -> Set<Seq<char>>
    decreases rows,
{
    if rows.len() == 0 {
        Set::empty()
    } else {
        explicit_ids_rows(rows.drop_last()).union(explicit_ids_cells(rows.last().cells))
    }
}

pub open spec fn explicit_ids_cells(cells: Seq<CellV>) -> Set<Seq<char>>
    decreases cells,
{
    if cells.len() == 0 {
        Set::empty()
    } else {
        explicit_ids_cells(cells.drop_last()).union(explicit_ids(cells.last().blocks))
    }
}

/// Sections without an id get a derived one, depth first in document
/// order and wherever they are nested; every new id joins the taken set
/// before the next derivation.
pub open spec fn assign_seq(bs: Seq<BlockV>, ex: Set<Seq<char>>) -> (Seq<BlockV>, Set<Seq<char>>)
    decreases bs,
{
    if bs.len() == 0 {
        (Seq::empty(), ex)
    } else {
        let (pre, ex1) = assign_seq(bs.drop_last(), ex);
        let (b, ex2) = assign_block(bs.last(), ex1);
        (pre.push(b), ex2)
    }
}

pub open spec fn assign_block(b: BlockV, ex: Set<Seq<char>>) -> (BlockV, Set<Seq<char>>)
    decreases b,
{
    match b {
        BlockV::Section { level, title, blocks, location, meta } => {
            let (id, ex1) = match meta.id {
                Some(id) => (id, ex),
                None => {
                    let d = derived_id(plain_seq(title), ex);
                    (d, ex.insert(d))
                },
            };
            let (inner, ex2) = assign_seq(blocks, ex1);
            (
                BlockV::Section {
                    level,
                    title,
                    blocks: inner,
                    location,
                    meta: MetaV { id: Some(id), ..meta },
                },
                ex2,
            )
        },
        BlockV::List { marker, items, location, meta } => {
            let (its, ex1) = assign_items(items, ex);
            (BlockV::List { marker, items: its, location, meta }, ex1)
        },
        BlockV::DescriptionList { items, location, meta } => {
            let (its, ex1) = assign_ditems(items, ex);
            (BlockV::DescriptionList { items: its, location, meta }, ex1)
        },
        BlockV::Delimited { style, content: ContentV::Blocks(bs), location, meta } => {
            let (inner, ex1) = assign_seq(bs, ex);
            (BlockV::Delimited { style, content: ContentV::Blocks(inner), location, meta }, ex1)
        },
        BlockV::Table { rows, cols, location, meta } => {
            let (rs, ex1) = assign_rows(rows, ex);
            (BlockV::Table { rows: rs, cols, location, meta }, ex1)
        },
        _ => (b, ex),
    }
}

pub open spec fn assign_items(items: Seq<ListItemV>, ex: Set<Seq<char>>) -> (Seq<ListItemV>, Set<Seq<char>>)
    decreases items,
{
    if items.len() == 0 {
        (Seq::empty(), ex)
    } else {
        let (pre, ex1) = assign_items(items.drop_last(), ex);
        let it = items.last();
        let (bs, ex2) = assign_seq(it.blocks, ex1);
        (pre.push(ListItemV { blocks: bs, ..it }), ex2)
    }
}

pub open spec fn assign_ditems(items: Seq<DlistItemV>, ex: Set<Seq<char>>) -> (Seq<DlistItemV>, Set<Seq<char>>)
    decreases items,
{
    if items.len() == 0 {
        (Seq::empty(), ex)
    } else {
        let (pre, ex1) = assign_ditems(items.drop_last(), ex);
        let it = items.last();
        let (bs, ex2) = assign_seq(it.description, ex1);
        (pre.push(DlistItemV { description: bs, ..it }), ex2)
    }
}

pub open spec fn assign_rows(rows: Seq<RowV>, ex: Set<Seq<char>>) -> (Seq<RowV>, Set<Seq<char>>)
    decreases rows,
{
    if rows.len() == 0 {
        (Seq::empty(), ex)
    } else {
        let (pre, ex1) = assign_rows(rows.drop_last(), ex);
        let r = rows.last();
        let (cs, ex2) = assign_cells(r.cells, ex1);
        (pre.push(RowV { cells: cs, ..r }), ex2)
    }
}

pub open spec fn assign_cells(cells: Seq<CellV>, ex: Set<Seq<char>>) -> (Seq<CellV>, Set<Seq<char>>)
    decreases cells,
{
    if cells.len() == 0 {
        (Seq::empty(), ex)
    } else {
        let (pre, ex1) = assign_cells(cells.drop_last(), ex);
        let c = cells.last();
        let (bs, ex2) = assign_seq(c.blocks, ex1);
        (pre.push(CellV { blocks: bs, ..c }), ex2)
    }
}

/// Walk `blocks`, collect every explicit ID at any depth, then assign
/// auto-generated IDs to sections that don't have one, wherever they are
/// nested. Auto IDs are de-duped against the explicit set as well as
/// against earlier auto IDs.
pub fn assign_ids(blocks: &mut Vec<Block>)
    ensures
        blocks_v(final(blocks)@) == assign_seq(
            blocks_v(old(blocks)@),
            explicit_ids(blocks_v(old(blocks)@)),
        ).0,
{
    let mut existing = StrSet::new();
    collect_explicit_ids(blocks.as_slice(), &mut existing);
    assert(existing@ =~= explicit_ids(blocks_v(blocks@)));
    let mut taken: Vec<Block> = Vec::new();
    std::mem::swap(&mut taken, blocks);
    let assigned = auto_assign(taken, &mut existing);
    *blocks = assigned;
}

fn block_id(block: &Block) -> (res: Option<&str>)
    ensures
        opt_str_v2(res) == block_meta_v(block@).id,
{
    match block {
        Block::Section(s) => opt_as_str(&s.meta.id),
        Block::Paragraph(p) => opt_as_str(&p.meta.id),
        Block::List(l) => opt_as_str(&l.meta.id),
        Block::DescriptionList(d) => opt_as_str(&d.meta.id),
        Block::Delimited(d) => opt_as_str(&d.meta.id),
        Block::Table(t) => opt_as_str(&t.meta.id),
        Block::Colist(c) => opt_as_str(&c.meta.id),
        Block::DiscreteHeading(d) => opt_as_str(&d.meta.id),
    }
}

pub open spec fn opt_str_v2(o: Option<&str>) -> Option<Seq<char>> {
    match o {
        Some(s) => Some(s@),
        None => None,
    }
}

fn opt_as_str(o: &Option<String>) -> (res: Option<&str>)
    ensures
        opt_str_v2(res) == opt_str_v(*o),
{
    match o {
        Some(s) => Some(s.as_str()),
        None => None,
    }
}

fn collect_explicit_ids(blocks: &[Block], out: &mut StrSet)
    ensures
        final(out)@ == old(out)@.union(explicit_ids(blocks_v(blocks@))),
    decreases blocks@,
{
    let mut i: usize = 0;
    while i < blocks.len()
        invariant
            i <= blocks.len(),
            out@ == old(out)@.union(explicit_ids(blocks_v(blocks@.take(i as int)))),
        decreases blocks.len() - i,
    {
        let b = &blocks[i];
        proof {
            assert(decreases_to!(blocks@ => blocks@[i as int]));
        }
        let ghost before = out@;
        collect_explicit_ids_of(b, out);
        proof {
            let t = blocks@.take(i as int);
            assert(blocks@.take(i + 1) =~= t.push(blocks@[i as int]));
            lemma_blocks_v_push(t, blocks@[i as int]);
            let vs = blocks_v(t);
            assert(vs.push(b@).drop_last() =~= vs);
            assert(out@ =~= old(out)@.union(explicit_ids(blocks_v(blocks@.take(i + 1)))));
        }
        i += 1;
    }
    assert(blocks@.take(blocks.len() as int) =~= blocks@);
}

fn collect_explicit_ids_of(b: &Block, out: &mut StrSet)
    ensures
        final(out)@ == old(out)@.union(explicit_ids_of(b@)),
    decreases *b,
{
    if let Some(id) = block_id(b) {
        out.insert(id.to_string());
    }
    match b {
        Block::Section(s) => {
            proof {
                assert(decreases_to!(*b => s.blocks@));
            }
            collect_explicit_ids(s.blocks.as_slice(), out);
        },
        Block::List(l) => {
            proof {
                assert(decreases_to!(*b => l.items@));
            }
            collect_ids_items(l.items.as_slice(), out);
        },
        Block::DescriptionList(d) => {
            proof {
                assert(decreases_to!(*b => d.items@));
            }
            collect_ids_ditems(d.items.as_slice(), out);
        },
        Block::Delimited(d) => match &d.content {
            DelimitedContent::Blocks { blocks } => {
                proof {
                    assert(decreases_to!(*b => blocks@));
                }
                collect_explicit_ids(blocks.as_slice(), out);
            },
            DelimitedContent::Raw { .. } => {},
        },
        Block::Table(t) => {
            proof {
                assert(decreases_to!(*b => t.rows@));
            }
            collect_ids_rows(t.rows.as_slice(), out);
        },
        _ => {},
    }
    assert(final(out)@ =~= old(out)@.union(explicit_ids_of(b@)));
}

fn collect_ids_items(items: &[ListItem], out: &mut StrSet)
    ensures
        final(out)@ == old(out)@.union(explicit_ids_items(list_items_v(items@))),
    decreases items@,
{
    let mut i: usize = 0;
    assert(items@.take(0) =~= Seq::<ListItem>::empty());
    assert(old(out)@.union(explicit_ids_items(list_items_v(items@.take(0)))) =~= old(out)@);
    while i < items.len()
        invariant
            i <= items.len(),
            out@ == old(out)@.union(explicit_ids_items(list_items_v(items@.take(i as int)))),
        decreases items.len() - i,
    {
        proof {
            assert(decreases_to!(items@ => items@[i as int]));
            assert(decreases_to!(items@[i as int] => items@[i as int].blocks));
            assert(decreases_to!(items@[i as int].blocks => items@[i as int].blocks@));
        }
        let ghost before = out@;
        collect_explicit_ids(items[i].blocks.as_slice(), out);
        proof {
            let t = items@.take(i as int);
            assert(items@.take(i + 1) =~= t.push(items@[i as int]));
            assert(t.push(items@[i as int]).drop_last() =~= t);
            let vs = list_items_v(items@.take(i + 1));
            assert(vs.drop_last() =~= list_items_v(t));
            assert(out@ =~= old(out)@.union(explicit_ids_items(list_items_v(items@.take(i + 1)))));
        }
        i += 1;
    }
    assert(items@.take(items.len() as int) =~= items@);
}

fn collect_ids_ditems(items: &[DescriptionListItem], out: &mut StrSet)
    ensures
        final(out)@ == old(out)@.union(explicit_ids_ditems(dlist_items_v(items@))),
    decreases items@,
{
    let mut i: usize = 0;
    assert(items@.take(0) =~= Seq::<DescriptionListItem>::empty());
    assert(old(out)@.union(explicit_ids_ditems(dlist_items_v(items@.take(0)))) =~= old(out)@);
    while i < items.len()
        invariant
            i <= items.len(),
            out@ == old(out)@.union(explicit_ids_ditems(dlist_items_v(items@.take(i as int)))),
        decreases items.len() - i,
    {
        proof {
            assert(decreases_to!(items@ => items@[i as int]));
            assert(decreases_to!(items@[i as int] => items@[i as int].description));
            assert(decreases_to!(items@[i as int].description => items@[i as int].description@));
        }
        let ghost before = out@;
        collect_explicit_ids(items[i].description.as_slice(), out);
        proof {
            let t = items@.take(i as int);
            assert(items@.take(i + 1) =~= t.push(items@[i as int]));
            assert(t.push(items@[i as int]).drop_last() =~= t);
            let vs = dlist_items_v(items@.take(i + 1));
            assert(vs.drop_last() =~= dlist_items_v(t));
            assert(out@ =~= old(out)@.union(explicit_ids_ditems(dlist_items_v(items@.take(i + 1)))));
        }
        i += 1;
    }
    assert(items@.take(items.len() as int) =~= items@);
}

fn collect_ids_cells(items: &[TableCell], out: &mut StrSet)
    ensures
        final(out)@ == old(out)@.union(explicit_ids_cells(cells_v(items@))),
    decreases items@,
{
    let mut i: usize = 0;
    assert(items@.take(0) =~= Seq::<TableCell>::empty());
    assert(old(out)@.union(explicit_ids_cells(cells_v(items@.take(0)))) =~= old(out)@);
    while i < items.len()
        invariant
            i <= items.len(),
            out@ == old(out)@.union(explicit_ids_cells(cells_v(items@.take(i as int)))),
        decreases items.len() - i,
    {
        proof {
            assert(decreases_to!(items@ => items@[i as int]));
            assert(decreases_to!(items@[i as int] => items@[i as int].blocks));
            assert(decreases_to!(items@[i as int].blocks => items@[i as int].blocks@));
        }
        let ghost before = out@;
        collect_explicit_ids(items[i].blocks.as_slice(), out);
        proof {
            let t = items@.take(i as int);
            assert(items@.take(i + 1) =~= t.push(items@[i as int]));
            assert(t.push(items@[i as int]).drop_last() =~= t);
            let vs = cells_v(items@.take(i + 1));
            assert(vs.drop_last() =~= cells_v(t));
            assert(out@ =~= old(out)@.union(explicit_ids_cells(cells_v(items@.take(i + 1)))));
        }
        i += 1;
    }
    assert(items@.take(items.len() as int) =~= items@);
}

fn collect_ids_rows(rows: &[TableRow], out: &mut StrSet)
    ensures
        final(out)@ == old(out)@.union(explicit_ids_rows(rows_v(rows@))),
    decreases rows@,
{
    let mut i: usize = 0;
    assert(rows@.take(0) =~= Seq::<TableRow>::empty());
    assert(old(out)@.union(explicit_ids_rows(rows_v(rows@.take(0)))) =~= old(out)@);
    while i < rows.len()
        invariant
            i <= rows.len(),
            out@ == old(out)@.union(explicit_ids_rows(rows_v(rows@.take(i as int)))),
        decreases rows.len() - i,
    {
        proof {
            assert(decreases_to!(rows@ => rows@[i as int]));
            assert(decreases_to!(rows@[i as int] => rows@[i as int].cells));
            assert(decreases_to!(rows@[i as int].cells => rows@[i as int].cells@));
        }
        collect_ids_cells(rows[i].cells.as_slice(), out);
        proof {
            let t = rows@.take(i as int);
            assert(rows@.take(i + 1) =~= t.push(rows@[i as int]));
            assert(t.push(rows@[i as int]).drop_last() =~= t);
            let vs = rows_v(rows@.take(i + 1));
            assert(vs.drop_last() =~= rows_v(t));
            assert(out@ =~= old(out)@.union(explicit_ids_rows(rows_v(rows@.take(i + 1)))));
        }
        i += 1;
    }
    assert(rows@.take(rows.len() as int) =~= rows@);
}


fn auto_assign(blocks: Vec<Block>, existing: &mut StrSet) -> (res: Vec<Block>)
    ensures
        (blocks_v(res@), final(existing)@) == assign_seq(blocks_v(blocks@), old(existing)@),
    decreases blocks@,
{
    let n = blocks.len();
    let mut rest = crate::text::reversed(blocks);
    let mut out: Vec<Block> = Vec::new();
    let mut i: usize = 0;
    while i < n
        invariant
            i <= n == blocks@.len(),
            rest@ == blocks@.subrange(i as int, n as int).reverse(),
            (blocks_v(out@), existing@) == assign_seq(
                blocks_v(blocks@.take(i as int)),
                old(existing)@,
            ),
        decreases n - i,
    {
        assert(rest@.len() == n - i);
        let ghost orig = blocks@[i as int];
        assert(rest@.last() == orig);
        let b = rest.pop().unwrap();
        assert(rest@ =~= blocks@.subrange(i + 1, n as int).reverse());
        proof {
            assert(decreases_to!(blocks@ => blocks@[i as int]));
        }
        let ghost ex_before = existing@;
        let nb = auto_assign_block(b, existing);
        let ghost prev_out = out@;
        out.push(nb);
        proof {
            let t = blocks@.take(i as int);
            assert(blocks@.take(i + 1) =~= t.push(orig));
            lemma_blocks_v_push(t, orig);
            lemma_blocks_v_push(prev_out, nb);
            let vs = blocks_v(t);
            assert(vs.push(orig@).drop_last() =~= vs);
        }
        i += 1;
    }
    assert(blocks@.take(n as int) =~= blocks@);
    out
}

fn auto_assign_block(b: Block, existing: &mut StrSet) -> (res: Block)
    ensures
        (res@, final(existing)@) == assign_block(b@, old(existing)@),
    decreases b,
{
    match b {
        Block::Section(s) => {
            let Section { level, title, blocks, location, meta } = s;
            let mut meta = meta;
            if meta.id.is_none() {
                let plain = inlines_to_plain(title.as_slice());
                let id = derive_section_id(plain.as_str(), existing);
                existing.insert(id.clone());
                meta.id = Some(id);
            }
            let ghost mid = existing@;
            let inner = auto_assign(blocks, existing);
            let res = Block::Section(Section { level, title, blocks: inner, location, meta });
            proof {
                assert(meta_v(meta) == (MetaV { id: meta_v(meta).id, ..meta_v(s.meta) }));
            }
            res
        },
        Block::List(l) => {
            let List { marker, items, location, meta } = l;
            let its = auto_assign_items(items, existing);
            Block::List(List { marker, items: its, location, meta })
        },
        Block::DescriptionList(d) => {
            let DescriptionList { items, location, meta } = d;
            let its = auto_assign_ditems(items, existing);
            Block::DescriptionList(DescriptionList { items: its, location, meta })
        },
        Block::Delimited(d) => {
            let DelimitedBlock { style, content, location, meta } = d;
            match content {
                DelimitedContent::Blocks { blocks } => {
                    let inner = auto_assign(blocks, existing);
                    Block::Delimited(
                        DelimitedBlock { style, content: DelimitedContent::Blocks { blocks: inner }, location, meta },
                    )
                },
                other => Block::Delimited(DelimitedBlock { style, content: other, location, meta }),
            }
        },
        Block::Table(t) => {
            let Table { rows, cols, location, meta } = t;
            let rs = auto_assign_rows(rows, existing);
            Block::Table(Table { rows: rs, cols, location, meta })
        },
        other => other,
    }
}

fn auto_assign_items(items: Vec<ListItem>, existing: &mut StrSet) -> (res: Vec<ListItem>)
    ensures
        (list_items_v(res@), final(existing)@) == assign_items(list_items_v(items@), old(existing)@),
    decreases items@,
{
    let n = items.len();
    let ghost all = items@;
    let mut rest = crate::text::reversed(items);
    let mut out: Vec<ListItem> = Vec::new();
    let mut i: usize = 0;
    assert(all.take(0) =~= Seq::<ListItem>::empty());
    assert(list_items_v(out@) =~= Seq::empty());
    while i < n
        invariant
            i <= n == all.len(),
            all == items@,
            rest@ == all.subrange(i as int, n as int).reverse(),
            (list_items_v(out@), existing@) == assign_items(list_items_v(all.take(i as int)), old(existing)@),
        decreases n - i,
    {
        assert(rest@.len() == n - i);
        let ghost orig = all[i as int];
        assert(rest@.last() == orig);
        let it = rest.pop().unwrap();
        assert(rest@ =~= all.subrange(i + 1, n as int).reverse());
        let ListItem { depth, principal, blocks } = it;
        proof {
            assert(decreases_to!(all => all[i as int]));
            assert(decreases_to!(all[i as int] => all[i as int].blocks));
            assert(decreases_to!(all[i as int].blocks => all[i as int].blocks@));
            assert(blocks@ == all[i as int].blocks@);
        }
        let inner = auto_assign(blocks, existing);
        let ghost prev_out = out@;
        let nit = ListItem { depth, principal, blocks: inner };
        out.push(nit);
        proof {
            let t = all.take(i as int);
            assert(all.take(i + 1) =~= t.push(orig));
            assert(t.push(orig).drop_last() =~= t);
            assert(out@.drop_last() =~= prev_out);
            assert(list_items_v(all.take(i + 1)).drop_last() =~= list_items_v(t));
        }
        i += 1;
    }
    assert(all.take(n as int) =~= all);
    out
}

fn auto_assign_ditems(items: Vec<DescriptionListItem>, existing: &mut StrSet) -> (res: Vec<DescriptionListItem>)
    ensures
        (dlist_items_v(res@), final(existing)@) == assign_ditems(dlist_items_v(items@), old(existing)@),
    decreases items@,
{
    let n = items.len();
    let ghost all = items@;
    let mut rest = crate::text::reversed(items);
    let mut out: Vec<DescriptionListItem> = Vec::new();
    let mut i: usize = 0;
    assert(all.take(0) =~= Seq::<DescriptionListItem>::empty());
    assert(dlist_items_v(out@) =~= Seq::empty());
    while i < n
        invariant
            i <= n == all.len(),
            all == items@,
            rest@ == all.subrange(i as int, n as int).reverse(),
            (dlist_items_v(out@), existing@) == assign_ditems(dlist_items_v(all.take(i as int)), old(existing)@),
        decreases n - i,
    {
        assert(rest@.len() == n - i);
        let ghost orig = all[i as int];
        assert(rest@.last() == orig);
        let it = rest.pop().unwrap();
        assert(rest@ =~= all.subrange(i + 1, n as int).reverse());
        let DescriptionListItem { term, description } = it;
        proof {
            assert(decreases_to!(all => all[i as int]));
            assert(decreases_to!(all[i as int] => all[i as int].description));
            assert(decreases_to!(all[i as int].description => all[i as int].description@));
            assert(description@ == all[i as int].description@);
        }
        let inner = auto_assign(description, existing);
        let ghost prev_out = out@;
        let nit = DescriptionListItem { term, description: inner };
        out.push(nit);
        proof {
            let t = all.take(i as int);
            assert(all.take(i + 1) =~= t.push(orig));
            assert(t.push(orig).drop_last() =~= t);
            assert(out@.drop_last() =~= prev_out);
            assert(dlist_items_v(all.take(i + 1)).drop_last() =~= dlist_items_v(t));
        }
        i += 1;
    }
    assert(all.take(n as int) =~= all);
    out
}

fn auto_assign_cells(items: Vec<TableCell>, existing: &mut StrSet) -> (res: Vec<TableCell>)
    ensures
        (cells_v(res@), final(existing)@) == assign_cells(cells_v(items@), old(existing)@),
    decreases items@,
{
    let n = items.len();
    let ghost all = items@;
    let mut rest = crate::text::reversed(items);
    let mut out: Vec<TableCell> = Vec::new();
    let mut i: usize = 0;
    assert(all.take(0) =~= Seq::<TableCell>::empty());
    assert(cells_v(out@) =~= Seq::empty());
    while i < n
        invariant
            i <= n == all.len(),
            all == items@,
            rest@ == all.subrange(i as int, n as int).reverse(),
            (cells_v(out@), existing@) == assign_cells(cells_v(all.take(i as int)), old(existing)@),
        decreases n - i,
    {
        assert(rest@.len() == n - i);
        let ghost orig = all[i as int];
        assert(rest@.last() == orig);
        let it = rest.pop().unwrap();
        assert(rest@ =~= all.subrange(i + 1, n as int).reverse());
        let TableCell { inlines, blocks, style, h_align, colspan, rowspan } = it;
        proof {
            assert(decreases_to!(all => all[i as int]));
            assert(decreases_to!(all[i as int] => all[i as int].blocks));
            assert(decreases_to!(all[i as int].blocks => all[i as int].blocks@));
            assert(blocks@ == all[i as int].blocks@);
        }
        let inner = auto_assign(blocks, existing);
        let ghost prev_out = out@;
        let nit = TableCell { inlines, blocks: inner, style, h_align, colspan, rowspan };
        out.push(nit);
        proof {
            let t = all.take(i as int);
            assert(all.take(i + 1) =~= t.push(orig));
            assert(t.push(orig).drop_last() =~= t);
            assert(out@.drop_last() =~= prev_out);
            assert(cells_v(all.take(i + 1)).drop_last() =~= cells_v(t));
        }
        i += 1;
    }
    assert(all.take(n as int) =~= all);
    out
}

fn auto_assign_rows(items: Vec<TableRow>, existing: &mut StrSet) -> (res: Vec<TableRow>)
    ensures
        (rows_v(res@), final(existing)@) == assign_rows(rows_v(items@), old(existing)@),
    decreases items@,
{
    let n = items.len();
    let ghost all = items@;
    let mut rest = crate::text::reversed(items);
    let mut out: Vec<TableRow> = Vec::new();
    let mut i: usize = 0;
    assert(all.take(0) =~= Seq::<TableRow>::empty());
    assert(rows_v(out@) =~= Seq::empty());
    while i < n
        invariant
            i <= n == all.len(),
            all == items@,
            rest@ == all.subrange(i as int, n as int).reverse(),
            (rows_v(out@), existing@) == assign_rows(rows_v(all.take(i as int)), old(existing)@),
        decreases n - i,
    {
        assert(rest@.len() == n - i);
        let ghost orig = all[i as int];
        assert(rest@.last() == orig);
        let it = rest.pop().unwrap();
        assert(rest@ =~= all.subrange(i + 1, n as int).reverse());
        let TableRow { cells, kind } = it;
        proof {
            assert(decreases_to!(all => all[i as int]));
            assert(decreases_to!(all[i as int] => all[i as int].cells));
            assert(decreases_to!(all[i as int].cells => all[i as int].cells@));
            assert(cells@ == all[i as int].cells@);
        }
        let inner = auto_assign_cells(cells, existing);
        let ghost prev_out = out@;
        let nit = TableRow { cells: inner, kind };
        out.push(nit);
        proof {
            let t = all.take(i as int);
            assert(all.take(i + 1) =~= t.push(orig));
            assert(t.push(orig).drop_last() =~= t);
            assert(out@.drop_last() =~= prev_out);
            assert(rows_v(all.take(i + 1)).drop_last() =~= rows_v(t));
        }
        i += 1;
    }
    assert(all.take(n as int) =~= all);
    out
}


} // verus!
