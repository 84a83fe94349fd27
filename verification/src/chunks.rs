//! Block-level chunk manifest for retrieval pipelines.
//!
//! Each entry is one non-section block paired with the path of section ids
//! leading to it, the title of its section, its position among its
//! siblings, its kind, its plain text and a SHA-256 hash of its serialized
//! form, so consumers can tell which blocks changed between runs. Blocks
//! whose text is blank are left out.
use vstd::prelude::*;

use sha2::{Digest, Sha256};

use crate::ast::{
    block_v, blocks_v, cells_v, colist_items_v, dlist_items_v, inlines_to_plain, inlines_v,
    lemma_blocks_v_len, lemma_cells_v, lemma_dlist_items_v, lemma_list_items_v, lemma_rows_v,
    list_items_v, plain_seq, rows_v, Block, BlockV, CellV, ContentV, DelimitedContent, DlistItemV,
    Document, InlineV, ListItemV, RowV,
};
use crate::text::{dec_digits, is_blank, is_blank_slice, chars_of, join, push_char, push_decimal, push_str, sviews};

verus! {

/// One chunk of the manifest.
#[derive(Debug, Clone)]
pub struct Chunk {
    /// Section ids from the document root to the block's section.
    pub section_path: Vec<String>,
    /// Plain-text title of the block's section.
    pub section_title: String,
    /// Position of the block among its siblings.
    pub block_index: usize,
    pub kind: String,
    pub text: String,
    /// `sha256:` and the hex digest of the block's serialized form.
    pub hash: String,
}

pub struct ChunkV {
    pub section_path: Seq<Seq<char>>,
    pub section_title: Seq<char>,
    pub block_index: nat,
    pub kind: Seq<char>,
    pub text: Seq<char>,
    pub hash: Seq<char>,
}

pub open spec fn chunk_v(c: Chunk) -> ChunkV {
    ChunkV {
        section_path: sviews(c.section_path@),
        section_title: c.section_title@,
        block_index: c.block_index as nat,
        kind: c.kind@,
        text: c.text@,
        hash: c.hash@,
    }
}

pub open spec fn chunks_v(s: Seq<Chunk>) -> Seq<ChunkV> {
    s.map_values(|c: Chunk| chunk_v(c))
}

// ---------------------------------------------------------------------------
// hashing
// ---------------------------------------------------------------------------

/// The SHA-256 digest of `data`.
pub uninterp spec fn sha256_of(data: Seq<u8>) -> Seq<u8>;

/// `sha2::Sha256::digest`: the 32-byte SHA-256 digest of `data`.
#[verifier::external_body]
fn sha256(data: &[u8]) -> (res: Vec<u8>)
    ensures
        res@ == sha256_of(data@),
        res@.len() == 32,
{
    Sha256::digest(data).to_vec()
}

pub open spec fn nibble_char(n: int) -> char {
    if n < 10 {
        (48 + n) as char
    } else {
        (97 + n - 10) as char
    }
}

/// Lowercase hex of `bytes`, two digits per byte.
pub open spec fn hex_of(bytes: Seq<u8>) -> Seq<char>
    decreases bytes.len(),
{
    if bytes.len() == 0 {
        Seq::empty()
    } else {
        hex_of(bytes.drop_last()) + seq![
            nibble_char(bytes.last() as int / 16),
            nibble_char(bytes.last() as int % 16),
        ]
    }
}

/// The hash text of a block serialized as `data`.
pub open spec fn hash_text(data: Seq<u8>) -> Seq<char> {
    "sha256:"@ + hex_of(sha256_of(data))
}

/// A lowercase hexadecimal digit.
pub open spec fn is_lower_hex(c: char) -> bool {
    ('0' <= c && c <= '9') || ('a' <= c && c <= 'f')
}

/// `sha256:` followed by 64 lowercase hexadecimal digits.
pub open spec fn is_hash_text(s: Seq<char>) -> bool {
    &&& s.len() == 71
    &&& s.take(7) == "sha256:"@
    &&& forall|i: int| 7 <= i < 71 ==> is_lower_hex(#[trigger] s[i])
}

proof fn lemma_nibble_hex(n: int)
    requires
        0 <= n < 16,
    ensures
        is_lower_hex(nibble_char(n)),
{
    if n < 10 {
        assert(((48 + n) as char) as u32 == 48 + n);
    } else {
        assert(((97 + n - 10) as char) as u32 == 97 + n - 10);
    }
}

proof fn lemma_hex_of(b: Seq<u8>)
    ensures
        hex_of(b).len() == 2 * b.len(),
        forall|i: int| 0 <= i < hex_of(b).len() ==> is_lower_hex(#[trigger] hex_of(b)[i]),
    decreases b.len(),
{
    if b.len() > 0 {
        lemma_hex_of(b.drop_last());
        lemma_nibble_hex(b.last() as int / 16);
        lemma_nibble_hex(b.last() as int % 16);
        let h = hex_of(b.drop_last());
        assert forall|i: int| 0 <= i < hex_of(b).len() implies is_lower_hex(#[trigger] hex_of(b)[i]) by {
            if i < h.len() {
                assert(hex_of(b)[i] == h[i]);
            }
        }
    }
}

fn hex_nibble(n: u8) -> (c: char)
    requires
        n < 16,
    ensures
        c == nibble_char(n as int),
{
    if n < 10 {
        crate::text::char_from_ascii(48 + n as u32)
    } else {
        crate::text::char_from_ascii(97 + n as u32 - 10)
    }
}

/// `sha256:` followed by the hex SHA-256 digest of `data`.
pub fn hash_bytes(data: &[u8]) -> (res: String)
    ensures
        res@ == hash_text(data@),
        is_hash_text(res@),
{
    let digest = sha256(data);
    let mut out = String::new();
    push_str(&mut out, "sha256:");
    let ghost start = out@;
    let mut i: usize = 0;
    while i < digest.len()
        invariant
            i <= digest.len(),
            out@ == start + hex_of(digest@.take(i as int)),
        decreases digest.len() - i,
    {
        let b = digest[i];
        push_char(&mut out, hex_nibble(b / 16));
        push_char(&mut out, hex_nibble(b % 16));
        proof {
            assert(digest@.take(i + 1).drop_last() =~= digest@.take(i as int));
            assert(digest@.take(i + 1).last() == b);
            assert(out@ =~= start + hex_of(digest@.take(i + 1)));
        }
        i += 1;
    }
    assert(digest@.take(digest.len() as int) =~= digest@);
    proof {
        reveal_strlit("sha256:");
        lemma_hex_of(digest@);
        assert(out@.take(7) =~= "sha256:"@);
        assert forall|i: int| 7 <= i < 71 implies is_lower_hex(#[trigger] out@[i]) by {
            assert(out@[i] == hex_of(digest@)[i - 7]);
        }
    }
    out
}

// ---------------------------------------------------------------------------
// plain text of blocks
// ---------------------------------------------------------------------------

/// The kind name of a block.
pub open spec fn kind_of(b: BlockV) -> Seq<char> {
    match b {
        BlockV::Section { .. } => "section"@,
        BlockV::Paragraph { .. } => "paragraph"@,
        BlockV::List { .. } => "list"@,
        BlockV::DescriptionList { .. } => "description_list"@,
        BlockV::Delimited { .. } => "delimited"@,
        BlockV::Table { .. } => "table"@,
        BlockV::Colist { .. } => "colist"@,
        BlockV::DiscreteHeading { .. } => "discrete_heading"@,
    }
}

/// Plain text of a block for embedding: inline text for paragraphs and
/// headings, verbatim text for raw blocks, nested text joined by line
/// breaks, table cells joined with ` | `.
pub open spec fn block_text(b: BlockV) -> Seq<char>
    decreases b,
{
    match b {
        BlockV::Paragraph { inlines, .. } => plain_seq(inlines),
        BlockV::List { items, .. } => join(items_texts(items), "\n"@),
        BlockV::DescriptionList { items, .. } => join(ditems_texts(items), "\n"@),
        BlockV::Delimited { content, .. } => match content {
            ContentV::Raw(text) => text,
            ContentV::Blocks(bs) => join(blocks_texts(bs), "\n"@),
        },
        BlockV::Table { rows, .. } => join(rows_texts(rows), "\n"@),
        BlockV::Colist { items, .. } => join(colist_texts(items), "\n"@),
        BlockV::DiscreteHeading { title, .. } => plain_seq(title),
        BlockV::Section { title, .. } => plain_seq(title),
    }
}

pub open spec fn blocks_texts(bs: Seq<BlockV>) -> Seq<Seq<char>>
    decreases bs,
{
    if bs.len() == 0 {
        Seq::empty()
    } else {
        blocks_texts(bs.drop_last()).push(block_text(bs.last()))
    }
}

pub open spec fn items_texts(items: Seq<ListItemV>) -> Seq<Seq<char>>
    decreases items.len(),
{
    if items.len() == 0 {
        Seq::empty()
    } else {
        items_texts(items.drop_last()).push(plain_seq(items.last().principal))
    }
}

/// A term, and `: ` and its description's text when that is not empty.
pub open spec fn ditem_text(term: Seq<char>, body: Seq<char>) -> Seq<char> {
    if body.len() == 0 {
        term
    } else {
        term + ": "@ + body
    }
}

pub open spec fn ditems_texts(items: Seq<DlistItemV>) -> Seq<Seq<char>>
    decreases items,
{
    if items.len() == 0 {
        Seq::empty()
    } else {
        ditems_texts(items.drop_last()).push(
            ditem_text(
                plain_seq(items.last().term),
                join(blocks_texts(items.last().description), "\n"@),
            ),
        )
    }
}

pub open spec fn cell_text(c: CellV) -> Seq<char>
    decreases c,
{
    if c.blocks.len() == 0 {
        plain_seq(c.inlines)
    } else {
        join(blocks_texts(c.blocks), " "@)
    }
}

pub open spec fn cells_texts(cells: Seq<CellV>) -> Seq<Seq<char>>
    decreases cells,
{
    if cells.len() == 0 {
        Seq::empty()
    } else {
        cells_texts(cells.drop_last()).push(cell_text(cells.last()))
    }
}

pub open spec fn rows_texts(rows: Seq<RowV>) -> Seq<Seq<char>>
    decreases rows,
{
    if rows.len() == 0 {
        Seq::empty()
    } else {
        rows_texts(rows.drop_last()).push(join(cells_texts(rows.last().cells), " | "@))
    }
}

pub open spec fn colist_texts(items: Seq<(u32, Seq<InlineV>)>) -> Seq<Seq<char>>
    decreases items.len(),
{
    if items.len() == 0 {
        Seq::empty()
    } else {
        colist_texts(items.drop_last()).push(
            "("@ + dec_digits(items.last().0 as nat) + ") "@ + plain_seq(items.last().1),
        )
    }
}

proof fn lemma_join_push(parts: Seq<Seq<char>>, x: Seq<char>, sep: Seq<char>)
    ensures
        join(parts.push(x), sep) == if parts.len() == 0 {
            x
        } else {
            join(parts, sep) + sep + x
        },
{
    assert(parts.push(x).drop_last() =~= parts);
    if parts.len() == 0 {
        assert(parts.push(x) =~= seq![x]);
    }
}

fn block_kind(b: &Block) -> (res: &'static str)
    ensures
        res@ == kind_of(block_v(*b)),
{
    match b {
        Block::Section(_) => "section",
        Block::Paragraph(_) => "paragraph",
        Block::List(_) => "list",
        Block::DescriptionList(_) => "description_list",
        Block::Delimited(_) => "delimited",
        Block::Table(_) => "table",
        Block::Colist(_) => "colist",
        Block::DiscreteHeading(_) => "discrete_heading",
    }
}

proof fn lemma_blocks_texts_len(bs: Seq<BlockV>)
    ensures
        blocks_texts(bs).len() == bs.len(),
    decreases bs.len(),
{
    if bs.len() > 0 {
        lemma_blocks_texts_len(bs.drop_last());
    }
}

/// Appends the texts of `bs` joined with `sep`.
fn write_blocks_joined(out: &mut String, bs: &[Block], sep: &str)
    ensures
        final(out)@ == old(out)@ + join(blocks_texts(blocks_v(bs@)), sep@),
    decreases bs@,
{
    let ghost all = blocks_v(bs@);
    proof {
        lemma_blocks_v_len(bs@);
    }
    let ghost start = out@;
    let mut i: usize = 0;
    while i < bs.len()
        invariant
            i <= bs.len(),
            all == blocks_v(bs@),
            all.len() == bs@.len(),
            forall|k: int| 0 <= k < bs@.len() ==> #[trigger] all[k] == block_v(bs@[k]),
            out@ == start + join(blocks_texts(all.take(i as int)), sep@),
        decreases bs.len() - i,
    {
        if i > 0 {
            push_str(out, sep);
        }
        proof {
            assert(decreases_to!(bs@ => bs@[i as int]));
        }
        write_block_text(out, &bs[i]);
        proof {
            let t = all.take(i as int);
            assert(all.take(i + 1).drop_last() =~= t);
            assert(all.take(i + 1).last() == all[i as int]);
            lemma_blocks_texts_len(t);
            lemma_join_push(blocks_texts(t), block_text(all[i as int]), sep@);
            assert(out@ =~= start + join(blocks_texts(all.take(i + 1)), sep@));
        }
        i += 1;
    }
    assert(all.take(bs.len() as int) =~= all);
}

/// The plain text of a block.
pub fn block_plain_text(b: &Block) -> (res: String)
    ensures
        res@ == block_text(block_v(*b)),
{
    let mut out = String::new();
    write_block_text(&mut out, b);
    out
}

/// Appends the plain text of a block.
fn write_block_text(out: &mut String, b: &Block)
    ensures
        final(out)@ == old(out)@ + block_text(block_v(*b)),
    decreases *b,
{
    match b {
        Block::Paragraph(p) => {
            let t = inlines_to_plain(p.inlines.as_slice());
            push_str(out, t.as_str());
        },
        Block::List(l) => {
            let ghost all = list_items_v(l.items@);
            proof {
                lemma_list_items_v(l.items@);
            }
            let ghost start = out@;
            let mut i: usize = 0;
            while i < l.items.len()
                invariant
                    i <= l.items.len(),
                    all == list_items_v(l.items@),
                    all.len() == l.items@.len(),
                    forall|k: int|
                        0 <= k < l.items@.len() ==> #[trigger] all[k].principal == inlines_v(l.items@[k].principal@),
                    out@ == start + join(items_texts(all.take(i as int)), "\n"@),
                decreases l.items.len() - i,
            {
                if i > 0 {
                    push_str(out, "\n");
                }
                let t = inlines_to_plain(l.items[i].principal.as_slice());
                push_str(out, t.as_str());
                proof {
                    let tk = all.take(i as int);
                    assert(all.take(i + 1).drop_last() =~= tk);
                    assert(all.take(i + 1).last() == all[i as int]);
                    lemma_items_texts_len(tk);
                    lemma_join_push(items_texts(tk), plain_seq(all[i as int].principal), "\n"@);
                    assert(out@ =~= start + join(items_texts(all.take(i + 1)), "\n"@));
                }
                i += 1;
            }
            assert(all.take(l.items.len() as int) =~= all);
        },
        Block::DescriptionList(d) => {
            let ghost all = dlist_items_v(d.items@);
            proof {
                lemma_dlist_items_v(d.items@);
            }
            let ghost start = out@;
            let mut i: usize = 0;
            while i < d.items.len()
                invariant
                    i <= d.items.len(),
                    all == dlist_items_v(d.items@),
                    all.len() == d.items@.len(),
                    forall|k: int|
                        0 <= k < d.items@.len() ==> #[trigger] all[k] == (DlistItemV {
                            term: inlines_v(d.items@[k].term@),
                            description: blocks_v(d.items@[k].description@),
                        }),
                    *b == Block::DescriptionList(*d),
                    out@ == start + join(ditems_texts(all.take(i as int)), "\n"@),
                decreases d.items.len() - i,
            {
                if i > 0 {
                    push_str(out, "\n");
                }
                let item = &d.items[i];
                let term = inlines_to_plain(item.term.as_slice());
                let mut body = String::new();
                proof {
                    assert(decreases_to!(*b => (*b)->DescriptionList_0));
                    assert(decreases_to!((*b)->DescriptionList_0 => (*b)->DescriptionList_0.items));
                    assert(decreases_to!((*b)->DescriptionList_0.items => (*b)->DescriptionList_0.items@));
                    assert(decreases_to!((*b)->DescriptionList_0.items@ => (*b)->DescriptionList_0.items@[i as int]));
                    assert(decreases_to!((*b)->DescriptionList_0.items@[i as int] => (*b)->DescriptionList_0.items@[i as int].description));
                    assert(decreases_to!((*b)->DescriptionList_0.items@[i as int].description => (*b)->DescriptionList_0.items@[i as int].description@));
                }
                write_blocks_joined(&mut body, item.description.as_slice(), "\n");
                push_str(out, term.as_str());
                if !body.as_str().is_empty() {
                    push_str(out, ": ");
                    push_str(out, body.as_str());
                }
                proof {
                    let tk = all.take(i as int);
                    assert(all.take(i + 1).drop_last() =~= tk);
                    assert(all.take(i + 1).last() == all[i as int]);
                    lemma_ditems_texts_len(tk);
                    let x = ditem_text(plain_seq(all[i as int].term), join(blocks_texts(all[i as int].description), "\n"@));
                    lemma_join_push(ditems_texts(tk), x, "\n"@);
                    assert(out@ =~= start + join(ditems_texts(all.take(i + 1)), "\n"@));
                }
                i += 1;
            }
            assert(all.take(d.items.len() as int) =~= all);
        },
        Block::Delimited(d) => match &d.content {
            DelimitedContent::Raw { text } => push_str(out, text.as_str()),
            DelimitedContent::Blocks { blocks } => {
                proof {
                    assert(decreases_to!(*b => (*b)->Delimited_0));
                    assert(decreases_to!((*b)->Delimited_0 => (*b)->Delimited_0.content));
                    assert(decreases_to!((*b)->Delimited_0.content => ((*b)->Delimited_0.content)->Blocks_blocks));
                    assert(decreases_to!(((*b)->Delimited_0.content)->Blocks_blocks => ((*b)->Delimited_0.content)->Blocks_blocks@));
                }
                write_blocks_joined(out, blocks.as_slice(), "\n");
            },
        },
        Block::Table(t) => {
            let ghost all = rows_v(t.rows@);
            proof {
                lemma_rows_v(t.rows@);
            }
            let ghost start = out@;
            let mut r: usize = 0;
            while r < t.rows.len()
                invariant
                    r <= t.rows.len(),
                    all == rows_v(t.rows@),
                    all.len() == t.rows@.len(),
                    forall|k: int|
                        0 <= k < t.rows@.len() ==> #[trigger] all[k] == (RowV {
                            cells: cells_v(t.rows@[k].cells@),
                            kind: t.rows@[k].kind,
                        }),
                    *b == Block::Table(*t),
                    out@ == start + join(rows_texts(all.take(r as int)), "\n"@),
                decreases t.rows.len() - r,
            {
                if r > 0 {
                    push_str(out, "\n");
                }
                let row = &t.rows[r];
                let ghost cells = cells_v(row.cells@);
                proof {
                    lemma_cells_v(row.cells@);
                }
                let ghost rstart = out@;
                let mut c: usize = 0;
                while c < row.cells.len()
                    invariant
                        c <= row.cells.len(),
                        cells == cells_v(row.cells@),
                        cells.len() == row.cells@.len(),
                        forall|k: int| 0 <= k < row.cells@.len() ==> #[trigger] cells[k] == crate::ast::cell_v(row.cells@[k]),
                        *b == Block::Table(*t),
                        r < t.rows@.len(),
                        *row == t.rows@[r as int],
                        out@ == rstart + join(cells_texts(cells.take(c as int)), " | "@),
                    decreases row.cells.len() - c,
                {
                    if c > 0 {
                        push_str(out, " | ");
                    }
                    let cell = &row.cells[c];
                    if cell.blocks.len() == 0 {
                        let p = inlines_to_plain(cell.inlines.as_slice());
                        push_str(out, p.as_str());
                    } else {
                        proof {
                            assert(decreases_to!(*b => (*b)->Table_0));
                            assert(decreases_to!((*b)->Table_0 => (*b)->Table_0.rows));
                            assert(decreases_to!((*b)->Table_0.rows => (*b)->Table_0.rows@));
                            assert(decreases_to!((*b)->Table_0.rows@ => (*b)->Table_0.rows@[r as int]));
                            assert(decreases_to!((*b)->Table_0.rows@[r as int] => (*b)->Table_0.rows@[r as int].cells));
                            assert(decreases_to!((*b)->Table_0.rows@[r as int].cells => (*b)->Table_0.rows@[r as int].cells@));
                            assert(decreases_to!((*b)->Table_0.rows@[r as int].cells@ => (*b)->Table_0.rows@[r as int].cells@[c as int]));
                            assert(decreases_to!((*b)->Table_0.rows@[r as int].cells@[c as int] => (*b)->Table_0.rows@[r as int].cells@[c as int].blocks));
                            assert(decreases_to!((*b)->Table_0.rows@[r as int].cells@[c as int].blocks => (*b)->Table_0.rows@[r as int].cells@[c as int].blocks@));
                        }
                        write_blocks_joined(out, cell.blocks.as_slice(), " ");
                    }
                    proof {
                        let tk = cells.take(c as int);
                        assert(cells.take(c + 1).drop_last() =~= tk);
                        assert(cells.take(c + 1).last() == cells[c as int]);
                        lemma_cells_texts_len(tk);
                        lemma_blocks_v_len(cell.blocks@);
                        lemma_join_push(cells_texts(tk), cell_text(cells[c as int]), " | "@);
                        assert(out@ =~= rstart + join(cells_texts(cells.take(c + 1)), " | "@));
                    }
                    c += 1;
                }
                proof {
                    assert(cells.take(row.cells.len() as int) =~= cells);
                    let tk = all.take(r as int);
                    assert(all.take(r + 1).drop_last() =~= tk);
                    assert(all.take(r + 1).last() == all[r as int]);
                    lemma_rows_texts_len(tk);
                    lemma_join_push(rows_texts(tk), join(cells_texts(cells), " | "@), "\n"@);
                    assert(out@ =~= start + join(rows_texts(all.take(r + 1)), "\n"@));
                }
                r += 1;
            }
            assert(all.take(t.rows.len() as int) =~= all);
        },
        Block::Colist(cl) => {
            let ghost all = colist_items_v(cl.items@);
            let ghost start = out@;
            let mut i: usize = 0;
            while i < cl.items.len()
                invariant
                    i <= cl.items.len(),
                    all == colist_items_v(cl.items@),
                    out@ == start + join(colist_texts(all.take(i as int)), "\n"@),
                decreases cl.items.len() - i,
            {
                if i > 0 {
                    push_str(out, "\n");
                }
                push_str(out, "(");
                push_decimal(out, cl.items[i].number as u128);
                push_str(out, ") ");
                let p = inlines_to_plain(cl.items[i].inlines.as_slice());
                push_str(out, p.as_str());
                proof {
                    let tk = all.take(i as int);
                    assert(all.take(i + 1).drop_last() =~= tk);
                    assert(all.take(i + 1).last() == all[i as int]);
                    lemma_colist_texts_len(tk);
                    lemma_join_push(colist_texts(tk), "("@ + dec_digits(all[i as int].0 as nat) + ") "@ + plain_seq(all[i as int].1), "\n"@);
                    assert(out@ =~= start + join(colist_texts(all.take(i + 1)), "\n"@));
                }
                i += 1;
            }
            assert(all.take(cl.items.len() as int) =~= all);
        },
        Block::DiscreteHeading(d) => {
            let t = inlines_to_plain(d.title.as_slice());
            push_str(out, t.as_str());
        },
        Block::Section(s) => {
            let t = inlines_to_plain(s.title.as_slice());
            push_str(out, t.as_str());
        },
    }
}

proof fn lemma_items_texts_len(s: Seq<ListItemV>)
    ensures
        items_texts(s).len() == s.len(),
    decreases s.len(),
{
    if s.len() > 0 {
        lemma_items_texts_len(s.drop_last());
    }
}

proof fn lemma_ditems_texts_len(s: Seq<DlistItemV>)
    ensures
        ditems_texts(s).len() == s.len(),
    decreases s.len(),
{
    if s.len() > 0 {
        lemma_ditems_texts_len(s.drop_last());
    }
}

proof fn lemma_cells_texts_len(s: Seq<CellV>)
    ensures
        cells_texts(s).len() == s.len(),
    decreases s.len(),
{
    if s.len() > 0 {
        lemma_cells_texts_len(s.drop_last());
    }
}

proof fn lemma_rows_texts_len(s: Seq<RowV>)
    ensures
        rows_texts(s).len() == s.len(),
    decreases s.len(),
{
    if s.len() > 0 {
        lemma_rows_texts_len(s.drop_last());
    }
}

proof fn lemma_colist_texts_len(s: Seq<(u32, Seq<InlineV>)>)
    ensures
        colist_texts(s).len() == s.len(),
    decreases s.len(),
{
    if s.len() > 0 {
        lemma_colist_texts_len(s.drop_last());
    }
}

// ---------------------------------------------------------------------------
// the walk
// ---------------------------------------------------------------------------

/// The non-section blocks of `bs`, sections entered, in document order.
pub open spec fn leaves(bs: Seq<BlockV>) -> Seq<BlockV>
    decreases bs,
{
    if bs.len() == 0 {
        Seq::empty()
    } else {
        let rest = bs.subrange(1, bs.len() as int);
        match bs[0] {
            BlockV::Section { blocks, .. } => leaves(blocks) + leaves(rest),
            _ => seq![bs[0]] + leaves(rest),
        }
    }
}

pub open spec fn byte_views(v: Seq<Vec<u8>>) -> Seq<Seq<u8>> {
    v.map_values(|x: Vec<u8>| x@)
}

/// The chunks of `bs`, the first being the `idx`-th sibling in the
/// section at `path` titled `title`; `json[k]` is the serialized form of
/// the first leaf block among them.
pub open spec fn chunks_walk(
    bs: Seq<BlockV>,
    path: Seq<Seq<char>>,
    title: Seq<char>,
    idx: nat,
    k: int,
    json: Seq<Seq<u8>>,
) -> Seq<ChunkV>
    decreases bs,
{
    if bs.len() == 0 {
        Seq::empty()
    } else {
        let rest = bs.subrange(1, bs.len() as int);
        match bs[0] {
            BlockV::Section { title: t, blocks, meta, .. } => {
                let id = match meta.id {
                    Some(i) => i,
                    None => "section-"@ + dec_digits(idx),
                };
                chunks_walk(blocks, path.push(id), plain_seq(t), 0, k, json) + chunks_walk(
                    rest,
                    path,
                    title,
                    idx + 1,
                    k + leaves(blocks).len(),
                    json,
                )
            },
            _ => {
                let text = block_text(bs[0]);
                (if is_blank(text) {
                    Seq::empty()
                } else {
                    seq![
                        ChunkV {
                            section_path: path,
                            section_title: title,
                            block_index: idx,
                            kind: kind_of(bs[0]),
                            text,
                            hash: hash_text(json[k]),
                        },
                    ]
                }) + chunks_walk(rest, path, title, idx + 1, k + 1, json)
            },
        }
    }
}

fn copy_strings(v: &Vec<String>) -> (res: Vec<String>)
    ensures
        res@ == v@,
        sviews(res@) == sviews(v@),
{
    let mut out: Vec<String> = Vec::new();
    let mut i: usize = 0;
    while i < v.len()
        invariant
            i <= v.len(),
            out@ == v@.take(i as int),
        decreases v.len() - i,
    {
        out.push(v[i].clone());
        assert(out@ =~= v@.take(i + 1));
        i += 1;
    }
    assert(v@.take(v.len() as int) =~= v@);
    out
}

fn walk(
    blocks: &[Block],
    section_path: &Vec<String>,
    section_title: &str,
    json: &Vec<Vec<u8>>,
    k: usize,
    out: &mut Vec<Chunk>,
) -> (k2: usize)
    requires
        k + leaves(blocks_v(blocks@)).len() <= json@.len(),
        forall|j: int| 0 <= j < old(out)@.len() ==> is_hash_text(#[trigger] old(out)@[j].hash@),
    ensures
        k2 == k + leaves(blocks_v(blocks@)).len(),
        forall|j: int| 0 <= j < final(out)@.len() ==> is_hash_text(#[trigger] final(out)@[j].hash@),
        chunks_v(final(out)@) == chunks_v(old(out)@) + chunks_walk(
            blocks_v(blocks@),
            sviews(section_path@),
            section_title@,
            0,
            k as int,
            byte_views(json@),
        ),
    decreases blocks@,
{
    let ghost all = blocks_v(blocks@);
    let ghost path = sviews(section_path@);
    let ghost js = byte_views(json@);
    proof {
        lemma_blocks_v_len(blocks@);
    }
    let ghost c0 = chunks_v(out@);
    assert(all.skip(0) =~= all);
    assert(c0 + chunks_walk(all, path, section_title@, 0, k as int, js) =~= chunks_v(out@) + chunks_walk(all.skip(0), path, section_title@, 0, k as int, js));
    let mut kk: usize = k;
    let mut i: usize = 0;
    while i < blocks.len()
        invariant
            i <= blocks.len(),
            all == blocks_v(blocks@),
            all.len() == blocks@.len(),
            forall|j: int| 0 <= j < blocks@.len() ==> #[trigger] all[j] == block_v(blocks@[j]),
            path == sviews(section_path@),
            js == byte_views(json@),
            forall|j: int| 0 <= j < out@.len() ==> is_hash_text(#[trigger] out@[j].hash@),
            kk + leaves(all.skip(i as int)).len() == k + leaves(all).len(),
            k + leaves(all).len() <= json@.len(),
            c0 + chunks_walk(all, path, section_title@, 0, k as int, js) == chunks_v(out@) + chunks_walk(
                all.skip(i as int),
                path,
                section_title@,
                i as nat,
                kk as int,
                js,
            ),
        decreases blocks.len() - i,
    {
        let ghost s = all.skip(i as int);
        let ghost before = chunks_v(out@);
        let ghost k_in = kk;
        proof {
            assert(s[0] == all[i as int]);
            assert(s.subrange(1, s.len() as int) =~= all.skip(i + 1));
        }
        match &blocks[i] {
            Block::Section(sec) => {
                let id = match &sec.meta.id {
                    Some(id) => id.clone(),
                    None => {
                        let mut t = String::new();
                        push_str(&mut t, "section-");
                        push_decimal(&mut t, i as u128);
                        t
                    },
                };
                let title = inlines_to_plain(sec.title.as_slice());
                let mut nested = copy_strings(section_path);
                let ghost np = nested@;
                nested.push(id);
                proof {
                    assert(sviews(nested@) =~= path.push(id@)) by {
                        assert(nested@ == np.push(id));
                        assert forall|j: int| 0 <= j < nested@.len() implies sviews(nested@)[j] == path.push(id@)[j] by {
                            if j < np.len() {
                                assert(nested@[j] == np[j]);
                                assert(sviews(np)[j] == path[j]);
                            }
                        }
                    }
                    assert(decreases_to!(blocks@ => blocks@[i as int]));
                    assert(decreases_to!(blocks@[i as int] => (blocks@[i as int])->Section_0));
                    assert(decreases_to!((blocks@[i as int])->Section_0 => (blocks@[i as int])->Section_0.blocks));
                    assert(decreases_to!((blocks@[i as int])->Section_0.blocks => (blocks@[i as int])->Section_0.blocks@));
                }
                kk = walk(sec.blocks.as_slice(), &nested, title.as_str(), json, kk, out);
            },
            b => {
                proof {
                    assert(!(all[i as int] is Section));
                    assert(leaves(s) == seq![s[0]] + leaves(s.subrange(1, s.len() as int)));
                }
                let text = block_plain_text(b);
                let cs = chars_of(text.as_str());
                if !is_blank_slice(cs.as_slice()) {
                    let hash = hash_bytes(json[kk].as_slice());
                    let ghost prev = out@;
                    out.push(
                        Chunk {
                            section_path: copy_strings(section_path),
                            section_title: section_title.to_owned(),
                            block_index: i,
                            kind: block_kind(b).to_owned(),
                            text,
                            hash,
                        },
                    );
                    proof {
                        assert(chunks_v(out@) =~= chunks_v(prev).push(chunk_v(out@.last())));
                        assert forall|j: int| 0 <= j < out@.len() implies is_hash_text(#[trigger] out@[j].hash@) by {
                            if j < prev.len() {
                                assert(out@[j] == prev[j]);
                            }
                        }
                    }
                }
                let nj = json.len();
                assert(kk < nj);
                kk = kk + 1;
            },
        }
        proof {
            assert(chunks_v(out@) + chunks_walk(all.skip(i + 1), path, section_title@, (i + 1) as nat, kk as int, js)
                =~= before + chunks_walk(s, path, section_title@, i as nat, k_in as int, js));
        }
        i += 1;
    }
    assert(all.skip(blocks.len() as int) =~= Seq::<BlockV>::empty());
    assert(chunks_v(out@) + Seq::<ChunkV>::empty() =~= chunks_v(out@));
    kk
}

/// Walks `doc` and lists its chunks: sections are entered but are no
/// chunks themselves; blocks with blank text are left out. `leaf_json[k]`
/// is the serialized form of the `k`-th non-section block in document
/// order (see [`leaf_blocks`]).
pub fn collect(doc: &Document, leaf_json: &Vec<Vec<u8>>) -> (res: Vec<Chunk>)
    requires
        leaf_json@.len() == leaves(blocks_v(doc.blocks@)).len(),
    ensures
        chunks_v(res@) == chunks_walk(
            blocks_v(doc.blocks@),
            Seq::empty(),
            Seq::empty(),
            0,
            0,
            byte_views(leaf_json@),
        ),
        forall|j: int| 0 <= j < res@.len() ==> is_hash_text(#[trigger] res@[j].hash@),
{
    let mut out: Vec<Chunk> = Vec::new();
    let path: Vec<String> = Vec::new();
    assert(sviews(path@) =~= Seq::<Seq<char>>::empty());
    walk(doc.blocks.as_slice(), &path, "", leaf_json, 0, &mut out);
    proof {
        reveal_strlit("");
        assert(""@ =~= Seq::<char>::empty());
    }
    assert(chunks_v(out@) =~= chunks_walk(
        blocks_v(doc.blocks@),
        Seq::empty(),
        Seq::empty(),
        0,
        0,
        byte_views(leaf_json@),
    ));
    out
}

pub open spec fn refs_v(s: Seq<&Block>) -> Seq<BlockV> {
    s.map_values(|b: &Block| block_v(*b))
}

fn collect_leaves<'a>(bs: &'a [Block], out: &mut Vec<&'a Block>)
    ensures
        refs_v(final(out)@) == refs_v(old(out)@) + leaves(blocks_v(bs@)),
    decreases bs@,
{
    let ghost all = blocks_v(bs@);
    proof {
        lemma_blocks_v_len(bs@);
    }
    let ghost r0 = refs_v(out@);
    assert(all.skip(0) =~= all);
    let mut i: usize = 0;
    while i < bs.len()
        invariant
            i <= bs.len(),
            all == blocks_v(bs@),
            all.len() == bs@.len(),
            forall|j: int| 0 <= j < bs@.len() ==> #[trigger] all[j] == block_v(bs@[j]),
            r0 + leaves(all) == refs_v(out@) + leaves(all.skip(i as int)),
        decreases bs.len() - i,
    {
        let ghost s = all.skip(i as int);
        let ghost before = refs_v(out@);
        proof {
            assert(s[0] == all[i as int]);
            assert(s.subrange(1, s.len() as int) =~= all.skip(i + 1));
        }
        match &bs[i] {
            Block::Section(sec) => {
                proof {
                    assert(decreases_to!(bs@ => bs@[i as int]));
                    assert(decreases_to!(bs@[i as int] => (bs@[i as int])->Section_0));
                    assert(decreases_to!((bs@[i as int])->Section_0 => (bs@[i as int])->Section_0.blocks));
                    assert(decreases_to!((bs@[i as int])->Section_0.blocks => (bs@[i as int])->Section_0.blocks@));
                }
                collect_leaves(sec.blocks.as_slice(), out);
            },
            b => {
                let ghost prev = out@;
                out.push(b);
                proof {
                    assert(!(all[i as int] is Section));
                    assert(refs_v(out@) =~= refs_v(prev).push(block_v(*b)));
                }
            },
        }
        proof {
            assert(refs_v(out@) + leaves(all.skip(i + 1)) =~= before + leaves(s));
        }
        i += 1;
    }
    assert(all.skip(bs.len() as int) =~= Seq::<BlockV>::empty());
    assert(refs_v(out@) + Seq::<BlockV>::empty() =~= refs_v(out@));
}

/// The non-section blocks of `doc` in document order: the blocks whose
/// serialized forms [`collect`] hashes.
pub fn leaf_blocks(doc: &Document) -> (res: Vec<&Block>)
    ensures
        refs_v(res@) == leaves(blocks_v(doc.blocks@)),
{
    let mut out: Vec<&Block> = Vec::new();
    assert(refs_v(out@) =~= Seq::<BlockV>::empty());
    collect_leaves(doc.blocks.as_slice(), &mut out);
    assert(refs_v(out@) =~= leaves(blocks_v(doc.blocks@)));
    out
}

} // verus!
