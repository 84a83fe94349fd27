//! Table rendering.
use vstd::prelude::*;

use crate::ast::{
    block_v, blocks_v, cell_v, cells_v, inlines_v, lemma_cells_v, lemma_rows_v, rows_v, Block, CellStyle,
    ColumnSpec, ConvertError, HAlign, RowKind, Table, TableCell,
};
use crate::convert::html5::block::{meta_attrs, mismatch, render_blocks, write_title};
use crate::convert::html5::ctx::RenderCtx;
use crate::convert::html5::escape::push_escaped;
use crate::convert::html5::inline::{text_of_inlines, write_inlines};
use crate::convert::html5::model::{
    block_html, block_ok, cell_align, cell_close, cell_inline_body, cell_is_th, cell_open, cells_html,
    cells_ok, col_at, col_html, colgroup_html, cols_html, div_round_even, four_digits, halign_class,
    percent_text, rep, span_attrs, align_attr, cell_tag, row_close, row_open, rows_html, rows_ok, title_html, widths_total,
};
use crate::text::{dec_digits, push_char, push_decimal, push_str};

verus! {

// ---------------------------------------------------------------------------
// column widths
// ---------------------------------------------------------------------------

proof fn lemma_widths_total_bound(cols: Seq<ColumnSpec>)
    ensures
        widths_total(cols) <= cols.len() * 0xffff_ffff,
    decreases cols.len(),
{
    if cols.len() > 0 {
        lemma_widths_total_bound(cols.drop_last());
        assert(cols.drop_last().len() * 0xffff_ffff + 0xffff_ffff == cols.len() * 0xffff_ffff)
            by (nonlinear_arith)
            requires
                cols.drop_last().len() + 1 == cols.len(),
        ;
    }
}

proof fn lemma_dec_len(n: nat)
    requires
        n < 10000,
    ensures
        n < 10 ==> dec_digits(n).len() == 1,
        10 <= n < 100 ==> dec_digits(n).len() == 2,
        100 <= n < 1000 ==> dec_digits(n).len() == 3,
        1000 <= n ==> dec_digits(n).len() == 4,
{
    if n >= 10 {
        if n >= 100 {
            if n >= 1000 {
                assert(dec_digits(n / 10 / 10 / 10).len() == 1);
            }
            assert(dec_digits(n / 10 / 10).len() == if n >= 1000 {
                2int
            } else {
                1int
            });
        }
        assert(dec_digits(n / 10).len() == if n >= 1000 {
            3int
        } else if n >= 100 {
            2int
        } else {
            1int
        });
    }
}

/// Appends `width` as a percentage of `total` with four decimals.
fn push_percent(out: &mut String, width: u32, total: u128)
    requires
        total > 0,
        total < 0x1_0000_0000_0000_0000_0000_0000,
    ensures
        final(out)@ == old(out)@ + percent_text(width as nat, total as nat),
{
    let n: u128 = width as u128 * 1000000;
    let q: u128 = n / total;
    let r: u128 = n % total;
    let scaled: u128 = if 2 * r > total || (2 * r == total && q % 2 == 1) {
        q + 1
    } else {
        q
    };
    assert(scaled == div_round_even(width as nat * 1000000, total as nat));
    push_decimal(out, scaled / 10000);
    push_str(out, ".");
    let f: u128 = scaled % 10000;
    let ghost mid = out@;
    proof {
        lemma_dec_len(f as nat);
    }
    if f < 10 {
        push_char(out, '0');
        push_char(out, '0');
        push_char(out, '0');
        assert(rep(seq!['0'], 3) =~= seq!['0', '0', '0']) by {
            reveal_with_fuel(rep, 4);
        }
    } else if f < 100 {
        push_char(out, '0');
        push_char(out, '0');
        assert(rep(seq!['0'], 2) =~= seq!['0', '0']) by {
            reveal_with_fuel(rep, 3);
        }
    } else if f < 1000 {
        push_char(out, '0');
        assert(rep(seq!['0'], 1) =~= seq!['0']) by {
            reveal_with_fuel(rep, 2);
        }
    } else {
        assert(rep(seq!['0'], 0) =~= Seq::<char>::empty());
    }
    push_decimal(out, f);
    assert(out@ =~= mid + four_digits(f as nat));
    assert(final(out)@ =~= old(out)@ + percent_text(width as nat, total as nat));
}

/// Appends the `<colgroup>` of a table with `cols=` widths.
fn write_colgroup(out: &mut String, cols: &Vec<ColumnSpec>)
    ensures
        final(out)@ == old(out)@ + colgroup_html(cols@),
{
    if cols.len() == 0 {
        assert(final(out)@ =~= old(out)@ + colgroup_html(cols@));
        return ;
    }
    let mut total: u128 = 0;
    let mut i: usize = 0;
    while i < cols.len()
        invariant
            i <= cols.len(),
            total == widths_total(cols@.take(i as int)),
        decreases cols.len() - i,
    {
        proof {
            lemma_widths_total_bound(cols@.take(i + 1));
            assert(cols@.take(i + 1).drop_last() =~= cols@.take(i as int));
            assert((i + 1) * 0xffff_ffff <= 0x1_0000_0000_0000_0000 * 0xffff_ffff) by (nonlinear_arith)
                requires
                    i + 1 <= 0x1_0000_0000_0000_0000,
            ;
        }
        total = total + cols[i].width as u128;
        i += 1;
    }
    assert(cols@.take(cols.len() as int) =~= cols@);
    proof {
        lemma_widths_total_bound(cols@);
        assert(cols@.len() * 0xffff_ffff < 0x1_0000_0000_0000_0000_0000_0000) by (nonlinear_arith)
            requires
                cols@.len() <= 0xffff_ffff_ffff_ffff,
        ;
    }
    push_str(out, "<colgroup>\n");
    let ghost start = out@;
    let mut k: usize = 0;
    while k < cols.len()
        invariant
            k <= cols.len(),
            total == widths_total(cols@),
            total < 0x1_0000_0000_0000_0000_0000_0000,
            out@ == start + cols_html(cols@.take(k as int), total as nat),
        decreases cols.len() - k,
    {
        let w = cols[k].width;
        if total > 0 && w > 0 {
            push_str(out, "<col style=\"width: ");
            push_percent(out, w, total);
            push_str(out, "%;\">\n");
        } else {
            push_str(out, "<col>\n");
        }
        proof {
            assert(cols@.take(k + 1).drop_last() =~= cols@.take(k as int));
            assert(cols@.take(k + 1).last() == cols@[k as int]);
            assert(out@ =~= start + cols_html(cols@.take(k + 1), total as nat));
        }
        k += 1;
    }
    assert(cols@.take(cols.len() as int) =~= cols@);
    push_str(out, "</colgroup>\n");
    assert(final(out)@ =~= old(out)@ + colgroup_html(cols@));
}

// ---------------------------------------------------------------------------
// rows and cells
// ---------------------------------------------------------------------------

fn halign_name(a: HAlign) -> (res: &'static str)
    ensures
        res@ == halign_class(a),
{
    match a {
        HAlign::Left => "halign-left",
        HAlign::Center => "halign-center",
        HAlign::Right => "halign-right",
    }
}

fn write_spans(out: &mut String, cell: &TableCell)
    ensures
        final(out)@ == old(out)@ + span_attrs(cell_v(*cell)),
{
    let ghost s0 = out@;
    if cell.colspan > 1 {
        push_str(out, " colspan=\"");
        push_decimal(out, cell.colspan as u128);
        push_str(out, "\"");
    }
    let ghost s1 = out@;
    assert(s1 =~= s0 + (if cell.colspan > 1 {
        " colspan=\""@ + dec_digits(cell.colspan as nat) + "\""@
    } else {
        Seq::<char>::empty()
    }));
    if cell.rowspan > 1 {
        push_str(out, " rowspan=\"");
        push_decimal(out, cell.rowspan as u128);
        push_str(out, "\"");
    }
    assert(final(out)@ =~= old(out)@ + span_attrs(cell_v(*cell)));
}

fn write_align(out: &mut String, cell: &TableCell, cols: &Vec<ColumnSpec>, idx: usize)
    ensures
        final(out)@ == old(out)@ + align_attr(cell_v(*cell), col_at(cols@, idx as int)),
{
    let align = match cell.h_align {
        Some(a) => Some(a),
        None => if idx < cols.len() {
            cols[idx].h_align
        } else {
            None
        },
    };
    assert(cell_align(cell_v(*cell), col_at(cols@, idx as int)) == align);
    match align {
        Some(a) => {
            push_str(out, " class=\"");
            push_str(out, halign_name(a));
            push_str(out, "\"");
        },
        None => {},
    }
    assert(final(out)@ =~= old(out)@ + align_attr(cell_v(*cell), col_at(cols@, idx as int)));
}

/// Appends the opening `<td>`/`<th>` of a cell.
fn write_cell_open(
    out: &mut String,
    cell: &TableCell,
    kind: RowKind,
    cols: &Vec<ColumnSpec>,
    idx: usize,
) -> (th: bool)
    ensures
        th == cell_is_th(cell_v(*cell), kind),
        final(out)@ == old(out)@ + cell_open(cell_v(*cell), kind, col_at(cols@, idx as int)),
{
    let th = match cell.style {
        Some(CellStyle::Header) => true,
        _ => match kind {
            RowKind::Header => true,
            _ => false,
        },
    };
    let tag = if th { "th" } else { "td" };
    assert(tag@ == cell_tag(cell_v(*cell), kind));
    push_str(out, "<");
    push_str(out, tag);
    write_spans(out, cell);
    write_align(out, cell, cols, idx);
    push_str(out, ">");
    assert(final(out)@ =~= old(out)@ + cell_open(cell_v(*cell), kind, col_at(cols@, idx as int)));
    th
}

/// Appends the body of a cell that is not an AsciiDoc cell.
fn write_cell_inline_body(out: &mut String, cell: &TableCell, kind: RowKind, th: bool)
    requires
        th == cell_is_th(cell_v(*cell), kind),
    ensures
        final(out)@ == old(out)@ + cell_inline_body(cell_v(*cell), kind),
{
    let ghost cv = cell_v(*cell);
    let style = cell.style;
    let code = match style { Some(CellStyle::Monospace) => !th, _ => false };
    let strong = match style { Some(CellStyle::Strong) => !th, _ => false };
    let em = match style { Some(CellStyle::Emphasis) => !th, _ => false };
    let lit = match style { Some(CellStyle::Literal) => true, _ => false };
    if code {
        push_str(out, "<code>");
        write_inlines(out, cell.inlines.as_slice());
        push_str(out, "</code>");
    } else if strong {
        push_str(out, "<strong>");
        write_inlines(out, cell.inlines.as_slice());
        push_str(out, "</strong>");
    } else if em {
        push_str(out, "<em>");
        write_inlines(out, cell.inlines.as_slice());
        push_str(out, "</em>");
    } else if lit {
        let plain = text_of_inlines(cell.inlines.as_slice());
        push_str(out, "<pre>");
        push_escaped(out, plain.as_str());
        push_str(out, "</pre>");
    } else {
        write_inlines(out, cell.inlines.as_slice());
    }
    assert(final(out)@ =~= old(out)@ + cell_inline_body(cv, kind));
}

/// Appends one cell, the `idx`-th of its row.
fn render_cell(
    out: &mut String,
    cell: &TableCell,
    kind: RowKind,
    cols: &Vec<ColumnSpec>,
    idx: usize,
    ctx: &RenderCtx,
) -> (r: Result<(), ConvertError>)
    ensures
        r is Ok <==> (cell_v(*cell).style != Some(CellStyle::AsciiDoc) || crate::convert::html5::model::blocks_ok(cell_v(*cell).blocks)),
        r is Ok ==> final(out)@ == old(out)@ + cell_open(cell_v(*cell), kind, col_at(cols@, idx as int)) + (if cell_v(*cell).style == Some(CellStyle::AsciiDoc) {
            crate::convert::html5::model::blocks_html(ctx.cv(), cell_v(*cell).blocks)
        } else {
            cell_inline_body(cell_v(*cell), kind)
        }) + cell_close(cell_v(*cell), kind),
        r matches Err(e) ==> mismatch(e),
    decreases *cell,
{
    let th = write_cell_open(out, cell, kind, cols, idx);
    let ghost mid = out@;
    let is_adoc = match cell.style {
        Some(CellStyle::AsciiDoc) => true,
        _ => false,
    };
    if is_adoc {
        proof {
            assert(decreases_to!(*cell => cell.blocks));
            assert(decreases_to!(cell.blocks => cell.blocks@));
        }
        let r = render_blocks(out, cell.blocks.as_slice(), ctx);
        if r.is_err() {
            return r;
        }
    } else {
        write_cell_inline_body(out, cell, kind, th);
    }
    let ghost body_end = out@;
    let tag = if th { "th" } else { "td" };
    assert(tag@ == crate::convert::html5::model::cell_tag(cell_v(*cell), kind));
    push_str(out, "</");
    push_str(out, tag);
    push_str(out, ">");
    assert(out@ =~= body_end + cell_close(cell_v(*cell), kind));
    Ok(())
}

/// Appends the cells of a row.
fn render_cells(
    out: &mut String,
    cols: &Vec<ColumnSpec>,
    kind: RowKind,
    cells: &Vec<TableCell>,
    ctx: &RenderCtx,
) -> (r: Result<(), ConvertError>)
    ensures
        r is Ok <==> cells_ok(cells_v(cells@)),
        r is Ok ==> final(out)@ == old(out)@ + cells_html(ctx.cv(), cols@, kind, cells_v(cells@), 0),
        r matches Err(e) ==> mismatch(e),
    decreases cells@,
{
    let ghost all = cells_v(cells@);
    proof {
        lemma_cells_v(cells@);
    }
    let ghost start = out@;
    assert(all.skip(0) =~= all);
    let mut i: usize = 0;
    while i < cells.len()
        invariant
            i <= cells.len(),
            all == cells_v(cells@),
            all.len() == cells@.len(),
            forall|j: int| 0 <= j < cells@.len() ==> #[trigger] all[j] == cell_v(cells@[j]),
            start + cells_html(ctx.cv(), cols@, kind, all, 0) == out@ + cells_html(
                ctx.cv(),
                cols@,
                kind,
                all.skip(i as int),
                i as int,
            ),
            cells_ok(all) == cells_ok(all.skip(i as int)),
        decreases cells.len() - i,
    {
        let cell = &cells[i];
        let ghost before = out@;
        let ghost t = all.skip(i as int);
        proof {
            assert(t[0] == all[i as int]);
            assert(t.subrange(1, t.len() as int) =~= all.skip(i + 1));
            assert(cell_v(*cell) == all[i as int]);
        }
        proof {
            assert(decreases_to!(cells@ => cells@[i as int]));
        }
        let r = render_cell(out, cell, kind, cols, i, ctx);
        if r.is_err() {
            return r;
        }
        proof {
            assert(out@ + cells_html(ctx.cv(), cols@, kind, all.skip(i + 1), i + 1) =~= before
                + cells_html(ctx.cv(), cols@, kind, t, i as int));
        }
        i += 1;
    }
    assert(all.skip(cells.len() as int) =~= Seq::<crate::ast::CellV>::empty());
    assert(out@ + Seq::<char>::empty() =~= out@);
    Ok(())
}

fn write_row_close(out: &mut String, k: RowKind)
    ensures
        final(out)@ == old(out)@ + row_close(k),
{
    match k {
        RowKind::Header => push_str(out, "</thead>\n"),
        RowKind::Body => push_str(out, "</tbody>\n"),
        RowKind::Footer => push_str(out, "</tfoot>\n"),
    }
}

fn write_row_open(out: &mut String, k: RowKind)
    ensures
        final(out)@ == old(out)@ + row_open(k),
{
    match k {
        RowKind::Header => push_str(out, "<thead>\n"),
        RowKind::Body => push_str(out, "<tbody>\n"),
        RowKind::Footer => push_str(out, "<tfoot>\n"),
    }
}

/// Appends a table: title, wrapper, column widths, and the rows grouped
/// into header, body and footer sections.
pub(crate) fn render_table(out: &mut String, t: &Table, ctx: &RenderCtx) -> (r: Result<(), ConvertError>)
    ensures
        r is Ok <==> block_ok(block_v(Block::Table(*t))),
        r is Ok ==> final(out)@ == old(out)@ + block_html(ctx.cv(), block_v(Block::Table(*t))),
        r matches Err(e) ==> mismatch(e),
    decreases *t,
{
    write_title(out, &t.meta);
    push_str(out, "<table");
    let attrs = meta_attrs(&t.meta);
    push_str(out, attrs.as_str());
    push_str(out, ">\n");
    write_colgroup(out, &t.cols);
    let ghost head = out@;
    let ghost all = rows_v(t.rows@);
    proof {
        lemma_rows_v(t.rows@);
    }
    assert(all.skip(0) =~= all);
    let mut prev: Option<RowKind> = None;
    let mut i: usize = 0;
    while i < t.rows.len()
        invariant
            i <= t.rows.len(),
            all == rows_v(t.rows@),
            all.len() == t.rows@.len(),
            forall|j: int|
                0 <= j < t.rows@.len() ==> #[trigger] all[j] == (crate::ast::RowV {
                    cells: cells_v(t.rows@[j].cells@),
                    kind: t.rows@[j].kind,
                }),
            head + rows_html(ctx.cv(), t.cols@, all, None) == out@ + rows_html(
                ctx.cv(),
                t.cols@,
                all.skip(i as int),
                prev,
            ),
            rows_ok(all) == rows_ok(all.skip(i as int)),
        decreases t.rows.len() - i,
    {
        let row = &t.rows[i];
        let ghost before = out@;
        let ghost s = all.skip(i as int);
        proof {
            assert(s[0] == all[i as int]);
            assert(s.subrange(1, s.len() as int) =~= all.skip(i + 1));
        }
        let same = match prev {
            Some(k) => k == row.kind,
            None => false,
        };
        if !same {
            match prev {
                Some(k) => write_row_close(out, k),
                None => {},
            }
            write_row_open(out, row.kind);
        }
        push_str(out, "<tr>");
        proof {
            assert(decreases_to!(*t => t.rows));
            assert(decreases_to!(t.rows => t.rows@));
            assert(decreases_to!(t.rows@ => t.rows@[i as int]));
            assert(decreases_to!(t.rows@[i as int] => t.rows@[i as int].cells));
            assert(decreases_to!(t.rows@[i as int].cells => t.rows@[i as int].cells@));
        }
        let r = render_cells(out, &t.cols, row.kind, &row.cells, ctx);
        if r.is_err() {
            return r;
        }
        push_str(out, "</tr>\n");
        proof {
            assert(same == (prev == Some(row.kind)));
            assert(out@ + rows_html(ctx.cv(), t.cols@, all.skip(i + 1), Some(row.kind)) =~= before
                + rows_html(ctx.cv(), t.cols@, s, prev));
        }
        prev = Some(row.kind);
        i += 1;
    }
    match prev {
        Some(k) => write_row_close(out, k),
        None => {},
    }
    push_str(out, "</table>\n");
    proof {
        assert(all.skip(t.rows.len() as int) =~= Seq::<crate::ast::RowV>::empty());
        let body = rows_html(ctx.cv(), t.cols@, all, None);
        assert(block_html(ctx.cv(), block_v(Block::Table(*t))) == title_html(t.meta@) + "<table"@
            + crate::convert::html5::model::meta_attrs_html(t.meta@) + ">\n"@ + colgroup_html(t.cols@)
            + body + "</table>\n"@);
        assert(final(out)@ =~= old(out)@ + block_html(ctx.cv(), block_v(Block::Table(*t))));
    }
    Ok(())
}

} // verus!
