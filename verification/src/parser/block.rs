//! Block parser.
//!
//! Recognises sections, paragraphs, ordered/unordered/description lists,
//! all seven delimited block styles, tables and callout lists. Inline text
//! inside blocks is resolved immediately using the accumulated attribute
//! context.
use vstd::prelude::*;

use crate::ast::{
    inline_v, inlines_v, lemma_inlines_v_push, AttrV, Attributes, Block, BlockMeta, CellStyle, Colist,
    block_v, cell_v, cells_v, colist_items_v, dlist_items_v, list_items_v, ListItemV, rows_v, blocks_v, meta_v, DlistItemV, BlockV, CellV, MetaV, RowV, ColistItem, ColumnSpec, DelimitedBlock, DelimitedContent, DelimitedStyle, DescriptionList,
    DescriptionListItem, HAlign, Inline, InlineV, List, ListItem, ListMarker, Location, Paragraph,
    RowKind, Section, Table, TableCell, TableRow, DiscreteHeading,
};
use crate::parser::cursor::{texts, Cursor};
use crate::parser::header::{consume_attribute_entries, parse_attribute_entry};
use crate::parser::inline::parse_slice;
use crate::parser::inline_grammar::{inline_parse, normal_subs};
use crate::parser::block_grammar::{
    attachments_from, colist_block, colist_items, cols_attr, delim_end, delimited_block, dlist_block,
    dlist_items, list_items_from, loc_at, one_block, para_end, paragraph_block, raw_style,
    section_block, table_block, table_end, takes_colist, blocks_loop, blocks_run, discrete_block,
    is_discrete, block_image,
};
use crate::parser::meta::collect_block_meta;
use crate::parser::subs::Subs;
use crate::preprocessor::PreprocessedLine;
use crate::text::{
    all_digits, chars_of, eq_lit, find, find_char, find_char_in, find_lit_in, is_blank,
    is_blank_slice, is_digit, is_whitespace, is_ws, lead_ws, parse_int, parse_int_exec, push_char, push_str,
    push_chars, skip_ws, split_char, split_on, starts_with, starts_with_lit, string_of, sub_string,
    sub_vec, trim, trim_bounds, trim_end, trim_end_vec, trim_start, trim_start_vec, trim_vec,
    views,
};

verus! {

// ---------------------------------------------------------------------------
// line classification
// ---------------------------------------------------------------------------

/// Number of leading copies of `c`.
pub open spec fn lead_run(t: Seq<char>, c: char) -> nat
    decreases t.len(),
{
    if t.len() > 0 && t[0] == c {
        1 + lead_run(t.drop_first(), c)
    } else {
        0
    }
}

pub proof fn lemma_lead_run(t: Seq<char>, c: char, k: int)
    requires
        0 <= k <= t.len(),
        forall|i: int| 0 <= i < k ==> #[trigger] t[i] == c,
        k < t.len() ==> t[k] != c,
    ensures
        lead_run(t, c) == k,
    decreases k,
{
    if k > 0 {
        let u = t.drop_first();
        assert forall|i: int| 0 <= i < k - 1 implies #[trigger] u[i] == c by {
            assert(u[i] == t[i + 1]);
        }
        if k < t.len() {
            assert(u[k - 1] == t[k]);
        }
        lemma_lead_run(u, c, k - 1);
    }
}

/// Counts the leading copies of `c` in `t`.
pub fn count_run_pub(t: &[char], c: char) -> (n: usize)
    ensures
        n == lead_run(t@, c),
        n <= t.len(),
{
    count_run(t, c)
}

fn count_run(t: &[char], c: char) -> (n: usize)
    ensures
        n == lead_run(t@, c),
        n <= t.len(),
{
    let mut n: usize = 0;
    while n < t.len() && t[n] == c
        invariant
            n <= t.len(),
            forall|i: int| 0 <= i < n ==> #[trigger] t@[i] == c,
        decreases t.len() - n,
    {
        n += 1;
    }
    proof {
        lemma_lead_run(t@, c, n as int);
    }
    n
}

/// `== Title` (2 to 6 `=`, a space, non-blank text): level 1 to 5.
pub open spec fn section_level(t: Seq<char>) -> Option<u8> {
    let n = lead_run(t, '=') as int;
    if n == 0 || n > 6 || n >= t.len() || t[n] != ' ' || is_blank(t.skip(n + 1)) || n == 1 {
        None
    } else {
        Some((n - 1) as u8)
    }
}

fn section_level_of(text: &[char]) -> (res: Option<u8>)
    ensures
        res == section_level(text@),
{
    let n = count_run(text, '=');
    if n == 0 || n > 6 || n >= text.len() || text[n] != ' ' {
        return None;
    }
    let rest = sub_vec(text, n + 1, text.len());
    assert(rest@ =~= text@.skip(n + 1));
    if is_blank_slice(rest.as_slice()) || n == 1 {
        return None;
    }
    Some((n - 1) as u8)
}

/// The list marker that opens a line: its kind, nesting depth and the
/// length of the marker with its space.
#[derive(Debug, Clone, Copy, PartialEq, Eq)]
pub struct ListMarkerInfo {
    pub marker: ListMarker,
    pub depth: u8,
    pub prefix_len: usize,
}

/// `* `…`***** ` (unordered), `. `…`..... ` or `<digits>. ` (ordered).
pub open spec fn list_marker_spec(t: Seq<char>) -> Option<(ListMarker, int, int)> {
    let stars = lead_run(t, '*') as int;
    let dots = lead_run(t, '.') as int;
    let digits = lead_digits(t) as int;
    if t.len() == 0 {
        None
    } else if t[0] == '*' && stars <= 5 && stars < t.len() && t[stars] == ' ' {
        Some((ListMarker::Unordered, stars, stars + 1))
    } else if t[0] == '.' && dots <= 5 && dots < t.len() && t[dots] == ' ' {
        Some((ListMarker::Ordered, dots, dots + 1))
    } else if digits > 0 && digits + 1 < t.len() && t[digits] == '.' && t[digits + 1] == ' ' {
        Some((ListMarker::Ordered, 1, digits + 2))
    } else {
        None
    }
}

/// Number of leading ASCII digits.
pub open spec fn lead_digits(t: Seq<char>) -> nat
    decreases t.len(),
{
    if t.len() > 0 && is_digit(t[0]) {
        1 + lead_digits(t.drop_first())
    } else {
        0
    }
}

proof fn lemma_lead_digits(t: Seq<char>, k: int)
    requires
        0 <= k <= t.len(),
        forall|i: int| 0 <= i < k ==> is_digit(#[trigger] t[i]),
        k < t.len() ==> !is_digit(t[k]),
    ensures
        lead_digits(t) == k,
    decreases k,
{
    if k > 0 {
        let u = t.drop_first();
        assert forall|i: int| 0 <= i < k - 1 implies is_digit(#[trigger] u[i]) by {
            assert(u[i] == t[i + 1]);
        }
        if k < t.len() {
            assert(u[k - 1] == t[k]);
        }
        lemma_lead_digits(u, k - 1);
    }
}

fn count_digits(t: &[char], from: usize) -> (n: usize)
    requires
        from <= t.len(),
    ensures
        n == lead_digits(t@.skip(from as int)),
        from + n <= t.len(),
{
    let mut n: usize = 0;
    while from + n < t.len() && crate::text::is_ascii_digit(t[from + n])
        invariant
            from + n <= t.len(),
            forall|i: int| 0 <= i < n ==> is_digit(#[trigger] t@[from + i]),
        decreases t.len() - n,
    {
        n += 1;
    }
    proof {
        let u = t@.skip(from as int);
        assert forall|i: int| 0 <= i < n implies is_digit(#[trigger] u[i]) by {
            assert(u[i] == t@[from + i]);
        }
        if from + n < t.len() {
            assert(u[n as int] == t@[from + n]);
        }
        lemma_lead_digits(u, n as int);
    }
    n
}

fn list_marker(text: &[char]) -> (res: Option<ListMarkerInfo>)
    ensures
        res matches Some(i) ==> list_marker_spec(text@) == Some(
            (i.marker, i.depth as int, i.prefix_len as int),
        ) && i.prefix_len <= text.len(),
        res is None <==> list_marker_spec(text@) is None,
{
    if text.len() == 0 {
        return None;
    }
    let stars = count_run(text, '*');
    let dots = count_run(text, '.');
    let digits = count_digits(text, 0);
    assert(text@.skip(0) =~= text@);
    if text[0] == '*' && stars <= 5 && stars < text.len() && text[stars] == ' ' {
        return Some(
            ListMarkerInfo { marker: ListMarker::Unordered, depth: stars as u8, prefix_len: stars + 1 },
        );
    }
    if text[0] == '.' && dots <= 5 && dots < text.len() && text[dots] == ' ' {
        return Some(
            ListMarkerInfo { marker: ListMarker::Ordered, depth: dots as u8, prefix_len: dots + 1 },
        );
    }
    if digits > 0 && digits < text.len() - 1 && text[digits] == '.' && text[digits + 1] == ' ' {
        return Some(ListMarkerInfo { marker: ListMarker::Ordered, depth: 1, prefix_len: digits + 2 });
    }
    None
}

/// A delimiter line: `--` (open block) or four or more of one of
/// `-`, `.`, `=`, `_`, `*`, `+`.
pub open spec fn delimited_spec(text: Seq<char>) -> Option<DelimitedStyle> {
    let t = trim_end(text);
    if t == seq!['-', '-'] {
        Some(DelimitedStyle::Open)
    } else if t.len() < 4 || lead_run(t, t[0]) != t.len() {
        None
    } else if t[0] == '-' {
        Some(DelimitedStyle::Listing)
    } else if t[0] == '.' {
        Some(DelimitedStyle::Literal)
    } else if t[0] == '=' {
        Some(DelimitedStyle::Example)
    } else if t[0] == '_' {
        Some(DelimitedStyle::Quote)
    } else if t[0] == '*' {
        Some(DelimitedStyle::Sidebar)
    } else if t[0] == '+' {
        Some(DelimitedStyle::Passthrough)
    } else {
        None
    }
}

fn delimited_style(text: &[char]) -> (res: Option<DelimitedStyle>)
    ensures
        res == delimited_spec(text@),
{
    let t = trim_end_vec(text);
    if t.len() == 2 && t[0] == '-' && t[1] == '-' {
        assert(t@ =~= seq!['-', '-']);
        return Some(DelimitedStyle::Open);
    }
    assert(t@ != seq!['-', '-']);
    if t.len() < 4 {
        return None;
    }
    let first = t[0];
    if count_run(t.as_slice(), first) != t.len() {
        return None;
    }
    if first == '-' {
        Some(DelimitedStyle::Listing)
    } else if first == '.' {
        Some(DelimitedStyle::Literal)
    } else if first == '=' {
        Some(DelimitedStyle::Example)
    } else if first == '_' {
        Some(DelimitedStyle::Quote)
    } else if first == '*' {
        Some(DelimitedStyle::Sidebar)
    } else if first == '+' {
        Some(DelimitedStyle::Passthrough)
    } else {
        None
    }
}

/// `term:: description`: the index of the `::` ending the term.
pub open spec fn term_end(t: Seq<char>) -> Option<int> {
    match find(t, seq![':', ':']) {
        None => None,
        Some(idx) => {
            let after = t.skip(idx + 2);
            if idx == 0 {
                None
            } else if !(after.len() == 0 || after[0] == ' ' || after[0] == '\t') {
                None
            } else if list_marker_spec(t) is Some {
                None
            } else if is_blank(t.take(idx)) {
                None
            } else {
                Some(idx)
            }
        },
    }
}

fn description_term_end(text: &[char]) -> (res: Option<usize>)
    ensures
        res matches Some(k) ==> term_end(text@) == Some(k as int) && k + 2 <= text.len(),
        res is None <==> term_end(text@) is None,
{
    proof {
        reveal_strlit("::");
        assert("::"@ =~= seq![':', ':']);
    }
    let idx = match find_lit_in(text, "::", 0, text.len()) {
        Some(i) => i,
        None => {
            assert(text@.subrange(0, text.len() as int) =~= text@);
            return None;
        },
    };
    assert(text@.subrange(0, text.len() as int) =~= text@);
    if idx == 0 {
        return None;
    }
    let after = idx + 2;
    assert(text@.skip(after as int).len() == text.len() - after);
    if !(after == text.len() || text[after] == ' ' || text[after] == '\t') {
        assert(text@.skip(after as int)[0] == text@[after as int]);
        return None;
    }
    if after < text.len() {
        assert(text@.skip(after as int)[0] == text@[after as int]);
    }
    if list_marker(text).is_some() {
        return None;
    }
    let term = sub_vec(text, 0, idx);
    assert(term@ =~= text@.take(idx as int));
    if is_blank_slice(term.as_slice()) {
        return None;
    }
    Some(idx)
}

fn is_description_item(text: &[char]) -> (res: bool)
    ensures
        res == (term_end(text@) is Some),
{
    description_term_end(text).is_some()
}

/// `|===` once leading whitespace is dropped.
pub open spec fn table_delim(t: Seq<char>) -> bool {
    trim_start(t) == seq!['|', '=', '=', '=']
}

fn is_table_delim(text: &[char]) -> (res: bool)
    ensures
        res == table_delim(text@),
{
    let t = trim_start_vec(text);
    let r = t.len() == 4 && t[0] == '|' && t[1] == '=' && t[2] == '=' && t[3] == '=';
    if r {
        assert(t@ =~= seq!['|', '=', '=', '=']);
    } else {
        assert(t@ != seq!['|', '=', '=', '=']);
    }
    r
}

/// Lines that end a paragraph: delimiters, tables, list items,
/// description items and section headers.
pub open spec fn block_boundary(t: Seq<char>) -> bool {
    delimited_spec(t) is Some || table_delim(t) || list_marker_spec(t) is Some || term_end(t) is Some
        || section_level(t) is Some
}

fn is_block_boundary(text: &[char]) -> (res: bool)
    ensures
        res == block_boundary(text@),
{
    delimited_style(text).is_some() || is_table_delim(text) || list_marker(text).is_some()
        || is_description_item(text) || section_level_of(text).is_some()
}

/// `<N> description`: the number and the description (non-empty).
pub open spec fn callout(text: Seq<char>) -> Option<(int, Seq<char>)> {
    let t = trim_start(text);
    if t.len() == 0 || t[0] != '<' {
        None
    } else {
        let rest = t.drop_first();
        match find_char(rest, '>') {
            None => None,
            Some(close) => match parse_int(rest.take(close), false, 0, 0xffff_ffff) {
                None => None,
                Some(n) => {
                    let body = trim_start(rest.skip(close + 1));
                    if body.len() == 0 {
                        None
                    } else {
                        Some((n, body))
                    }
                },
            },
        }
    }
}

fn strip_callout_prefix(text: &[char]) -> (res: Option<(u32, Vec<char>)>)
    ensures
        res matches Some((n, b)) ==> callout(text@) == Some((n as int, b@)),
        res is None <==> callout(text@) is None,
{
    let t = trim_start_vec(text);
    if t.len() == 0 || t[0] != '<' {
        return None;
    }
    let ghost rest = t@.drop_first();
    let close = match find_char_in(t.as_slice(), '>', 1, t.len()) {
        Some(c) => c,
        None => {
            assert(t@.subrange(1, t@.len() as int) =~= rest);
            return None;
        },
    };
    assert(t@.subrange(1, t@.len() as int) =~= rest);
    let digits = sub_vec(t.as_slice(), 1, close);
    assert(digits@ =~= rest.take(close - 1));
    let num = match parse_int_exec(digits.as_slice(), false, 0, 0xffff_ffff) {
        Some(v) => v,
        None => {
            return None;
        },
    };
    let after = sub_vec(t.as_slice(), close + 1, t.len());
    assert(after@ =~= rest.skip(close - 1 + 1));
    let body = trim_start_vec(after.as_slice());
    if body.len() == 0 {
        return None;
    }
    Some((num as u32, body))
}

/// `NOTE: `, `TIP: `, `IMPORTANT: `, `WARNING: `, `CAUTION: `: the
/// keyword and the rest of the line.
pub open spec fn admonition_prefix(line: Seq<char>) -> Option<(Seq<char>, Seq<char>)> {
    if starts_with(line, "NOTE: "@) {
        Some(("NOTE"@, line.skip(6)))
    } else if starts_with(line, "TIP: "@) {
        Some(("TIP"@, line.skip(5)))
    } else if starts_with(line, "IMPORTANT: "@) {
        Some(("IMPORTANT"@, line.skip(11)))
    } else if starts_with(line, "WARNING: "@) {
        Some(("WARNING"@, line.skip(9)))
    } else if starts_with(line, "CAUTION: "@) {
        Some(("CAUTION"@, line.skip(9)))
    } else {
        None
    }
}

fn strip_admonition_prefix(line: &[char]) -> (res: Option<(&'static str, Vec<char>)>)
    ensures
        res matches Some((k, r)) ==> admonition_prefix(line@) == Some((k@, r@)),
        res is None <==> admonition_prefix(line@) is None,
{
    proof {
        reveal_strlit("NOTE: ");
        reveal_strlit("TIP: ");
        reveal_strlit("IMPORTANT: ");
        reveal_strlit("WARNING: ");
        reveal_strlit("CAUTION: ");
    }
    if starts_with_lit(line, 0, "NOTE: ") {
        assert(line@.skip(0) =~= line@);
        return Some(("NOTE", sub_vec(line, 6, line.len())));
    }
    if starts_with_lit(line, 0, "TIP: ") {
        assert(line@.skip(0) =~= line@);
        return Some(("TIP", sub_vec(line, 5, line.len())));
    }
    if starts_with_lit(line, 0, "IMPORTANT: ") {
        assert(line@.skip(0) =~= line@);
        return Some(("IMPORTANT", sub_vec(line, 11, line.len())));
    }
    if starts_with_lit(line, 0, "WARNING: ") {
        assert(line@.skip(0) =~= line@);
        return Some(("WARNING", sub_vec(line, 9, line.len())));
    }
    if starts_with_lit(line, 0, "CAUTION: ") {
        assert(line@.skip(0) =~= line@);
        return Some(("CAUTION", sub_vec(line, 9, line.len())));
    }
    assert(line@.skip(0) =~= line@);
    None
}


// ---------------------------------------------------------------------------
// column specs
// ---------------------------------------------------------------------------

pub open spec fn align_of(c: char) -> Option<HAlign> {
    if c == '<' {
        Some(HAlign::Left)
    } else if c == '^' {
        Some(HAlign::Center)
    } else if c == '>' {
        Some(HAlign::Right)
    } else {
        None
    }
}

pub open spec fn style_of(c: char) -> Option<CellStyle> {
    if c == 'a' {
        Some(CellStyle::AsciiDoc)
    } else if c == 'm' {
        Some(CellStyle::Monospace)
    } else if c == 's' {
        Some(CellStyle::Strong)
    } else if c == 'e' {
        Some(CellStyle::Emphasis)
    } else if c == 'h' {
        Some(CellStyle::Header)
    } else if c == 'l' {
        Some(CellStyle::Literal)
    } else {
        None
    }
}

fn align_char(c: char) -> (res: Option<HAlign>)
    ensures
        res == align_of(c),
{
    if c == '<' {
        Some(HAlign::Left)
    } else if c == '^' {
        Some(HAlign::Center)
    } else if c == '>' {
        Some(HAlign::Right)
    } else {
        None
    }
}

fn letter_to_style(c: char) -> (res: Option<CellStyle>)
    ensures
        res == style_of(c),
{
    if c == 'a' {
        Some(CellStyle::AsciiDoc)
    } else if c == 'm' {
        Some(CellStyle::Monospace)
    } else if c == 's' {
        Some(CellStyle::Strong)
    } else if c == 'e' {
        Some(CellStyle::Emphasis)
    } else if c == 'h' {
        Some(CellStyle::Header)
    } else if c == 'l' {
        Some(CellStyle::Literal)
    } else {
        None
    }
}

/// A default-style letter of a column spec (consumed, not kept).
pub open spec fn col_style_letter(c: char) -> bool {
    c == 'a' || c == 'd' || c == 'e' || c == 'h' || c == 'l' || c == 'm' || c == 's'
}

/// `u32` parse of a digit run: `None` when empty or out of range.
pub open spec fn u32_of(d: Seq<char>) -> Option<int> {
    parse_int(d, false, 0, 0xffff_ffff)
}

/// One `[N*][<^>][width][style]` segment (already trimmed and non-empty):
/// its multiplier and column, or `None` when junk follows.
pub open spec fn col_segment(s: Seq<char>) -> Option<(int, ColumnSpec)> {
    let d1 = lead_digits(s) as int;
    let star = d1 < s.len() && s[d1] == '*';
    let mult = if star {
        match u32_of(s.take(d1)) {
            Some(v) => if v >= 1 {
                v
            } else {
                1
            },
            None => 1,
        }
    } else {
        1
    };
    let p1 = if star {
        d1 + 1
    } else {
        0
    };
    let early = if star {
        Seq::<char>::empty()
    } else {
        s.take(d1)
    };
    let p1b = if star {
        p1
    } else {
        d1
    };
    let al = if p1b < s.len() {
        align_of(s[p1b])
    } else {
        None
    };
    let p2 = if al is Some {
        p1b + 1
    } else {
        p1b
    };
    let d2 = if early.len() == 0 {
        lead_digits(s.skip(p2)) as int
    } else {
        0
    };
    let digits = if early.len() == 0 {
        s.subrange(p2, p2 + d2)
    } else {
        early
    };
    let p3 = p2 + d2;
    let p4 = if p3 < s.len() && col_style_letter(s[p3]) {
        p3 + 1
    } else {
        p3
    };
    if p4 < s.len() {
        None
    } else {
        let width = match u32_of(digits) {
            Some(w) => w,
            None => 0,
        };
        Some((mult, ColumnSpec { width: width as u32, h_align: al }))
    }
}

/// The columns of a `cols` value: each comma-separated segment, trimmed,
/// repeated by its multiplier; empty and junk segments are skipped.
pub open spec fn cols_of(parts: Seq<Seq<char>>) -> Seq<ColumnSpec>
    decreases parts.len(),
{
    if parts.len() == 0 {
        Seq::empty()
    } else {
        let seg = trim(parts.last());
        let more = if seg.len() == 0 {
            Seq::empty()
        } else {
            match col_segment(seg) {
                Some((n, c)) => Seq::new(n as nat, |i: int| c),
                None => Seq::empty(),
            }
        };
        cols_of(parts.drop_last()) + more
    }
}

/// A bare integer `N` as the whole `cols` value: `N` equal columns, each
/// of width 1, with no alignment.
pub open spec fn equal_cols(digits: Seq<char>) -> Seq<ColumnSpec> {
    match u32_of(digits) {
        Some(n) => Seq::new(n as nat, |i: int| ColumnSpec { width: 1, h_align: None }),
        None => Seq::empty(),
    }
}

pub open spec fn cols_spec(spec: Option<Seq<char>>) -> Seq<ColumnSpec> {
    match spec {
        None => Seq::empty(),
        Some(s) => if trim(s).len() == 0 {
            Seq::empty()
        } else if lead_digits(trim(s)) == trim(s).len() {
            equal_cols(trim(s))
        } else {
            cols_of(split_char(trim(s), ','))
        },
    }
}

fn parse_segment(s: &[char]) -> (res: Option<(u32, ColumnSpec)>)
    requires
        s.len() > 0,
    ensures
        res matches Some((n, c)) ==> col_segment(s@) == Some((n as int, c)),
        res is None <==> col_segment(s@) is None,
{
    let d1 = count_digits(s, 0);
    assert(s@.skip(0) =~= s@);
    let star = d1 < s.len() && s[d1] == '*';
    let lead = sub_vec(s, 0, d1);
    assert(lead@ =~= s@.take(d1 as int));
    let mut mult: u32 = 1;
    if star {
        match parse_int_exec(lead.as_slice(), false, 0, 0xffff_ffff) {
            Some(v) => {
                if v >= 1 {
                    mult = v as u32;
                }
            },
            None => {},
        }
    }
    let p1b: usize = if star {
        d1 + 1
    } else {
        d1
    };
    let al = if p1b < s.len() {
        align_char(s[p1b])
    } else {
        None
    };
    let p2: usize = if al.is_some() {
        p1b + 1
    } else {
        p1b
    };
    let early_empty = star || d1 == 0;
    let d2: usize = if early_empty {
        count_digits(s, p2)
    } else {
        0
    };
    let digits = if early_empty {
        sub_vec(s, p2, p2 + d2)
    } else {
        lead
    };
    let p3 = p2 + d2;
    let p4: usize = if p3 < s.len() && (s[p3] == 'a' || s[p3] == 'd' || s[p3] == 'e' || s[p3] == 'h'
        || s[p3] == 'l' || s[p3] == 'm' || s[p3] == 's') {
        p3 + 1
    } else {
        p3
    };
    if p4 < s.len() {
        return None;
    }
    let width: u32 = match parse_int_exec(digits.as_slice(), false, 0, 0xffff_ffff) {
        Some(w) => w as u32,
        None => 0,
    };
    proof {
        if !star && d1 == 0 {
            assert(s@.take(0) =~= Seq::<char>::empty());
        }
        if star {
            assert(Seq::<char>::empty().len() == 0);
        }
    }
    Some((mult, ColumnSpec { width, h_align: al }))
}

/// Parse a `cols="…"` value. Each comma-separated segment is matched as
/// `[N*][<>^][digits][styleletter]` — the multiplier repeats the column,
/// the alignment maps to [`HAlign`], digits set the relative width, and
/// the trailing style letter is consumed but not kept.
pub fn parse_cols_spec(spec: Option<&str>) -> (res: Vec<ColumnSpec>)
    ensures
        res@ == cols_spec(match spec {
            Some(s) => Some(s@),
            None => None,
        }),
{
    let raw = match spec {
        Some(s) => s,
        None => {
            return Vec::new();
        },
    };
    let chars = chars_of(raw);
    let t = trim_vec(chars.as_slice());
    if t.len() == 0 {
        return Vec::new();
    }
    let nd = count_digits(t.as_slice(), 0);
    assert(t@.skip(0) =~= t@);
    if nd == t.len() {
        let mut cols: Vec<ColumnSpec> = Vec::new();
        match parse_int_exec(t.as_slice(), false, 0, 0xffff_ffff) {
            Some(v) => {
                let n = v as u32;
                let c = ColumnSpec { width: 1, h_align: None };
                let mut k: u32 = 0;
                while k < n
                    invariant
                        k <= n,
                        cols@ =~= Seq::new(k as nat, |j: int| c),
                    decreases n - k,
                {
                    cols.push(c);
                    k += 1;
                }
            },
            None => {},
        }
        return cols;
    }
    let parts = split_on(t.as_slice(), ',');
    let ghost pv = views(parts@);
    let mut cols: Vec<ColumnSpec> = Vec::new();
    let mut i: usize = 0;
    while i < parts.len()
        invariant
            i <= parts.len(),
            pv == views(parts@),
            cols@ == cols_of(pv.take(i as int)),
        decreases parts.len() - i,
    {
        let seg = trim_vec(parts[i].as_slice());
        proof {
            assert(pv.take(i + 1).drop_last() =~= pv.take(i as int));
            assert(pv.take(i + 1).last() == parts@[i as int]@);
        }
        if seg.len() > 0 {
            match parse_segment(seg.as_slice()) {
                Some((n, c)) => {
                    let ghost before = cols@;
                    let mut k: u32 = 0;
                    while k < n
                        invariant
                            k <= n,
                            cols@ =~= before + Seq::new(k as nat, |j: int| c),
                        decreases n - k,
                    {
                        cols.push(c);
                        k += 1;
                    }
                },
                None => {
                    assert(cols@ =~= cols@ + Seq::<ColumnSpec>::empty());
                },
            }
        } else {
            assert(cols@ =~= cols@ + Seq::<ColumnSpec>::empty());
        }
        i += 1;
    }
    assert(pv.take(parts.len() as int) =~= pv);
    cols
}


// ---------------------------------------------------------------------------
// table cells
// ---------------------------------------------------------------------------

/// A cell formatter glued to a `|`: alignment and style of the next cell.
#[derive(Debug, Clone, Copy, PartialEq, Eq)]
pub struct CellPrefix {
    pub h_align: Option<HAlign>,
    pub style: Option<CellStyle>,
}

pub open spec fn no_prefix() -> CellPrefix {
    CellPrefix { h_align: None, style: None }
}

/// Strip a trailing cell formatter (`[<^>][aemshl]`, each optional) from
/// the text of the previous cell. It must follow whitespace or the start;
/// when stripped, trailing whitespace goes with it.
pub open spec fn peel(s: Seq<char>) -> (CellPrefix, Seq<char>) {
    let t = trim_end(s);
    if t.len() == 0 {
        (no_prefix(), s)
    } else {
        let c1 = t.last();
        let (style, align, k) = if style_of(c1) is Some {
            if t.len() >= 2 && align_of(t[t.len() - 2]) is Some {
                (style_of(c1), align_of(t[t.len() - 2]), 2int)
            } else {
                (style_of(c1), None, 1int)
            }
        } else if align_of(c1) is Some {
            (None, align_of(c1), 1int)
        } else {
            (None, None, 0int)
        };
        if k == 0 {
            (no_prefix(), s)
        } else {
            let rest = t.take(t.len() - k);
            if rest.len() == 0 || is_ws(rest.last()) {
                (CellPrefix { h_align: align, style }, rest)
            } else {
                (no_prefix(), s)
            }
        }
    }
}

fn peel_trailing_formatter(s: Vec<char>) -> (res: (CellPrefix, Vec<char>))
    ensures
        (res.0, res.1@) == peel(s@),
{
    let t = trim_end_vec(s.as_slice());
    let n = t.len();
    if n == 0 {
        return (CellPrefix { h_align: None, style: None }, s);
    }
    let c1 = t[n - 1];
    let st = letter_to_style(c1);
    let (style, align, k): (Option<CellStyle>, Option<HAlign>, usize) = if st.is_some() {
        if n >= 2 && align_char(t[n - 2]).is_some() {
            (st, align_char(t[n - 2]), 2)
        } else {
            (st, None, 1)
        }
    } else if align_char(c1).is_some() {
        (None, align_char(c1), 1)
    } else {
        (None, None, 0)
    };
    if k == 0 {
        return (CellPrefix { h_align: None, style: None }, s);
    }
    let rest = sub_vec(t.as_slice(), 0, n - k);
    assert(rest@ =~= t@.take(n - k));
    if rest.len() == 0 || is_whitespace(rest[rest.len() - 1]) {
        (CellPrefix { h_align: align, style }, rest)
    } else {
        (CellPrefix { h_align: None, style: None }, s)
    }
}

/// Cell-splitting state machine over a row (after its leading `|`):
/// unescaped `|` ends a cell; a backslash escapes the next character.
pub open spec fn cells_from(
    row: Seq<char>,
    i: int,
    cur: Seq<char>,
    np: CellPrefix,
    esc: bool,
    cells: Seq<(CellPrefix, Seq<char>)>,
) -> Seq<(CellPrefix, Seq<char>)>
    decreases row.len() - i,
{
    if i < 0 || i >= row.len() {
        cells.push((np, cur))
    } else {
        let c = row[i];
        if esc {
            cells_from(row, i + 1, cur.push(c), np, false, cells)
        } else if c == '\\' {
            cells_from(row, i + 1, cur, np, true, cells)
        } else if c == '|' {
            let (ex, kept) = peel(cur);
            cells_from(row, i + 1, Seq::empty(), ex, false, cells.push((np, kept)))
        } else {
            cells_from(row, i + 1, cur.push(c), np, false, cells)
        }
    }
}

pub open spec fn split_cells(row: Seq<char>) -> Seq<(CellPrefix, Seq<char>)> {
    cells_from(row, 0, Seq::empty(), no_prefix(), false, Seq::empty())
}

pub open spec fn cells_view(v: Seq<(CellPrefix, Vec<char>)>) -> Seq<(CellPrefix, Seq<char>)> {
    v.map_values(|c: (CellPrefix, Vec<char>)| (c.0, c.1@))
}

fn split_table_cells(row: &[char]) -> (res: Vec<(CellPrefix, Vec<char>)>)
    ensures
        cells_view(res@) == split_cells(row@),
{
    let mut cells: Vec<(CellPrefix, Vec<char>)> = Vec::new();
    let mut current: Vec<char> = Vec::new();
    let mut next_prefix = CellPrefix { h_align: None, style: None };
    let mut escape = false;
    let mut i: usize = 0;
    assert(cells_view(cells@) =~= Seq::<(CellPrefix, Seq<char>)>::empty());
    assert(current@ =~= Seq::<char>::empty());
    while i < row.len()
        invariant
            i <= row.len(),
            cells_from(row@, i as int, current@, next_prefix, escape, cells_view(cells@))
                == split_cells(row@),
        decreases row.len() - i,
    {
        let ch = row[i];
        if escape {
            current.push(ch);
            escape = false;
        } else if ch == '\\' {
            escape = true;
        } else if ch == '|' {
            let cur = current;
            let (extracted, kept) = peel_trailing_formatter(cur);
            let ghost prev = cells_view(cells@);
            let ghost kv = kept@;
            cells.push((next_prefix, kept));
            assert(cells_view(cells@) =~= prev.push((next_prefix, kv)));
            next_prefix = extracted;
            current = Vec::new();
            assert(current@ =~= Seq::<char>::empty());
        } else {
            current.push(ch);
        }
        i += 1;
    }
    let ghost prev = cells_view(cells@);
    let ghost cv = current@;
    cells.push((next_prefix, current));
    assert(cells_view(cells@) =~= prev.push((next_prefix, cv)));
    cells
}

/// A cell of a row: literal cells keep their text, the others are parsed
/// as a normal paragraph.
pub open spec fn cell_spec(prefix: CellPrefix, src: Seq<char>, attrs: Map<Seq<char>, AttrV>) -> CellV {
    CellV {
        inlines: if prefix.style == Some(CellStyle::Literal) {
            seq![InlineV::Text(src)]
        } else {
            inline_parse(src, attrs, normal_subs())
        },
        blocks: Seq::empty(),
        style: prefix.style,
        h_align: prefix.h_align,
        colspan: 1,
        rowspan: 1,
    }
}

/// The cells of a split row, each text trimmed.
pub open spec fn row_cells(cs: Seq<(CellPrefix, Seq<char>)>, attrs: Map<Seq<char>, AttrV>) -> Seq<
    CellV,
>
    decreases cs.len(),
{
    if cs.len() == 0 {
        Seq::empty()
    } else {
        row_cells(cs.drop_last(), attrs).push(cell_spec(cs.last().0, trim(cs.last().1), attrs))
    }
}

/// A table cell: literal cells keep their text verbatim, others are
/// inline-parsed.
fn build_cell(prefix: CellPrefix, src: &[char], attrs: &Attributes) -> (res: TableCell)
    ensures
        cell_v(res) == cell_spec(prefix, src@, attrs@),
{
    let inlines = match prefix.style {
        Some(CellStyle::Literal) => {
            let mut v: Vec<Inline> = Vec::new();
            let value = string_of(src);
            let ghost e = v@;
            v.push(Inline::Text { value });
            proof {
                lemma_inlines_v_push(e, Inline::Text { value });
                assert(e =~= Seq::<Inline>::empty());
            }
            v
        },
        _ => parse_slice(src, attrs, Subs::normal()),
    };
    let blocks: Vec<Block> = Vec::new();
    assert(blocks_v(blocks@) =~= Seq::<BlockV>::empty());
    TableCell { inlines, blocks, style: prefix.style, h_align: prefix.h_align, colspan: 1, rowspan: 1 }
}


// ---------------------------------------------------------------------------
// table rows
// ---------------------------------------------------------------------------

/// The row lines of a table body (trimmed lines starting with `|`), with
/// that `|` dropped.
pub open spec fn row_srcs(ls: Seq<Seq<char>>) -> Seq<Seq<char>>
    decreases ls.len(),
{
    if ls.len() == 0 {
        Seq::empty()
    } else {
        let t = trim(ls.last());
        let pre = row_srcs(ls.drop_last());
        if t.len() > 0 && t[0] == '|' {
            pre.push(t.drop_first())
        } else {
            pre
        }
    }
}

proof fn lemma_row_srcs_len(ls: Seq<Seq<char>>)
    ensures
        row_srcs(ls).len() <= ls.len(),
    decreases ls.len(),
{
    if ls.len() > 0 {
        lemma_row_srcs_len(ls.drop_last());
    }
}

/// Whether a blank line follows the first row (before any second row).
pub open spec fn first_row_blank(ls: Seq<Seq<char>>) -> bool
    decreases ls.len(),
{
    if ls.len() == 0 {
        false
    } else {
        let t = trim(ls.last());
        (t.len() == 0 && row_srcs(ls.drop_last()).len() == 1) || first_row_blank(ls.drop_last())
    }
}

/// `[%header]`, or `options` naming `header`.
pub open spec fn explicit_header(options: Seq<Seq<char>>, named_options: Option<Seq<char>>) -> bool {
    options.contains("header"@) || match named_options {
        Some(v) => split_char(v, ',').map_values(|p: Seq<char>| trim(p)).contains("header"@),
        None => false,
    }
}

fn build_row(src: &[char], attrs: &Attributes) -> (res: TableRow)
    ensures
        cells_v(res.cells@) == row_cells(split_cells(src@), attrs@),
        res.kind == RowKind::Body,
{
    let parts = split_table_cells(src);
    let ghost cs = cells_view(parts@);
    let mut cells: Vec<TableCell> = Vec::new();
    let mut j: usize = 0;
    assert(cells_v(cells@) =~= row_cells(cs.take(0), attrs@));
    while j < parts.len()
        invariant
            j <= parts.len(),
            cs == cells_view(parts@),
            cs == split_cells(src@),
            cells_v(cells@) == row_cells(cs.take(j as int), attrs@),
        decreases parts.len() - j,
    {
        let t = trim_vec(parts[j].1.as_slice());
        let c = build_cell(parts[j].0, t.as_slice(), attrs);
        let ghost before = cells@;
        cells.push(c);
        proof {
            assert(cells@.drop_last() =~= before);
            let u = cs.take(j + 1);
            assert(u.drop_last() =~= cs.take(j as int));
            assert(u.last() == (parts@[j as int].0, parts@[j as int].1@));
        }
        j += 1;
    }
    assert(cs.take(parts.len() as int) =~= cs);
    TableRow { cells, kind: RowKind::Body }
}

fn has_header_option(meta: &BlockMeta) -> (res: bool)
    ensures
        res == explicit_header(
            crate::ast::strs_v(meta.options@),
            match meta.named@.contains_key("options"@) {
                true => Some(meta.named@["options"@]),
                false => None,
            },
        ),
{
    proof {
        reveal_strlit("header");
        reveal_strlit("options");
    }
    let ghost ov = crate::ast::strs_v(meta.options@);
    let mut found = false;
    let mut i: usize = 0;
    while i < meta.options.len()
        invariant
            i <= meta.options.len(),
            ov == crate::ast::strs_v(meta.options@),
            found == ov.take(i as int).contains("header"@),
        decreases meta.options.len() - i,
    {
        let o = chars_of(meta.options[i].as_str());
        let hit = eq_lit(o.as_slice(), "header");
        proof {
            assert(ov.take(i + 1) =~= ov.take(i as int).push(ov[i as int]));
            assert(ov[i as int] == o@);
            if hit {
                assert(ov.take(i + 1)[i as int] == "header"@);
            }
            if !found && !hit {
                assert forall|k: int| 0 <= k < i + 1 implies #[trigger] ov.take(i + 1)[k] != "header"@ by {
                    if k < i {
                        assert(ov.take(i + 1)[k] == ov.take(i as int)[k]);
                    }
                }
            }
        }
        found = found || hit;
        i += 1;
    }
    assert(ov.take(meta.options.len() as int) =~= ov);
    if found {
        return true;
    }
    match meta.named.get("options") {
        Some(v) => {
            let vc = chars_of(v.as_str());
            let pieces = split_on(vc.as_slice(), ',');
            let ghost mapped = views(pieces@).map_values(|p: Seq<char>| trim(p));
            let mut k: usize = 0;
            while k < pieces.len()
                invariant
                    k <= pieces.len(),
                    mapped == views(pieces@).map_values(|p: Seq<char>| trim(p)),
                    meta.named@.contains_key("options"@),
                    views(pieces@) == split_char(meta.named@["options"@], ','),
                    !found,
                    !ov.contains("header"@),
                    ov == crate::ast::strs_v(meta.options@),
                    !mapped.take(k as int).contains("header"@),
                decreases pieces.len() - k,
            {
                let t = trim_vec(pieces[k].as_slice());
                if eq_lit(t.as_slice(), "header") {
                    assert(mapped[k as int] == "header"@);
                    assert(mapped.contains("header"@));
                    return true;
                }
                proof {
                    assert forall|x: int| 0 <= x < k + 1 implies #[trigger] mapped.take(k + 1)[x] != "header"@ by {
                        if x < k {
                            assert(mapped.take(k + 1)[x] == mapped.take(k as int)[x]);
                        }
                    }
                }
                k += 1;
            }
            assert(mapped.take(pieces.len() as int) =~= mapped);
            false
        },
        None => false,
    }
}

/// Body rows, one for each row source.
pub open spec fn body_rows(srcs: Seq<Seq<char>>, attrs: Map<Seq<char>, AttrV>) -> Seq<RowV>
    decreases srcs.len(),
{
    if srcs.len() == 0 {
        Seq::empty()
    } else {
        body_rows(srcs.drop_last(), attrs).push(
            RowV { cells: row_cells(split_cells(srcs.last()), attrs), kind: RowKind::Body },
        )
    }
}

/// The `options` value of a block, if any.
pub open spec fn named_options(meta: MetaV) -> Option<Seq<char>> {
    if meta.named.contains_key("options"@) {
        Some(meta.named["options"@])
    } else {
        None
    }
}

/// The rows of a table body: the first one is a header row when the block
/// asks for one, or when a blank line follows it and another row comes.
pub open spec fn table_rows(lv: Seq<Seq<char>>, attrs: Map<Seq<char>, AttrV>, meta: MetaV) -> Seq<RowV> {
    let rows = body_rows(row_srcs(lv), attrs);
    let header = explicit_header(meta.options, named_options(meta)) || (rows.len() >= 2
        && first_row_blank(lv));
    if header && rows.len() > 0 {
        rows.update(0, RowV { cells: rows[0].cells, kind: RowKind::Header })
    } else {
        rows
    }
}

proof fn lemma_body_rows_len(srcs: Seq<Seq<char>>, attrs: Map<Seq<char>, AttrV>)
    ensures
        body_rows(srcs, attrs).len() == srcs.len(),
    decreases srcs.len(),
{
    if srcs.len() > 0 {
        lemma_body_rows_len(srcs.drop_last(), attrs);
    }
}

#[verifier::spinoff_prover]
fn parse_table_rows(lines: &Vec<Vec<char>>, attrs: &Attributes, meta: &BlockMeta) -> (res: Vec<
    TableRow,
>)
    ensures
        rows_v(res@) == table_rows(views(lines@), attrs@, meta_v(*meta)),
{
    let ghost lv = views(lines@);
    let mut rows: Vec<TableRow> = Vec::new();
    let mut i: usize = 0;
    assert(rows_v(rows@) =~= body_rows(row_srcs(lv.take(0)), attrs@));
    while i < lines.len()
        invariant
            i <= lines.len(),
            lv == views(lines@),
            rows_v(rows@) == body_rows(row_srcs(lv.take(i as int)), attrs@),
        decreases lines.len() - i,
    {
        let t = trim_vec(lines[i].as_slice());
        proof {
            assert(lv.take(i + 1).drop_last() =~= lv.take(i as int));
            assert(lv.take(i + 1).last() == lines@[i as int]@);
        }
        let ghost pre = row_srcs(lv.take(i as int));
        if t.len() > 0 && t[0] == '|' {
            let rest = sub_vec(t.as_slice(), 1, t.len());
            assert(rest@ =~= t@.drop_first());
            let row = build_row(rest.as_slice(), attrs);
            let ghost before = rows@;
            rows.push(row);
            proof {
                assert(rows@.drop_last() =~= before);
                assert(row_srcs(lv.take(i + 1)) == pre.push(rest@));
                assert(pre.push(rest@).drop_last() =~= pre);
                assert(body_rows(pre.push(rest@), attrs@) == body_rows(pre, attrs@).push(
                    RowV { cells: row_cells(split_cells(rest@), attrs@), kind: RowKind::Body },
                ));
            }
        } else {
            assert(row_srcs(lv.take(i + 1)) == pre);
        }
        i += 1;
    }
    assert(lv.take(lines.len() as int) =~= lv);
    proof {
        lemma_body_rows_len(row_srcs(lv), attrs@);
        crate::ast::lemma_rows_v(rows@);
    }
    let inferred = rows.len() >= 2 && first_row_blank_exec(lines);
    let header = has_header_option(meta) || inferred;
    if header && rows.len() > 0 {
        mark_header(&mut rows);
    }
    rows
}

/// The first row becomes a header row.
fn mark_header(rows: &mut Vec<TableRow>)
    requires
        old(rows)@.len() > 0,
    ensures
        rows_v(final(rows)@) == rows_v(old(rows)@).update(
            0,
            RowV { cells: rows_v(old(rows)@)[0].cells, kind: RowKind::Header },
        ),
{
    let ghost before = rows@;
    let mut first = rows.remove(0);
    first.kind = RowKind::Header;
    rows.insert(0, first);
    proof {
        crate::ast::lemma_rows_v(rows@);
        crate::ast::lemma_rows_v(before);
        assert(rows@ =~= before.update(0, first));
        assert(rows_v(rows@) =~= rows_v(before).update(
            0,
            RowV { cells: rows_v(before)[0].cells, kind: RowKind::Header },
        ));
    }
}

fn first_row_blank_exec(lines: &Vec<Vec<char>>) -> (res: bool)
    ensures
        res == first_row_blank(views(lines@)),
{
    let ghost lv = views(lines@);
    let mut count: usize = 0;
    let mut flag = false;
    let mut i: usize = 0;
    while i < lines.len()
        invariant
            i <= lines.len(),
            lv == views(lines@),
            count == row_srcs(lv.take(i as int)).len(),
            count <= i,
            flag == first_row_blank(lv.take(i as int)),
        decreases lines.len() - i,
    {
        let t = trim_vec(lines[i].as_slice());
        proof {
            assert(lv.take(i + 1).drop_last() =~= lv.take(i as int));
            assert(lv.take(i + 1).last() == lines@[i as int]@);
        }
        if t.len() == 0 && count == 1 {
            flag = true;
        }
        proof {
            lemma_row_srcs_len(lv.take(i + 1));
        }
        if t.len() > 0 && t[0] == '|' {
            count += 1;
        }
        i += 1;
    }
    assert(lv.take(lines.len() as int) =~= lv);
    flag
}


// ---------------------------------------------------------------------------
// multi-line inline content
// ---------------------------------------------------------------------------

/// Adjacent text nodes joined into one.
pub open spec fn merge_texts(s: Seq<InlineV>) -> Seq<InlineV>
    decreases s.len(),
{
    if s.len() == 0 {
        Seq::empty()
    } else {
        let pre = merge_texts(s.drop_last());
        let x = s.last();
        if pre.len() > 0 && pre.last() is Text && x is Text {
            pre.drop_last().push(InlineV::Text(pre.last()->Text_0 + x->Text_0))
        } else {
            pre.push(x)
        }
    }
}

/// No two neighbouring nodes are both text.
pub open spec fn no_adjacent_texts(s: Seq<InlineV>) -> bool {
    forall|i: int| 0 <= i < s.len() - 1 ==> !(#[trigger] s[i] is Text && s[i + 1] is Text)
}

pub proof fn lemma_merge_texts(s: Seq<InlineV>)
    ensures
        no_adjacent_texts(merge_texts(s)),
        s.len() > 0 ==> merge_texts(s).len() > 0,
    decreases s.len(),
{
    if s.len() > 0 {
        lemma_merge_texts(s.drop_last());
        let pre = merge_texts(s.drop_last());
        let r = merge_texts(s);
        assert forall|i: int| 0 <= i < r.len() - 1 implies !(#[trigger] r[i] is Text && r[i + 1] is Text) by {
            if pre.len() > 0 && pre.last() is Text && s.last() is Text {
                assert(r[i] == pre[i]);
                assert(r[i + 1] == pre[i + 1] || i + 1 == r.len() - 1);
                if i + 1 < r.len() - 1 {
                    assert(r[i + 1] == pre[i + 1]);
                } else {
                    if i > 0 || pre.len() >= 2 {
                        assert(!(pre[i] is Text && pre[i + 1] is Text));
                    }
                }
            } else {
                if i + 1 < pre.len() {
                    assert(r[i] == pre[i] && r[i + 1] == pre[i + 1]);
                }
            }
        }
    }
}

fn merge_adjacent_text(inlines: Vec<Inline>) -> (res: Vec<Inline>)
    ensures
        inlines_v(res@) == merge_texts(inlines_v(inlines@)),
{
    let n = inlines.len();
    let ghost all = inlines@;
    let mut rest = crate::text::reversed(inlines);
    let mut out: Vec<Inline> = Vec::new();
    let mut i: usize = 0;
    while i < n
        invariant
            i <= n == all.len(),
            rest@ == all.subrange(i as int, n as int).reverse(),
            inlines_v(out@) == merge_texts(inlines_v(all.take(i as int))),
        decreases n - i,
    {
        assert(rest@.len() == n - i);
        let ghost orig = all[i as int];
        assert(rest@.last() == orig);
        let item = rest.pop().unwrap();
        assert(rest@ =~= all.subrange(i + 1, n as int).reverse());
        proof {
            let t = all.take(i as int);
            assert(all.take(i + 1) =~= t.push(orig));
            crate::ast::lemma_inlines_v_push(t, orig);
            assert(inlines_v(t).push(inline_v(orig)).drop_last() =~= inlines_v(t));
            crate::ast::lemma_inlines_v_len(out@);
        }
        let ghost prev = out@;
        let mut merged = false;
        if let Inline::Text { value: b } = &item {
            if out.len() > 0 {
                let last = out.pop().unwrap();
                let ghost popped = out@;
                assert(prev =~= popped.push(last));
                proof {
                    crate::ast::lemma_inlines_v_push(popped, last);
                }
                match last {
                    Inline::Text { value: a } => {
                        let mut joined = a;
                        crate::text::push_str(&mut joined, b.as_str());
                        out.push(Inline::Text { value: joined });
                        proof {
                            crate::ast::lemma_inlines_v_push(popped, Inline::Text { value: joined });
                        }
                        merged = true;
                    },
                    other => {
                        out.push(other);
                        assert(out@ =~= prev);
                    },
                }
            }
        }
        if !merged {
            let ghost before = out@;
            out.push(item);
            proof {
                crate::ast::lemma_inlines_v_push(before, item);
            }
        }
        i += 1;
    }
    assert(all.take(n as int) =~= all);
    out
}

fn append_all(out: &mut Vec<Inline>, more: Vec<Inline>)
    ensures
        inlines_v(final(out)@) == inlines_v(old(out)@) + inlines_v(more@),
{
    let ghost base = out@;
    let ghost m = more@;
    let mut more = more;
    out.append(&mut more);
    proof {
        crate::ast::lemma_inlines_v_add(base, m);
    }
}

/// The inlines of several lines: each parsed on its own, a space between
/// neighbours.
pub open spec fn lines_inlines(ls: Seq<Seq<char>>, attrs: Map<Seq<char>, AttrV>, subs: Subs) -> Seq<
    InlineV,
>
    decreases ls.len(),
{
    if ls.len() == 0 {
        Seq::empty()
    } else {
        lines_inlines(ls.drop_last(), attrs, subs) + (if ls.len() > 1 {
            seq![InlineV::Text(seq![' '])]
        } else {
            Seq::empty()
        }) + inline_parse(ls.last(), attrs, subs)
    }
}

/// Parse inline content that spans several source lines: each line is
/// parsed on its own and lines are joined by a space; neighbouring text
/// nodes are then merged.
pub fn parse_inlines_multiline(text: &str, attrs: &Attributes, subs: Subs) -> (res: Vec<Inline>)
    ensures
        inlines_v(res@) == merge_texts(lines_inlines(split_char(text@, '\n'), attrs@, subs)),
        no_adjacent_texts(inlines_v(res@)),
{
    let chars = chars_of(text);
    let lines = split_on(chars.as_slice(), '\n');
    let ghost lv = views(lines@);
    let mut out: Vec<Inline> = Vec::new();
    let mut idx: usize = 0;
    assert(inlines_v(out@) =~= lines_inlines(lv.take(0), attrs@, subs));
    while idx < lines.len()
        invariant
            idx <= lines.len(),
            lv == views(lines@),
            inlines_v(out@) == lines_inlines(lv.take(idx as int), attrs@, subs),
        decreases lines.len() - idx,
    {
        let ghost before = inlines_v(out@);
        if idx > 0 {
            let mut sp = String::new();
            push_char(&mut sp, ' ');
            let ghost o = out@;
            out.push(Inline::Text { value: sp });
            proof {
                lemma_inlines_v_push(o, Inline::Text { value: sp });
            }
        }
        let parsed = parse_slice(lines[idx].as_slice(), attrs, subs);
        append_all(&mut out, parsed);
        proof {
            let t = lv.take(idx + 1);
            assert(t.drop_last() =~= lv.take(idx as int));
            assert(t.last() == lines@[idx as int]@);
            if idx > 0 {
                assert(inlines_v(out@) =~= before + seq![InlineV::Text(seq![' '])] + inline_parse(
                    lines@[idx as int]@,
                    attrs@,
                    subs,
                ));
            } else {
                assert(inlines_v(out@) =~= before + Seq::<InlineV>::empty() + inline_parse(
                    lines@[idx as int]@,
                    attrs@,
                    subs,
                ));
            }
        }
        idx += 1;
    }
    assert(lv.take(lines.len() as int) =~= lv);
    let res = merge_adjacent_text(out);
    proof {
        lemma_merge_texts(inlines_v(out@));
    }
    res
}


// ---------------------------------------------------------------------------
// blocks
// ---------------------------------------------------------------------------

/// The cursor only moves forward over the same lines.
pub open spec fn advanced(before: Cursor, after: Cursor) -> bool {
    &&& after.lines() == before.lines()
    &&& before.pos() <= after.pos() <= after.lines().len()
}

pub open spec fn in_bounds(c: Cursor) -> bool {
    0 <= c.pos() <= c.lines().len()
}

/// Lines left to read.
pub open spec fn remaining(c: Cursor) -> int {
    c.lines().len() - c.pos()
}

/// Sections nest strictly deeper than `level`.
pub open spec fn sections_below(bs: Seq<Block>, level: u8) -> bool {
    forall|i: int| 0 <= i < bs.len() ==> (#[trigger] bs[i] matches Block::Section(s) ==> s.level > level)
}

fn line_chars(line: &PreprocessedLine) -> (res: Vec<char>)
    ensures
        res@ == line.text@,
{
    chars_of(line.text.as_str())
}

/// Recognise a callout list: one or more adjacent `<N> description`
/// lines.
fn try_parse_colist(cursor: &mut Cursor, attrs: &Attributes) -> (res: Option<Colist>)
    requires
        in_bounds(*old(cursor)),
    ensures
        advanced(*old(cursor), *final(cursor)),
        match res {
            Some(c) => colist_block(old(cursor).lines(), old(cursor).pos(), attrs@) == Some(
                (block_v(Block::Colist(c)), final(cursor).pos()),
            ),
            None => colist_block(old(cursor).lines(), old(cursor).pos(), attrs@) is None
                && final(cursor).pos() == old(cursor).pos(),
        },
{
    let ghost ls = cursor.lines();
    let ghost p = cursor.pos();
    let first = cursor.peek()?;
    let ft = line_chars(first);
    let (n, rest) = strip_callout_prefix(ft.as_slice())?;
    let location = first.location;
    let mut items: Vec<ColistItem> = Vec::new();
    let ghost e0 = items@;
    items.push(ColistItem { number: n, inlines: parse_slice(rest.as_slice(), attrs, Subs::normal()) });
    cursor.advance();
    proof {
        let all = colist_items(ls, p, attrs@);
        let tail = colist_items(ls, p + 1, attrs@);
        assert(all.0 == seq![colist_items_v(items@)[0]] + tail.0);
        assert(colist_items_v(items@) =~= seq![colist_items_v(items@)[0]]);
    }
    loop
        invariant
            advanced(*old(cursor), *cursor),
            ls == cursor.lines(),
            0 <= p == old(cursor).pos(),
            p < cursor.pos(),
            items@.len() > 0,
            colist_items_v(items@) + colist_items(ls, cursor.pos(), attrs@).0 == colist_items(
                ls,
                p,
                attrs@,
            ).0,
            colist_items(ls, cursor.pos(), attrs@).1 == colist_items(ls, p, attrs@).1,
        ensures
            advanced(*old(cursor), *cursor),
            items@.len() > 0,
            colist_items_v(items@) == colist_items(ls, p, attrs@).0,
            cursor.pos() == colist_items(ls, p, attrs@).1,
        decreases remaining(*cursor),
    {
        let ghost i = cursor.pos();
        let line = match cursor.peek() {
            Some(l) => l,
            None => {
                assert(colist_items_v(items@) + Seq::<(u32, Seq<InlineV>)>::empty() =~= colist_items_v(items@));
                break;
            },
        };
        let lt = line_chars(line);
        let (n, rest) = match strip_callout_prefix(lt.as_slice()) {
            Some(x) => x,
            None => {
                assert(colist_items_v(items@) + Seq::<(u32, Seq<InlineV>)>::empty() =~= colist_items_v(items@));
                break;
            },
        };
        let ghost before = items@;
        items.push(ColistItem { number: n, inlines: parse_slice(rest.as_slice(), attrs, Subs::normal()) });
        cursor.advance();
        proof {
            let tail = colist_items(ls, i + 1, attrs@);
            assert(colist_items_v(items@) =~= colist_items_v(before).push(colist_items_v(items@).last()));
            assert(colist_items(ls, i, attrs@).0 == seq![colist_items_v(items@).last()] + tail.0);
            assert(colist_items_v(items@) + tail.0 =~= colist_items_v(before) + (seq![
                colist_items_v(items@).last(),
            ] + tail.0));
        }
    }
    Some(Colist { items, location, meta: BlockMeta::new() })
}

fn peek_section_level(cursor: &Cursor) -> (res: Option<u8>)
    requires
        in_bounds(*cursor),
    ensures
        res matches Some(l) ==> cursor.pos() < cursor.lines().len() && section_level(
            cursor.lines()[cursor.pos()].text@,
        ) == Some(l),
        res is None ==> cursor.pos() >= cursor.lines().len() || section_level(
            cursor.lines()[cursor.pos()].text@,
        ) is None,
{
    let line = cursor.peek()?;
    let t = line_chars(line);
    section_level_of(t.as_slice())
}

#[verifier::spinoff_prover]
/// The image of a line that is a whole `image::target[attrs]` macro.
fn block_image_at(t: &[char]) -> (res: Option<Inline>)
    ensures
        match res {
            Some(i) => block_image(t@) == Some(inline_v(i)),
            None => block_image(t@) is None,
        },
{
    proof {
        reveal_strlit("image::");
        assert("image::"@ =~= seq!['i', 'm', 'a', 'g', 'e', ':', ':']);
        assert(t@.skip(0) =~= t@);
    }
    if t.len() < 7 || !starts_with_lit(t, 0, "image::") {
        return None;
    }
    let mut r = sub_vec(t, 0, 6);
    let mut k: usize = 7;
    assert(t@.subrange(7, 7) =~= Seq::<char>::empty());
    assert(r@ =~= t@.take(6) + t@.subrange(7, 7));
    while k < t.len()
        invariant
            7 <= k <= t.len(),
            r@ == t@.take(6) + t@.subrange(7, k as int),
        decreases t.len() - k,
    {
        r.push(t[k]);
        k += 1;
        assert(r@ =~= t@.take(6) + t@.subrange(7, k as int));
    }
    assert(t@.subrange(7, t.len() as int) =~= t@.skip(7));
    match crate::parser::inline::image_at(r.as_slice()) {
        Some((img, e)) => if e == r.len() {
            Some(img)
        } else {
            None
        },
        None => None,
    }
}

/// Whether block metadata marks a header line as a discrete heading.
fn meta_is_discrete(meta: &BlockMeta) -> (res: bool)
    ensures
        res == is_discrete(meta_v(*meta)),
{
    match &meta.style {
        Some(s) => crate::strmap::str_eq(s.as_str(), "discrete"),
        None => false,
    }
}

fn parse_discrete_heading(cursor: &mut Cursor, attrs: &Attributes, level: u8, meta: BlockMeta) -> (res:
    DiscreteHeading)
    requires
        in_bounds(*old(cursor)),
        old(cursor).pos() < old(cursor).lines().len(),
        section_level(old(cursor).lines()[old(cursor).pos()].text@) == Some(level),
    ensures
        advanced(*old(cursor), *final(cursor)),
        final(cursor).pos() == old(cursor).pos() + 1,
        block_v(Block::DiscreteHeading(res)) == discrete_block(
            old(cursor).lines(),
            old(cursor).pos(),
            attrs@,
            level,
            meta_v(meta),
        ),
{
    let line = cursor.advance().unwrap();
    let location = line.location;
    let t = line_chars(line);
    let start = level as usize + 2;
    let (a, b) = trim_bounds(t.as_slice(), start, t.len());
    assert(t@.subrange(start as int, t.len() as int) =~= t@.skip(level + 2));
    let title_src = sub_vec(t.as_slice(), a, b);
    let title = parse_slice(title_src.as_slice(), attrs, Subs::normal());
    DiscreteHeading { level, title, location, meta }
}

fn parse_section(cursor: &mut Cursor, attrs: &mut Attributes, level: u8, meta: BlockMeta) -> (res:
    Section)
    requires
        in_bounds(*old(cursor)),
        old(cursor).pos() < old(cursor).lines().len(),
        section_level(old(cursor).lines()[old(cursor).pos()].text@) == Some(level),
    ensures
        advanced(*old(cursor), *final(cursor)),
        final(cursor).pos() > old(cursor).pos(),
        res.level == level,
        res.location == old(cursor).lines()[old(cursor).pos()].location,
        sections_below(res.blocks@, level),
        (block_v(Block::Section(res)), final(cursor).pos(), final(attrs)@) == section_block(
            old(cursor).lines(),
            old(cursor).pos(),
            old(attrs)@,
            level,
            meta_v(meta),
        ),
    decreases remaining(*old(cursor)), 4nat,
{
    let line = cursor.advance().unwrap();
    let location = line.location;
    let t = line_chars(line);
    let start = level as usize + 2;
    let (a, b) = trim_bounds(t.as_slice(), start, t.len());
    assert(t@.subrange(start as int, t.len() as int) =~= t@.skip(level + 2));
    let title_src = sub_vec(t.as_slice(), a, b);
    let title = parse_slice(title_src.as_slice(), attrs, Subs::normal());
    let blocks = parse_blocks(cursor, attrs, level);
    proof {
        reveal(blocks_run);
    }
    Section { level, title, blocks, location, meta }
}

fn parse_paragraph(cursor: &mut Cursor, attrs: &Attributes, meta: BlockMeta) -> (res: Paragraph)
    requires
        in_bounds(*old(cursor)),
    ensures
        advanced(*old(cursor), *final(cursor)),
        no_adjacent_texts(inlines_v(res.inlines@)),
        (block_v(Block::Paragraph(res)), final(cursor).pos()) == paragraph_block(
            old(cursor).lines(),
            old(cursor).pos(),
            attrs@,
            meta_v(meta),
        ),
{
    let ghost ls = cursor.lines();
    let ghost p = cursor.pos();
    let location = cursor.current_location();
    let mut meta = meta;
    let mut lines: Vec<Vec<char>> = Vec::new();
    assert(views(lines@) =~= texts(ls).subrange(p, p));
    loop
        invariant
            advanced(*old(cursor), *cursor),
            ls == cursor.lines(),
            0 <= p == old(cursor).pos(),
            views(lines@) == texts(ls).subrange(p, cursor.pos()),
            para_end(ls, p) == para_end(ls, cursor.pos()),
        ensures
            advanced(*old(cursor), *cursor),
            views(lines@) == texts(ls).subrange(p, cursor.pos()),
            para_end(ls, p) == cursor.pos(),
        decreases remaining(*cursor),
    {
        let line = match cursor.peek() {
            Some(l) => l,
            None => break,
        };
        let t = line_chars(line);
        if is_blank_slice(t.as_slice()) || is_block_boundary(t.as_slice()) {
            break;
        }
        let ghost before = views(lines@);
        lines.push(t);
        proof {
            assert(views(lines@) =~= before.push(t@));
            assert(ls[cursor.pos()].text@ == t@);
            crate::parser::cursor::lemma_texts(ls);
            assert(cursor.pos() < ls.len());
            assert(p <= cursor.pos());
            assert(texts(ls).subrange(p, cursor.pos() + 1) =~= texts(ls).subrange(p, cursor.pos()).push(t@));
        }
        cursor.advance();
    }
    if lines.len() > 0 {
        proof {
            assert(views(lines@)[0] == lines@[0]@);
        }
        if let Some((kw, rest)) = strip_admonition_prefix(lines[0].as_slice()) {
            if meta.style.is_none() {
                let mut st = String::new();
                push_str(&mut st, kw);
                meta.style = Some(st);
            }
            let ghost before = views(lines@);
            lines.set(0, rest);
            assert(views(lines@) =~= before.update(0, rest@));
        }
    }
    let nl = one_newline();
    let text = crate::text::join_vecs(&lines, nl.as_slice());
    let text_s = string_of(text.as_slice());
    let inlines = parse_inlines_multiline(text_s.as_str(), attrs, Subs::normal());
    Paragraph { inlines, location, meta }
}

fn one_newline() -> (res: Vec<char>)
    ensures
        res@ == seq!['\n'],
{
    let mut v: Vec<char> = Vec::new();
    v.push('\n');
    assert(v@ =~= seq!['\n']);
    v
}

#[verifier::spinoff_prover]
fn parse_list_kind(cursor: &mut Cursor, attrs: &mut Attributes, first: ListMarkerInfo, meta: BlockMeta) -> (res: Block)
    requires
        in_bounds(*old(cursor)),
    ensures
        advanced(*old(cursor), *final(cursor)),
        res matches Block::List(l) && l.marker == first.marker,
        ({
            let (items, e, a2) = list_items_from(
                old(cursor).lines(),
                old(cursor).pos(),
                old(attrs)@,
                first.marker,
            );
            (block_v(res), final(cursor).pos(), final(attrs)@) == (
                BlockV::List {
                    marker: first.marker,
                    items,
                    location: loc_at(old(cursor).lines(), old(cursor).pos()),
                    meta: meta_v(meta),
                },
                e,
                a2,
            )
        }),
    decreases remaining(*old(cursor)), 2nat,
{
    let ghost ls = cursor.lines();
    let ghost p = cursor.pos();
    let ghost a0 = attrs@;
    let ghost mk = first.marker;
    let location = cursor.current_location();
    let mut items: Vec<ListItem> = Vec::new();
    assert(list_items_v(items@) + list_items_from(ls, p, a0, mk).0 =~= list_items_from(ls, p, a0, mk).0);
    loop
        invariant
            advanced(*old(cursor), *cursor),
            ls == cursor.lines(),
            0 <= p == old(cursor).pos(),
            a0 == old(attrs)@,
            mk == first.marker,
            list_items_v(items@) + list_items_from(ls, cursor.pos(), attrs@, mk).0 == list_items_from(
                ls,
                p,
                a0,
                mk,
            ).0,
            list_items_from(ls, cursor.pos(), attrs@, mk).1 == list_items_from(ls, p, a0, mk).1,
            list_items_from(ls, cursor.pos(), attrs@, mk).2 == list_items_from(ls, p, a0, mk).2,
        ensures
            advanced(*old(cursor), *cursor),
            list_items_v(items@) == list_items_from(ls, p, a0, mk).0,
            cursor.pos() == list_items_from(ls, p, a0, mk).1,
            attrs@ == list_items_from(ls, p, a0, mk).2,
        decreases remaining(*cursor),
    {
        let ghost i = cursor.pos();
        let ghost ai = attrs@;
        let line = match cursor.peek() {
            Some(l) => l,
            None => {
                assert(list_items_v(items@) + Seq::<ListItemV>::empty() =~= list_items_v(items@));
                break;
            },
        };
        let t = line_chars(line);
        if is_blank_slice(t.as_slice()) {
            assert(list_items_v(items@) + Seq::<ListItemV>::empty() =~= list_items_v(items@));
            break;
        }
        let info = match list_marker(t.as_slice()) {
            Some(i) => {
                if i.marker == first.marker {
                    i
                } else {
                    assert(list_items_v(items@) + Seq::<ListItemV>::empty() =~= list_items_v(items@));
                    break;
                }
            },
            None => {
                assert(list_items_v(items@) + Seq::<ListItemV>::empty() =~= list_items_v(items@));
                break;
            },
        };
        cursor.advance();
        let rest = sub_vec(t.as_slice(), info.prefix_len, t.len());
        assert(rest@ =~= t@.skip(info.prefix_len as int));
        let src = trim_end_vec(rest.as_slice());
        let principal = parse_slice(src.as_slice(), attrs, Subs::normal());
        let blocks = parse_list_item_attachments(cursor, attrs);
        let ghost before = items@;
        items.push(ListItem { depth: info.depth, principal, blocks });
        proof {
            crate::ast::lemma_list_items_v(items@);
            crate::ast::lemma_list_items_v(before);
            let tail = list_items_from(ls, cursor.pos(), attrs@, mk);
            let x = list_items_v(items@).last();
            assert(list_items_v(items@) =~= list_items_v(before).push(x));
            assert(list_items_from(ls, i, ai, mk) == (seq![x] + tail.0, tail.1, tail.2));
            assert(list_items_v(items@) + tail.0 =~= list_items_v(before) + (seq![x] + tail.0));
        }
    }
    Block::List(List { marker: first.marker, items, location, meta })
}

/// `+` continuation lines: the block after each attaches to the item.
#[verifier::spinoff_prover]
fn parse_list_item_attachments(cursor: &mut Cursor, attrs: &mut Attributes) -> (res: Vec<Block>)
    requires
        in_bounds(*old(cursor)),
    ensures
        advanced(*old(cursor), *final(cursor)),
        (blocks_v(res@), final(cursor).pos(), final(attrs)@) == attachments_from(
            old(cursor).lines(),
            old(cursor).pos(),
            old(attrs)@,
        ),
    decreases remaining(*old(cursor)), 1nat,
{
    let ghost ls = cursor.lines();
    let ghost p = cursor.pos();
    let ghost a0 = attrs@;
    let mut out: Vec<Block> = Vec::new();
    assert(blocks_v(out@) + attachments_from(ls, p, a0).0 =~= attachments_from(ls, p, a0).0);
    loop
        invariant
            advanced(*old(cursor), *cursor),
            ls == cursor.lines(),
            0 <= p == old(cursor).pos(),
            a0 == old(attrs)@,
            blocks_v(out@) + attachments_from(ls, cursor.pos(), attrs@).0 == attachments_from(
                ls,
                p,
                a0,
            ).0,
            attachments_from(ls, cursor.pos(), attrs@).1 == attachments_from(ls, p, a0).1,
            attachments_from(ls, cursor.pos(), attrs@).2 == attachments_from(ls, p, a0).2,
        decreases remaining(*cursor),
    {
        let ghost i = cursor.pos();
        let ghost ai = attrs@;
        let line = match cursor.peek() {
            Some(l) => l,
            None => {
                assert(blocks_v(out@) + Seq::<BlockV>::empty() =~= blocks_v(out@));
                return out;
            },
        };
        let t = line_chars(line);
        let tt = trim_vec(t.as_slice());
        if !(tt.len() == 1 && tt[0] == '+') {
            proof {
                if tt@ == seq!['+'] {
                    assert(tt@.len() == 1 && tt@[0] == '+');
                }
            }
            assert(blocks_v(out@) + Seq::<BlockV>::empty() =~= blocks_v(out@));
            return out;
        }
        assert(tt@ =~= seq!['+']);
        cursor.advance();
        cursor.skip_blank_lines();
        proof {
            crate::parser::cursor::lemma_texts(ls);
            crate::parser::header::lemma_skip_blank_same(texts(ls), i + 1, cursor.pos());
        }
        if cursor.at_end() {
            assert(blocks_v(out@) + Seq::<BlockV>::empty() =~= blocks_v(out@));
            return out;
        }
        let inner_meta = collect_block_meta(cursor, attrs);
        let ghost k2 = cursor.pos();
        let ghost before = out@;
        match parse_one_block(cursor, attrs, inner_meta) {
            Some(block) => {
                out.push(block);
                proof {
                    crate::ast::lemma_blocks_v_push(before, block);
                    let tail = attachments_from(ls, cursor.pos(), attrs@);
                    assert(attachments_from(ls, i, ai) == (seq![block_v(block)] + tail.0, tail.1, tail.2));
                    assert(blocks_v(out@) + tail.0 =~= blocks_v(before) + (seq![block_v(block)] + tail.0));
                }
            },
            None => {
                proof {
                    let tail = attachments_from(ls, cursor.pos(), attrs@);
                    assert(attachments_from(ls, i, ai) == (Seq::<BlockV>::empty() + tail.0, tail.1, tail.2));
                    assert(Seq::<BlockV>::empty() + tail.0 =~= tail.0);
                }
            },
        }
    }
}

#[verifier::spinoff_prover]
#[verifier::rlimit(40)]
fn parse_description_list(cursor: &mut Cursor, attrs: &Attributes, meta: BlockMeta) -> (res:
    DescriptionList)
    requires
        in_bounds(*old(cursor)),
    ensures
        advanced(*old(cursor), *final(cursor)),
        (block_v(Block::DescriptionList(res)), final(cursor).pos()) == dlist_block(
            old(cursor).lines(),
            old(cursor).pos(),
            attrs@,
            meta_v(meta),
        ),
{
    let ghost ls = cursor.lines();
    let ghost p = cursor.pos();
    let location = cursor.current_location();
    let mut items: Vec<DescriptionListItem> = Vec::new();
    assert(dlist_items_v(items@) =~= Seq::<DlistItemV>::empty());
    assert(Seq::<DlistItemV>::empty() + dlist_items(ls, p, attrs@).0 =~= dlist_items(ls, p, attrs@).0);
    loop
        invariant
            advanced(*old(cursor), *cursor),
            ls == cursor.lines(),
            0 <= p == old(cursor).pos(),
            dlist_items_v(items@) + dlist_items(ls, cursor.pos(), attrs@).0 == dlist_items(
                ls,
                p,
                attrs@,
            ).0,
            dlist_items(ls, cursor.pos(), attrs@).1 == dlist_items(ls, p, attrs@).1,
        ensures
            advanced(*old(cursor), *cursor),
            dlist_items_v(items@) == dlist_items(ls, p, attrs@).0,
            cursor.pos() == dlist_items(ls, p, attrs@).1,
        decreases remaining(*cursor),
    {
        let ghost i = cursor.pos();
        let line = match cursor.peek() {
            Some(l) => l,
            None => {
                assert(dlist_items_v(items@) + Seq::<DlistItemV>::empty() =~= dlist_items_v(items@));
                break;
            },
        };
        let t = line_chars(line);
        if is_blank_slice(t.as_slice()) {
            assert(dlist_items_v(items@) + Seq::<DlistItemV>::empty() =~= dlist_items_v(items@));
            break;
        }
        let term_end = match description_term_end(t.as_slice()) {
            Some(k) => k,
            None => {
                assert(dlist_items_v(items@) + Seq::<DlistItemV>::empty() =~= dlist_items_v(items@));
                break;
            },
        };
        let line_loc = line.location;
        cursor.advance();
        let (ta, tb) = trim_bounds(t.as_slice(), 0, term_end);
        let (da, db) = trim_bounds(t.as_slice(), term_end + 2, t.len());
        let term_src = sub_vec(t.as_slice(), ta, tb);
        let term = parse_slice(term_src.as_slice(), attrs, Subs::normal());
        let mut description: Vec<Block> = Vec::new();
        assert(blocks_v(description@) =~= Seq::<BlockV>::empty());
        if da < db {
            let desc_src = sub_vec(t.as_slice(), da, db);
            let para = Block::Paragraph(
                Paragraph {
                    inlines: parse_slice(desc_src.as_slice(), attrs, Subs::normal()),
                    location: line_loc,
                    meta: BlockMeta::new(),
                },
            );
            let ghost e = description@;
            description.push(para);
            proof {
                crate::ast::lemma_blocks_v_push(e, para);
            }
        }
        let ghost before = items@;
        let item = DescriptionListItem { term, description };
        items.push(item);
        proof {
            assert(items@.drop_last() =~= before);
            assert(t@.subrange(0, term_end as int) =~= t@.take(term_end as int));
            assert(t@.subrange(term_end + 2, t@.len() as int) =~= t@.skip(term_end + 2));
            let rest = dlist_items(ls, i + 1, attrs@);
            assert(dlist_items(ls, i, attrs@).0 == seq![dlist_items_v(items@).last()] + rest.0);
            assert(dlist_items_v(items@) + rest.0 =~= dlist_items_v(before) + (seq![
                dlist_items_v(items@).last(),
            ] + rest.0));
        }
    }
    DescriptionList { items, location, meta }
}

/// A listing, literal or passthrough block keeps its lines verbatim;
/// the other styles parse their lines as nested blocks.
#[verifier::spinoff_prover]
fn parse_delimited(cursor: &mut Cursor, attrs: &mut Attributes, style: DelimitedStyle, meta: BlockMeta) -> (res: DelimitedBlock)
    requires
        in_bounds(*old(cursor)),
        old(cursor).pos() < old(cursor).lines().len(),
    ensures
        advanced(*old(cursor), *final(cursor)),
        final(cursor).pos() > old(cursor).pos(),
        res.style == style,
        res.location == old(cursor).lines()[old(cursor).pos()].location,
        (style == DelimitedStyle::Listing || style == DelimitedStyle::Literal || style
            == DelimitedStyle::Passthrough) <==> res.content is Raw,
        (block_v(Block::Delimited(res)), final(cursor).pos(), final(attrs)@) == delimited_block(
            old(cursor).lines(),
            old(cursor).pos(),
            old(attrs)@,
            style,
            meta_v(meta),
        ),
    decreases remaining(*old(cursor)), 2nat,
{
    let ghost ls = cursor.lines();
    let ghost p = cursor.pos();
    let opener = cursor.advance().unwrap();
    let ot = line_chars(opener);
    let delim = trim_end_vec(ot.as_slice());
    let location = opener.location;
    let ghost d = delim@;
    let is_raw = match style {
        DelimitedStyle::Listing | DelimitedStyle::Literal | DelimitedStyle::Passthrough => true,
        _ => false,
    };
    if is_raw {
        let mut raw_lines: Vec<Vec<char>> = Vec::new();
        assert(views(raw_lines@) =~= texts(ls).subrange(p + 1, p + 1));
        loop
            invariant_except_break
                views(raw_lines@) == texts(ls).subrange(p + 1, cursor.pos()),
                delim_end(ls, p + 1, d) == delim_end(ls, cursor.pos(), d),
            invariant
                advanced(*old(cursor), *cursor),
                ls == cursor.lines(),
                0 <= p == old(cursor).pos(),
                cursor.pos() > p,
                d == delim@,
            ensures
                advanced(*old(cursor), *cursor),
                cursor.pos() > p,
                views(raw_lines@) == texts(ls).subrange(p + 1, delim_end(ls, p + 1, d)),
                cursor.pos() == (if delim_end(ls, p + 1, d) < ls.len() {
                    delim_end(ls, p + 1, d) + 1
                } else {
                    delim_end(ls, p + 1, d)
                }),
            decreases remaining(*cursor),
        {
            let line = match cursor.peek() {
                Some(l) => l,
                None => break,
            };
            let t = line_chars(line);
            let te = trim_end_vec(t.as_slice());
            if crate::text::seq_eq(te.as_slice(), delim.as_slice()) {
                cursor.advance();
                break;
            }
            let ghost before = views(raw_lines@);
            raw_lines.push(t);
            proof {
                crate::parser::cursor::lemma_texts(ls);
                assert(views(raw_lines@) =~= before.push(t@));
                assert(texts(ls).subrange(p + 1, cursor.pos() + 1) =~= texts(ls).subrange(
                    p + 1,
                    cursor.pos(),
                ).push(t@));
            }
            cursor.advance();
        }
        let nl = one_newline();
        let text = crate::text::join_vecs(&raw_lines, nl.as_slice());
        return DelimitedBlock {
            style,
            content: DelimitedContent::Raw { text: string_of(text.as_slice()) },
            location,
            meta,
        };
    }
    let mut inner_lines: Vec<PreprocessedLine> = Vec::new();
    assert(inner_lines@ =~= ls.subrange(p + 1, p + 1));
    loop
        invariant_except_break
            inner_lines@ == ls.subrange(p + 1, cursor.pos()),
            delim_end(ls, p + 1, d) == delim_end(ls, cursor.pos(), d),
        invariant
            advanced(*old(cursor), *cursor),
            ls == cursor.lines(),
            0 <= p == old(cursor).pos(),
            cursor.pos() > p,
            d == delim@,
        ensures
            advanced(*old(cursor), *cursor),
            cursor.pos() > p,
            inner_lines@ == ls.subrange(p + 1, delim_end(ls, p + 1, d)),
            p + 1 <= delim_end(ls, p + 1, d) <= ls.len(),
            cursor.pos() == (if delim_end(ls, p + 1, d) < ls.len() {
                delim_end(ls, p + 1, d) + 1
            } else {
                delim_end(ls, p + 1, d)
            }),
        decreases remaining(*cursor),
    {
        let line = match cursor.peek() {
            Some(l) => l,
            None => break,
        };
        let t = line_chars(line);
        let te = trim_end_vec(t.as_slice());
        if crate::text::seq_eq(te.as_slice(), delim.as_slice()) {
            cursor.advance();
            break;
        }
        let copy = PreprocessedLine { text: line.text.clone(), location: line.location };
        let ghost before = inner_lines@;
        inner_lines.push(copy);
        assert(inner_lines@ =~= ls.subrange(p + 1, cursor.pos() + 1));
        cursor.advance();
    }
    let mut inner_cursor = Cursor::new(inner_lines.as_slice());
    let blocks = parse_blocks(&mut inner_cursor, attrs, 0);
    proof {
        reveal(blocks_run);
    }
    DelimitedBlock { style, content: DelimitedContent::Blocks { blocks }, location, meta }
}

fn parse_table(cursor: &mut Cursor, attrs: &Attributes, meta: BlockMeta) -> (res: Table)
    requires
        in_bounds(*old(cursor)),
        old(cursor).pos() < old(cursor).lines().len(),
    ensures
        advanced(*old(cursor), *final(cursor)),
        final(cursor).pos() > old(cursor).pos(),
        res.location == old(cursor).lines()[old(cursor).pos()].location,
        (block_v(Block::Table(res)), final(cursor).pos()) == table_block(
            old(cursor).lines(),
            old(cursor).pos(),
            attrs@,
            meta_v(meta),
        ),
{
    let ghost ls = cursor.lines();
    let ghost p = cursor.pos();
    let opener = cursor.advance().unwrap();
    let location = opener.location;
    let mut lines: Vec<Vec<char>> = Vec::new();
    assert(views(lines@) =~= texts(ls).subrange(p + 1, p + 1));
    loop
        invariant_except_break
            views(lines@) == texts(ls).subrange(p + 1, cursor.pos()),
            table_end(ls, p + 1) == table_end(ls, cursor.pos()),
        invariant
            advanced(*old(cursor), *cursor),
            ls == cursor.lines(),
            0 <= p == old(cursor).pos(),
            p < cursor.pos(),
        ensures
            advanced(*old(cursor), *cursor),
            p < cursor.pos(),
            views(lines@) == texts(ls).subrange(p + 1, table_end(ls, p + 1)),
            cursor.pos() == (if table_end(ls, p + 1) < ls.len() {
                table_end(ls, p + 1) + 1
            } else {
                table_end(ls, p + 1)
            }),
        decreases remaining(*cursor),
    {
        let line = match cursor.peek() {
            Some(l) => l,
            None => break,
        };
        let t = line_chars(line);
        let te = trim_end_vec(t.as_slice());
        proof {
            reveal_strlit("|===");
            assert("|==="@ =~= seq!['|', '=', '=', '=']);
        }
        if eq_lit(te.as_slice(), "|===") {
            cursor.advance();
            break;
        }
        let ghost before = views(lines@);
        lines.push(t);
        proof {
            crate::parser::cursor::lemma_texts(ls);
            assert(views(lines@) =~= before.push(t@));
            assert(texts(ls).subrange(p + 1, cursor.pos() + 1) =~= texts(ls).subrange(
                p + 1,
                cursor.pos(),
            ).push(t@));
        }
        cursor.advance();
    }
    let cols = match meta.named.get("cols") {
        Some(v) => parse_cols_spec(Some(v.as_str())),
        None => parse_cols_spec(None),
    };
    proof {
        reveal_strlit("cols");
    }
    let rows = parse_table_rows(&lines, attrs, &meta);
    Table { rows, cols, location, meta }
}

fn parse_one_block(cursor: &mut Cursor, attrs: &mut Attributes, meta: BlockMeta) -> (res: Option<Block>)
    requires
        in_bounds(*old(cursor)),
    ensures
        advanced(*old(cursor), *final(cursor)),
        res is None <==> old(cursor).pos() >= old(cursor).lines().len(),
        res matches Some(b) ==> !(b is Section),
        match res {
            Some(b) => one_block(old(cursor).lines(), old(cursor).pos(), old(attrs)@, meta_v(meta))
                == Some((block_v(b), final(cursor).pos(), final(attrs)@)),
            None => one_block(old(cursor).lines(), old(cursor).pos(), old(attrs)@, meta_v(meta)) is None
                && final(cursor).pos() == old(cursor).pos() && final(attrs)@ == old(attrs)@,
        },
    decreases remaining(*old(cursor)), 3nat,
{
    let line = cursor.peek()?;
    let t = line_chars(line);
    if let Some(style) = delimited_style(t.as_slice()) {
        return Some(Block::Delimited(parse_delimited(cursor, attrs, style, meta)));
    }
    if is_table_delim(t.as_slice()) {
        return Some(Block::Table(parse_table(cursor, attrs, meta)));
    }
    if let Some(img) = block_image_at(t.as_slice()) {
        let location = line.location;
        cursor.advance();
        let mut meta = meta;
        meta.style = Some("image".to_string());
        let ghost e = Seq::<Inline>::empty();
        let inlines = vec![img];
        proof {
            reveal_strlit("image");
            assert(inlines_v(inlines@) =~= seq![inline_v(img)]) by {
                lemma_inlines_v_push(e, img);
                assert(inlines@ =~= e.push(img));
            }
        }
        return Some(Block::Paragraph(Paragraph { inlines, location, meta }));
    }
    if let Some(marker) = list_marker(t.as_slice()) {
        return Some(parse_list_kind(cursor, attrs, marker, meta));
    }
    if is_description_item(t.as_slice()) {
        return Some(Block::DescriptionList(parse_description_list(cursor, attrs, meta)));
    }
    Some(Block::Paragraph(parse_paragraph(cursor, attrs, meta)))
}

/// One step of the block loop from the cursor: it ends the run (`true`)
/// or moves on past at least one line.
#[verifier::spinoff_prover]
#[verifier::rlimit(60)]
fn blocks_step(cursor: &mut Cursor, attrs: &mut Attributes, section_level: u8, out: &mut Vec<Block>) -> (stop: bool)
    requires
        in_bounds(*old(cursor)),
        sections_below(old(out)@, section_level),
    ensures
        advanced(*old(cursor), *final(cursor)),
        sections_below(final(out)@, section_level),
        stop ==> blocks_run(
            old(cursor).lines(),
            old(cursor).pos(),
            old(attrs)@,
            section_level,
            blocks_v(old(out)@),
        ) == (blocks_v(final(out)@), final(cursor).pos(), final(attrs)@),
        !stop ==> final(cursor).pos() > old(cursor).pos() && blocks_run(
            old(cursor).lines(),
            old(cursor).pos(),
            old(attrs)@,
            section_level,
            blocks_v(old(out)@),
        ) == blocks_run(
            final(cursor).lines(),
            final(cursor).pos(),
            final(attrs)@,
            section_level,
            blocks_v(final(out)@),
        ),
    decreases remaining(*old(cursor)), 5nat,
{
    proof {
        reveal(blocks_run);
    }
    let ghost ls = cursor.lines();
    let ghost ts = texts(ls);
    let loop_start = cursor.position();
    let ghost p0 = cursor.pos();
    proof {
        crate::parser::cursor::lemma_texts(ls);
    }
    cursor.skip_blank_lines();
    proof {
        crate::parser::header::lemma_skip_blank_same(ts, p0, cursor.pos());
    }
    if cursor.at_end() {
        return true;
    }
    if let Some(line) = cursor.peek() {
        if parse_attribute_entry(line.text.as_str()).is_some() {
            consume_attribute_entries(cursor, attrs);
            return cursor.position() == loop_start;
        }
    }
    let pre_meta_pos = cursor.position();
    let meta = collect_block_meta(cursor, attrs);
    let detached = match cursor.peek() {
        None => {
            return true;
        },
        Some(line) => crate::parser::cursor::line_is_blank(line),
    };
    if detached {
        return false;
    }
    if let Some(level) = peek_section_level(cursor) {
        if meta_is_discrete(&meta) {
            let heading = parse_discrete_heading(cursor, attrs, level, meta);
            let ghost before = out@;
            out.push(Block::DiscreteHeading(heading));
            proof {
                crate::ast::lemma_blocks_v_push(before, Block::DiscreteHeading(heading));
            }
            return false;
        }
        if level <= section_level {
            cursor.seek(pre_meta_pos);
            return true;
        }
        let section = parse_section(cursor, attrs, level, meta);
        let ghost before = out@;
        out.push(Block::Section(section));
        proof {
            crate::ast::lemma_blocks_v_push(before, Block::Section(section));
        }
        return false;
    }
    match parse_one_block(cursor, attrs, meta) {
        Some(block) => {
            let listing_or_literal = match &block {
                Block::Delimited(d) => match d.style {
                    DelimitedStyle::Listing | DelimitedStyle::Literal => true,
                    _ => false,
                },
                _ => false,
            };
            let ghost before = out@;
            out.push(block);
            proof {
                crate::ast::lemma_blocks_v_push(before, block);
            }
            if listing_or_literal {
                let ghost q0 = cursor.pos();
                cursor.skip_blank_lines();
                proof {
                    crate::parser::header::lemma_skip_blank_same(ts, q0, cursor.pos());
                }
                let ghost before2 = out@;
                if let Some(colist) = try_parse_colist(cursor, attrs) {
                    out.push(Block::Colist(colist));
                    proof {
                        crate::ast::lemma_blocks_v_push(before2, Block::Colist(colist));
                    }
                }
            }
        },
        None => {
            return true;
        },
    }
    cursor.position() == loop_start
}

/// Parse blocks until the input ends or a section header of level
/// `section_level` or shallower (handed back with its metadata lines).
pub fn parse_blocks(cursor: &mut Cursor, attrs: &mut Attributes, section_level: u8) -> (res: Vec<
    Block,
>)
    requires
        in_bounds(*old(cursor)),
    ensures
        advanced(*old(cursor), *final(cursor)),
        sections_below(res@, section_level),
        (blocks_v(res@), final(cursor).pos(), final(attrs)@) == blocks_run(
            old(cursor).lines(),
            old(cursor).pos(),
            old(attrs)@,
            section_level,
            Seq::empty(),
        ),
    decreases remaining(*old(cursor)), 6nat,
{
    let ghost ls = cursor.lines();
    let ghost p = cursor.pos();
    let ghost a0 = attrs@;
    let mut out: Vec<Block> = Vec::new();
    assert(blocks_v(out@) =~= Seq::<BlockV>::empty());
    loop
        invariant_except_break
            blocks_run(ls, cursor.pos(), attrs@, section_level, blocks_v(out@)) == blocks_run(
                ls,
                p,
                a0,
                section_level,
                Seq::empty(),
            ),
        invariant
            advanced(*old(cursor), *cursor),
            ls == cursor.lines(),
            0 <= p == old(cursor).pos(),
            a0 == old(attrs)@,
            sections_below(out@, section_level),
        ensures
            (blocks_v(out@), cursor.pos(), attrs@) == blocks_run(ls, p, a0, section_level, Seq::empty()),
        decreases remaining(*cursor),
    {
        if blocks_step(cursor, attrs, section_level, &mut out) {
            break;
        }
    }
    out
}

} // verus!
