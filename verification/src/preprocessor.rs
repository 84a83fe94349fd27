//! AsciiDoc preprocessor: the line-level constructs that run before the
//! block parser — `include::` directives with their `lines`, `tag(s)`,
//! `leveloffset` and `indent` arguments, `ifdef`/`ifndef`/`ifeval`
//! conditionals, and attribute entries applied to the running attribute
//! set. Reading files is left to the caller, which feeds each source's
//! text through [`Preprocessor::process_source`] and answers its inclusion
//! requests.
use vstd::prelude::*;

use crate::ast::{AttrV, AttributeValue, Attributes, Location, SourceId, SourceMap};
use crate::diag::Diagnostic;
use crate::parser::inline::{attr_name, attr_ref_value, is_attribute_name};
use crate::text::{
    chars_of, find, find_char, find_char_in, find_lit_in, is_alphanumeric, is_blank,
    is_blank_slice, join, parse_int, parse_int_exec, push_char, push_chars, split_char, split_on,
    starts_with, starts_with_lit, string_of, sub_string, sub_vec, trim, trim_bounds, trim_end,
    trim_end_vec, trim_vec, unicode_alnum, views,
};

verus! {

#[derive(Debug, Clone)]
pub struct PreprocessedLine {
    pub text: String,
    pub location: Location,
}

#[derive(Debug)]
pub enum PreprocessError {
    Message(String),
    /// A file could not be read; the message is the I/O error's text.
    Io { path: String, message: String },
    /// A span-carrying error, rendered with its source location.
    Diagnostic(Box<Diagnostic>),
}

impl PreprocessError {
    /// A span-carrying error from a diagnostic.
    pub fn diagnostic(d: Diagnostic) -> (res: Self)
        ensures
            res matches PreprocessError::Diagnostic(b) && *b == d,
    {
        PreprocessError::Diagnostic(Box::new(d))
    }

    /// The diagnostic payload, if there is one.
    pub fn as_diagnostic(&self) -> (res: Option<&Diagnostic>)
        ensures
            self matches PreprocessError::Diagnostic(b) ==> res matches Some(d) && *d == *b,
            !(self is Diagnostic) ==> res is None,
    {
        match self {
            PreprocessError::Diagnostic(d) => Some(&**d),
            _ => None,
        }
    }
}

/// How much filesystem access `include::` gets: `Unsafe` (no checks),
/// `Safe` and `Server` (relative paths under the base directory only),
/// `Secure` (no includes at all).
#[derive(Debug, Clone, Copy, PartialEq, Eq, Structural)]
pub enum SafeMode {
    Unsafe,
    Safe,
    Server,
    Secure,
}

// ---------------------------------------------------------------------------
// directives
// ---------------------------------------------------------------------------

#[derive(Debug)]
pub enum AttrTest {
    AnyOf(Vec<String>),
    AllOf(Vec<String>),
}

#[derive(Debug)]
pub enum Directive {
    Include { target: String, args: String },
    Ifdef { test: AttrTest, content: Option<String> },
    Ifndef { test: AttrTest, content: Option<String> },
    Ifeval { expr: String },
    Endif,
}

/// `HEAD[BODY]`: the text before the first `[` and the text between it
/// and the closing `]` that ends the line.
pub open spec fn directive_body(s: Seq<char>) -> Option<(Seq<char>, Seq<char>)> {
    match find_char(s, '[') {
        None => None,
        Some(open) => if s.len() > 0 && s.last() == ']' && open < s.len() - 1 {
            Some((s.take(open), s.subrange(open + 1, s.len() - 1)))
        } else if s.len() > 0 && s.last() == ']' {
            Some((s.take(open), Seq::empty()))
        } else {
            None
        },
    }
}

fn split_directive_body(s: &[char]) -> (res: Option<(Vec<char>, Vec<char>)>)
    ensures
        res matches Some((h, b)) ==> directive_body(s@) == Some((h@, b@)),
        res is None <==> directive_body(s@) is None,
{
    let open = match find_char_in(s, '[', 0, s.len()) {
        Some(o) => o,
        None => {
            assert(s@.subrange(0, s.len() as int) =~= s@);
            return None;
        },
    };
    assert(s@.subrange(0, s.len() as int) =~= s@);
    if !(s.len() > 0 && s[s.len() - 1] == ']') {
        return None;
    }
    let head = sub_vec(s, 0, open);
    assert(head@ =~= s@.take(open as int));
    if open < s.len() - 1 {
        Some((head, sub_vec(s, open + 1, s.len() - 1)))
    } else {
        Some((head, Vec::new()))
    }
}

/// The non-empty trimmed pieces of `s` split at `c`.
pub open spec fn names_split(s: Seq<char>, c: char) -> Seq<Seq<char>> {
    split_char(s, c).map_values(|p: Seq<char>| trim(p)).filter(|p: Seq<char>| p.len() > 0)
}

fn trimmed_pieces(s: &[char], c: char) -> (res: Vec<String>)
    ensures
        res@.map_values(|p: String| p@) == names_split(s@, c),
{
    let pieces = split_on(s, c);
    let ghost mapped = views(pieces@).map_values(|p: Seq<char>| trim(p));
    let mut out: Vec<String> = Vec::new();
    let mut i: usize = 0;
    while i < pieces.len()
        invariant
            i <= pieces.len(),
            mapped == views(pieces@).map_values(|p: Seq<char>| trim(p)),
            out@.map_values(|p: String| p@) == mapped.take(i as int).filter(
                |p: Seq<char>| p.len() > 0,
            ),
        decreases pieces.len() - i,
    {
        let t = trim_vec(pieces[i].as_slice());
        proof {
            reveal(Seq::filter);
            assert(mapped.take(i + 1).drop_last() =~= mapped.take(i as int));
            assert(mapped.take(i + 1).last() == t@);
        }
        if t.len() > 0 {
            let ghost prev = out@.map_values(|p: String| p@);
            let st = string_of(t.as_slice());
            out.push(st);
            assert(out@.map_values(|p: String| p@) =~= prev.push(t@));
        }
        i += 1;
    }
    assert(mapped.take(pieces.len() as int) =~= mapped);
    out
}

pub enum AttrTestV {
    AnyOf(Seq<Seq<char>>),
    AllOf(Seq<Seq<char>>),
}

pub open spec fn attr_test_v(t: AttrTest) -> AttrTestV {
    match t {
        AttrTest::AnyOf(v) => AttrTestV::AnyOf(v@.map_values(|p: String| p@)),
        AttrTest::AllOf(v) => AttrTestV::AllOf(v@.map_values(|p: String| p@)),
    }
}

/// `a+b` (all of) or `a,b` (any of); `None` when no name is left.
pub open spec fn attr_test_spec(s: Seq<char>) -> Option<AttrTestV> {
    if s.contains('+') {
        let names = names_split(s, '+');
        if names.len() == 0 {
            None
        } else {
            Some(AttrTestV::AllOf(names))
        }
    } else {
        let names = names_split(s, ',');
        if names.len() == 0 {
            None
        } else {
            Some(AttrTestV::AnyOf(names))
        }
    }
}

/// Parses the target of an `ifdef`/`ifndef`: names joined by `,` (any
/// of them) or `+` (all of them).
pub fn parse_attr_test(text: &str) -> (res: Option<AttrTest>)
    ensures
        res matches Some(t) ==> attr_test_spec(text@) == Some(attr_test_v(t)),
        res is None <==> attr_test_spec(text@) is None,
{
    let cs = chars_of(text);
    attr_test_of(cs.as_slice())
}

fn attr_test_of(s: &[char]) -> (res: Option<AttrTest>)
    ensures
        res matches Some(t) ==> attr_test_spec(s@) == Some(attr_test_v(t)),
        res is None <==> attr_test_spec(s@) is None,
{
    let has_plus = match find_char_in(s, '+', 0, s.len()) {
        Some(k) => true,
        None => false,
    };
    proof {
        assert(s@.subrange(0, s.len() as int) =~= s@);
        crate::text::lemma_find_char_from(s@, '+', 0);
        if has_plus {
            let k = find_char(s@, '+')->Some_0;
            assert(s@[k] == '+');
        }
    }
    if has_plus {
        let names = trimmed_pieces(s, '+');
        if names.len() == 0 {
            return None;
        }
        Some(AttrTest::AllOf(names))
    } else {
        let names = trimmed_pieces(s, ',');
        if names.len() == 0 {
            return None;
        }
        Some(AttrTest::AnyOf(names))
    }
}

pub enum DirectiveV {
    Include { target: Seq<char>, args: Seq<char> },
    Ifdef { test: AttrTestV, content: Option<Seq<char>> },
    Ifndef { test: AttrTestV, content: Option<Seq<char>> },
    Ifeval { expr: Seq<char> },
    Endif,
}

pub open spec fn directive_v(d: Directive) -> DirectiveV {
    match d {
        Directive::Include { target, args } => DirectiveV::Include { target: target@, args: args@ },
        Directive::Ifdef { test, content } => DirectiveV::Ifdef {
            test: attr_test_v(test),
            content: crate::ast::opt_str_v(content),
        },
        Directive::Ifndef { test, content } => DirectiveV::Ifndef {
            test: attr_test_v(test),
            content: crate::ast::opt_str_v(content),
        },
        Directive::Ifeval { expr } => DirectiveV::Ifeval { expr: expr@ },
        Directive::Endif => DirectiveV::Endif,
    }
}

pub open spec fn nonempty_spec(s: Seq<char>) -> Option<Seq<char>> {
    if s.len() == 0 {
        None
    } else {
        Some(s)
    }
}

/// `include::T[A]`, `ifdef::N[C]`, `ifndef::N[C]`, `ifeval::[E]`,
/// `endif::[…]` (trailing whitespace ignored).
pub open spec fn directive_spec(text: Seq<char>) -> Option<DirectiveV> {
    let t = trim_end(text);
    if starts_with(t, "include::"@) {
        match directive_body(t.skip(9)) {
            Some((h, b)) => Some(DirectiveV::Include { target: h, args: b }),
            None => None,
        }
    } else if starts_with(t, "ifdef::"@) {
        match directive_body(t.skip(7)) {
            Some((h, b)) => match attr_test_spec(h) {
                Some(test) => Some(DirectiveV::Ifdef { test, content: nonempty_spec(b) }),
                None => None,
            },
            None => None,
        }
    } else if starts_with(t, "ifndef::"@) {
        match directive_body(t.skip(8)) {
            Some((h, b)) => match attr_test_spec(h) {
                Some(test) => Some(DirectiveV::Ifndef { test, content: nonempty_spec(b) }),
                None => None,
            },
            None => None,
        }
    } else if starts_with(t, "ifeval::"@) {
        match directive_body(t.skip(8)) {
            Some((h, b)) => if h.len() == 0 {
                Some(DirectiveV::Ifeval { expr: b })
            } else {
                None
            },
            None => None,
        }
    } else if starts_with(t, "endif::"@) {
        match directive_body(t.skip(7)) {
            Some(_) => Some(DirectiveV::Endif),
            None => None,
        }
    } else {
        None
    }
}

fn nonempty(s: Vec<char>) -> (res: Option<String>)
    ensures
        crate::ast::opt_str_v(res) == nonempty_spec(s@),
{
    if s.len() == 0 {
        None
    } else {
        Some(string_of(s.as_slice()))
    }
}

pub fn parse_directive(text: &str) -> (res: Option<Directive>)
    ensures
        res matches Some(d) ==> directive_spec(text@) == Some(directive_v(d)),
        res is None <==> directive_spec(text@) is None,
{
    let s = chars_of(text);
    let t = trim_end_vec(s.as_slice());
    assert(t@.skip(0) =~= t@);
    if starts_with_lit(t.as_slice(), 0, "include::") {
        proof {
            reveal_strlit("include::");
        }
        let rest = sub_vec(t.as_slice(), 9, t.len());
        assert(rest@ =~= t@.skip(9));
        let (h, b) = split_directive_body(rest.as_slice())?;
        return Some(Directive::Include { target: string_of(h.as_slice()), args: string_of(b.as_slice()) });
    }
    if starts_with_lit(t.as_slice(), 0, "ifdef::") {
        proof {
            reveal_strlit("ifdef::");
        }
        let rest = sub_vec(t.as_slice(), 7, t.len());
        assert(rest@ =~= t@.skip(7));
        let (h, b) = split_directive_body(rest.as_slice())?;
        let test = attr_test_of(h.as_slice())?;
        return Some(Directive::Ifdef { test, content: nonempty(b) });
    }
    if starts_with_lit(t.as_slice(), 0, "ifndef::") {
        proof {
            reveal_strlit("ifndef::");
        }
        let rest = sub_vec(t.as_slice(), 8, t.len());
        assert(rest@ =~= t@.skip(8));
        let (h, b) = split_directive_body(rest.as_slice())?;
        let test = attr_test_of(h.as_slice())?;
        return Some(Directive::Ifndef { test, content: nonempty(b) });
    }
    if starts_with_lit(t.as_slice(), 0, "ifeval::") {
        proof {
            reveal_strlit("ifeval::");
        }
        let rest = sub_vec(t.as_slice(), 8, t.len());
        assert(rest@ =~= t@.skip(8));
        let (h, b) = split_directive_body(rest.as_slice())?;
        if h.len() != 0 {
            return None;
        }
        return Some(Directive::Ifeval { expr: string_of(b.as_slice()) });
    }
    if starts_with_lit(t.as_slice(), 0, "endif::") {
        proof {
            reveal_strlit("endif::");
        }
        let rest = sub_vec(t.as_slice(), 7, t.len());
        assert(rest@ =~= t@.skip(7));
        let _ = split_directive_body(rest.as_slice())?;
        return Some(Directive::Endif);
    }
    None
}

// ---------------------------------------------------------------------------
// tag markers and line ranges
// ---------------------------------------------------------------------------

/// `…tag::NAME[]…` (or `end::`): the keyword must not follow a word
/// character; the name is the trimmed text before the first `[`, which
/// must open `[]`.
pub open spec fn tag_marker(line: Seq<char>, kw: Seq<char>) -> Option<Seq<char>> {
    match find(line, kw) {
        None => None,
        Some(start) => if start > 0 && (unicode_alnum(line[start - 1]) || line[start - 1] == '_') {
            None
        } else {
            let after = line.skip(start + kw.len());
            match find_char(after, '[') {
                None => None,
                Some(b) => if b + 1 < after.len() && after[b + 1] == ']' && trim(after.take(b)).len()
                    > 0 {
                    Some(trim(after.take(b)))
                } else {
                    None
                },
            }
        },
    }
}

pub fn parse_tag_marker(line: &str, kw: &str) -> (res: Option<String>)
    ensures
        res matches Some(n) ==> tag_marker(line@, kw@) == Some(n@),
        res is None <==> tag_marker(line@, kw@) is None,
{
    let l = chars_of(line);
    let k = chars_of(kw);
    let start = match crate::text::find_in(l.as_slice(), k.as_slice(), 0, l.len()) {
        Some(s) => s,
        None => {
            assert(l@.subrange(0, l.len() as int) =~= l@);
            return None;
        },
    };
    assert(l@.subrange(0, l.len() as int) =~= l@);
    if start > 0 {
        let prev = l[start - 1];
        if is_alphanumeric(prev) || prev == '_' {
            return None;
        }
    }
    let a = start + k.len();
    let b = match find_char_in(l.as_slice(), '[', a, l.len()) {
        Some(b) => b,
        None => {
            assert(l@.subrange(a as int, l.len() as int) =~= l@.skip(a as int));
            return None;
        },
    };
    assert(l@.subrange(a as int, l.len() as int) =~= l@.skip(a as int));
    let ghost after = l@.skip(a as int);
    if !(b + 1 < l.len() && l[b + 1] == ']') {
        proof {
            if b + 1 < l.len() {
                assert(after[b - a + 1] == l@[b + 1]);
            }
        }
        return None;
    }
    assert(after[b - a + 1] == l@[b + 1]);
    let (na, nb) = trim_bounds(l.as_slice(), a, b);
    assert(l@.subrange(a as int, b as int) =~= after.take(b - a));
    if na == nb {
        return None;
    }
    Some(sub_string(l.as_slice(), na, nb))
}

#[derive(Debug, Clone, Copy, PartialEq, Eq, Structural)]
pub struct LineRange {
    pub start: i64,
    pub end: i64,
}

pub open spec fn i64_of(s: Seq<char>) -> Option<int> {
    parse_int(s, true, i64::MIN as int, i64::MAX as int)
}

/// `A..B` or `N` (an `i64` each, negatives counting from the end).
pub open spec fn line_range(s: Seq<char>) -> Option<(int, int)> {
    if s.len() == 0 {
        None
    } else {
        match find(s, seq!['.', '.']) {
            Some(idx) => match (i64_of(trim(s.take(idx))), i64_of(trim(s.skip(idx + 2)))) {
                (Some(a), Some(b)) => Some((a, b)),
                _ => None,
            },
            None => match i64_of(s) {
                Some(n) => Some((n, n)),
                None => None,
            },
        }
    }
}

pub fn parse_one_line_range(s: &str) -> (res: Option<LineRange>)
    ensures
        res matches Some(r) ==> line_range(s@) == Some((r.start as int, r.end as int)),
        res is None <==> line_range(s@) is None,
{
    let c = chars_of(s);
    if c.len() == 0 {
        return None;
    }
    proof {
        reveal_strlit("..");
        assert(".."@ =~= seq!['.', '.']);
    }
    assert(c@.subrange(0, c.len() as int) =~= c@);
    match find_lit_in(c.as_slice(), "..", 0, c.len()) {
        Some(idx) => {
            let (la, lb) = trim_bounds(c.as_slice(), 0, idx);
            let (ha, hb) = trim_bounds(c.as_slice(), idx + 2, c.len());
            assert(c@.subrange(0, idx as int) =~= c@.take(idx as int));
            assert(c@.subrange(idx + 2, c.len() as int) =~= c@.skip(idx + 2));
            let lo = sub_vec(c.as_slice(), la, lb);
            let hi = sub_vec(c.as_slice(), ha, hb);
            let start = parse_int_exec(lo.as_slice(), true, i64::MIN, i64::MAX)?;
            let end = parse_int_exec(hi.as_slice(), true, i64::MIN, i64::MAX)?;
            Some(LineRange { start, end })
        },
        None => {
            let n = parse_int_exec(c.as_slice(), true, i64::MIN, i64::MAX)?;
            Some(LineRange { start: n, end: n })
        },
    }
}


/// `split([';', ','])`: the pieces of every `;`-piece split at `,`.
pub open spec fn split2(s: Seq<char>) -> Seq<Seq<char>> {
    split_char(s, ';').map_values(|p: Seq<char>| split_char(p, ',')).flatten()
}

/// The ranges the pieces name, in order; pieces that name none are
/// skipped.
pub open spec fn ranges_of(ps: Seq<Seq<char>>) -> Seq<(int, int)>
    decreases ps.len(),
{
    if ps.len() == 0 {
        Seq::empty()
    } else {
        let pre = ranges_of(ps.drop_last());
        match line_range(trim(ps.last())) {
            Some(r) => pre.push(r),
            None => pre,
        }
    }
}

/// Flattens the `,`-pieces of each `;`-piece.
fn split_semicolon_comma(s: &[char]) -> (res: Vec<Vec<char>>)
    ensures
        views(res@) == split2(s@),
{
    let outer = split_on(s, ';');
    let ghost ov = views(outer@);
    let ghost nested = ov.map_values(|p: Seq<char>| split_char(p, ','));
    let mut out: Vec<Vec<char>> = Vec::new();
    let mut i: usize = 0;
    while i < outer.len()
        invariant
            i <= outer.len(),
            ov == views(outer@),
            nested == ov.map_values(|p: Seq<char>| split_char(p, ',')),
            views(out@) == nested.take(i as int).flatten(),
        decreases outer.len() - i,
    {
        let inner = split_on(outer[i].as_slice(), ',');
        let ghost before = views(out@);
        let mut j: usize = 0;
        while j < inner.len()
            invariant
                j <= inner.len(),
                views(out@) == before + views(inner@).take(j as int),
            decreases inner.len() - j,
        {
            let piece = sub_vec(inner[j].as_slice(), 0, inner[j].len());
            assert(piece@ =~= inner@[j as int]@);
            let ghost prev = views(out@);
            out.push(piece);
            assert(views(out@) =~= prev.push(piece@));
            assert(views(inner@).take(j + 1) =~= views(inner@).take(j as int).push(piece@));
            j += 1;
        }
        proof {
            assert(views(inner@).take(inner.len() as int) =~= views(inner@));
            assert(nested.take(i + 1) =~= nested.take(i as int).push(nested[i as int]));
            nested.take(i as int).lemma_flatten_push(nested[i as int]);
        }
        i += 1;
    }
    assert(nested.take(outer.len() as int) =~= nested);
    out
}

pub open spec fn ranges_v(v: Seq<LineRange>) -> Seq<(int, int)> {
    v.map_values(|r: LineRange| (r.start as int, r.end as int))
}

/// `lines=` value: ranges separated by `;` or `,`.
pub fn parse_line_ranges(s: &[char]) -> (res: Vec<LineRange>)
    ensures
        ranges_v(res@) == ranges_of(split2(s@)),
{
    let pieces = split_semicolon_comma(s);
    let ghost pv = views(pieces@);
    let mut out: Vec<LineRange> = Vec::new();
    let mut i: usize = 0;
    while i < pieces.len()
        invariant
            i <= pieces.len(),
            pv == views(pieces@),
            ranges_v(out@) == ranges_of(pv.take(i as int)),
        decreases pieces.len() - i,
    {
        let t = trim_vec(pieces[i].as_slice());
        let ts = string_of(t.as_slice());
        proof {
            assert(pv.take(i + 1).drop_last() =~= pv.take(i as int));
            assert(pv.take(i + 1).last() == pieces@[i as int]@);
        }
        match parse_one_line_range(ts.as_str()) {
            Some(r) => {
                let ghost prev = ranges_v(out@);
                out.push(r);
                assert(ranges_v(out@) =~= prev.push((r.start as int, r.end as int)));
            },
            None => {},
        }
        i += 1;
    }
    assert(pv.take(pieces.len() as int) =~= pv);
    out
}

/// Is 1-based line `n` of `total` inside the range (negative bounds count
/// from the end; an end of -1 means the last line)?
pub open spec fn in_range(r: (int, int), total: int, n: int) -> bool {
    let resolve = |x: int| if x < 0 {
        total + x + 1
    } else {
        x
    };
    let start = if resolve(r.0) < 1 {
        1
    } else {
        resolve(r.0)
    };
    let end = if r.1 == -1 {
        total
    } else {
        resolve(r.1)
    };
    start <= n <= end
}

pub open spec fn kept_line(ranges: Seq<(int, int)>, total: int, n: int) -> bool {
    exists|k: int| 0 <= k < ranges.len() && in_range(#[trigger] ranges[k], total, n)
}

/// The lines `ls` (numbered from 1) that some range covers.
pub open spec fn kept_lines(ls: Seq<Seq<char>>, ranges: Seq<(int, int)>, total: int) -> Seq<Seq<char>>
    decreases ls.len(),
{
    if ls.len() == 0 {
        Seq::empty()
    } else {
        let pre = kept_lines(ls.drop_last(), ranges, total);
        if kept_line(ranges, total, ls.len() as int) {
            pre.push(ls.last())
        } else {
            pre
        }
    }
}

/// Source lines and whether the source ended in a newline (which is then
/// not counted as a line).
pub open spec fn numbered_lines(source: Seq<char>) -> (Seq<Seq<char>>, bool) {
    let ls = split_char(source, '\n');
    if ls.len() > 0 && ls.last().len() == 0 {
        (ls.drop_last(), true)
    } else {
        (ls, false)
    }
}

/// Joined with `\n`, plus a final `\n` when the source had one and the
/// result is not empty.
pub open spec fn rejoin(kept: Seq<Seq<char>>, trailing: bool) -> Seq<char> {
    let j = join(kept, seq!['\n']);
    if trailing && j.len() > 0 {
        j.push('\n')
    } else {
        j
    }
}

pub open spec fn lines_filter(source: Seq<char>, ranges: Seq<(int, int)>) -> Seq<char> {
    let (ls, trailing) = numbered_lines(source);
    rejoin(kept_lines(ls, ranges, ls.len() as int), trailing)
}

fn covered(ranges: &[LineRange], total: i128, n: i128) -> (res: bool)
    requires
        0 <= total <= usize::MAX,
    ensures
        res == kept_line(ranges_v(ranges@), total as int, n as int),
{
    let ghost rv = ranges_v(ranges@);
    let mut k: usize = 0;
    while k < ranges.len()
        invariant
            k <= ranges.len(),
            0 <= total <= usize::MAX,
            rv == ranges_v(ranges@),
            forall|j: int| 0 <= j < k ==> !in_range(#[trigger] rv[j], total as int, n as int),
        decreases ranges.len() - k,
    {
        let r = ranges[k];
        let rs: i128 = if r.start < 0 {
            total + r.start as i128 + 1
        } else {
            r.start as i128
        };
        let start: i128 = if rs < 1 {
            1
        } else {
            rs
        };
        let end: i128 = if r.end == -1 {
            total
        } else if r.end < 0 {
            total + r.end as i128 + 1
        } else {
            r.end as i128
        };
        assert(rv[k as int] == (r.start as int, r.end as int));
        if start <= n && n <= end {
            assert(in_range(rv[k as int], total as int, n as int));
            return true;
        }
        k += 1;
    }
    false
}

fn split_source_lines(source: &[char]) -> (res: (Vec<Vec<char>>, bool))
    ensures
        (views(res.0@), res.1) == numbered_lines(source@),
{
    let mut lines = split_on(source, '\n');
    let trailing = lines.len() > 0 && lines[lines.len() - 1].len() == 0;
    if trailing {
        let ghost before = views(lines@);
        lines.pop();
        assert(views(lines@) =~= before.drop_last());
    }
    (lines, trailing)
}

fn rejoin_exec(kept: &Vec<Vec<char>>, trailing: bool) -> (res: Vec<char>)
    ensures
        res@ == rejoin(views(kept@), trailing),
{
    let mut nl: Vec<char> = Vec::new();
    nl.push('\n');
    assert(nl@ =~= seq!['\n']);
    let mut j = crate::text::join_vecs(kept, nl.as_slice());
    if trailing && j.len() > 0 {
        j.push('\n');
    }
    j
}

/// Keeps the lines some range covers.
pub fn apply_lines_filter(source: &[char], ranges: &[LineRange]) -> (res: Vec<char>)
    ensures
        res@ == lines_filter(source@, ranges_v(ranges@)),
{
    let (lines, trailing) = split_source_lines(source);
    let ghost lv = views(lines@);
    let total = lines.len() as i128;
    let mut kept: Vec<Vec<char>> = Vec::new();
    let mut i: usize = 0;
    while i < lines.len()
        invariant
            i <= lines.len(),
            lv == views(lines@),
            total == lines.len(),
            views(kept@) == kept_lines(lv.take(i as int), ranges_v(ranges@), total as int),
        decreases lines.len() - i,
    {
        proof {
            assert(lv.take(i + 1).drop_last() =~= lv.take(i as int));
            assert(lv.take(i + 1).last() == lines@[i as int]@);
        }
        if covered(ranges, total, (i + 1) as i128) {
            let piece = sub_vec(lines[i].as_slice(), 0, lines[i].len());
            assert(piece@ =~= lines@[i as int]@);
            let ghost prev = views(kept@);
            kept.push(piece);
            assert(views(kept@) =~= prev.push(piece@));
        }
        i += 1;
    }
    assert(lv.take(lines.len() as int) =~= lv);
    rejoin_exec(&kept, trailing)
}


// ---------------------------------------------------------------------------
// tags
// ---------------------------------------------------------------------------

/// Which tagged regions an inclusion keeps.
#[derive(Debug)]
pub struct TagSelector {
    pub included: Vec<String>,
    pub exclude: Vec<String>,
    /// `*`: any line inside some tagged region.
    pub wildcard_tagged: bool,
    /// `**`: every line (exclusions still apply).
    pub wildcard_all: bool,
}

#[verifier::ext_equal]
pub struct SelectorV {
    pub included: Seq<Seq<char>>,
    pub exclude: Seq<Seq<char>>,
    pub wildcard_tagged: bool,
    pub wildcard_all: bool,
}

pub open spec fn selector_v(t: TagSelector) -> SelectorV {
    SelectorV {
        included: t.included@.map_values(|p: String| p@),
        exclude: t.exclude@.map_values(|p: String| p@),
        wildcard_tagged: t.wildcard_tagged,
        wildcard_all: t.wildcard_all,
    }
}

/// One `tags=` piece applied: `!name` excludes (`!*`, `!**` and `!` are
/// ignored), `**` and `*` set the wildcards, anything else includes.
pub open spec fn selector_step(sel: SelectorV, piece: Seq<char>) -> SelectorV {
    let p = trim(piece);
    if p.len() == 0 {
        sel
    } else if p[0] == '!' {
        let name = trim(p.drop_first());
        if name == seq!['*'] || name == seq!['*', '*'] || name.len() == 0 {
            sel
        } else {
            SelectorV { exclude: sel.exclude.push(name), ..sel }
        }
    } else if p == seq!['*', '*'] {
        SelectorV { wildcard_all: true, ..sel }
    } else if p == seq!['*'] {
        SelectorV { wildcard_tagged: true, ..sel }
    } else {
        SelectorV { included: sel.included.push(p), ..sel }
    }
}

pub open spec fn selector_from(ps: Seq<Seq<char>>) -> SelectorV
    decreases ps.len(),
{
    if ps.len() == 0 {
        SelectorV {
            included: Seq::empty(),
            exclude: Seq::empty(),
            wildcard_tagged: false,
            wildcard_all: false,
        }
    } else {
        selector_step(selector_from(ps.drop_last()), ps.last())
    }
}

fn is_stars(s: &[char], n: usize) -> (res: bool)
    requires
        n == 1 || n == 2,
    ensures
        res == (s@ == (if n == 1 {
            seq!['*']
        } else {
            seq!['*', '*']
        })),
{
    let r = s.len() == n && s[0] == '*' && (n == 1 || s[1] == '*');
    if r {
        if n == 1 {
            assert(s@ =~= seq!['*']);
        } else {
            assert(s@ =~= seq!['*', '*']);
        }
    }
    r
}

pub fn parse_tag_selector(s: &[char]) -> (res: TagSelector)
    ensures
        selector_v(res) == selector_from(split2(s@)),
{
    let pieces = split_semicolon_comma(s);
    let ghost pv = views(pieces@);
    let mut sel = TagSelector {
        included: Vec::new(),
        exclude: Vec::new(),
        wildcard_tagged: false,
        wildcard_all: false,
    };
    assert(pv.take(0) =~= Seq::<Seq<char>>::empty());
    assert(selector_v(sel) =~= selector_from(pv.take(0)));
    let mut i: usize = 0;
    while i < pieces.len()
        invariant
            i <= pieces.len(),
            pv == views(pieces@),
            selector_v(sel) == selector_from(pv.take(i as int)),
        decreases pieces.len() - i,
    {
        let p = trim_vec(pieces[i].as_slice());
        proof {
            assert(pv.take(i + 1).drop_last() =~= pv.take(i as int));
            assert(pv.take(i + 1).last() == pieces@[i as int]@);
        }
        if p.len() > 0 {
            if p[0] == '!' {
                let rest = sub_vec(p.as_slice(), 1, p.len());
                assert(rest@ =~= p@.drop_first());
                let name = trim_vec(rest.as_slice());
                if !(is_stars(name.as_slice(), 1) || is_stars(name.as_slice(), 2) || name.len() == 0) {
                    let ghost prev = sel.exclude@.map_values(|q: String| q@);
                    let ns = string_of(name.as_slice());
                    sel.exclude.push(ns);
                    assert(sel.exclude@.map_values(|q: String| q@) =~= prev.push(name@));
                }
            } else if is_stars(p.as_slice(), 2) {
                sel.wildcard_all = true;
            } else if is_stars(p.as_slice(), 1) {
                sel.wildcard_tagged = true;
            } else {
                let ghost prev = sel.included@.map_values(|q: String| q@);
                let ps = string_of(p.as_slice());
                sel.included.push(ps);
                assert(sel.included@.map_values(|q: String| q@) =~= prev.push(p@));
            }
        }
        i += 1;
    }
    assert(pv.take(pieces.len() as int) =~= pv);
    sel
}

/// `s` without its last occurrence of `x`.
pub open spec fn remove_last(s: Seq<Seq<char>>, x: Seq<char>) -> Seq<Seq<char>>
    decreases s.len(),
{
    if s.len() == 0 {
        s
    } else if s.last() == x {
        s.drop_last()
    } else {
        remove_last(s.drop_last(), x).push(s.last())
    }
}

pub open spec fn shares(a: Seq<Seq<char>>, b: Seq<Seq<char>>) -> bool {
    exists|i: int, j: int| 0 <= i < a.len() && 0 <= j < b.len() && #[trigger] a[i] == #[trigger] b[j]
}

/// Walks the lines keeping the stack of open tags: markers are dropped,
/// lines under an excluded tag are dropped, and a line is kept when an
/// open tag is included or a wildcard matches.
pub open spec fn tags_walk(ls: Seq<Seq<char>>, sel: SelectorV) -> (Seq<Seq<char>>, Seq<Seq<char>>)
    decreases ls.len(),
{
    if ls.len() == 0 {
        (Seq::empty(), Seq::empty())
    } else {
        let (active, out) = tags_walk(ls.drop_last(), sel);
        let line = ls.last();
        match tag_marker(line, "tag::"@) {
            Some(name) => (active.push(name), out),
            None => match tag_marker(line, "end::"@) {
                Some(name) => (remove_last(active, name), out),
                None => if shares(active, sel.exclude) {
                    (active, out)
                } else {
                    let wild = if sel.wildcard_all {
                        true
                    } else {
                        sel.wildcard_tagged && active.len() > 0
                    };
                    if shares(active, sel.included) || wild {
                        (active, out.push(line))
                    } else {
                        (active, out)
                    }
                },
            },
        }
    }
}

pub open spec fn tags_filter(source: Seq<char>, sel: SelectorV) -> Seq<char> {
    let (ls, trailing) = numbered_lines(source);
    rejoin(tags_walk(ls, sel).1, trailing)
}

fn remove_last_exec(v: &mut Vec<String>, x: &str)
    ensures
        final(v)@.map_values(|p: String| p@) == remove_last(old(v)@.map_values(|p: String| p@), x@),
{
    let ghost sv = v@.map_values(|p: String| p@);
    let mut k = v.len();
    while k > 0
        invariant
            k <= v@.len(),
            v@ == old(v)@,
            sv == v@.map_values(|p: String| p@),
            forall|j: int| k <= j < v@.len() ==> v@[j]@ != x@,
        decreases k,
    {
        if crate::strmap::str_eq(v[k - 1].as_str(), x) {
            proof {
                lemma_remove_last_at(sv, x@, k - 1);
            }
            v.remove(k - 1);
            assert(v@.map_values(|p: String| p@) =~= sv.remove(k - 1));
            return;
        }
        k -= 1;
    }
    proof {
        lemma_remove_last_none(sv, x@);
    }
}

proof fn lemma_remove_last_none(s: Seq<Seq<char>>, x: Seq<char>)
    requires
        forall|j: int| 0 <= j < s.len() ==> s[j] != x,
    ensures
        remove_last(s, x) == s,
    decreases s.len(),
{
    if s.len() > 0 {
        lemma_remove_last_none(s.drop_last(), x);
        assert(s.drop_last().push(s.last()) =~= s);
    }
}

proof fn lemma_remove_last_at(s: Seq<Seq<char>>, x: Seq<char>, k: int)
    requires
        0 <= k < s.len(),
        s[k] == x,
        forall|j: int| k < j < s.len() ==> s[j] != x,
    ensures
        remove_last(s, x) == s.remove(k),
    decreases s.len(),
{
    if k == s.len() - 1 {
        assert(s.drop_last() =~= s.remove(k));
    } else {
        lemma_remove_last_at(s.drop_last(), x, k);
        assert(s.drop_last().remove(k).push(s.last()) =~= s.remove(k));
    }
}

fn shares_exec(a: &Vec<String>, b: &Vec<String>) -> (res: bool)
    ensures
        res == shares(a@.map_values(|p: String| p@), b@.map_values(|p: String| p@)),
{
    let ghost av = a@.map_values(|p: String| p@);
    let ghost bv = b@.map_values(|p: String| p@);
    let mut i: usize = 0;
    while i < a.len()
        invariant
            i <= a.len(),
            av == a@.map_values(|p: String| p@),
            bv == b@.map_values(|p: String| p@),
            forall|x: int, y: int| 0 <= x < i && 0 <= y < bv.len() ==> av[x] != bv[y],
        decreases a.len() - i,
    {
        let mut j: usize = 0;
        while j < b.len()
            invariant
                i < a.len(),
                j <= b.len(),
                av == a@.map_values(|p: String| p@),
                bv == b@.map_values(|p: String| p@),
                forall|x: int, y: int| 0 <= x < i && 0 <= y < bv.len() ==> av[x] != bv[y],
                forall|y: int| 0 <= y < j ==> av[i as int] != bv[y],
            decreases b.len() - j,
        {
            if crate::strmap::str_eq(a[i].as_str(), b[j].as_str()) {
                assert(av[i as int] == bv[j as int]);
                return true;
            }
            j += 1;
        }
        i += 1;
    }
    false
}

/// Keeps the lines of the selected tagged regions.
pub fn apply_tags_filter(source: &[char], selector: &TagSelector) -> (res: Vec<char>)
    ensures
        res@ == tags_filter(source@, selector_v(*selector)),
{
    let (lines, trailing) = split_source_lines(source);
    let ghost lv = views(lines@);
    let ghost sel = selector_v(*selector);
    let mut active: Vec<String> = Vec::new();
    let mut out: Vec<Vec<char>> = Vec::new();
    let mut i: usize = 0;
    while i < lines.len()
        invariant
            i <= lines.len(),
            lv == views(lines@),
            sel == selector_v(*selector),
            (active@.map_values(|p: String| p@), views(out@)) == tags_walk(lv.take(i as int), sel),
        decreases lines.len() - i,
    {
        proof {
            assert(lv.take(i + 1).drop_last() =~= lv.take(i as int));
            assert(lv.take(i + 1).last() == lines@[i as int]@);
        }
        let line = string_of(lines[i].as_slice());
        if let Some(name) = parse_tag_marker(line.as_str(), "tag::") {
            let ghost prev = active@.map_values(|p: String| p@);
            active.push(name);
            assert(active@.map_values(|p: String| p@) =~= prev.push(name@));
        } else if let Some(name) = parse_tag_marker(line.as_str(), "end::") {
            remove_last_exec(&mut active, name.as_str());
        } else if !shares_exec(&active, &selector.exclude) {
            let wild = if selector.wildcard_all {
                true
            } else {
                selector.wildcard_tagged && active.len() > 0
            };
            if shares_exec(&active, &selector.included) || wild {
                let piece = sub_vec(lines[i].as_slice(), 0, lines[i].len());
                assert(piece@ =~= lines@[i as int]@);
                let ghost prev = views(out@);
                out.push(piece);
                assert(views(out@) =~= prev.push(piece@));
            }
        }
        i += 1;
    }
    assert(lv.take(lines.len() as int) =~= lv);
    rejoin_exec(&out, trailing)
}

// ---------------------------------------------------------------------------
// leveloffset and indent
// ---------------------------------------------------------------------------

/// Section headers (`=`×1..6 then a space) get `delta` more `=`, clamped
/// to 1..6; other lines are kept.
pub open spec fn shift_line(line: Seq<char>, delta: int) -> Seq<char> {
    let n = crate::parser::block::lead_run(line, '=') as int;
    if 1 <= n <= 6 && n < line.len() && line[n] == ' ' {
        let m = if n + delta < 1 {
            1
        } else if n + delta > 6 {
            6
        } else {
            n + delta
        };
        Seq::new(m as nat, |i: int| '=') + line.skip(n)
    } else {
        line
    }
}

pub open spec fn leveloffset_spec(source: Seq<char>, delta: int) -> Seq<char> {
    join(split_char(source, '\n').map_values(|l: Seq<char>| shift_line(l, delta)), seq!['\n'])
}

fn shift_line_exec(line: &[char], delta: i32) -> (res: Vec<char>)
    ensures
        res@ == shift_line(line@, delta as int),
{
    let n = crate::parser::block::count_run_pub(line, '=');
    if 1 <= n && n <= 6 && n < line.len() && line[n] == ' ' {
        let sum = n as i64 + delta as i64;
        let m: usize = if sum < 1 {
            1
        } else if sum > 6 {
            6
        } else {
            sum as usize
        };
        let mut out: Vec<char> = Vec::new();
        let mut k: usize = 0;
        while k < m
            invariant
                k <= m,
                out@ =~= Seq::new(k as nat, |i: int| '='),
            decreases m - k,
        {
            out.push('=');
            k += 1;
        }
        let mut j = n;
        let ghost base = out@;
        while j < line.len()
            invariant
                n <= j <= line.len(),
                out@ =~= base + line@.subrange(n as int, j as int),
            decreases line.len() - j,
        {
            out.push(line[j]);
            j += 1;
        }
        assert(line@.subrange(n as int, line.len() as int) =~= line@.skip(n as int));
        out
    } else {
        sub_vec(line, 0, line.len())
    }
}

pub fn apply_leveloffset(source: &[char], delta: i32) -> (res: Vec<char>)
    ensures
        res@ == leveloffset_spec(source@, delta as int),
{
    let lines = split_on(source, '\n');
    let ghost lv = views(lines@);
    let mut shifted: Vec<Vec<char>> = Vec::new();
    let mut i: usize = 0;
    while i < lines.len()
        invariant
            i <= lines.len(),
            lv == views(lines@),
            views(shifted@) =~= lv.take(i as int).map_values(|l: Seq<char>| shift_line(l, delta as int)),
        decreases lines.len() - i,
    {
        let s = shift_line_exec(lines[i].as_slice(), delta);
        let ghost prev = views(shifted@);
        shifted.push(s);
        assert(views(shifted@) =~= prev.push(s@));
        i += 1;
    }
    assert(lv.take(lines.len() as int) =~= lv);
    let mut nl: Vec<char> = Vec::new();
    nl.push('\n');
    assert(nl@ =~= seq!['\n']);
    crate::text::join_vecs(&shifted, nl.as_slice())
}


/// Smallest count of leading spaces over the non-blank lines (0 when
/// every line is blank).
pub open spec fn common_indent(ls: Seq<Seq<char>>) -> nat
    decreases ls.len(),
{
    if ls.len() == 0 {
        0
    } else {
        let pre = common_indent(ls.drop_last());
        let l = ls.last();
        let n = crate::parser::block::lead_run(l, ' ');
        if is_blank(l) {
            pre
        } else if all_blank(ls.drop_last()) || n < pre {
            n
        } else {
            pre
        }
    }
}

pub open spec fn all_blank(ls: Seq<Seq<char>>) -> bool {
    forall|i: int| 0 <= i < ls.len() ==> is_blank(#[trigger] ls[i])
}

/// Blank lines become empty; the others lose the common indentation and
/// get `target` spaces.
pub open spec fn reindent_line(l: Seq<char>, common: nat, target: nat) -> Seq<char> {
    if is_blank(l) {
        Seq::empty()
    } else {
        Seq::new(target, |i: int| ' ') + l.skip(common as int)
    }
}

pub open spec fn indent_spec(text: Seq<char>, target: nat) -> Seq<char> {
    let ls = split_char(text, '\n');
    let c = common_indent(ls);
    join(ls.map_values(|l: Seq<char>| reindent_line(l, c, target)), seq!['\n'])
}

proof fn lemma_common_indent_le(ls: Seq<Seq<char>>, i: int)
    requires
        0 <= i < ls.len(),
        !is_blank(ls[i]),
    ensures
        common_indent(ls) <= crate::parser::block::lead_run(ls[i], ' '),
    decreases ls.len(),
{
    if i < ls.len() - 1 {
        lemma_common_indent_le(ls.drop_last(), i);
        assert(ls.drop_last()[i] == ls[i]);
        assert(!all_blank(ls.drop_last()));
    }
}

proof fn lemma_lead_run_le(t: Seq<char>, c: char)
    ensures
        crate::parser::block::lead_run(t, c) <= t.len(),
    decreases t.len(),
{
    if t.len() > 0 && t[0] == c {
        lemma_lead_run_le(t.drop_first(), c);
    }
}

/// Re-indent included text (`indent=N`).
pub fn apply_indent(text: &[char], target: u32) -> (res: Vec<char>)
    ensures
        res@ == indent_spec(text@, target as nat),
{
    let lines = split_on(text, '\n');
    let ghost lv = views(lines@);
    let mut common: usize = 0;
    let mut seen = false;
    let mut i: usize = 0;
    while i < lines.len()
        invariant
            i <= lines.len(),
            lv == views(lines@),
            common == common_indent(lv.take(i as int)),
            seen == !all_blank(lv.take(i as int)),
        decreases lines.len() - i,
    {
        let l = lines[i].as_slice();
        proof {
            assert(lv.take(i + 1).drop_last() =~= lv.take(i as int));
            assert(lv.take(i + 1).last() == lines@[i as int]@);
        }
        if !is_blank_slice(l) {
            let n = crate::parser::block::count_run_pub(l, ' ');
            if !seen || n < common {
                common = n;
            }
            seen = true;
            proof {
                assert(!all_blank(lv.take(i + 1)));
            }
        } else {
            proof {
                if !seen {
                    assert forall|k: int| 0 <= k < i + 1 implies is_blank(#[trigger] lv.take(i + 1)[k]) by {
                        if k < i {
                            assert(lv.take(i + 1)[k] == lv.take(i as int)[k]);
                        }
                    }
                } else {
                    let w = choose|k: int| 0 <= k < i && !is_blank(#[trigger] lv.take(i as int)[k]);
                    assert(lv.take(i + 1)[w] == lv.take(i as int)[w]);
                }
            }
        }
        i += 1;
    }
    assert(lv.take(lines.len() as int) =~= lv);
    let mut parts: Vec<Vec<char>> = Vec::new();
    let mut k: usize = 0;
    while k < lines.len()
        invariant
            k <= lines.len(),
            lv == views(lines@),
            common == common_indent(lv),
            views(parts@) =~= lv.take(k as int).map_values(
                |l: Seq<char>| reindent_line(l, common as nat, target as nat),
            ),
        decreases lines.len() - k,
    {
        let l = lines[k].as_slice();
        let mut piece: Vec<char> = Vec::new();
        if !is_blank_slice(l) {
            let mut t: u32 = 0;
            while t < target
                invariant
                    t <= target,
                    piece@ =~= Seq::new(t as nat, |x: int| ' '),
                decreases target - t,
            {
                piece.push(' ');
                t += 1;
            }
            proof {
                assert(lv[k as int] == l@);
                lemma_common_indent_le(lv, k as int);
                lemma_lead_run_le(l@, ' ');
            }
            let ghost base = piece@;
            let mut j = common;
            while j < l.len()
                invariant
                    common <= j <= l.len(),
                    piece@ =~= base + l@.subrange(common as int, j as int),
                decreases l.len() - j,
            {
                piece.push(l[j]);
                j += 1;
            }
            assert(l@.subrange(common as int, l.len() as int) =~= l@.skip(common as int));
        }
        let ghost prev = views(parts@);
        parts.push(piece);
        assert(views(parts@) =~= prev.push(piece@));
        k += 1;
    }
    assert(lv.take(lines.len() as int) =~= lv);
    let mut nl: Vec<char> = Vec::new();
    nl.push('\n');
    assert(nl@ =~= seq!['\n']);
    crate::text::join_vecs(&parts, nl.as_slice())
}

// ---------------------------------------------------------------------------
// include arguments
// ---------------------------------------------------------------------------

/// Parsed `include::` attributes.
#[derive(Debug)]
pub struct IncludeArgs {
    /// 1-based line ranges, unioned; `-1` counts from the end.
    pub lines: Option<Vec<LineRange>>,
    pub tags: Option<TagSelector>,
    /// Added to every section level (clamped to 1..6).
    pub leveloffset: Option<i32>,
    /// `0` strips leading whitespace; `N` re-indents to `N` spaces.
    pub indent: Option<u32>,
    /// Accepted and kept; content is always read as UTF-8.
    pub encoding: Option<String>,
}

/// `name=value` split at the first `=`, when the name is valid.
pub open spec fn attr_pair(part: Seq<char>) -> Option<(Seq<char>, Seq<char>)> {
    match find_char(part, '=') {
        Some(eq) => if attr_name(trim(part.take(eq))) {
            Some((trim(part.take(eq)), trim(part.skip(eq + 1))))
        } else {
            None
        },
        None => None,
    }
}

fn split_attr_pair(part: &[char]) -> (res: Option<(Vec<char>, Vec<char>)>)
    ensures
        res matches Some((n, v)) ==> attr_pair(part@) == Some((n@, v@)),
        res is None <==> attr_pair(part@) is None,
{
    let eq = match find_char_in(part, '=', 0, part.len()) {
        Some(e) => e,
        None => {
            assert(part@.subrange(0, part.len() as int) =~= part@);
            return None;
        },
    };
    assert(part@.subrange(0, part.len() as int) =~= part@);
    let (na, nb) = trim_bounds(part, 0, eq);
    assert(part@.subrange(0, eq as int) =~= part@.take(eq as int));
    let name = sub_vec(part, na, nb);
    if !is_attribute_name(name.as_slice()) {
        return None;
    }
    let (va, vb) = trim_bounds(part, eq + 1, part.len());
    assert(part@.subrange(eq + 1, part.len() as int) =~= part@.skip(eq + 1));
    Some((name, sub_vec(part, va, vb)))
}

#[verifier::ext_equal]
pub struct IncludeArgsV {
    pub lines: Option<Seq<(int, int)>>,
    pub tags: Option<SelectorV>,
    pub leveloffset: Option<int>,
    pub indent: Option<int>,
    pub encoding: Option<Seq<char>>,
}

pub open spec fn include_args_v(a: IncludeArgs) -> IncludeArgsV {
    IncludeArgsV {
        lines: match a.lines {
            Some(r) => Some(ranges_v(r@)),
            None => None,
        },
        tags: match a.tags {
            Some(t) => Some(selector_v(t)),
            None => None,
        },
        leveloffset: match a.leveloffset {
            Some(d) => Some(d as int),
            None => None,
        },
        indent: match a.indent {
            Some(d) => Some(d as int),
            None => None,
        },
        encoding: crate::ast::opt_str_v(a.encoding),
    }
}

/// One attribute of an `include::` applied: `lines`, `tag`/`tags`,
/// `leveloffset`, `indent`, `encoding`; others are ignored.
pub open spec fn args_step(a: IncludeArgsV, part: Seq<char>) -> IncludeArgsV {
    let p = trim(part);
    if p.len() == 0 {
        a
    } else {
        match attr_pair(p) {
            None => a,
            Some((n, value)) => {
                let v = crate::parser::meta::unquote(value);
                if n == "lines"@ {
                    IncludeArgsV { lines: Some(ranges_of(split2(v))), ..a }
                } else if n == "tag"@ || n == "tags"@ {
                    IncludeArgsV { tags: Some(selector_from(split2(v))), ..a }
                } else if n == "leveloffset"@ {
                    IncludeArgsV { leveloffset: parse_int(trim(v), true, -2147483648, 2147483647), ..a }
                } else if n == "indent"@ {
                    IncludeArgsV { indent: parse_int(trim(v), false, 0, 4294967295), ..a }
                } else if n == "encoding"@ {
                    IncludeArgsV { encoding: Some(trim(v)), ..a }
                } else {
                    a
                }
            },
        }
    }
}

pub open spec fn args_from(ps: Seq<Seq<char>>) -> IncludeArgsV
    decreases ps.len(),
{
    if ps.len() == 0 {
        IncludeArgsV { lines: None, tags: None, leveloffset: None, indent: None, encoding: None }
    } else {
        args_step(args_from(ps.drop_last()), ps.last())
    }
}

/// Parses the attributes of an `include::` directive; unknown names and
/// malformed pieces are ignored, later pieces override earlier ones.
pub fn parse_include_args(s: &[char]) -> (res: IncludeArgs)
    ensures
        include_args_v(res) =~= args_from(crate::parser::meta::split_top_level(s@)),
{
    let parts = crate::parser::meta::split_top_level_pub(s);
    let ghost pv = views(parts@);
    let mut args = IncludeArgs { lines: None, tags: None, leveloffset: None, indent: None, encoding: None };
    assert(pv.take(0) =~= Seq::<Seq<char>>::empty());
    let mut i: usize = 0;
    while i < parts.len()
        invariant
            i <= parts.len(),
            pv == views(parts@),
            pv == crate::parser::meta::split_top_level(s@),
            include_args_v(args) =~= args_from(pv.take(i as int)),
        decreases parts.len() - i,
    {
        proof {
            assert(pv.take(i + 1).drop_last() =~= pv.take(i as int));
            assert(pv.take(i + 1).last() == parts@[i as int]@);
        }
        let part = trim_vec(parts[i].as_slice());
        if part.len() > 0 {
            if let Some((name, value)) = split_attr_pair(part.as_slice()) {
                let v = crate::parser::meta::unquote_pub(value.as_slice());
                proof {
                    reveal_strlit("lines");
                    reveal_strlit("tag");
                    reveal_strlit("tags");
                    reveal_strlit("leveloffset");
                    reveal_strlit("indent");
                    reveal_strlit("encoding");
                }
                if crate::text::eq_lit(name.as_slice(), "lines") {
                    args.lines = Some(parse_line_ranges(v.as_slice()));
                } else if crate::text::eq_lit(name.as_slice(), "tag") || crate::text::eq_lit(
                    name.as_slice(),
                    "tags",
                ) {
                    args.tags = Some(parse_tag_selector(v.as_slice()));
                } else if crate::text::eq_lit(name.as_slice(), "leveloffset") {
                    let t = trim_vec(v.as_slice());
                    args.leveloffset = match parse_int_exec(t.as_slice(), true, -2147483648, 2147483647) {
                        Some(x) => Some(x as i32),
                        None => None,
                    };
                } else if crate::text::eq_lit(name.as_slice(), "indent") {
                    let t = trim_vec(v.as_slice());
                    args.indent = match parse_int_exec(t.as_slice(), false, 0, 4294967295) {
                        Some(x) => Some(x as u32),
                        None => None,
                    };
                } else if crate::text::eq_lit(name.as_slice(), "encoding") {
                    let t = trim_vec(v.as_slice());
                    args.encoding = Some(string_of(t.as_slice()));
                }
            }
        }
        i += 1;
    }
    assert(pv.take(parts.len() as int) =~= pv);
    args
}

pub open spec fn tags_or_lines(source: Seq<char>, tags: Option<SelectorV>, lines: Option<Seq<(int, int)>>) -> Seq<char> {
    match tags {
        Some(t) => tags_filter(source, t),
        None => match lines {
            Some(r) => lines_filter(source, r),
            None => source,
        },
    }
}

/// Tags take precedence over lines; then the level offset (when
/// non-zero) and the indentation apply.
/// What an inclusion keeps of `source`: the tagged regions (or the line
/// ranges), section levels shifted, then re-indented, as the arguments
/// ask.
pub open spec fn filtered_include(source: Seq<char>, args: IncludeArgs) -> Seq<char> {
    let a = tags_or_lines(
        source,
        match args.tags {
            Some(t) => Some(selector_v(t)),
            None => None,
        },
        match args.lines {
            Some(r) => Some(ranges_v(r@)),
            None => None,
        },
    );
    let b = match args.leveloffset {
        Some(d) => if d != 0 {
            leveloffset_spec(a, d as int)
        } else {
            a
        },
        None => a,
    };
    match args.indent {
        Some(t) => indent_spec(b, t as nat),
        None => b,
    }
}

pub fn apply_include_args(source: &[char], args: &IncludeArgs) -> (res: Vec<char>)
    ensures
        res@ == filtered_include(source@, *args),
{
    let mut current = match &args.tags {
        Some(tags) => apply_tags_filter(source, tags),
        None => match &args.lines {
            Some(ranges) => apply_lines_filter(source, ranges.as_slice()),
            None => sub_vec(source, 0, source.len()),
        },
    };
    assert(source@.subrange(0, source.len() as int) =~= source@);
    if let Some(delta) = args.leveloffset {
        if delta != 0 {
            current = apply_leveloffset(current.as_slice(), delta);
        }
    }
    if let Some(target) = args.indent {
        current = apply_indent(current.as_slice(), target);
    }
    current
}


// ---------------------------------------------------------------------------
// conditions
// ---------------------------------------------------------------------------

/// An attribute counts as set unless it is absent or explicitly unset.
pub open spec fn is_set_spec(attrs: Map<Seq<char>, AttrV>, name: Seq<char>) -> bool {
    attrs.contains_key(name) && attrs[name] != AttrV::Bool(false)
}

pub open spec fn attr_test_holds(t: AttrTestV, attrs: Map<Seq<char>, AttrV>) -> bool {
    match t {
        AttrTestV::AnyOf(ns) => exists|i: int| 0 <= i < ns.len() && is_set_spec(attrs, #[trigger] ns[i]),
        AttrTestV::AllOf(ns) => forall|i: int| 0 <= i < ns.len() ==> is_set_spec(attrs, #[trigger] ns[i]),
    }
}

fn is_set(attrs: &Attributes, name: &str) -> (res: bool)
    ensures
        res == is_set_spec(attrs@, name@),
{
    match attrs.get(name) {
        None => false,
        Some(AttributeValue::Bool(false)) => false,
        Some(_) => true,
    }
}

pub fn eval_attr_test(test: &AttrTest, attrs: &Attributes) -> (res: bool)
    ensures
        res == attr_test_holds(attr_test_v(*test), attrs@),
{
    match test {
        AttrTest::AnyOf(names) => {
            let ghost ns = attr_test_v(*test)->AnyOf_0;
            assert(ns.len() == names@.len());
            let mut i: usize = 0;
            while i < names.len()
                invariant
                    i <= names.len(),
                    ns == attr_test_v(*test)->AnyOf_0,
                    attr_test_v(*test) is AnyOf,
                    ns.len() == names@.len(),
                    forall|k: int| 0 <= k < ns.len() ==> #[trigger] ns[k] == names@[k]@,
                    forall|k: int| 0 <= k < i ==> !is_set_spec(attrs@, #[trigger] ns[k]),
                decreases names.len() - i,
            {
                if is_set(attrs, names[i].as_str()) {
                    assert(is_set_spec(attrs@, ns[i as int]));
                    return true;
                }
                i += 1;
            }
            false
        },
        AttrTest::AllOf(names) => {
            let ghost ns = attr_test_v(*test)->AllOf_0;
            assert(ns.len() == names@.len());
            let mut i: usize = 0;
            while i < names.len()
                invariant
                    i <= names.len(),
                    ns == attr_test_v(*test)->AllOf_0,
                    attr_test_v(*test) is AllOf,
                    ns.len() == names@.len(),
                    forall|k: int| 0 <= k < ns.len() ==> #[trigger] ns[k] == names@[k]@,
                    forall|k: int| 0 <= k < i ==> is_set_spec(attrs@, #[trigger] ns[k]),
                decreases names.len() - i,
            {
                if !is_set(attrs, names[i].as_str()) {
                    assert(!is_set_spec(attrs@, ns[i as int]));
                    return false;
                }
                i += 1;
            }
            true
        },
    }
}

/// The comparison of an `ifeval` expression.
#[derive(Debug, Clone, Copy, PartialEq, Eq, Structural)]
pub enum CmpOp {
    Eq,
    Ne,
    Lt,
    Le,
    Gt,
    Ge,
}

/// The first operator outside double quotes: `==`, `!=`, `<=`, `>=`, or a
/// lone `<` / `>`; with the trimmed text on each side.
pub open spec fn top_op_from(s: Seq<char>, i: int, q: bool) -> Option<(Seq<char>, CmpOp, Seq<char>)>
    decreases s.len() - i,
{
    if i < 0 || i >= s.len() {
        None
    } else if s[i] == '"' {
        top_op_from(s, i + 1, !q)
    } else if q {
        top_op_from(s, i + 1, q)
    } else {
        let two = if i + 1 < s.len() {
            if s[i] == '=' && s[i + 1] == '=' {
                Some(CmpOp::Eq)
            } else if s[i] == '!' && s[i + 1] == '=' {
                Some(CmpOp::Ne)
            } else if s[i] == '<' && s[i + 1] == '=' {
                Some(CmpOp::Le)
            } else if s[i] == '>' && s[i + 1] == '=' {
                Some(CmpOp::Ge)
            } else {
                None
            }
        } else {
            None
        };
        match two {
            Some(op) => Some((trim(s.take(i)), op, trim(s.skip(i + 2)))),
            None => if s[i] == '<' {
                Some((trim(s.take(i)), CmpOp::Lt, trim(s.skip(i + 1))))
            } else if s[i] == '>' {
                Some((trim(s.take(i)), CmpOp::Gt, trim(s.skip(i + 1))))
            } else {
                top_op_from(s, i + 1, q)
            },
        }
    }
}

fn find_top_level_op(s: &[char]) -> (res: Option<(Vec<char>, CmpOp, Vec<char>)>)
    ensures
        res matches Some((l, op, r)) ==> top_op_from(s@, 0, false) == Some((l@, op, r@)),
        res is None <==> top_op_from(s@, 0, false) is None,
{
    let mut in_quote = false;
    let mut i: usize = 0;
    while i < s.len()
        invariant
            i <= s.len(),
            top_op_from(s@, 0, false) == top_op_from(s@, i as int, in_quote),
        decreases s.len() - i,
    {
        let b = s[i];
        if b == '"' {
            in_quote = !in_quote;
            i += 1;
            continue;
        }
        if in_quote {
            i += 1;
            continue;
        }
        let two: Option<CmpOp> = if i + 1 < s.len() {
            let c = s[i + 1];
            if b == '=' && c == '=' {
                Some(CmpOp::Eq)
            } else if b == '!' && c == '=' {
                Some(CmpOp::Ne)
            } else if b == '<' && c == '=' {
                Some(CmpOp::Le)
            } else if b == '>' && c == '=' {
                Some(CmpOp::Ge)
            } else {
                None
            }
        } else {
            None
        };
        if let Some(op) = two {
            let (la, lb) = trim_bounds(s, 0, i);
            let (ra, rb) = trim_bounds(s, i + 2, s.len());
            assert(s@.subrange(0, i as int) =~= s@.take(i as int));
            assert(s@.subrange(i + 2, s.len() as int) =~= s@.skip(i + 2));
            return Some((sub_vec(s, la, lb), op, sub_vec(s, ra, rb)));
        }
        if b == '<' || b == '>' {
            let (la, lb) = trim_bounds(s, 0, i);
            let (ra, rb) = trim_bounds(s, i + 1, s.len());
            assert(s@.subrange(0, i as int) =~= s@.take(i as int));
            assert(s@.subrange(i + 1, s.len() as int) =~= s@.skip(i + 1));
            let op = if b == '<' {
                CmpOp::Lt
            } else {
                CmpOp::Gt
            };
            return Some((sub_vec(s, la, lb), op, sub_vec(s, ra, rb)));
        }
        i += 1;
    }
    None
}

/// `{name}` references resolved: string values substituted, set booleans
/// dropped, anything else (unset, unknown, invalid name) kept literally;
/// an unclosed `{` keeps the rest of the text.
pub open spec fn subst_refs_from(s: Seq<char>, attrs: Map<Seq<char>, AttrV>, i: int) -> Seq<char>
    decreases s.len() - i,
{
    if i < 0 || i >= s.len() {
        Seq::empty()
    } else if s[i] != '{' {
        seq![s[i]] + subst_refs_from(s, attrs, i + 1)
    } else {
        match find_char(s.skip(i + 1), '}') {
            None => s.skip(i),
            Some(c) => if c < 0 || i + 1 + c >= s.len() {
                Seq::empty()
            } else {
                let name = s.subrange(i + 1, i + 1 + c);
                crate::parser::inline::attr_ref_value(attrs, name) + subst_refs_from(
                    s,
                    attrs,
                    i + 2 + c,
                )
            },
        }
    }
}

/// `{name}` references in `s` from `i` on resolved as the parser does,
/// except that an invalid name is always kept literally; an unclosed `{`
/// keeps the rest as it is.
pub open spec fn refs_from(s: Seq<char>, i: int, attrs: Map<Seq<char>, AttrV>) -> Seq<char>
    decreases s.len() - i,
{
    if i < 0 || i >= s.len() {
        Seq::empty()
    } else if s[i] != '{' {
        seq![s[i]] + refs_from(s, i + 1, attrs)
    } else {
        match find_char(s.skip(i + 1), '}') {
            None => s.skip(i),
            Some(c) => {
                let name = s.subrange(i + 1, i + 1 + c);
                let v = if attr_name(name) {
                    attr_ref_value(attrs, name)
                } else {
                    seq!['{'] + name + seq!['}']
                };
                if 0 <= c && i + 1 + c < s.len() {
                    v + refs_from(s, i + 2 + c, attrs)
                } else {
                    Seq::empty()
                }
            },
        }
    }
}

fn push_all_chars(out: &mut Vec<char>, v: &[char])
    ensures
        final(out)@ == old(out)@ + v@,
{
    let mut k: usize = 0;
    while k < v.len()
        invariant
            k <= v.len(),
            out@ == old(out)@ + v@.take(k as int),
        decreases v.len() - k,
    {
        out.push(v[k]);
        assert(v@.take(k + 1) =~= v@.take(k as int).push(v@[k as int]));
        k += 1;
    }
    assert(v@.take(v.len() as int) =~= v@);
}

/// Resolves `{name}` references in an `ifeval` operand (the parser's
/// rules, except that an invalid name is always kept literally).
pub fn substitute_attr_refs(s: &[char], attrs: &Attributes) -> (res: Vec<char>)
    ensures
        res@ == refs_from(s@, 0, attrs@),
{
    let mut out: Vec<char> = Vec::new();
    let mut i: usize = 0;
    assert(out@ + refs_from(s@, 0, attrs@) =~= refs_from(s@, 0, attrs@));
    while i < s.len()
        invariant
            i <= s.len(),
            out@ + refs_from(s@, i as int, attrs@) == refs_from(s@, 0, attrs@),
        decreases s.len() - i,
    {
        let ghost o = out@;
        let ch = s[i];
        if ch != '{' {
            out.push(ch);
            assert(out@ + refs_from(s@, i + 1, attrs@) =~= o + (seq![ch] + refs_from(s@, i + 1, attrs@)));
            i += 1;
            continue;
        }
        assert(s@.subrange(i + 1, s.len() as int) =~= s@.skip(i + 1));
        match find_char_in(s, '}', i + 1, s.len()) {
            None => {
                let rest = sub_vec(s, i, s.len());
                push_all_chars(&mut out, rest.as_slice());
                assert(rest@ =~= s@.skip(i as int));
                assert(out@ + refs_from(s@, s.len() as int, attrs@) =~= out@);
                i = s.len();
            },
            Some(close) => {
                let name = sub_vec(s, i + 1, close);
                let mut piece: Vec<char> = Vec::new();
                if !is_attribute_name(name.as_slice()) {
                    piece.push('{');
                    push_all_chars(&mut piece, name.as_slice());
                    piece.push('}');
                } else {
                    let key = string_of(name.as_slice());
                    match attrs.get(key.as_str()) {
                        Some(AttributeValue::String(v)) => {
                            let vc = chars_of(v.as_str());
                            push_all_chars(&mut piece, vc.as_slice());
                        },
                        Some(AttributeValue::Bool(true)) => {},
                        _ => {
                            piece.push('{');
                            push_all_chars(&mut piece, name.as_slice());
                            piece.push('}');
                        },
                    }
                }
                proof {
                    let v = if attr_name(name@) {
                        attr_ref_value(attrs@, name@)
                    } else {
                        seq!['{'] + name@ + seq!['}']
                    };
                    assert(piece@ =~= v);
                }
                push_all_chars(&mut out, piece.as_slice());
                assert(out@ + refs_from(s@, close + 1, attrs@) =~= o + (piece@ + refs_from(
                    s@,
                    close + 1,
                    attrs@,
                )));
                i = close + 1;
            },
        }
    }
    assert(out@ + refs_from(s@, i as int, attrs@) =~= out@);
    out
}

/// An `ifeval` operand: trimmed, quotes stripped (when both present),
/// then attribute references resolved.
pub open spec fn operand_value(s: Seq<char>, attrs: Map<Seq<char>, AttrV>) -> Seq<char> {
    let t = trim(s);
    if t.len() >= 2 && t[0] == '"' && t.last() == '"' {
        refs_from(t.subrange(1, t.len() - 1), 0, attrs)
    } else {
        refs_from(t, 0, attrs)
    }
}

fn resolve_value(s: &[char], attrs: &Attributes) -> (res: Vec<char>)
    ensures
        res@ == operand_value(s@, attrs@),
{
    let t = trim_vec(s);
    let n = t.len();
    if n >= 2 && t[0] == '"' && t[n - 1] == '"' {
        let inner = sub_vec(t.as_slice(), 1, n - 1);
        substitute_attr_refs(inner.as_slice(), attrs)
    } else {
        substitute_attr_refs(t.as_slice(), attrs)
    }
}

/// Lexicographic comparison of two strings by code point (how `str`
/// orders).
pub open spec fn str_cmp_holds(l: Seq<char>, op: CmpOp, r: Seq<char>) -> bool {
    let lt = crate::strmap::seq_lt(l, r);
    let gt = crate::strmap::seq_lt(r, l);
    match op {
        CmpOp::Eq => l == r,
        CmpOp::Ne => l != r,
        CmpOp::Lt => lt,
        CmpOp::Le => lt || l == r,
        CmpOp::Gt => gt,
        CmpOp::Ge => gt || l == r,
    }
}

/// String comparison of `ifeval` operands (used when they are not both
/// numbers).
pub fn apply_str_op(l: &str, op: CmpOp, r: &str) -> (res: bool)
    ensures
        res == str_cmp_holds(l@, op, r@),
{
    let eq = crate::strmap::str_eq(l, r);
    match op {
        CmpOp::Eq => eq,
        CmpOp::Ne => !eq,
        CmpOp::Lt => crate::strmap::str_lt(l, r),
        CmpOp::Le => crate::strmap::str_lt(l, r) || eq,
        CmpOp::Gt => crate::strmap::str_lt(r, l),
        CmpOp::Ge => crate::strmap::str_lt(r, l) || eq,
    }
}

/// `ops` are the resolved operands and the operator of the `ifeval`
/// expression `expr`, or `None` when it has no operator.
pub open spec fn ifeval_ops_are(
    ops: Option<(String, CmpOp, String)>,
    expr: Seq<char>,
    attrs: Map<Seq<char>, AttrV>,
) -> bool {
    match ops {
        Some((l, op, r)) => top_op_from(trim(expr), 0, false) matches Some((ls, op2, rs)) && op
            == op2 && l@ == operand_value(ls, attrs) && r@ == operand_value(rs, attrs),
        None => top_op_from(trim(expr), 0, false) is None,
    }
}

/// The two resolved operands and the operator of an `ifeval` expression,
/// or `None` when it has no operator (the condition is then false).
pub fn ifeval_operands(expr: &str, attrs: &Attributes) -> (res: Option<(String, CmpOp, String)>)
    ensures
        ifeval_ops_are(res, expr@, attrs@),
{
    let e = chars_of(expr);
    let t = trim_vec(e.as_slice());
    let (lhs, op, rhs) = find_top_level_op(t.as_slice())?;
    let l = resolve_value(lhs.as_slice(), attrs);
    let r = resolve_value(rhs.as_slice(), attrs);
    Some((string_of(l.as_slice()), op, string_of(r.as_slice())))
}


// ---------------------------------------------------------------------------
// paths
// ---------------------------------------------------------------------------

/// A character that separates path components on some platform.
pub open spec fn is_sep(c: char) -> bool {
    c == '/' || c == '\\'
}

/// Text with no backslash: on no platform a verbatim or UNC path.
pub open spec fn no_backslash(s: Seq<char>) -> bool {
    forall|i: int| 0 <= i < s.len() ==> #[trigger] s[i] != '\\'
}

/// A relative path on every platform: it starts with no separator and
/// holds no `:` (so no drive or other prefix).
pub open spec fn relative_form(s: Seq<char>) -> bool {
    &&& (s.len() == 0 || !is_sep(s[0]))
    &&& forall|i: int| 0 <= i < s.len() ==> #[trigger] s[i] != ':'
}

/// A single file name: one normal path component on every platform.
pub open spec fn is_plain_name(s: Seq<char>) -> bool {
    &&& s.len() > 0
    &&& s != seq!['.'] && s != seq!['.', '.']
    &&& forall|i: int| 0 <= i < s.len() ==> !is_sep(#[trigger] s[i]) && s[i] != ':'
}

/// A directory path of plain names joined by single `/`: no leading or
/// trailing separator, no backslash, no `:` and no `.` (so no `.` or `..`
/// component), the same path on every platform.
pub open spec fn simple_dir(q: Seq<char>) -> bool {
    &&& q.len() > 0
    &&& q[0] != '/'
    &&& q.last() != '/'
    &&& forall|i: int| 0 <= i < q.len() ==> #[trigger] q[i] != '\\' && q[i] != ':' && q[i] != '.'
    &&& forall|i: int| 0 <= i < q.len() - 1 ==> !(#[trigger] q[i] == '/' && q[i + 1] == '/')
}

/// Index of the last `/` in `s`, or -1.
pub open spec fn last_slash(s: Seq<char>) -> int
    decreases s.len(),
{
    if s.len() == 0 {
        -1
    } else if s.last() == '/' {
        s.len() - 1
    } else {
        last_slash(s.drop_last())
    }
}

/// The directory of `dir/name` when `dir` is a simple directory path and
/// `name` a single file name.
pub open spec fn simple_parent(s: Seq<char>) -> Option<Seq<char>> {
    let k = last_slash(s);
    if k > 0 && simple_dir(s.take(k)) && is_plain_name(s.skip(k + 1)) {
        Some(s.take(k))
    } else {
        None
    }
}

/// The directory a relative include target of the file at `current`
/// resolves against, where every platform agrees on it: the base
/// directory for a file named without a directory, the file's directory
/// for a simple `dir/name`.
pub open spec fn include_dir(base: Seq<char>, current: Seq<char>) -> Option<Seq<char>> {
    if is_plain_name(current) {
        Some(base)
    } else {
        simple_parent(current)
    }
}

/// `rel` adjoined to `base`: `base`, then a separator where one is
/// needed, then `rel`.
pub open spec fn adjoined(base: Seq<char>, rel: Seq<char>, res: Seq<char>) -> bool {
    ||| res == base + rel
    ||| res == base + seq!['/'] + rel
    ||| res == base + seq!['\\'] + rel
}

/// `camino::Utf8Path::is_absolute`: whether the path is independent of
/// the current directory (on Unix: it starts with `/`; on Windows: it has
/// a prefix and a root). Stated: a path in relative form, which has
/// neither a root nor a prefix on any platform, is not absolute. The rest
/// depends on the platform and is left unsaid.
#[verifier::external_body]
pub(crate) fn path_is_absolute(p: &str) -> (res: bool)
    ensures
        relative_form(p@) ==> !res,
{
    camino::Utf8Path::new(p).is_absolute()
}

/// `camino::Utf8Path::parent`: the path without its final component, if
/// it has one. Stated: a parent is a shorter leading part of the path, a
/// single file name has the empty parent, and `dir/name` (a simple
/// directory path and a file name) has the parent `dir`. Which part it is
/// otherwise depends on the platform's path syntax and is left unsaid.
#[verifier::external_body]
pub(crate) fn path_parent(p: &str) -> (res: Option<String>)
    ensures
        is_plain_name(p@) ==> res is Some && res.unwrap()@.len() == 0,
        simple_parent(p@) is Some ==> res is Some && res.unwrap()@ == simple_parent(p@).unwrap(),
        res is Some ==> res.unwrap()@.len() < p@.len() && res.unwrap()@ == p@.take(
            res.unwrap()@.len() as int,
        ),
{
    camino::Utf8Path::new(p).parent().map(|q| q.as_str().to_string())
}

/// A path whose text is its component list on every platform: no
/// backslash, no `:`, no empty component (but a leading `/`), no `.` or
/// `..` component.
pub open spec fn canonical_path(s: Seq<char>) -> bool {
    let parts = split_char(s, '/');
    &&& s.len() > 0
    &&& no_backslash(s)
    &&& forall|i: int| 0 <= i < s.len() ==> #[trigger] s[i] != ':'
    &&& forall|i: int|
        0 <= i < parts.len() ==> (i == 0 || #[trigger] parts[i].len() > 0) && parts[i] != seq!['.']
            && parts[i] != seq!['.', '.']
}

/// `==` on `camino::Utf8Path`: component-by-component equality. Stated:
/// equal texts are equal paths, and two paths in canonical form are equal
/// exactly when their texts are. How other spellings compare depends on
/// the platform's path syntax and is left unsaid.
#[verifier::external_body]
pub(crate) fn path_eq(a: &str, b: &str) -> (res: bool)
    ensures
        a@ == b@ ==> res,
        canonical_path(a@) && canonical_path(b@) ==> res == (a@ == b@),
{
    camino::Utf8Path::new(a) == camino::Utf8Path::new(b)
}

/// `p` lies under `base`: the same path, or `base` followed by `/` and
/// more components.
pub open spec fn path_under(p: Seq<char>, base: Seq<char>) -> bool {
    p == base || (p.len() > base.len() && p.take(base.len() as int) == base && p[base.len() as int] == '/')
}

/// `camino::Utf8Path::starts_with`: whether `base` is a prefix of `p`,
/// whole components only. Stated: a path starts with itself, and for two
/// paths in canonical form the answer is [`path_under`]. Other spellings
/// depend on the platform's path syntax and are left unsaid.
#[verifier::external_body]
fn path_starts_with(p: &str, base: &str) -> (res: bool)
    ensures
        p@ == base@ ==> res,
        canonical_path(p@) && canonical_path(base@) ==> res == path_under(p@, base@),
{
    camino::Utf8Path::new(p).starts_with(base)
}

/// The safe modes' containment rule, on the canonical forms of the base
/// directory and of the resolved include: an include must stay under the
/// base directory, or it is refused with a plain message.
pub fn check_under_base(base_canon: &str, resolved_canon: &str) -> (res: Result<(), PreprocessError>)
    ensures
        resolved_canon@ == base_canon@ ==> res is Ok,
        canonical_path(resolved_canon@) && canonical_path(base_canon@) ==> (res is Ok <==> path_under(
            resolved_canon@,
            base_canon@,
        )),
        res is Err ==> (res matches Err(PreprocessError::Message(m)) && m@ == "include path "@
            + resolved_canon@ + " escapes base_dir "@ + base_canon@ + " (safe mode)"@),
{
    if path_starts_with(resolved_canon, base_canon) {
        Ok(())
    } else {
        let mut m = String::new();
        crate::text::push_str(&mut m, "include path ");
        crate::text::push_str(&mut m, resolved_canon);
        crate::text::push_str(&mut m, " escapes base_dir ");
        crate::text::push_str(&mut m, base_canon);
        crate::text::push_str(&mut m, " (safe mode)");
        Err(PreprocessError::Message(m))
    }
}

/// `camino::Utf8Path::join`: `rel` adjoined to `base`. Stated: a path in
/// relative form is adjoined to a base that holds no backslash (the
/// separator, `/` or `\`, depends on the platform). What an absolute or
/// prefixed `rel`, or a verbatim base, gives is left unsaid.
#[verifier::external_body]
pub(crate) fn path_join(base: &str, rel: &str) -> (res: String)
    ensures
        relative_form(rel@) && no_backslash(base@) ==> adjoined(base@, rel@, res@),
{
    camino::Utf8Path::new(base).join(rel).as_str().to_string()
}

/// Why an `include::` is refused.
#[derive(Debug, Clone, Copy, PartialEq, Eq, Structural)]
pub enum IncludeRefusal {
    /// Secure mode allows no include at all.
    SecureMode,
    /// Safe and server modes allow no absolute path.
    AbsolutePath,
    /// The file is already being included.
    Cycle,
    /// The include chain is as deep as allowed.
    Depth,
}

/// The include policy, given whether the target is an absolute path,
/// whether it closes a cycle, and how deep the chain is: secure mode
/// refuses every include; safe and server modes refuse absolute paths;
/// then a cycle, then the depth limit refuse.
/// The stable diagnostic code of each include refusal.
pub open spec fn refusal_code(k: IncludeRefusal) -> Seq<char> {
    match k {
        IncludeRefusal::SecureMode => "adoc::preprocess::secure_mode"@,
        IncludeRefusal::AbsolutePath => "adoc::preprocess::absolute_include"@,
        IncludeRefusal::Cycle => "adoc::preprocess::include_cycle"@,
        IncludeRefusal::Depth => "adoc::preprocess::include_depth"@,
    }
}

pub open spec fn include_refusal_spec(
    mode: SafeMode,
    absolute: bool,
    cycle: bool,
    depth: nat,
    limit: nat,
) -> Option<IncludeRefusal> {
    if mode == SafeMode::Secure {
        Some(IncludeRefusal::SecureMode)
    } else if (mode == SafeMode::Safe || mode == SafeMode::Server) && absolute {
        Some(IncludeRefusal::AbsolutePath)
    } else if cycle {
        Some(IncludeRefusal::Cycle)
    } else if depth >= limit {
        Some(IncludeRefusal::Depth)
    } else {
        None
    }
}

pub fn include_refusal(mode: SafeMode, absolute: bool, cycle: bool, depth: usize, limit: u32) -> (res:
    Option<IncludeRefusal>)
    ensures
        res == include_refusal_spec(mode, absolute, cycle, depth as nat, limit as nat),
{
    let safe = match mode {
        SafeMode::Safe | SafeMode::Server => true,
        _ => false,
    };
    if mode == SafeMode::Secure {
        Some(IncludeRefusal::SecureMode)
    } else if safe && absolute {
        Some(IncludeRefusal::AbsolutePath)
    } else if cycle {
        Some(IncludeRefusal::Cycle)
    } else if depth >= limit as usize {
        Some(IncludeRefusal::Depth)
    } else {
        None
    }
}

// ---------------------------------------------------------------------------
// source lines
// ---------------------------------------------------------------------------

/// UTF-8 length of `c`.
pub open spec fn utf8_len(c: char) -> nat {
    if (c as u32) < 0x80 {
        1
    } else if (c as u32) < 0x800 {
        2
    } else if (c as u32) < 0x10000 {
        3
    } else {
        4
    }
}

proof fn lemma_utf8_len_bound(c: char)
    ensures
        1 <= utf8_len(c) <= 4,
{
}

fn utf8_len_exec(c: char) -> (res: u32)
    ensures
        res == utf8_len(c),
{
    let u = c as u32;
    if u < 0x80 {
        1
    } else if u < 0x800 {
        2
    } else if u < 0x10000 {
        3
    } else {
        4
    }
}

/// The lines of a source, with a trailing `\r` dropped.
pub open spec fn source_texts(source: Seq<char>) -> Seq<Seq<char>> {
    split_char(source, '\n').map_values(
        |l: Seq<char>| if l.len() > 0 && l.last() == '\r' {
            l.drop_last()
        } else {
            l
        },
    )
}

/// The UTF-8 length of a text, in bytes.
pub open spec fn utf8_bytes(s: Seq<char>) -> nat
    decreases s.len(),
{
    if s.len() == 0 {
        0
    } else {
        utf8_bytes(s.drop_last()) + utf8_len(s.last())
    }
}

/// The byte offset at which raw line `i` starts: the earlier lines, each
/// with its line feed.
pub open spec fn line_offset(lines: Seq<Seq<char>>, i: int) -> nat
    decreases i,
{
    if i <= 0 {
        0
    } else {
        line_offset(lines, i - 1) + utf8_bytes(lines[i - 1]) + 1
    }
}

/// `n` wrapped to `u32`.
pub open spec fn wrap32(n: int) -> int {
    n % 0x1_0000_0000
}

/// What `wrapping_add` computes on two wrapped numbers is their sum
/// wrapped.
proof fn lemma_wrap_add(a: int, b: int, x: int, y: int)
    requires
        a >= 0,
        b >= 0,
        x == wrap32(a),
        y == wrap32(b),
    ensures
        (if x + y > 0xffff_ffff {
            x + y - 0x1_0000_0000
        } else {
            x + y
        }) == wrap32(a + b),
{
    vstd::arithmetic::div_mod::lemma_add_mod_noop(a, b, 0x1_0000_0000);
    assert(0 <= x < 0x1_0000_0000 && 0 <= y < 0x1_0000_0000) by {
        vstd::arithmetic::div_mod::lemma_mod_bound(a, 0x1_0000_0000);
        vstd::arithmetic::div_mod::lemma_mod_bound(b, 0x1_0000_0000);
    }
    if x + y > 0xffff_ffff {
        vstd::arithmetic::div_mod::lemma_mod_sub_multiples_vanish(x + y, 0x1_0000_0000);
        vstd::arithmetic::div_mod::lemma_small_mod((x + y - 0x1_0000_0000) as nat, 0x1_0000_0000);
    } else {
        vstd::arithmetic::div_mod::lemma_small_mod((x + y) as nat, 0x1_0000_0000);
    }
}

/// The location of the `i`-th line of `source`: its 1-based number,
/// column 1, and its byte range (numbers and offsets wrap at `u32`).
pub open spec fn line_location_is(source: Seq<char>, i: int, loc: Location) -> bool {
    let raw = split_char(source, '\n');
    &&& loc.line == wrap32(i + 1)
    &&& loc.column == 1
    &&& loc.byte_start == wrap32(line_offset(raw, i) as int)
    &&& loc.byte_end == wrap32((line_offset(raw, i) + utf8_bytes(source_texts(source)[i])) as int)
}

/// Splits a source into lines, each located by its byte range, 1-based
/// line number and column 1 (offsets and numbers wrap at `u32`).
pub fn source_lines(source: &str, source_id: SourceId) -> (res: Vec<PreprocessedLine>)
    ensures
        res@.map_values(|l: PreprocessedLine| l.text@) == source_texts(source@),
        forall|i: int| 0 <= i < res@.len() ==> (#[trigger] res@[i]).location.source == source_id,
        forall|i: int|
            0 <= i < res@.len() ==> line_location_is(source@, i, (#[trigger] res@[i]).location),
{
    let chars = chars_of(source);
    let raws = split_on(chars.as_slice(), '\n');
    let ghost rv = views(raws@);
    let mut out: Vec<PreprocessedLine> = Vec::new();
    let mut byte_start: u32 = 0;
    let mut idx: usize = 0;
    while idx < raws.len()
        invariant
            idx <= raws.len(),
            rv == views(raws@),
            out@.map_values(|l: PreprocessedLine| l.text@) =~= rv.take(idx as int).map_values(
                |l: Seq<char>| if l.len() > 0 && l.last() == '\r' {
                    l.drop_last()
                } else {
                    l
                },
            ),
            forall|i: int| 0 <= i < out@.len() ==> (#[trigger] out@[i]).location.source == source_id,
            rv == split_char(source@, '\n'),
            byte_start as int == wrap32(line_offset(rv, idx as int) as int),
            forall|i: int|
                0 <= i < out@.len() ==> line_location_is(source@, i, (#[trigger] out@[i]).location),
        decreases raws.len() - idx,
    {
        let raw = raws[idx].as_slice();
        let cr = raw.len() > 0 && raw[raw.len() - 1] == '\r';
        let tlen = if cr {
            raw.len() - 1
        } else {
            raw.len()
        };
        let text = sub_string(raw, 0, tlen);
        proof {
            if cr {
                assert(raw@.subrange(0, tlen as int) =~= raw@.drop_last());
            } else {
                assert(raw@.subrange(0, tlen as int) =~= raw@);
            }
        }
        let mut bytes: u32 = 0;
        let mut k: usize = 0;
        assert(raw@.take(0) =~= Seq::<char>::empty());
        while k < tlen
            invariant
                k <= tlen <= raw.len(),
                bytes as int == wrap32(utf8_bytes(raw@.take(k as int)) as int),
            decreases tlen - k,
        {
            let u = utf8_len_exec(raw[k]);
            proof {
                assert(raw@.take(k + 1).drop_last() =~= raw@.take(k as int));
                lemma_utf8_len_bound(raw@[k as int]);
                vstd::arithmetic::div_mod::lemma_small_mod(u as nat, 0x1_0000_0000);
                lemma_wrap_add(utf8_bytes(raw@.take(k as int)) as int, u as int, bytes as int, u as int);
            }
            bytes = bytes.wrapping_add(u);
            k += 1;
        }
        let ghost start0 = line_offset(rv, idx as int) as int;
        let ghost tb = utf8_bytes(text@) as int;
        proof {
            assert(raw@.take(tlen as int) =~= text@);
            lemma_wrap_add(start0, tb, byte_start as int, bytes as int);
        }
        let byte_end = byte_start.wrapping_add(bytes);
        let line_no = ((idx as u64).wrapping_add(1) % 0x1_0000_0000) as u32;
        let location = Location { source: source_id, byte_start, byte_end, line: line_no, column: 1 };
        let extra: u32 = if cr {
            1
        } else {
            0
        };
        proof {
            assert(raw@ == rv[idx as int]);
            if cr {
                assert(raw@.drop_last() =~= text@);
                assert(utf8_bytes(raw@) == tb + 1);
            } else {
                assert(raw@ =~= text@);
            }
            vstd::arithmetic::div_mod::lemma_small_mod(extra as nat, 0x1_0000_0000);
            vstd::arithmetic::div_mod::lemma_small_mod(1, 0x1_0000_0000);
            lemma_wrap_add(start0 + tb, extra as int, byte_end as int, extra as int);
            lemma_wrap_add(start0 + tb + extra, 1, (byte_end as int + extra as int) % 0x1_0000_0000, 1);
            assert(line_offset(rv, idx + 1) == start0 + utf8_bytes(rv[idx as int]) + 1);
            assert(source_texts(source@)[idx as int] == text@);
        }
        byte_start = byte_end.wrapping_add(extra).wrapping_add(1);
        let ghost prev = out@.map_values(|l: PreprocessedLine| l.text@);
        out.push(PreprocessedLine { text, location });
        assert(out@.map_values(|l: PreprocessedLine| l.text@) =~= prev.push(text@));
        idx += 1;
    }
    assert(rv.take(raws.len() as int) =~= rv);
    out
}

// ---------------------------------------------------------------------------
// the line processor
// ---------------------------------------------------------------------------

/// What the caller must do after a line.
#[derive(Debug)]
pub enum LineStep {
    /// Nothing more.
    Done,
    /// Evaluate an `ifeval` (its operands and operator, `None` when it has
    /// no operator) and push the result with
    /// [`Preprocessor::push_condition`].
    Ifeval(Option<(String, CmpOp, String)>),
    /// Check that `resolved` stays under the base directory in the safe
    /// modes ([`check_under_base`]), ask [`Preprocessor::admit_include`],
    /// then read the file and hand it to [`Preprocessor::begin_inclusion`].
    Include { resolved: String, args: IncludeArgs },
}

/// The preprocessor's configuration and running state: the attribute set,
/// the registered sources, the stack of open conditionals and the chain
/// of files being processed.
pub struct Preprocessor {
    pub attributes: Attributes,
    base_dir: String,
    safe_mode: SafeMode,
    sources: Vec<String>,
    source_contents: Vec<String>,
    max_include_depth: u32,
    cond_stack: Vec<bool>,
    include_chain: Vec<String>,
}

pub open spec fn all_true(s: Seq<bool>) -> bool {
    forall|i: int| 0 <= i < s.len() ==> #[trigger] s[i]
}

impl Preprocessor {
    /// The open conditionals, innermost last.
    pub closed spec fn conds(&self) -> Seq<bool> {
        self.cond_stack@
    }

    /// The files being processed, outermost first.
    pub closed spec fn chain(&self) -> Seq<Seq<char>> {
        self.include_chain@.map_values(|p: String| p@)
    }

    /// The running attribute set.
    pub closed spec fn attrs(&self) -> Map<Seq<char>, AttrV> {
        self.attributes@
    }

    pub closed spec fn mode(&self) -> SafeMode {
        self.safe_mode
    }

    pub closed spec fn depth_limit(&self) -> u32 {
        self.max_include_depth
    }

    /// The directory that relative include targets resolve against.
    pub closed spec fn base(&self) -> Seq<char> {
        self.base_dir@
    }

    /// Every registered path has its content.
    pub closed spec fn aligned(&self) -> bool {
        self.sources@.len() == self.source_contents@.len()
    }

    /// Registered `(path, content)` pairs, by source id.
    pub closed spec fn registered(&self) -> Seq<(Seq<char>, Seq<char>)> {
        Seq::new(
            self.sources@.len(),
            |i: int| (
                self.sources@[i]@,
                if i < self.source_contents@.len() {
                    self.source_contents@[i]@
                } else {
                    Seq::empty()
                },
            ),
        )
    }

    pub fn new() -> (res: Self)
        ensures
            res.attrs() == Map::<Seq<char>, AttrV>::empty(),
            res.base() == seq!['.'],
            res.registered().len() == 0,
            res.aligned(),
            res.mode() == SafeMode::Unsafe,
            res.depth_limit() == 64,
            res.conds().len() == 0,
            res.chain().len() == 0,
    {
        let res = Preprocessor {
            attributes: Attributes::new(),
            base_dir: ".".to_string(),
            safe_mode: SafeMode::Unsafe,
            sources: Vec::new(),
            source_contents: Vec::new(),
            max_include_depth: 64,
            cond_stack: Vec::new(),
            include_chain: Vec::new(),
        };
        assert(res.chain() =~= Seq::<Seq<char>>::empty());
        proof {
            reveal_strlit(".");
        }
        assert(res.base() =~= seq!['.']);
        res
    }

    pub fn with_attributes(attributes: Attributes) -> (res: Self)
        ensures
            res.attrs() == attributes@,
            res.base() == seq!['.'],
            res.registered().len() == 0,
            res.aligned(),
            res.mode() == SafeMode::Unsafe,
            res.conds().len() == 0,
    {
        let mut p = Preprocessor::new();
        p.attributes = attributes;
        p
    }

    pub fn with_base_dir(self, dir: String) -> (res: Self)
        ensures
            res.base() == dir@,
            res.registered() == self.registered(),
            res.aligned() == self.aligned(),
            res.attrs() == self.attrs(),
            res.mode() == self.mode(),
            res.conds() == self.conds(),
    {
        let mut p = self;
        p.base_dir = dir;
        p
    }

    pub fn with_safe_mode(self, mode: SafeMode) -> (res: Self)
        ensures
            res.attrs() == self.attrs(),
            res.mode() == mode,
            res.conds() == self.conds(),
    {
        let mut p = self;
        p.safe_mode = mode;
        p
    }

    pub fn safe_mode(&self) -> (res: SafeMode)
        ensures
            res == self.mode(),
    {
        self.safe_mode
    }

    pub fn base_dir(&self) -> (res: &str)
        ensures
            res@ == self.base(),
    {
        self.base_dir.as_str()
    }

    /// `SourceId(i) -> path` registry, top source first.
    pub fn sources(&self) -> (res: &[String])
        ensures
            res@.len() == self.registered().len(),
            forall|i: int| 0 <= i < res@.len() ==> #[trigger] res@[i]@ == self.registered()[i].0,
    {
        self.sources.as_slice()
    }

    /// A [`SourceMap`] of the registered sources and their text.
    pub fn source_map(&self) -> (res: SourceMap)
        ensures
            self.registered().len() < 0xffff_ffff ==> res.files() == self.registered(),
    {
        let mut map = SourceMap::new();
        let mut i: usize = 0;
        while i < self.sources.len()
            invariant
                i <= self.sources@.len(),
                map.files() =~= self.registered().take(i as int),
                map.files().len() == i,
            decreases self.sources.len() - i,
        {
            let content = if i < self.source_contents.len() {
                self.source_contents[i].clone()
            } else {
                String::new()
            };
            if map.len() >= 0xffff_ffff - 1 {
                return map;
            }
            map.push(self.sources[i].clone(), content);
            i += 1;
        }
        assert(self.registered().take(self.sources@.len() as int) =~= self.registered());
        map
    }

    /// Is output flowing (every open conditional true)?
    pub fn emitting(&self) -> (res: bool)
        ensures
            res == all_true(self.conds()),
    {
        let mut i: usize = 0;
        while i < self.cond_stack.len()
            invariant
                i <= self.cond_stack@.len(),
                forall|k: int| 0 <= k < i ==> #[trigger] self.cond_stack@[k],
            decreases self.cond_stack.len() - i,
        {
            if !self.cond_stack[i] {
                return false;
            }
            i += 1;
        }
        true
    }

    /// Opens a block conditional whose test gave `active`.
    pub fn push_condition(&mut self, active: bool)
        ensures
            final(self).conds() == old(self).conds().push(active),
            final(self).attrs() == old(self).attrs(),
            final(self).chain() == old(self).chain(),
    {
        self.cond_stack.push(active);
    }

    fn register_source(&mut self, path: String, content: String) -> (id: SourceId)
        ensures
            old(self).aligned() ==> final(self).aligned() && final(self).registered() == old(
                self,
            ).registered().push((path@, content@)),
            old(self).registered().len() <= 0xffff_ffff ==> id == SourceId(
                old(self).registered().len() as u32,
            ),
            final(self).depth_limit() == old(self).depth_limit(),
            final(self).conds() == old(self).conds(),
            final(self).chain() == old(self).chain(),
            final(self).attrs() == old(self).attrs(),
            final(self).mode() == old(self).mode(),
    {
        let n = self.sources.len();
        let id = SourceId(if n <= 0xffff_ffff { n as u32 } else { 0xffff_ffff });
        let ghost before = self.registered();
        let ghost pv = path@;
        let ghost cv = content@;
        self.sources.push(path);
        self.source_contents.push(content);
        proof {
            if old(self).aligned() {
                assert(self.registered() =~= before.push((pv, cv)));
            }
        }
        id
    }

    /// Starts a run over a top-level source: the registries and the state
    /// are reset and the source becomes `SourceId(0)`.
    pub fn begin_run(&mut self, source: &str, top_path: &str) -> (id: SourceId)
        ensures
            id == SourceId(0),
            final(self).aligned(),
            final(self).registered() == seq![(top_path@, source@)],
            final(self).conds().len() == 0,
            final(self).chain() == seq![top_path@],
            final(self).attrs() == old(self).attrs(),
            final(self).mode() == old(self).mode(),
            final(self).depth_limit() == old(self).depth_limit(),
    {
        self.sources = Vec::new();
        self.source_contents = Vec::new();
        self.cond_stack = Vec::new();
        self.include_chain = Vec::new();
        assert(self.chain() =~= Seq::<Seq<char>>::empty());
        let id = self.register_source(top_path.to_owned(), source.to_owned());
        let tp = top_path.to_owned();
        let ghost e = self.chain();
        self.include_chain.push(tp);
        assert(self.chain() =~= e.push(tp@));
        assert(self.chain() =~= seq![top_path@]);
        assert(self.registered() =~= seq![(top_path@, source@)]);
        id
    }

    /// Ends a run: an open conditional at the end of the input is an
    /// error.
    pub fn finish_run(&mut self) -> (res: Result<(), PreprocessError>)
        ensures
            res is Ok <==> old(self).conds().len() == 0,
            old(self).conds().len() > 0 ==> (res matches Err(PreprocessError::Message(m)) && m@
                == "unclosed ifdef/ifndef/ifeval at end of input"@),
            final(self).attrs() == old(self).attrs(),
    {
        self.include_chain.pop();
        if self.cond_stack.len() > 0 {
            return Err(PreprocessError::Message("unclosed ifdef/ifndef/ifeval at end of input".to_string()));
        }
        Ok(())
    }

    /// Registers an included file, enters it, and returns its source id
    /// and its text after the `include::` attributes are applied.
    pub fn begin_inclusion(&mut self, resolved: String, raw_source: String, args: &IncludeArgs) -> (res: (SourceId, String))
        ensures
            res.1@ == filtered_include(raw_source@, *args),
            old(self).aligned() ==> final(self).aligned() && final(self).registered() == old(
                self,
            ).registered().push((resolved@, raw_source@)),
            old(self).registered().len() <= 0xffff_ffff ==> res.0 == SourceId(
                old(self).registered().len() as u32,
            ),
            final(self).chain() == old(self).chain().push(resolved@),
            final(self).conds() == old(self).conds(),
            final(self).attrs() == old(self).attrs(),
            final(self).mode() == old(self).mode(),
            final(self).depth_limit() == old(self).depth_limit(),
    {
        let raw = chars_of(raw_source.as_str());
        let filtered = apply_include_args(raw.as_slice(), args);
        let id = self.register_source(resolved.clone(), raw_source);
        let ghost prev = self.chain();
        self.include_chain.push(resolved);
        assert(self.chain() =~= prev.push(resolved@));
        (id, string_of(filtered.as_slice()))
    }

    /// Leaves the innermost included file.
    pub fn end_inclusion(&mut self)
        ensures
            final(self).chain() == old(self).chain().drop_last() || old(self).chain().len() == 0,
            final(self).conds() == old(self).conds(),
            final(self).attrs() == old(self).attrs(),
    {
        let ghost prev = self.chain();
        if self.include_chain.len() > 0 {
            self.include_chain.pop();
            assert(self.chain() =~= prev.drop_last());
        }
    }

    /// Relative paths resolve against the including file's directory, or
    /// the base directory when it has none.
    fn resolve_include_path(&self, target: &str, current_path: &str) -> (res: String)
        ensures
            relative_form(target@) && no_backslash(self.base()) && no_backslash(current_path@)
                ==> exists|d: Seq<char>|
                #![trigger adjoined(d, target@, res@)]
                adjoined(d, target@, res@) && (d == self.base() || (d.len() > 0 && d
                    == current_path@.take(d.len() as int))),
            relative_form(target@) && no_backslash(self.base()) && is_plain_name(current_path@)
                ==> adjoined(self.base(), target@, res@),
            relative_form(target@) && no_backslash(self.base()) ==> (include_dir(
                self.base(),
                current_path@,
            ) matches Some(d) ==> adjoined(d, target@, res@)),
    {
        if path_is_absolute(target) {
            return target.to_string();
        }
        let parent = match path_parent(current_path) {
            Some(p) => {
                if p.as_str().is_empty() {
                    self.base_dir.clone()
                } else {
                    p
                }
            },
            None => self.base_dir.clone(),
        };
        proof {
            if no_backslash(self.base()) && no_backslash(current_path@) {
                assert forall|i: int| 0 <= i < parent@.len() implies #[trigger] parent@[i] != '\\' by {
                    if parent@ != self.base() {
                        assert(parent@[i] == current_path@[i]);
                    }
                }
            }
        }
        let res = path_join(parent.as_str(), target);
        proof {
            if relative_form(target@) && no_backslash(self.base()) && no_backslash(current_path@) {
                assert(adjoined(parent@, target@, res@));
            }
        }
        res
    }

    /// Whether a path equal to `p`, component by component, is already
    /// being included.
    fn in_chain(&self, p: &str) -> (res: bool)
        ensures
            self.chain().contains(p@) ==> res,
            canonical_path(p@) && (forall|k: int|
                0 <= k < self.chain().len() ==> canonical_path(#[trigger] self.chain()[k])) ==> (res
                == self.chain().contains(p@)),
    {
        let ghost cv = self.chain();
        let mut i: usize = 0;
        while i < self.include_chain.len()
            invariant
                i <= self.include_chain@.len(),
                cv == self.chain(),
                forall|k: int| 0 <= k < i ==> cv[k] != p@,
            decreases self.include_chain.len() - i,
        {
            if path_eq(self.include_chain[i].as_str(), p) {
                proof {
                    if canonical_path(p@) && (forall|k: int|
                        0 <= k < cv.len() ==> canonical_path(#[trigger] cv[k])) {
                        assert(canonical_path(cv[i as int]));
                        assert(cv[i as int] == p@);
                    }
                }
                return true;
            }
            assert(cv[i as int] == self.include_chain@[i as int]@);
            i += 1;
        }
        false
    }

    /// What an `include::target[args]` line of the file at `current` yields
    /// while output is flowing: refused with `secure_mode` in secure mode,
    /// with `absolute_include` for an absolute target in the safe modes (a
    /// target in relative form is never absolute), and otherwise an
    /// `Include` with the parsed arguments, the target adjoined to the
    /// including file's directory (the base directory when the file has
    /// none), for the caller to check and hand to [`Self::admit_include`].
    pub open spec fn include_outcome(
        &self,
        target: Seq<char>,
        args: Seq<char>,
        current: Seq<char>,
        res: Result<LineStep, PreprocessError>,
    ) -> bool {
        &&& exists|abs: bool|
            #![trigger include_refusal_spec(self.mode(), abs, false, 0, 1)]
            (relative_form(trim(target)) ==> !abs) && match include_refusal_spec(
                self.mode(),
                abs,
                false,
                0,
                1,
            ) {
                Some(k) => (res matches Err(PreprocessError::Diagnostic(d)) && d.code@ == refusal_code(k)),
                None => res is Ok,
            }
        &&& (res is Ok ==> res matches Ok(LineStep::Include { .. }))
        &&& (res matches Ok(LineStep::Include { args: a, .. }) ==> include_args_v(a) == args_from(
            crate::parser::meta::split_top_level(args),
        ))
        &&& (res matches Ok(LineStep::Include { resolved, .. }) ==> (relative_form(trim(target))
            && no_backslash(self.base()) ==> (include_dir(self.base(), current) matches Some(d)
            ==> adjoined(d, trim(target), resolved@))))
    }

    /// The first part of the `include::` policy: refused in secure mode,
    /// absolute paths refused in the safe modes; otherwise the resolved
    /// path and the parsed arguments.
    fn include_step(&self, target: &str, args: &str, current_path: &str, location: Location) -> (res:
        Result<LineStep, PreprocessError>)
        ensures
            self.include_outcome(target@, args@, current_path@, res),
    {
        let ghost t0 = trim(target@);
        let tc = chars_of(target);
        let tt = trim_vec(tc.as_slice());
        let target = string_of(tt.as_slice());
        let absolute = match self.safe_mode {
            SafeMode::Safe | SafeMode::Server => path_is_absolute(target.as_str()),
            _ => false,
        };
        let refusal = include_refusal(self.safe_mode, absolute, false, 0, 1);
        proof {
            assert(relative_form(t0) ==> !absolute);
            assert(refusal == include_refusal_spec(self.mode(), absolute, false, 0, 1));
        }
        match refusal {
            Some(IncludeRefusal::SecureMode) => Err(
                PreprocessError::diagnostic(
                    Diagnostic::error(
                        "adoc::preprocess::secure_mode",
                        "include:: is disabled in safe mode 'secure'".to_string(),
                        location,
                    ).with_label("include rejected by safe mode".to_string()).with_help(
                        "relax with `--safe-mode safe` (or `unsafe`) if the input is trusted".to_string(),
                    ),
                ),
            ),
            Some(IncludeRefusal::AbsolutePath) => {
                let mut msg = "absolute include path `".to_string();
                crate::text::push_str(&mut msg, target.as_str());
                crate::text::push_str(&mut msg, "` rejected in safe mode");
                Err(
                    PreprocessError::diagnostic(
                        Diagnostic::error("adoc::preprocess::absolute_include", msg, location).with_label(
                            "absolute paths are denied by safe mode".to_string(),
                        ).with_help(
                            "use a relative path under --base-dir, or pass `--safe-mode unsafe`".to_string(),
                        ),
                    ),
                )
            },
            _ => {
                let resolved = self.resolve_include_path(target.as_str(), current_path);
                let ac = chars_of(args);
                let parsed = parse_include_args(ac.as_slice());
                Ok(LineStep::Include { resolved, args: parsed })
            },
        }
    }

    /// The rest of the `include::` policy, once the resolved path has
    /// passed the base-directory check of the safe modes: refused with
    /// `include_cycle` when a path equal to it is already being included,
    /// and with `include_depth` at the depth limit. Paths compare component
    /// by component; for paths in canonical form that is text equality.
    pub fn admit_include(&self, resolved: &str, location: Location) -> (res: Result<(), PreprocessError>)
        ensures
            exists|cyc: bool|
                #![trigger include_refusal_spec(SafeMode::Unsafe, false, cyc, self.chain().len(), self.depth_limit() as nat)]
                (self.chain().contains(resolved@) ==> cyc) && ((canonical_path(resolved@) && forall|k: int|
                    0 <= k < self.chain().len() ==> canonical_path(#[trigger] self.chain()[k])) ==> cyc
                    == self.chain().contains(resolved@)) && match include_refusal_spec(
                    SafeMode::Unsafe,
                    false,
                    cyc,
                    self.chain().len(),
                    self.depth_limit() as nat,
                ) {
                    Some(k) => (res matches Err(PreprocessError::Diagnostic(d)) && d.code@ == refusal_code(k)),
                    None => res is Ok,
                },
    {
        let cycle = self.in_chain(resolved);
        let refusal = include_refusal(SafeMode::Unsafe, false, cycle, self.include_chain.len(), self.max_include_depth);
        proof {
            assert(self.chain().len() == self.include_chain@.len());
            assert(refusal == include_refusal_spec(
                SafeMode::Unsafe,
                false,
                cycle,
                self.chain().len(),
                self.depth_limit() as nat,
            ));
        }
        match refusal {
            Some(IncludeRefusal::Cycle) => {
                let mut msg = "include cycle detected: ".to_string();
                let mut i: usize = 0;
                while i < self.include_chain.len()
                    invariant
                        i <= self.include_chain@.len(),
                    decreases self.include_chain.len() - i,
                {
                    crate::text::push_str(&mut msg, self.include_chain[i].as_str());
                    crate::text::push_str(&mut msg, " \u{2192} ");
                    i += 1;
                }
                crate::text::push_str(&mut msg, resolved);
                Err(
                    PreprocessError::diagnostic(
                        Diagnostic::error("adoc::preprocess::include_cycle", msg, location).with_label(
                            "this include closes a cycle".to_string(),
                        ),
                    ),
                )
            },
            Some(IncludeRefusal::Depth) => {
                let mut msg = "include depth limit reached (".to_string();
                crate::text::push_decimal(&mut msg, self.max_include_depth as u128);
                crate::text::push_str(&mut msg, ")");
                Err(
                    PreprocessError::diagnostic(
                        Diagnostic::error("adoc::preprocess::include_depth", msg, location).with_label(
                            "nesting goes too deep here".to_string(),
                        ),
                    ),
                )
            },
            _ => Ok(()),
        }
    }

    /// One source line: directives update the conditional stack or ask
    /// for an inclusion; other lines flow to `output` while every open
    /// conditional is true, attribute entries also updating the running
    /// attribute set.
    pub fn process_line(
        &mut self,
        text: &str,
        location: Location,
        source_path: &str,
        output: &mut Vec<PreprocessedLine>,
    ) -> (res: Result<LineStep, PreprocessError>)
        ensures
            final(self).chain() == old(self).chain(),
            final(self).mode() == old(self).mode(),
            directive_spec(text@) is None ==> {
                &&& res matches Ok(LineStep::Done)
                &&& final(self).conds() == old(self).conds()
                &&& all_true(old(self).conds()) ==> final(output)@.len() == old(output)@.len() + 1
                    && final(output)@.last().text@ == text@ && final(output)@.last().location
                    == location && final(output)@.drop_last() == old(output)@
                &&& !all_true(old(self).conds()) ==> final(output)@ == old(output)@
                    && final(self).attrs() == old(self).attrs()
                &&& all_true(old(self).conds()) ==> final(self).attrs() == match crate::parser::header::entry_spec(text@) {
                    Some((k, v)) => old(self).attrs().insert(k, v),
                    None => old(self).attrs(),
                }
            },
            directive_spec(text@) matches Some(DirectiveV::Ifdef { test, content }) ==> {
                let active = all_true(old(self).conds()) && attr_test_holds(test, old(self).attrs());
                &&& res matches Ok(LineStep::Done)
                &&& content is None ==> final(self).conds() == old(self).conds().push(active)
                    && final(output)@ == old(output)@
                &&& content matches Some(c) ==> final(self).conds() == old(self).conds() && (active
                    ==> final(output)@.len() == old(output)@.len() + 1 && final(output)@.last().text@ == c)
                    && (!active ==> final(output)@ == old(output)@)
            },
            directive_spec(text@) matches Some(DirectiveV::Ifndef { test, content }) ==> {
                let active = all_true(old(self).conds()) && !attr_test_holds(test, old(self).attrs());
                &&& res matches Ok(LineStep::Done)
                &&& content is None ==> final(self).conds() == old(self).conds().push(active)
                    && final(output)@ == old(output)@
                &&& content matches Some(c) ==> final(self).conds() == old(self).conds() && (active
                    ==> final(output)@.len() == old(output)@.len() + 1 && final(output)@.last().text@ == c)
                    && (!active ==> final(output)@ == old(output)@)
            },
            directive_spec(text@) matches Some(DirectiveV::Ifeval { expr }) ==> (res matches Ok(
                LineStep::Ifeval(ops),
            ) && ifeval_ops_are(ops, expr, old(self).attrs())) && final(self).conds() == old(self).conds() && final(output)@ == old(output)@,
            directive_spec(text@) matches Some(DirectiveV::Endif) ==> (old(self).conds().len() == 0
                ==> (res matches Err(PreprocessError::Diagnostic(d)) && d.code@
                == "adoc::preprocess::stray_endif"@)),
            directive_spec(text@) matches Some(DirectiveV::Endif) ==> (old(self).conds().len() == 0
                <==> res is Err) && (old(self).conds().len() > 0 ==> final(self).conds() == old(self).conds().drop_last()) && final(output)@ == old(output)@,
            directive_spec(text@) matches Some(DirectiveV::Include { .. }) ==> final(output)@ == old(output)@ && final(self).conds() == old(self).conds() && (!all_true(old(self).conds())
                ==> res matches Ok(LineStep::Done)) && (all_true(old(self).conds()) && old(self).mode() == SafeMode::Secure ==> res is Err),
            directive_spec(text@) matches Some(DirectiveV::Include { target, args }) ==> (all_true(
                old(self).conds(),
            ) ==> old(self).include_outcome(target, args, source_path@, res)),
    {
        match parse_directive(text) {
            Some(directive) => self.handle_directive(directive, location, source_path, output),
            None => {
                if !self.emitting() {
                    return Ok(LineStep::Done);
                }
                if let Some((name, value)) = crate::parser::header::parse_attribute_entry(text) {
                    self.attributes.insert(name, value);
                }
                output.push(PreprocessedLine { text: text.to_string(), location });
                Ok(LineStep::Done)
            },
        }
    }

    fn handle_directive(
        &mut self,
        directive: Directive,
        location: Location,
        source_path: &str,
        output: &mut Vec<PreprocessedLine>,
    ) -> (res: Result<LineStep, PreprocessError>)
        ensures
            final(self).chain() == old(self).chain(),
            final(self).mode() == old(self).mode(),
            final(self).attrs() == old(self).attrs(),
            directive_v(directive) matches DirectiveV::Ifdef { test, content } ==> {
                let active = all_true(old(self).conds()) && attr_test_holds(test, old(self).attrs());
                &&& res matches Ok(LineStep::Done)
                &&& content is None ==> final(self).conds() == old(self).conds().push(active)
                    && final(output)@ == old(output)@
                &&& content matches Some(c) ==> final(self).conds() == old(self).conds() && (active
                    ==> final(output)@.len() == old(output)@.len() + 1 && final(output)@.last().text@ == c)
                    && (!active ==> final(output)@ == old(output)@)
            },
            directive_v(directive) matches DirectiveV::Ifndef { test, content } ==> {
                let active = all_true(old(self).conds()) && !attr_test_holds(test, old(self).attrs());
                &&& res matches Ok(LineStep::Done)
                &&& content is None ==> final(self).conds() == old(self).conds().push(active)
                    && final(output)@ == old(output)@
                &&& content matches Some(c) ==> final(self).conds() == old(self).conds() && (active
                    ==> final(output)@.len() == old(output)@.len() + 1 && final(output)@.last().text@ == c)
                    && (!active ==> final(output)@ == old(output)@)
            },
            directive_v(directive) matches DirectiveV::Ifeval { expr } ==> (res matches Ok(LineStep::Ifeval(ops)) && ifeval_ops_are(ops, expr, old(self).attrs())) && final(self).conds() == old(self).conds() && final(output)@ == old(output)@,
            directive_v(directive) is Endif ==> (old(self).conds().len() == 0 ==> (res matches Err(
                PreprocessError::Diagnostic(d),
            ) && d.code@ == "adoc::preprocess::stray_endif"@)),
            directive_v(directive) is Endif ==> (old(self).conds().len() == 0 <==> res is Err) && (
            old(self).conds().len() > 0 ==> final(self).conds() == old(self).conds().drop_last())
                && final(output)@ == old(output)@,
            directive_v(directive) is Include ==> final(output)@ == old(output)@ && final(self).conds()
                == old(self).conds() && (!all_true(old(self).conds()) ==> res matches Ok(
                LineStep::Done,
            )) && (all_true(old(self).conds()) && old(self).mode() == SafeMode::Secure ==> res is Err),
            directive_v(directive) matches DirectiveV::Include { target, args } ==> (all_true(
                old(self).conds(),
            ) ==> old(self).include_outcome(target, args, source_path@, res)),
    {
        match directive {
            Directive::Ifdef { test, content } => {
                let active = self.emitting() && eval_attr_test(&test, &self.attributes);
                self.handle_conditional(output, location, active, content);
                Ok(LineStep::Done)
            },
            Directive::Ifndef { test, content } => {
                let active = self.emitting() && !eval_attr_test(&test, &self.attributes);
                self.handle_conditional(output, location, active, content);
                Ok(LineStep::Done)
            },
            Directive::Ifeval { expr } => {
                let ops = ifeval_operands(expr.as_str(), &self.attributes);
                Ok(LineStep::Ifeval(ops))
            },
            Directive::Endif => {
                if self.cond_stack.len() == 0 {
                    return Err(
                        PreprocessError::diagnostic(
                            Diagnostic::error(
                                "adoc::preprocess::stray_endif",
                                "endif:: without a matching ifdef/ifndef/ifeval".to_string(),
                                location,
                            ).with_label("no open conditional to close".to_string()),
                        ),
                    );
                }
                self.cond_stack.pop();
                Ok(LineStep::Done)
            },
            Directive::Include { target, args } => {
                if !self.emitting() {
                    return Ok(LineStep::Done);
                }
                self.include_step(target.as_str(), args.as_str(), source_path, location)
            },
        }
    }

    fn handle_conditional(
        &mut self,
        output: &mut Vec<PreprocessedLine>,
        location: Location,
        active: bool,
        inline_content: Option<String>,
    )
        ensures
            final(self).chain() == old(self).chain(),
            final(self).mode() == old(self).mode(),
            final(self).attrs() == old(self).attrs(),
            inline_content is None ==> final(self).conds() == old(self).conds().push(active)
                && final(output)@ == old(output)@,
            inline_content matches Some(c) ==> final(self).conds() == old(self).conds() && (active
                ==> final(output)@.len() == old(output)@.len() + 1 && final(output)@.last().text@ == c@)
                && (!active ==> final(output)@ == old(output)@),
    {
        match inline_content {
            Some(content) => {
                if active {
                    output.push(PreprocessedLine { text: content, location });
                }
            },
            None => {
                self.cond_stack.push(active);
            },
        }
    }
}

/// A plain-message error becomes a span-carrying one at `location`;
/// other errors pass through.
pub fn upgrade_unscoped(e: PreprocessError, location: Location) -> (res: PreprocessError)
    ensures
        e is Message ==> (res matches PreprocessError::Diagnostic(d) && d.location == location
            && d.code@ == "adoc::preprocess::include_path"@ && (e matches PreprocessError::Message(
            m,
        ) ==> d.message@ == m@)),
        !(e is Message) ==> res == e,
{
    match e {
        PreprocessError::Message(msg) => PreprocessError::diagnostic(
            Diagnostic::error("adoc::preprocess::include_path", msg, location).with_label(
                "rejected by safe mode".to_string(),
            ),
        ),
        other => other,
    }
}

} // verus!
