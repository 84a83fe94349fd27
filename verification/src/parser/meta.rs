//! Block metadata parser.
//!
//! Recognises the metadata-line forms that attach to the next block:
//!
//! - `.Title` — a line starting with a single `.` followed by non-space,
//!   non-`.` content, becomes the block title (inline-parsed).
//! - `[attrlist]` — a line wrapped in single brackets carrying positional
//!   values, named attributes (`name=value`), and shorthand markers on the
//!   first positional (`#id`, `.role`, `%option`).
//! - `[[anchor]]` / `[[anchor, reftext]]` — a legacy block anchor.
//!
//! Multiple metadata lines may stack above a single block; a blank line in
//! between detaches them (the block parser decides what to do then).
use vstd::prelude::*;

use crate::ast::{inlines_v, meta_v, opt_str_v, strs_v, AttrV, Attributes, BlockMeta, Inline, InlineV, MetaV};
use crate::parser::inline_grammar::{inline_parse, normal_subs};
use crate::parser::cursor::{texts, Cursor};
use crate::parser::inline::{attr_name, is_attribute_name, parse_slice};
use crate::parser::subs::Subs;
use crate::text::{
    chars_of, find_char, find_char_in, is_whitespace, is_ws, split_char, split_on, starts_with,
    string_of, sub_string, sub_vec, trim, trim_bounds, trim_end, trim_end_vec, trim_vec, views,
};
use crate::parser::header::words_from;

verus! {

// ---------------------------------------------------------------------------
// line forms
// ---------------------------------------------------------------------------

/// `[[id]]` or `[[id, reftext]]` filling the whole (trimmed) line.
pub open spec fn block_anchor(text: Seq<char>) -> Option<(Seq<char>, Option<Seq<char>>)> {
    let t = trim(text);
    if t.len() < 4 || t[0] != '[' || t[1] != '[' || t[t.len() - 2] != ']' || t[t.len() - 1] != ']' {
        None
    } else {
        let inner = t.subrange(2, t.len() - 2);
        let (id, reftext) = match find_char(inner, ',') {
            Some(k) => (trim(inner.take(k)), Some(trim(inner.skip(k + 1)))),
            None => (trim(inner), None),
        };
        if attr_name(id) {
            Some((id, reftext))
        } else {
            None
        }
    }
}

/// Legacy block anchor: `[[name]]` or `[[name, reftext]]`.
pub fn try_parse_block_anchor(text: &str) -> (res: Option<(String, Option<String>)>)
    ensures
        res matches Some((id, rt)) ==> block_anchor(text@) == Some((id@, opt_str_v(rt))),
        res is None <==> block_anchor(text@) is None,
{
    let s = chars_of(text);
    let t = trim_vec(s.as_slice());
    let n = t.len();
    if n < 4 || t[0] != '[' || t[1] != '[' || t[n - 2] != ']' || t[n - 1] != ']' {
        return None;
    }
    let ghost inner = t@.subrange(2, n - 2);
    let (ia, ib, reftext) = match find_char_in(t.as_slice(), ',', 2, n - 2) {
        Some(k) => {
            let (ia, ib) = trim_bounds(t.as_slice(), 2, k);
            let (ra, rb) = trim_bounds(t.as_slice(), k + 1, n - 2);
            assert(t@.subrange(2, k as int) =~= inner.take(k - 2));
            assert(t@.subrange(k + 1, n - 2) =~= inner.skip(k - 2 + 1));
            (ia, ib, Some(sub_string(t.as_slice(), ra, rb)))
        },
        None => {
            let (ia, ib) = trim_bounds(t.as_slice(), 2, n - 2);
            (ia, ib, None)
        },
    };
    let id = sub_vec(t.as_slice(), ia, ib);
    if !is_attribute_name(id.as_slice()) {
        return None;
    }
    Some((string_of(id.as_slice()), reftext))
}

/// `.Title`: a `.` then a character other than `.`, space or tab.
pub open spec fn block_title_line(t: Seq<char>) -> bool {
    t.len() >= 2 && t[0] == '.' && t[1] != '.' && t[1] != ' ' && t[1] != '\t'
}

/// The title a `.Title` line gives: the text after the `.`, trailing
/// whitespace dropped, parsed as a normal paragraph.
pub open spec fn title_of(t: Seq<char>, attrs: Map<Seq<char>, AttrV>) -> Seq<InlineV> {
    inline_parse(trim_end(t.skip(1)), attrs, normal_subs())
}

/// `.Title` lines: the title text after the `.`, trailing whitespace
/// dropped, inline-parsed.
pub fn try_parse_block_title(text: &str, attrs: &Attributes) -> (res: Option<Vec<Inline>>)
    ensures
        match res {
            Some(v) => block_title_line(text@) && inlines_v(v@) == title_of(text@, attrs@),
            None => !block_title_line(text@),
        },
{
    let t = chars_of(text);
    if !(t.len() >= 2 && t[0] == '.' && t[1] != '.' && t[1] != ' ' && t[1] != '\t') {
        return None;
    }
    let rest = sub_vec(t.as_slice(), 1, t.len());
    assert(rest@ =~= text@.skip(1));
    let body = trim_end_vec(rest.as_slice());
    Some(parse_slice(body.as_slice(), attrs, Subs::normal()))
}

/// Comma-split state machine: double quotes protect commas, a backslash
/// escapes the next character (and is dropped).
pub open spec fn split_tl(
    s: Seq<char>,
    i: int,
    cur: Seq<char>,
    q: bool,
    esc: bool,
    parts: Seq<Seq<char>>,
) -> Seq<Seq<char>>
    decreases s.len() - i,
{
    if i < 0 || i >= s.len() {
        parts.push(cur)
    } else {
        let c = s[i];
        if esc {
            split_tl(s, i + 1, cur.push(c), q, false, parts)
        } else if c == '\\' {
            split_tl(s, i + 1, cur, q, true, parts)
        } else if c == '"' {
            split_tl(s, i + 1, cur.push(c), !q, false, parts)
        } else if c == ',' && !q {
            split_tl(s, i + 1, Seq::empty(), q, false, parts.push(cur))
        } else {
            split_tl(s, i + 1, cur.push(c), q, false, parts)
        }
    }
}

pub open spec fn split_top_level(s: Seq<char>) -> Seq<Seq<char>> {
    split_tl(s, 0, Seq::empty(), false, false, Seq::empty())
}

/// Comma-split, respecting double-quoted spans and backslash escapes.
fn split_top_level_commas(s: &[char]) -> (res: Vec<Vec<char>>)
    ensures
        views(res@) == split_top_level(s@),
{
    let mut parts: Vec<Vec<char>> = Vec::new();
    let mut current: Vec<char> = Vec::new();
    let mut in_quote = false;
    let mut escape = false;
    let mut i: usize = 0;
    assert(views(parts@) =~= Seq::<Seq<char>>::empty());
    assert(current@ =~= Seq::<char>::empty());
    while i < s.len()
        invariant
            i <= s.len(),
            split_tl(s@, i as int, current@, in_quote, escape, views(parts@)) == split_top_level(
                s@,
            ),
        decreases s.len() - i,
    {
        let ch = s[i];
        if escape {
            current.push(ch);
            escape = false;
        } else if ch == '\\' {
            escape = true;
        } else if ch == '"' {
            in_quote = !in_quote;
            current.push(ch);
        } else if ch == ',' && !in_quote {
            let ghost prev = views(parts@);
            let ghost cv = current@;
            parts.push(current);
            assert(views(parts@) =~= prev.push(cv));
            current = Vec::new();
            assert(current@ =~= Seq::<char>::empty());
        } else {
            current.push(ch);
        }
        i += 1;
    }
    let ghost prev = views(parts@);
    let ghost cv = current@;
    parts.push(current);
    assert(views(parts@) =~= prev.push(cv));
    parts
}

/// Comma-split, respecting double-quoted spans and backslash escapes.
pub fn split_top_level_pub(s: &[char]) -> (res: Vec<Vec<char>>)
    ensures
        views(res@) == split_top_level(s@),
{
    split_top_level_commas(s)
}

/// `s` trimmed, with one pair of surrounding double quotes removed.
pub fn unquote_pub(s: &[char]) -> (res: Vec<char>)
    ensures
        res@ == unquote(s@),
{
    unquote_exec(s)
}

/// `[…]` attrlist lines (not `[[…`): the comma-split pieces inside.
pub open spec fn attrlist(text: Seq<char>) -> Option<Seq<Seq<char>>> {
    let t = trim(text);
    if t.len() >= 2 && t[0] == '[' && t[1] == '[' {
        None
    } else if t.len() >= 2 && t[0] == '[' && t.last() == ']' {
        Some(split_top_level(t.subrange(1, t.len() - 1)))
    } else {
        None
    }
}

/// `[…]` attrlist lines. Returns the comma-split top-level pieces.
///
/// Excludes the legacy block anchor form `[[anchor]]`.
pub fn try_parse_attrlist(text: &str) -> (res: Option<Vec<String>>)
    ensures
        res matches Some(v) ==> attrlist(text@) == Some(v@.map_values(|p: String| p@)),
        res is None <==> attrlist(text@) is None,
{
    let s = chars_of(text);
    let t = trim_vec(s.as_slice());
    let n = t.len();
    if n >= 2 && t[0] == '[' && t[1] == '[' {
        return None;
    }
    if !(n >= 2 && t[0] == '[' && t[n - 1] == ']') {
        return None;
    }
    let inner = sub_vec(t.as_slice(), 1, n - 1);
    let pieces = split_top_level_commas(inner.as_slice());
    let mut out: Vec<String> = Vec::new();
    let mut i: usize = 0;
    while i < pieces.len()
        invariant
            i <= pieces.len(),
            out@.map_values(|p: String| p@) =~= views(pieces@).take(i as int),
        decreases pieces.len() - i,
    {
        let p = string_of(pieces[i].as_slice());
        let ghost prev = out@;
        out.push(p);
        assert(out@.map_values(|p: String| p@) =~= prev.map_values(|p: String| p@).push(p@));
        i += 1;
    }
    assert(views(pieces@).take(pieces.len() as int) =~= views(pieces@));
    Some(out)
}

// ---------------------------------------------------------------------------
// applying an attrlist
// ---------------------------------------------------------------------------

/// `s` trimmed, with one pair of surrounding double quotes removed.
pub open spec fn unquote(s: Seq<char>) -> Seq<char> {
    let t = trim(s);
    if t.len() >= 2 && t[0] == '"' && t.last() == '"' {
        t.subrange(1, t.len() - 1)
    } else {
        t
    }
}

fn unquote_exec(s: &[char]) -> (res: Vec<char>)
    ensures
        res@ == unquote(s@),
{
    let t = trim_vec(s);
    let n = t.len();
    if n >= 2 && t[0] == '"' && t[n - 1] == '"' {
        sub_vec(t.as_slice(), 1, n - 1)
    } else {
        t
    }
}

/// Index of the first `=` outside double quotes (escapes honoured).
pub open spec fn eq_from(s: Seq<char>, i: int, q: bool, esc: bool) -> Option<int>
    decreases s.len() - i,
{
    if i < 0 || i >= s.len() {
        None
    } else if esc {
        eq_from(s, i + 1, q, false)
    } else if s[i] == '\\' {
        eq_from(s, i + 1, q, true)
    } else if s[i] == '"' {
        eq_from(s, i + 1, !q, false)
    } else if s[i] == '=' && !q {
        Some(i)
    } else {
        eq_from(s, i + 1, q, false)
    }
}

/// `name=value` split at the first top-level `=`, when the name is valid.
pub open spec fn named_part(part: Seq<char>) -> Option<(Seq<char>, Seq<char>)> {
    match eq_from(part, 0, false, false) {
        Some(k) => {
            let name = trim(part.take(k));
            if attr_name(name) {
                Some((name, trim(part.skip(k + 1))))
            } else {
                None
            }
        },
        None => None,
    }
}

fn split_named(part: &[char]) -> (res: Option<(Vec<char>, Vec<char>)>)
    ensures
        res matches Some((n, v)) ==> named_part(part@) == Some((n@, v@)),
        res is None <==> named_part(part@) is None,
{
    let mut in_quote = false;
    let mut escape = false;
    let mut i: usize = 0;
    while i < part.len()
        invariant
            i <= part.len(),
            eq_from(part@, 0, false, false) == eq_from(part@, i as int, in_quote, escape),
        decreases part.len() - i,
    {
        let b = part[i];
        if escape {
            escape = false;
        } else if b == '\\' {
            escape = true;
        } else if b == '"' {
            in_quote = !in_quote;
        } else if b == '=' && !in_quote {
            let (na, nb) = trim_bounds(part, 0, i);
            assert(part@.subrange(0, i as int) =~= part@.take(i as int));
            let name = sub_vec(part, na, nb);
            if !is_attribute_name(name.as_slice()) {
                return None;
            }
            let (va, vb) = trim_bounds(part, i + 1, part.len());
            assert(part@.subrange(i + 1, part@.len() as int) =~= part@.skip(i + 1));
            return Some((name, sub_vec(part, va, vb)));
        }
        i += 1;
    }
    None
}

/// `split(',')`, each piece trimmed, empty pieces dropped.
pub open spec fn option_list(v: Seq<char>) -> Seq<Seq<char>> {
    split_char(v, ',').map_values(|p: Seq<char>| trim(p)).filter(|p: Seq<char>| p.len() > 0)
}

/// `name=value`: `id`, `role`, `options`/`opts` and `title` (parsed as a
/// normal paragraph) fold into their fields; any other name is kept as a
/// named attribute.
pub open spec fn named_effect(
    m: MetaV,
    name: Seq<char>,
    value: Seq<char>,
    attrs: Map<Seq<char>, AttrV>,
) -> MetaV {
    let v = unquote(value);
    if name == "id"@ {
        MetaV { id: Some(v), ..m }
    } else if name == "role"@ {
        MetaV { roles: m.roles + words_from(v, 0), ..m }
    } else if name == "options"@ || name == "opts"@ {
        MetaV { options: m.options + option_list(v), ..m }
    } else if name == "title"@ {
        MetaV { title: Some(inline_parse(v, attrs, normal_subs())), ..m }
    } else {
        MetaV { named: m.named.insert(name, v), ..m }
    }
}

/// One shorthand token: `#id`, `.role`, `%option`, or the leading style.
pub open spec fn token_effect(m: MetaV, kind: Option<char>, val: Seq<char>) -> MetaV {
    if val.len() == 0 {
        m
    } else {
        match kind {
            None => MetaV { style: Some(val), ..m },
            Some(c) => if c == '#' {
                MetaV { id: Some(val), ..m }
            } else if c == '.' {
                MetaV { roles: m.roles.push(val), ..m }
            } else {
                MetaV { options: m.options.push(val), ..m }
            },
        }
    }
}

/// Walks the first positional `style.role#id%opt`, applying each token.
pub open spec fn shorthand_from(v: Seq<char>, i: int, kind: Option<char>, cur: Seq<char>, m: MetaV) -> MetaV
    decreases v.len() - i,
{
    if i < 0 || i >= v.len() {
        token_effect(m, kind, cur)
    } else if v[i] == '#' || v[i] == '.' || v[i] == '%' {
        shorthand_from(v, i + 1, Some(v[i]), Seq::empty(), token_effect(m, kind, cur))
    } else {
        shorthand_from(v, i + 1, kind, cur.push(v[i]), m)
    }
}

pub open spec fn shorthand_effect(m: MetaV, value: Seq<char>) -> MetaV {
    shorthand_from(unquote(value), 0, None, Seq::empty(), m)
}

/// The attrlist pieces applied in order: the first non-empty positional
/// (before any named one) is the shorthand, later positionals are kept.
pub open spec fn attrlist_effect(
    m: MetaV,
    parts: Seq<Seq<char>>,
    consumed: bool,
    attrs: Map<Seq<char>, AttrV>,
) -> MetaV
    decreases parts.len(),
{
    if parts.len() == 0 {
        m
    } else {
        let part = trim(parts[0]);
        let rest = parts.drop_first();
        if part.len() == 0 {
            attrlist_effect(m, rest, consumed, attrs)
        } else {
            match named_part(part) {
                Some((name, value)) => attrlist_effect(named_effect(m, name, value, attrs), rest, true, attrs),
                None => if !consumed {
                    attrlist_effect(shorthand_effect(m, part), rest, true, attrs)
                } else {
                    attrlist_effect(
                        MetaV { positional: m.positional.push(unquote(part)), ..m },
                        rest,
                        consumed,
                        attrs,
                    )
                },
            }
        }
    }
}

fn push_words(out: &mut Vec<String>, v: &[char])
    ensures
        strs_v(final(out)@) == strs_v(old(out)@) + words_from(v@, 0),
{
    let ws = crate::parser::header::split_words(v);
    let mut i: usize = 0;
    while i < ws.len()
        invariant
            i <= ws.len(),
            strs_v(out@) =~= strs_v(old(out)@) + views(ws@).take(i as int),
        decreases ws.len() - i,
    {
        let w = string_of(ws[i].as_slice());
        let ghost prev = strs_v(out@);
        out.push(w);
        assert(strs_v(out@) =~= prev.push(w@));
        i += 1;
    }
    assert(views(ws@).take(ws.len() as int) =~= views(ws@));
}

fn push_options(out: &mut Vec<String>, v: &[char])
    ensures
        strs_v(final(out)@) == strs_v(old(out)@) + option_list(v@),
{
    let pieces = split_on(v, ',');
    let ghost mapped = views(pieces@).map_values(|p: Seq<char>| trim(p));
    let ghost base = strs_v(out@);
    let mut i: usize = 0;
    while i < pieces.len()
        invariant
            i <= pieces.len(),
            mapped == views(pieces@).map_values(|p: Seq<char>| trim(p)),
            strs_v(out@) == base + mapped.take(i as int).filter(|p: Seq<char>| p.len() > 0),
        decreases pieces.len() - i,
    {
        let t = trim_vec(pieces[i].as_slice());
        proof {
            reveal(Seq::filter);
            assert(mapped.take(i + 1).drop_last() =~= mapped.take(i as int));
            assert(mapped.take(i + 1).last() == t@);
        }
        if t.len() > 0 {
            let ghost prev = strs_v(out@);
            out.push(string_of(t.as_slice()));
            assert(strs_v(out@) =~= prev.push(t@));
        }
        i += 1;
    }
    assert(mapped.take(pieces.len() as int) =~= mapped);
}

fn apply_named(meta: &mut BlockMeta, name: &[char], value: &[char], attrs: &Attributes)
    ensures
        final(meta)@ == named_effect(old(meta)@, name@, value@, attrs@),
{
    proof {
        reveal_strlit("id");
        reveal_strlit("role");
        reveal_strlit("options");
        reveal_strlit("opts");
        reveal_strlit("title");
    }
    let v = unquote_exec(value);
    if crate::text::eq_lit(name, "id") {
        meta.id = Some(string_of(v.as_slice()));
    } else if crate::text::eq_lit(name, "role") {
        push_words(&mut meta.roles, v.as_slice());
    } else if crate::text::eq_lit(name, "options") || crate::text::eq_lit(name, "opts") {
        push_options(&mut meta.options, v.as_slice());
    } else if crate::text::eq_lit(name, "title") {
        meta.title = Some(parse_slice(v.as_slice(), attrs, Subs::normal()));
    } else {
        meta.named.insert(string_of(name), string_of(v.as_slice()));
    }
}

fn apply_token(meta: &mut BlockMeta, kind: Option<char>, val: Vec<char>)
    ensures
        final(meta)@ == token_effect(old(meta)@, kind, val@),
{
    if val.len() == 0 {
        return;
    }
    let s = string_of(val.as_slice());
    match kind {
        None => {
            meta.style = Some(s);
        },
        Some(c) => {
            if c == '#' {
                meta.id = Some(s);
            } else if c == '.' {
                let ghost prev = strs_v(meta.roles@);
                meta.roles.push(s);
                assert(strs_v(meta.roles@) =~= prev.push(val@));
            } else {
                let ghost prev = strs_v(meta.options@);
                meta.options.push(s);
                assert(strs_v(meta.options@) =~= prev.push(val@));
            }
        },
    }
}

/// Parse the first positional's shorthand: `style.role#id%opt` (any order
/// after the optional leading style).
fn apply_shorthand(meta: &mut BlockMeta, value: &[char])
    ensures
        final(meta)@ == shorthand_effect(old(meta)@, value@),
{
    let v = unquote_exec(value);
    let mut kind: Option<char> = None;
    let mut current: Vec<char> = Vec::new();
    let mut i: usize = 0;
    while i < v.len()
        invariant
            i <= v.len(),
            v@ == unquote(value@),
            shorthand_from(v@, i as int, kind, current@, meta@) == shorthand_effect(old(meta)@, value@),
        decreases v.len() - i,
    {
        let ch = v[i];
        if ch == '#' || ch == '.' || ch == '%' {
            let tok = current;
            apply_token(meta, kind, tok);
            kind = Some(ch);
            current = Vec::new();
            assert(current@ =~= Seq::<char>::empty());
        } else {
            current.push(ch);
        }
        i += 1;
    }
    apply_token(meta, kind, current);
}

pub fn apply_attrlist(meta: &mut BlockMeta, parts: Vec<String>, attrs: &Attributes)
    ensures
        final(meta)@ == attrlist_effect(
            old(meta)@,
            parts@.map_values(|p: String| p@),
            false,
            attrs@,
        ),
{
    let ghost pv = parts@.map_values(|p: String| p@);
    let mut shorthand_consumed = false;
    let mut i: usize = 0;
    assert(pv.skip(0) =~= pv);
    while i < parts.len()
        invariant
            i <= parts.len(),
            pv == parts@.map_values(|p: String| p@),
            attrlist_effect(meta@, pv.skip(i as int), shorthand_consumed, attrs@)
                == attrlist_effect(old(meta)@, pv, false, attrs@),
        decreases parts.len() - i,
    {
        let raw = chars_of(parts[i].as_str());
        let part = trim_vec(raw.as_slice());
        proof {
            assert(pv.skip(i as int)[0] == pv[i as int]);
            assert(pv.skip(i as int).drop_first() =~= pv.skip(i + 1));
        }
        if part.len() > 0 {
            match split_named(part.as_slice()) {
                Some((name, value)) => {
                    apply_named(meta, name.as_slice(), value.as_slice(), attrs);
                    shorthand_consumed = true;
                },
                None => {
                    if !shorthand_consumed {
                        shorthand_consumed = true;
                        apply_shorthand(meta, part.as_slice());
                    } else {
                        let u = unquote_exec(part.as_slice());
                        let ghost prev = strs_v(meta.positional@);
                        meta.positional.push(string_of(u.as_slice()));
                        assert(strs_v(meta.positional@) =~= prev.push(u@));
                    }
                },
            }
        }
        i += 1;
    }
}


// ---------------------------------------------------------------------------
// collecting metadata lines
// ---------------------------------------------------------------------------

/// The run of metadata lines from `i`: where it ends and what it sets.
pub open spec fn meta_from(ts: Seq<Seq<char>>, i: int, m: MetaV, attrs: Map<Seq<char>, AttrV>) -> (
    int,
    MetaV,
)
    decreases ts.len() - i,
{
    if i < 0 || i >= ts.len() {
        (i, m)
    } else if block_title_line(ts[i]) {
        meta_from(ts, i + 1, MetaV { title: Some(title_of(ts[i], attrs)), ..m }, attrs)
    } else if block_anchor(ts[i]) is Some {
        let (id, rt) = block_anchor(ts[i])->Some_0;
        let named = match rt {
            Some(r) => m.named.insert("reftext"@, r),
            None => m.named,
        };
        meta_from(ts, i + 1, MetaV { id: Some(id), named, ..m }, attrs)
    } else if attrlist(ts[i]) is Some {
        meta_from(ts, i + 1, attrlist_effect(m, attrlist(ts[i])->Some_0, false, attrs), attrs)
    } else {
        (i, m)
    }
}

/// Consume metadata lines (`.Title`, `[attrlist]`, `[[anchor]]`) until a
/// non-metadata line. Blank lines are not skipped.
pub fn collect_block_meta(cursor: &mut Cursor, attrs: &Attributes) -> (res: BlockMeta)
    requires
        0 <= old(cursor).pos() <= old(cursor).lines().len(),
    ensures
        final(cursor).lines() == old(cursor).lines(),
        old(cursor).pos() <= final(cursor).pos() <= final(cursor).lines().len(),
        (final(cursor).pos(), res@) == meta_from(
            texts(old(cursor).lines()),
            old(cursor).pos(),
            crate::ast::empty_meta(),
            attrs@,
        ),
{
    let ghost ts = texts(cursor.lines());
    let mut meta = BlockMeta::new();
    assert(meta@ == crate::ast::empty_meta());
    loop
        invariant
            cursor.lines() == old(cursor).lines(),
            ts == texts(cursor.lines()),
            0 <= cursor.pos() <= ts.len(),
            old(cursor).pos() <= cursor.pos(),
            meta_from(ts, cursor.pos(), meta@, attrs@) == meta_from(
                ts,
                old(cursor).pos(),
                crate::ast::empty_meta(),
                attrs@,
            ),
        decreases ts.len() - cursor.pos(),
    {
        let line = match cursor.peek() {
            Some(l) => l,
            None => {
                return meta;
            },
        };
        assert(ts[cursor.pos()] == line.text@);
        let text = line.text.as_str();
        if let Some(title) = try_parse_block_title(text, attrs) {
            meta.title = Some(title);
            cursor.advance();
            continue;
        }
        if let Some((id, reftext)) = try_parse_block_anchor(text) {
            meta.id = Some(id);
            if let Some(rt) = reftext {
                proof {
                    reveal_strlit("reftext");
                }
                meta.named.insert("reftext".to_string(), rt);
            }
            cursor.advance();
            continue;
        }
        if let Some(parts) = try_parse_attrlist(text) {
            apply_attrlist(&mut meta, parts, attrs);
            cursor.advance();
            continue;
        }
        return meta;
    }
}

} // verus!
