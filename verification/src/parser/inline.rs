//! Inline parser.
//!
//! Single-pass character walker that recognizes the six substitution groups.
//! Special characters are left as text in the AST; the HTML5 converter
//! handles entity escaping.
use vstd::prelude::*;
use vstd::slice::slice_subrange;

use crate::ast::{
    inline_v, inlines_v, lemma_inlines_v_push, opt_str_v, AttrV, AttributeValue, Attributes, Inline, InlineV,
    Wrap,
};
use crate::parser::inline_grammar::{
    anchor_macro, autolink, autolink_with, btn_macro, close_bracket, flushed, footnote_macro,
    image_macro, inline_parse, kbd_keys_html, kbd_macro, macro_at, marker, menu_items_html,
    menu_macro, opt_piece, pass_macro, passthrough, pieces, prefix_macro, punct_trimmed,
    quote_from, quote_with, scan, shorthand_xref, smart_left_ok, smart_quote, smart_with, step_at,
    lemma_walk_unfold, trailing_punct, url_end, url_stop, walk_from, xref_macro, Step,
};
use crate::parser::subs::Subs;
use crate::text::{is_digit, split_char, split_on, trim, trim_vec, views, 
    is_alphanumeric, is_ascii_alnum, is_ascii_alphanumeric, is_whitespace, is_word, is_word_char,
    is_ws, push_char, push_chars, push_str, starts_with, starts_with_lit, string_of, sub_string,
    sub_vec, trim_bounds, unicode_alnum, find_char, find_char_in, find_lit_in, find, chars_of,
};

verus! {

// ---------------------------------------------------------------------------
// names, escapes, closing markers
// ---------------------------------------------------------------------------

/// Attribute (and anchor) names: a letter, digit or `_`, then letters,
/// digits, `_` or `-`.
pub open spec fn attr_name(s: Seq<char>) -> bool {
    &&& s.len() > 0
    &&& (is_ascii_alnum(s[0]) || s[0] == '_')
    &&& forall|i: int|
        1 <= i < s.len() ==> is_ascii_alnum(#[trigger] s[i]) || s[i] == '_' || s[i] == '-'
}

pub fn is_attribute_name(s: &[char]) -> (res: bool)
    ensures
        res == attr_name(s@),
{
    if s.len() == 0 {
        return false;
    }
    if !(is_ascii_alphanumeric(s[0]) || s[0] == '_') {
        return false;
    }
    let mut i: usize = 1;
    while i < s.len()
        invariant
            1 <= i <= s.len(),
            forall|j: int|
                1 <= j < i ==> is_ascii_alnum(#[trigger] s@[j]) || s@[j] == '_' || s@[j] == '-',
        decreases s.len() - i,
    {
        let c = s[i];
        if !(is_ascii_alphanumeric(c) || c == '_' || c == '-') {
            return false;
        }
        i += 1;
    }
    true
}

/// First index `>= i` of `c` in `s` that a backslash does not escape;
/// `esc` says whether the character at `i` is escaped.
pub open spec fn unesc_from(s: Seq<char>, c: char, i: int, esc: bool) -> Option<int>
    decreases s.len() - i,
{
    if i < 0 || i >= s.len() {
        None
    } else if esc {
        unesc_from(s, c, i + 1, false)
    } else if s[i] == '\\' {
        unesc_from(s, c, i + 1, true)
    } else if s[i] == c {
        Some(i)
    } else {
        unesc_from(s, c, i + 1, false)
    }
}

/// Offset in `s[from..to]` of the first unescaped `needle`.
pub fn find_unescaped(s: &[char], from: usize, to: usize, needle: char) -> (res: Option<usize>)
    requires
        from <= to <= s.len(),
    ensures
        res matches Some(k) ==> unesc_from(s@.subrange(from as int, to as int), needle, 0, false)
            == Some(k as int),
        res is None ==> unesc_from(s@.subrange(from as int, to as int), needle, 0, false) is None,
        res matches Some(k) ==> from + k < to && s@[from + k] == needle,
        res matches Some(k) ==> (s@[from as int] != needle ==> k > 0),
{
    let ghost t = s@.subrange(from as int, to as int);
    let mut escape = false;
    let mut k = from;
    while k < to
        invariant
            from <= k <= to <= s.len(),
            t == s@.subrange(from as int, to as int),
            unesc_from(t, needle, 0, false) == unesc_from(t, needle, k - from, escape),
        decreases to - k,
    {
        let ch = s[k];
        assert(t[k - from] == ch);
        if escape {
            escape = false;
        } else if ch == '\\' {
            escape = true;
        } else if ch == needle {
            return Some(k - from);
        }
        k += 1;
    }
    None
}

/// Index in `hay` of a closing `m` that ends a span opened just before
/// `hay`, searching from `i`: the span must be non-empty and must not end
/// in whitespace; a constrained close must not be followed by a word
/// character.
pub open spec fn closing_from(hay: Seq<char>, m: Seq<char>, constrained: bool, i: int) -> Option<
    int,
>
    decreases hay.len() + 1 - i,
{
    if i < 0 || i + m.len() > hay.len() {
        None
    } else if hay.subrange(i, i + m.len()) == m {
        if i == 0 {
            None
        } else if is_ws(hay[i - 1]) {
            closing_from(hay, m, constrained, i + 1)
        } else if constrained && i + m.len() < hay.len() && is_word(hay[i + m.len()]) {
            closing_from(hay, m, constrained, i + 1)
        } else {
            Some(i)
        }
    } else {
        closing_from(hay, m, constrained, i + 1)
    }
}

/// Length of the inner text of a span whose opening `m` starts at
/// `start - m.len()`, i.e. the closing marker's offset in `src[start..]`.
fn find_closing(src: &[char], start: usize, m: &[char], constrained: bool) -> (res: Option<usize>)
    requires
        start <= src.len(),
        m.len() > 0,
    ensures
        res matches Some(k) ==> closing_from(src@.skip(start as int), m@, constrained, 0) == Some(
            k as int,
        ),
        res is None ==> closing_from(src@.skip(start as int), m@, constrained, 0) is None,
        res matches Some(k) ==> 0 < k && start + k + m.len() <= src.len(),
{
    let ghost hay = src@.skip(start as int);
    let n = src.len() - start;
    let mut i: usize = 0;
    while m.len() <= n && i <= n - m.len()
        invariant
            start + n == src.len(),
            hay == src@.skip(start as int),
            m.len() > 0,
            closing_from(hay, m@, constrained, 0) == closing_from(hay, m@, constrained, i as int),
        decreases n + 1 - i,
    {
        let hit = crate::text::starts_with_at(src, start + i, m);
        assert(src@.skip(start + i).take(m.len() as int) =~= hay.subrange(
            i as int,
            i + m.len(),
        ));
        if hit {
            if i == 0 {
                return None;
            }
            let before = src[start + i - 1];
            assert(hay[i - 1] == before);
            if is_whitespace(before) {
                i += 1;
                continue;
            }
            if constrained {
                let after_pos = start + i + m.len();
                if after_pos < src.len() {
                    assert(hay[i + m.len()] == src@[after_pos as int]);
                    if is_word_char(src[after_pos]) {
                        i += 1;
                        continue;
                    }
                }
            }
            return Some(i);
        }
        i += 1;
    }
    None
}

/// Can a constrained span open at `rem` (marker `m`) after `buf`?
pub open spec fn constrained_open(rem: Seq<char>, m: Seq<char>, buf: Seq<char>) -> bool {
    &&& starts_with(rem, m)
    &&& rem.len() > m.len()
    &&& !is_ws(rem[m.len() as int])
    &&& (buf.len() == 0 || !is_word(buf.last()))
}

fn is_constrained_open(src: &[char], pos: usize, m: &[char], buf: &[char]) -> (res: bool)
    requires
        pos <= src.len(),
    ensures
        res == constrained_open(src@.skip(pos as int), m@, buf@),
{
    if !crate::text::starts_with_at(src, pos, m) {
        return false;
    }
    let after = pos + m.len();
    if after >= src.len() {
        return false;
    }
    assert(src@.skip(pos as int)[m.len() as int] == src@[after as int]);
    if is_whitespace(src[after]) {
        return false;
    }
    if buf.len() == 0 {
        true
    } else {
        !is_word_char(buf[buf.len() - 1])
    }
}

// ---------------------------------------------------------------------------
// attribute references and replacements
// ---------------------------------------------------------------------------

/// What `{name}` resolves to.
pub open spec fn attr_ref_value(attrs: Map<Seq<char>, AttrV>, name: Seq<char>) -> Seq<char> {
    let literal = seq!['{'] + name + seq!['}'];
    if attrs.contains_key(name) {
        match attrs[name] {
            AttrV::Str(s) => s,
            AttrV::Bool(true) => Seq::empty(),
            AttrV::Bool(false) => literal,
        }
    } else {
        literal
    }
}

/// `{name}` at the start of `rem`: the resolved text and its length.
pub open spec fn attr_ref_at(rem: Seq<char>, attrs: Map<Seq<char>, AttrV>) -> Option<
    (Seq<char>, int),
> {
    if rem.len() == 0 || rem[0] != '{' {
        None
    } else {
        match find_char(rem, '}') {
            None => None,
            Some(close) => {
                let name = rem.subrange(1, close);
                if attr_name(name) {
                    Some((attr_ref_value(attrs, name), close + 1))
                } else {
                    None
                }
            },
        }
    }
}

fn resolve_attr(attrs: &Attributes, name: &[char]) -> (res: String)
    ensures
        res@ == attr_ref_value(attrs@, name@),
{
    let key = string_of(name);
    match attrs.get(key.as_str()) {
        Some(AttributeValue::String(s)) => s.clone(),
        Some(AttributeValue::Bool(true)) => String::new(),
        _ => {
            let mut out = String::new();
            push_char(&mut out, '{');
            push_chars(&mut out, name);
            push_char(&mut out, '}');
            assert(out@ =~= seq!['{'] + name@ + seq!['}']);
            out
        },
    }
}

fn try_attribute_ref(src: &[char], pos: usize, attrs: &Attributes) -> (res: Option<(String, usize)>)
    requires
        pos <= src.len(),
    ensures
        res is None <==> attr_ref_at(src@.skip(pos as int), attrs@) is None,
        res matches Some((v, n)) ==> attr_ref_at(src@.skip(pos as int), attrs@) == Some(
            (v@, n as int),
        ) && 0 < n && pos + n <= src.len(),
{
    let ghost rem = src@.skip(pos as int);
    if pos >= src.len() || src[pos] != '{' {
        return None;
    }
    let close = match find_char_in(src, '}', pos, src.len()) {
        Some(c) => c,
        None => {
            assert(src@.subrange(pos as int, src.len() as int) =~= rem);
            return None;
        },
    };
    assert(src@.subrange(pos as int, src.len() as int) =~= rem);
    proof {
        crate::text::lemma_find_char_from(rem, '}', 0);
        assert(rem[0] == '{');
    }
    let name = sub_vec(src, pos + 1, close);
    assert(name@ =~= rem.subrange(1, close - pos));
    if !is_attribute_name(name.as_slice()) {
        return None;
    }
    let v = resolve_attr(attrs, name.as_slice());
    Some((v, close - pos + 1))
}

/// The replacement for a typographic pattern at the start of `rem`.
pub open spec fn replacement_at(rem: Seq<char>) -> Option<(Seq<char>, int)> {
    if starts_with(rem, seq!['(', 'C', ')']) {
        Some((seq!['\u{00A9}'], 3))
    } else if starts_with(rem, seq!['(', 'R', ')']) {
        Some((seq!['\u{00AE}'], 3))
    } else if starts_with(rem, seq!['(', 'T', 'M', ')']) {
        Some((seq!['\u{2122}'], 4))
    } else if starts_with(rem, seq!['.', '.', '.']) {
        Some((seq!['\u{2026}'], 3))
    } else if starts_with(rem, seq!['-', '-']) {
        Some((seq!['\u{2014}'], 2))
    } else if starts_with(rem, seq!['-', '>']) {
        Some((seq!['\u{2192}'], 2))
    } else if starts_with(rem, seq!['=', '>']) {
        Some((seq!['\u{21D2}'], 2))
    } else if starts_with(rem, seq!['<', '-']) {
        Some((seq!['\u{2190}'], 2))
    } else if starts_with(rem, seq!['<', '=']) {
        Some((seq!['\u{21D0}'], 2))
    } else {
        None
    }
}

fn try_replacement(src: &[char], pos: usize) -> (res: Option<(char, usize)>)
    requires
        pos <= src.len(),
    ensures
        res matches Some((c, n)) ==> replacement_at(src@.skip(pos as int)) == Some(
            (seq![c], n as int),
        ),
        res is None ==> replacement_at(src@.skip(pos as int)) is None,
        res matches Some((c, n)) ==> 0 < n && pos + n <= src.len(),
{
    proof {
        reveal_strlit("(C)");
        assert("(C)"@ =~= seq!['(', 'C', ')']);
        reveal_strlit("(R)");
        assert("(R)"@ =~= seq!['(', 'R', ')']);
        reveal_strlit("(TM)");
        assert("(TM)"@ =~= seq!['(', 'T', 'M', ')']);
        reveal_strlit("...");
        assert("..."@ =~= seq!['.', '.', '.']);
        reveal_strlit("--");
        assert("--"@ =~= seq!['-', '-']);
        reveal_strlit("->");
        assert("->"@ =~= seq!['-', '>']);
        reveal_strlit("=>");
        assert("=>"@ =~= seq!['=', '>']);
        reveal_strlit("<-");
        assert("<-"@ =~= seq!['<', '-']);
        reveal_strlit("<=");
        assert("<="@ =~= seq!['<', '=']);
    }
    if starts_with_lit(src, pos, "(C)") {
        Some(('\u{00A9}', 3))
    } else if starts_with_lit(src, pos, "(R)") {
        Some(('\u{00AE}', 3))
    } else if starts_with_lit(src, pos, "(TM)") {
        Some(('\u{2122}', 4))
    } else if starts_with_lit(src, pos, "...") {
        Some(('\u{2026}', 3))
    } else if starts_with_lit(src, pos, "--") {
        Some(('\u{2014}', 2))
    } else if starts_with_lit(src, pos, "->") {
        Some(('\u{2192}', 2))
    } else if starts_with_lit(src, pos, "=>") {
        Some(('\u{21D2}', 2))
    } else if starts_with_lit(src, pos, "<-") {
        Some(('\u{2190}', 2))
    } else if starts_with_lit(src, pos, "<=") {
        Some(('\u{21D0}', 2))
    } else {
        None
    }
}

/// `s` with `&`, `"`, `<`, `>` replaced by their entities.
pub open spec fn escape_attr_spec(s: Seq<char>) -> Seq<char>
    decreases s.len(),
{
    if s.len() == 0 {
        Seq::empty()
    } else {
        let c = s.last();
        escape_attr_spec(s.drop_last()) + (if c == '&' {
            seq!['&', 'a', 'm', 'p', ';']
        } else if c == '"' {
            seq!['&', 'q', 'u', 'o', 't', ';']
        } else if c == '<' {
            seq!['&', 'l', 't', ';']
        } else if c == '>' {
            seq!['&', 'g', 't', ';']
        } else {
            seq![c]
        })
    }
}

pub fn push_escaped_attr(out: &mut String, s: &[char])
    ensures
        final(out)@ == old(out)@ + escape_attr_spec(s@),
{
    let mut i: usize = 0;
    while i < s.len()
        invariant
            i <= s.len(),
            out@ == old(out)@ + escape_attr_spec(s@.take(i as int)),
        decreases s.len() - i,
    {
        proof {
            reveal_strlit("&amp;");
            assert("&amp;"@ =~= seq!['&', 'a', 'm', 'p', ';']);
            reveal_strlit("&quot;");
            assert("&quot;"@ =~= seq!['&', 'q', 'u', 'o', 't', ';']);
            reveal_strlit("&lt;");
            assert("&lt;"@ =~= seq!['&', 'l', 't', ';']);
            reveal_strlit("&gt;");
            assert("&gt;"@ =~= seq!['&', 'g', 't', ';']);
        }
        let c = s[i];
        let ghost prev = out@;
        if c == '&' {
            push_str(out, "&amp;");
        } else if c == '"' {
            push_str(out, "&quot;");
        } else if c == '<' {
            push_str(out, "&lt;");
        } else if c == '>' {
            push_str(out, "&gt;");
        } else {
            push_char(out, c);
        }
        proof {
            let t = s@.take(i + 1);
            assert(t.drop_last() =~= s@.take(i as int));
            assert(t.last() == c);
            let piece = out@.subrange(prev.len() as int, out@.len() as int);
            assert(out@ =~= prev + piece);
            assert(escape_attr_spec(t) == escape_attr_spec(s@.take(i as int)) + piece);
            assert(out@ =~= old(out)@ + escape_attr_spec(s@.take(i + 1)));
        }
        i += 1;
    }
    assert(s@.take(s.len() as int) =~= s@);
}

/// `{name}` references in `s` replaced by string attribute values; any
/// other brace text is kept.
pub open spec fn subst_attrs_from(s: Seq<char>, attrs: Map<Seq<char>, AttrV>, i: int) -> Seq<char>
    decreases s.len() - i,
{
    if i < 0 || i >= s.len() {
        Seq::empty()
    } else {
        let hit = if s[i] == '{' {
            match find_char(s.skip(i + 1), '}') {
                Some(close) => {
                    let name = s.subrange(i + 1, i + 1 + close);
                    if attr_name(name) && attrs.contains_key(name) && attrs[name] is Str {
                        Some((attrs[name]->Str_0, close + 2))
                    } else {
                        None
                    }
                },
                None => None,
            }
        } else {
            None
        };
        match hit {
            Some((v, n)) => if n > 0 && i + n <= s.len() {
                v + subst_attrs_from(s, attrs, i + n)
            } else {
                Seq::empty()
            },
            None => seq![s[i]] + subst_attrs_from(s, attrs, i + 1),
        }
    }
}

/// Resolve `{name}` attribute references in a flat string. Used by macro
/// helpers that run before the regular attribute-substitution pass.
/// Unknown names are left literal.
pub fn substitute_attrs(s: &[char], attrs: &Attributes) -> (res: String)
    ensures
        res@ == subst_attrs_from(s@, attrs@, 0),
{
    let mut out = String::new();
    let mut i: usize = 0;
    while i < s.len()
        invariant
            i <= s.len(),
            out@ + subst_attrs_from(s@, attrs@, i as int) == subst_attrs_from(s@, attrs@, 0),
        decreases s.len() - i,
    {
        if s[i] == '{' {
            if let Some(close_abs) = find_char_in(s, '}', i + 1, s.len()) {
                assert(s@.subrange(i + 1, s.len() as int) =~= s@.skip(i + 1));
                let name = sub_vec(s, i + 1, close_abs);
                if is_attribute_name(name.as_slice()) {
                    let key = string_of(name.as_slice());
                    if let Some(AttributeValue::String(v)) = attrs.get(key.as_str()) {
                        let ghost before = out@;
                        push_str(&mut out, v.as_str());
                        assert(out@ + subst_attrs_from(s@, attrs@, close_abs + 1) =~= before
                            + subst_attrs_from(s@, attrs@, i as int));
                        i = close_abs + 1;
                        continue;
                    }
                }
            } else {
                assert(s@.subrange(i + 1, s.len() as int) =~= s@.skip(i + 1));
            }
        }
        let ghost before = out@;
        push_char(&mut out, s[i]);
        assert(out@ + subst_attrs_from(s@, attrs@, i + 1) =~= before + subst_attrs_from(
            s@,
            attrs@,
            i as int,
        ));
        i += 1;
    }
    assert(out@ + subst_attrs_from(s@, attrs@, i as int) =~= out@);
    out
}


// ---------------------------------------------------------------------------
// the walker
// ---------------------------------------------------------------------------

/// The inlines of `text` under `subs`.
pub fn parse(text: &str, attrs: &Attributes, subs: Subs) -> (res: Vec<Inline>)
    ensures
        inlines_v(res@) == inline_parse(text@, attrs@, subs),
{
    let src = chars_of(text);
    parse_slice(src.as_slice(), attrs, subs)
}

/// The inlines of `src` under `subs`.
pub fn parse_slice(src: &[char], attrs: &Attributes, subs: Subs) -> (res: Vec<Inline>)
    ensures
        inlines_v(res@) == inline_parse(src@, attrs@, subs),
    decreases src.len(), 5nat,
{
    if src.len() == 0 {
        let out: Vec<Inline> = Vec::new();
        assert(inlines_v(out@) =~= Seq::<InlineV>::empty());
        return out;
    }
    run_until(src, attrs, subs)
}

/// The pending text, if any, as a text node.
fn flush(buf: &mut Vec<char>, out: &mut Vec<Inline>)
    ensures
        final(buf)@.len() == 0,
        inlines_v(final(out)@) == flushed(old(buf)@, inlines_v(old(out)@)),
{
    if buf.len() > 0 {
        let value = string_of(buf.as_slice());
        let ghost prev = out@;
        out.push(Inline::Text { value });
        proof {
            lemma_inlines_v_push(prev, Inline::Text { value });
        }
        *buf = Vec::new();
    }
}

fn push_inline(out: &mut Vec<Inline>, x: Inline)
    ensures
        inlines_v(final(out)@) == inlines_v(old(out)@).push(inline_v(x)),
{
    let ghost prev = out@;
    out.push(x);
    proof {
        lemma_inlines_v_push(prev, x);
    }
}

fn append_inlines(out: &mut Vec<Inline>, more: Vec<Inline>)
    ensures
        inlines_v(final(out)@) == inlines_v(old(out)@) + inlines_v(more@),
{
    let ghost base = out@;
    let ghost all = more@;
    let mut more = more;
    out.append(&mut more);
    proof {
        crate::ast::lemma_inlines_v_add(base, all);
    }
}

/// What the walker found at one position.
enum Found {
    Node(Inline, usize),
    Nodes(Vec<Inline>, usize),
    Chars(Vec<char>, usize),
}

/// `f` is the step `s`, consuming at least one and at most `len`
/// characters.
spec fn found_is(f: Found, s: Step, len: int) -> bool {
    match f {
        Found::Node(x, n) => s == Step::Node(inline_v(x), n as int) && 0 < n <= len,
        Found::Nodes(xs, n) => s == Step::Nodes(inlines_v(xs@), n as int) && 0 < n <= len,
        Found::Chars(v, n) => s == Step::Chars(v@, n as int) && 0 < n <= len,
    }
}

/// The step at `pos`.
#[verifier::spinoff_prover]
fn step_here(src: &[char], pos: usize, buf: &[char], attrs: &Attributes, subs: Subs) -> (res: Found)
    requires
        pos < src.len(),
    ensures
        found_is(res, step_at(src@, attrs@, subs, pos as int, buf@), src.len() - pos),
    decreases src.len(), 3nat,
{
    let r = slice_subrange(src, pos, src.len());
    assert(r@ =~= src@.skip(pos as int));
    if subs.post_replacements && src.len() >= 2 && pos == src.len() - 2 && src[pos] == ' '
        && src[pos + 1] == '+' {
        return Found::Node(Inline::LineBreak, 2);
    }
    let mac = if subs.macros {
        match try_macro(r, attrs, subs) {
            Some(x) => Some(x),
            None => autolink_at(r, attrs),
        }
    } else {
        None
    };
    if let Some((x, n)) = mac {
        return Found::Node(x, n);
    }
    let aref = if subs.attributes {
        try_attribute_ref(src, pos, attrs)
    } else {
        None
    };
    if let Some((v, n)) = aref {
        return Found::Chars(chars_of(v.as_str()), n);
    }
    let pt = if subs.quotes {
        passthrough_at(r, buf)
    } else {
        None
    };
    if let Some((x, n)) = pt {
        return Found::Node(x, n);
    }
    let sq = if subs.quotes {
        smart_at(r, buf, attrs, subs)
    } else {
        None
    };
    if let Some((xs, n)) = sq {
        return Found::Nodes(xs, n);
    }
    let q = if subs.quotes {
        quote_at(r, buf, attrs, subs)
    } else {
        None
    };
    if let Some((x, n)) = q {
        return Found::Node(x, n);
    }
    let rep = if subs.replacements {
        try_replacement(src, pos)
    } else {
        None
    };
    if let Some((c, n)) = rep {
        return Found::Chars(one_char(c), n);
    }
    Found::Chars(one_char(src[pos]), 1)
}

fn one_char(c: char) -> (res: Vec<char>)
    ensures
        res@ == seq![c],
{
    let mut v: Vec<char> = Vec::new();
    v.push(c);
    assert(v@ =~= seq![c]);
    v
}

fn push_all(buf: &mut Vec<char>, v: &[char])
    ensures
        final(buf)@ == old(buf)@ + v@,
{
    let mut k: usize = 0;
    while k < v.len()
        invariant
            k <= v.len(),
            buf@ == old(buf)@ + v@.take(k as int),
        decreases v.len() - k,
    {
        buf.push(v[k]);
        assert(v@.take(k + 1) =~= v@.take(k as int).push(v@[k as int]));
        k += 1;
    }
    assert(v@.take(v.len() as int) =~= v@);
}

fn run_until(src: &[char], attrs: &Attributes, subs: Subs) -> (res: Vec<Inline>)
    requires
        src.len() > 0,
    ensures
        inlines_v(res@) == inline_parse(src@, attrs@, subs),
    decreases src.len(), 4nat,
{
    let mut out: Vec<Inline> = Vec::new();
    let mut buf: Vec<char> = Vec::new();
    let mut pos: usize = 0;
    assert(inlines_v(out@) =~= Seq::<InlineV>::empty());
    while pos < src.len()
        invariant
            pos <= src.len(),
            inline_parse(src@, attrs@, subs) == walk_from(
                src@,
                attrs@,
                subs,
                pos as int,
                buf@,
                inlines_v(out@),
            ),
        decreases src.len() - pos,
    {
        let ghost b0 = buf@;
        let ghost o0 = inlines_v(out@);
        let ghost p0 = pos as int;
        let f = step_here(src, pos, buf.as_slice(), attrs, subs);
        proof {
            lemma_walk_unfold(src@, attrs@, subs, p0, b0, o0);
        }
        match f {
            Found::Node(x, n) => {
                flush(&mut buf, &mut out);
                push_inline(&mut out, x);
                assert(buf@ =~= Seq::<char>::empty());
                pos += n;
            },
            Found::Nodes(xs, n) => {
                flush(&mut buf, &mut out);
                append_inlines(&mut out, xs);
                assert(buf@ =~= Seq::<char>::empty());
                pos += n;
            },
            Found::Chars(v, n) => {
                push_all(&mut buf, v.as_slice());
                pos += n;
            },
        }
    }
    flush(&mut buf, &mut out);
    out
}

// ---------------------------------------------------------------------------
// macros
// ---------------------------------------------------------------------------

/// `res` is the construct that `s` describes, consuming at least one and
/// at most `len` characters.
pub open spec fn step_is(res: Option<(Inline, usize)>, s: Option<(InlineV, int)>, len: int) -> bool {
    match res {
        Some((x, n)) => s == Some((inline_v(x), n as int)) && 0 < n <= len,
        None => s is None,
    }
}

/// First index `>= from` of `r` holding `[` (or, when `stop_ws`,
/// whitespace).
fn scan_in(r: &[char], from: usize, stop_ws: bool) -> (res: Option<usize>)
    requires
        from <= r.len(),
    ensures
        match res {
            Some(k) => scan(r@, from as int, stop_ws) == Some(k as int) && from <= k < r.len() && (
            r@[k as int] == '[' || (stop_ws && is_ws(r@[k as int]))),
            None => scan(r@, from as int, stop_ws) is None,
        },
{
    let mut k = from;
    while k < r.len()
        invariant
            from <= k <= r.len(),
            scan(r@, from as int, stop_ws) == scan(r@, k as int, stop_ws),
        decreases r.len() - k,
    {
        if r[k] == '[' || (stop_ws && is_whitespace(r[k])) {
            return Some(k);
        }
        k += 1;
    }
    None
}

/// Index in `r` of the first unescaped `]` at or after `k`.
fn close_in(r: &[char], k: usize) -> (res: Option<usize>)
    requires
        k <= r.len(),
    ensures
        match res {
            Some(e) => close_bracket(r@, k as int) == Some(e as int) && k <= e < r.len() && r@[e as int]
                == ']' && (r@[k as int] != ']' ==> k < e),
            None => close_bracket(r@, k as int) is None,
        },
{
    assert(r@.skip(k as int) =~= r@.subrange(k as int, r.len() as int));
    match find_unescaped(r, k, r.len(), ']') {
        Some(a) => Some(k + a),
        None => None,
    }
}

proof fn lemma_split_nonempty(s: Seq<char>, c: char)
    ensures
        split_char(s, c).len() >= 1,
{
}

/// The pieces of `r[a..b]` split at `sep`, each trimmed.
fn pieces_in(r: &[char], a: usize, b: usize, sep: char) -> (res: Vec<Vec<char>>)
    requires
        a <= b <= r.len(),
    ensures
        views(res@) == pieces(r@.subrange(a as int, b as int), sep),
        res@.len() >= 1,
{
    let sub = sub_vec(r, a, b);
    let parts = split_on(sub.as_slice(), sep);
    let ghost ps = pieces(sub@, sep);
    proof {
        lemma_split_nonempty(sub@, sep);
    }
    let mut out: Vec<Vec<char>> = Vec::new();
    let mut i: usize = 0;
    while i < parts.len()
        invariant
            i <= parts.len(),
            views(parts@) == split_char(sub@, sep),
            ps == pieces(sub@, sep),
            ps.len() == parts.len(),
            views(out@) == ps.take(i as int),
        decreases parts.len() - i,
    {
        let t = trim_vec(parts[i].as_slice());
        let ghost before = views(out@);
        out.push(t);
        proof {
            assert(views(parts@)[i as int] == parts@[i as int]@);
            assert(ps[i as int] == trim(split_char(sub@, sep)[i as int]));
            assert(views(out@) =~= before.push(t@));
            assert(views(out@) =~= ps.take(i + 1));
        }
        i += 1;
    }
    assert(ps.take(parts.len() as int) =~= ps);
    out
}

/// Whether some character of `r[a..b]` is whitespace.
fn any_ws(r: &[char], a: usize, b: usize) -> (res: bool)
    requires
        a <= b <= r.len(),
    ensures
        res == exists|k: int| a <= k < b && is_ws(#[trigger] r@[k]),
{
    let mut k = a;
    while k < b
        invariant
            a <= k <= b <= r.len(),
            forall|j: int| a <= j < k ==> !is_ws(#[trigger] r@[j]),
        decreases b - k,
    {
        if is_whitespace(r[k]) {
            assert(is_ws(r@[k as int]));
            return true;
        }
        k += 1;
    }
    false
}

/// Whether some character of `r[a..b]` is not an ASCII letter.
fn any_non_letter(r: &[char], a: usize, b: usize) -> (res: bool)
    requires
        a <= b <= r.len(),
    ensures
        res == exists|k: int|
            a <= k < b && (!is_ascii_alnum(#[trigger] r@[k]) || is_digit(r@[k])),
{
    let mut k = a;
    while k < b
        invariant
            a <= k <= b <= r.len(),
            forall|j: int| a <= j < k ==> !(!is_ascii_alnum(#[trigger] r@[j]) || is_digit(r@[j])),
        decreases b - k,
    {
        if !is_ascii_alphanumeric(r[k]) || crate::text::is_ascii_digit(r[k]) {
            assert(!is_ascii_alnum(r@[k as int]) || is_digit(r@[k as int]));
            return true;
        }
        k += 1;
    }
    false
}

/// `anchor:id[...]`: an empty `<a>` so the id becomes a link target; the
/// reftext is dropped.
fn anchor_at(r: &[char]) -> (res: Option<(Inline, usize)>)
    ensures
        step_is(res, anchor_macro(r@), r.len() as int),
{
    proof {
        reveal_strlit("anchor:");
        assert("anchor:"@ =~= seq!['a', 'n', 'c', 'h', 'o', 'r', ':']);
        assert(r@.skip(0) =~= r@);
    }
    if !starts_with_lit(r, 0, "anchor:") {
        return None;
    }
    let te = scan_in(r, 7, false)?;
    let id = sub_vec(r, 7, te);
    if id.len() == 0 || !is_attribute_name(id.as_slice()) {
        return None;
    }
    let ae = close_in(r, te)?;
    let mut html = String::new();
    push_str(&mut html, "<a id=\"");
    push_escaped_attr(&mut html, id.as_slice());
    push_str(&mut html, "\"></a>");
    assert(html@ =~= "<a id=\""@ + escape_attr_spec(id@) + "\"></a>"@);
    Some((Inline::RawHtml { value: html }, ae + 1))
}

/// The keys of a `kbd:` macro, each in its own `<kbd>`.
fn kbd_keys(ps: &Vec<Vec<char>>) -> (res: String)
    ensures
        res@ == kbd_keys_html(views(ps@)),
{
    let mut out = String::new();
    let mut i: usize = 0;
    while i < ps.len()
        invariant
            i <= ps.len(),
            out@ == kbd_keys_html(views(ps@).take(i as int)),
        decreases ps.len() - i,
    {
        let k = &ps[i];
        let ghost prev = out@;
        proof {
            let t = views(ps@).take(i + 1);
            assert(t.drop_last() =~= views(ps@).take(i as int));
            assert(t.last() == ps@[i as int]@);
        }
        if k.len() > 0 {
            if !out.as_str().is_empty() {
                push_char(&mut out, '+');
            }
            push_str(&mut out, "<kbd>");
            push_escaped_attr(&mut out, k.as_slice());
            push_str(&mut out, "</kbd>");
            assert(out@ =~= prev + (if prev.len() > 0 {
                seq!['+']
            } else {
                Seq::empty()
            }) + "<kbd>"@ + escape_attr_spec(k@) + "</kbd>"@);
        }
        i += 1;
    }
    assert(views(ps@).take(ps.len() as int) =~= views(ps@));
    out
}

/// `kbd:[Ctrl+Alt+Del]`: each `+`-separated key in its own `<kbd>`.
fn kbd_at(r: &[char]) -> (res: Option<(Inline, usize)>)
    ensures
        step_is(res, kbd_macro(r@), r.len() as int),
{
    proof {
        reveal_strlit("kbd:[");
        assert("kbd:["@ =~= seq!['k', 'b', 'd', ':', '[']);
        assert(r@.skip(0) =~= r@);
    }
    if !starts_with_lit(r, 0, "kbd:[") {
        return None;
    }
    assert(r@[4] == r@.take(5)[4]);
    let c = close_in(r, 4)?;
    let ps = pieces_in(r, 5, c, '+');
    let keys = kbd_keys(&ps);
    if keys.as_str().is_empty() {
        return None;
    }
    let mut html = String::new();
    push_str(&mut html, "<span class=\"keyseq\">");
    push_str(&mut html, keys.as_str());
    push_str(&mut html, "</span>");
    assert(html@ =~= "<span class=\"keyseq\">"@ + keys@ + "</span>"@);
    Some((Inline::RawHtml { value: html }, c + 1))
}

/// `btn:[Save]`: a UI button label.
fn btn_at(r: &[char]) -> (res: Option<(Inline, usize)>)
    ensures
        step_is(res, btn_macro(r@), r.len() as int),
{
    proof {
        reveal_strlit("btn:[");
        assert("btn:["@ =~= seq!['b', 't', 'n', ':', '[']);
        assert(r@.skip(0) =~= r@);
    }
    if !starts_with_lit(r, 0, "btn:[") {
        return None;
    }
    assert(r@[4] == r@.take(5)[4]);
    let c = close_in(r, 4)?;
    let inner = sub_vec(r, 5, c);
    let mut html = String::new();
    push_str(&mut html, "<b class=\"button\">[");
    push_escaped_attr(&mut html, inner.as_slice());
    push_str(&mut html, "]</b>");
    assert(html@ =~= "<b class=\"button\">["@ + escape_attr_spec(inner@) + "]</b>"@);
    Some((Inline::RawHtml { value: html }, c + 1))
}

/// The items of a `menu:` macro, each after a `›`.
fn menu_items(ps: &Vec<Vec<char>>) -> (res: String)
    ensures
        res@ == menu_items_html(views(ps@)),
{
    let mut out = String::new();
    let mut i: usize = 0;
    while i < ps.len()
        invariant
            i <= ps.len(),
            out@ == menu_items_html(views(ps@).take(i as int)),
        decreases ps.len() - i,
    {
        let k = &ps[i];
        let ghost prev = out@;
        proof {
            let t = views(ps@).take(i + 1);
            assert(t.drop_last() =~= views(ps@).take(i as int));
            assert(t.last() == ps@[i as int]@);
        }
        if k.len() > 0 {
            push_str(&mut out, " \u{203A} <span class=\"menuitem\">");
            push_escaped_attr(&mut out, k.as_slice());
            push_str(&mut out, "</span>");
            assert(out@ =~= prev + " \u{203A} <span class=\"menuitem\">"@ + escape_attr_spec(k@)
                + "</span>"@);
        }
        i += 1;
    }
    assert(views(ps@).take(ps.len() as int) =~= views(ps@));
    out
}

/// `menu:File[Save > Save As]`: a menu path joined with `›`.
fn menu_at(r: &[char]) -> (res: Option<(Inline, usize)>)
    ensures
        step_is(res, menu_macro(r@), r.len() as int),
{
    proof {
        reveal_strlit("menu:");
        assert("menu:"@ =~= seq!['m', 'e', 'n', 'u', ':']);
        assert(r@.skip(0) =~= r@);
    }
    if !starts_with_lit(r, 0, "menu:") {
        return None;
    }
    let b = scan_in(r, 5, false)?;
    if b == 5 || any_ws(r, 5, b) {
        return None;
    }
    let ae = close_in(r, b)?;
    let ps = pieces_in(r, b + 1, ae, '>');
    let items = menu_items(&ps);
    let target = sub_vec(r, 5, b);
    let mut html = String::new();
    push_str(&mut html, "<span class=\"menuseq\"><span class=\"menu\">");
    push_escaped_attr(&mut html, target.as_slice());
    push_str(&mut html, "</span>");
    push_str(&mut html, items.as_str());
    push_str(&mut html, "</span>");
    assert(html@ =~= "<span class=\"menuseq\"><span class=\"menu\">"@ + escape_attr_spec(target@)
        + "</span>"@ + items@ + "</span>"@);
    Some((Inline::RawHtml { value: html }, ae + 1))
}

/// `pass:[text]`: the text verbatim, with no escaping and no further
/// substitution.
fn pass_at(r: &[char]) -> (res: Option<(Inline, usize)>)
    ensures
        step_is(res, pass_macro(r@), r.len() as int),
{
    proof {
        reveal_strlit("pass:");
        assert("pass:"@ =~= seq!['p', 'a', 's', 's', ':']);
        assert(r@.skip(0) =~= r@);
    }
    if !starts_with_lit(r, 0, "pass:") {
        return None;
    }
    let b = scan_in(r, 5, false)?;
    if any_non_letter(r, 5, b) {
        return None;
    }
    let ae = close_in(r, b)?;
    let value = sub_string(r, b + 1, ae);
    Some((Inline::RawHtml { value }, ae + 1))
}

/// A single text node.
fn single_text(value: String) -> (res: Vec<Inline>)
    ensures
        inlines_v(res@) == seq![InlineV::Text(value@)],
{
    let mut out: Vec<Inline> = Vec::new();
    let ghost empty = out@;
    out.push(Inline::Text { value });
    proof {
        lemma_inlines_v_push(empty, out@[0]);
        assert(empty.push(out@[0]) =~= out@);
        assert(inlines_v(empty) =~= Seq::<InlineV>::empty());
    }
    out
}

/// `link:target[text]` and `mailto:addr[text]`; attribute references in
/// the target and text are resolved here.
fn prefix_at(r: &[char], mailto: bool, attrs: &Attributes) -> (res: Option<(Inline, usize)>)
    ensures
        step_is(res, prefix_macro(r@, mailto, attrs@), r.len() as int),
{
    proof {
        reveal_strlit("mailto:");
        assert("mailto:"@ =~= seq!['m', 'a', 'i', 'l', 't', 'o', ':']);
        reveal_strlit("link:");
        assert("link:"@ =~= seq!['l', 'i', 'n', 'k', ':']);
        assert(r@.skip(0) =~= r@);
    }
    let plen: usize = if mailto {
        7
    } else {
        5
    };
    let hit = if mailto {
        starts_with_lit(r, 0, "mailto:")
    } else {
        starts_with_lit(r, 0, "link:")
    };
    if !hit {
        return None;
    }
    let te = scan_in(r, plen, true)?;
    if r[te] != '[' || te == plen {
        return None;
    }
    let ae = close_in(r, te)?;
    let raw_target = sub_vec(r, plen, te);
    let target = substitute_attrs(raw_target.as_slice(), attrs);
    let ps = pieces_in(r, te + 1, ae, ',');
    proof {
        assert(views(ps@)[0] == ps@[0]@);
    }
    let text_value = if ps[0].len() == 0 {
        target.clone()
    } else {
        substitute_attrs(ps[0].as_slice(), attrs)
    };
    let mut href = String::new();
    if mailto {
        push_str(&mut href, "mailto:");
    }
    push_str(&mut href, target.as_str());
    assert(href@ =~= (if mailto {
        seq!['m', 'a', 'i', 'l', 't', 'o', ':']
    } else {
        Seq::empty()
    }) + target@);
    let text = single_text(text_value);
    Some((Inline::Link { href, text }, ae + 1))
}

/// The piece at `i` when it is there and not empty.
fn piece_at(ps: &Vec<Vec<char>>, i: usize) -> (res: Option<String>)
    ensures
        opt_str_v(res) == opt_piece(views(ps@), i as int),
{
    if i < ps.len() && ps[i].len() > 0 {
        assert(views(ps@)[i as int] == ps@[i as int]@);
        Some(string_of(ps[i].as_slice()))
    } else {
        None
    }
}

/// `image:target[alt,width,height]` (the inline form; `image::` is a
/// block).
pub(crate) fn image_at(r: &[char]) -> (res: Option<(Inline, usize)>)
    ensures
        step_is(res, image_macro(r@), r.len() as int),
{
    proof {
        reveal_strlit("image:");
        assert("image:"@ =~= seq!['i', 'm', 'a', 'g', 'e', ':']);
        assert(r@.skip(0) =~= r@);
    }
    if !starts_with_lit(r, 0, "image:") || (r.len() > 6 && r[6] == ':') {
        return None;
    }
    let te = scan_in(r, 6, true)?;
    if r[te] != '[' || te == 6 {
        return None;
    }
    let ae = close_in(r, te)?;
    let ps = pieces_in(r, te + 1, ae, ',');
    proof {
        assert(views(ps@)[0] == ps@[0]@);
    }
    let alt = string_of(ps[0].as_slice());
    let width = piece_at(&ps, 1);
    let height = piece_at(&ps, 2);
    let target = sub_string(r, 6, te);
    Some((Inline::Image { target, alt, width, height }, ae + 1))
}

fn is_url_end(c: char) -> (res: bool)
    ensures
        res == url_end(c),
{
    is_whitespace(c) || c == '[' || c == ']' || c == '<' || c == '>'
}

fn is_trailing_punct(c: char) -> (res: bool)
    ensures
        res == trailing_punct(c),
{
    c == '.' || c == ',' || c == ';' || c == ':' || c == '!' || c == '?'
}

/// A bare URL with the given scheme at the start of `r`, optionally
/// followed by a `[label]`; trailing sentence punctuation is not part of
/// the URL.
fn autolink_scheme(r: &[char], scheme: &str, attrs: &Attributes) -> (res: Option<(Inline, usize)>)
    requires
        scheme@.len() > 0,
    ensures
        step_is(res, autolink_with(r@, scheme@, attrs@), r.len() as int),
{
    assert(r@.skip(0) =~= r@);
    if !starts_with_lit(r, 0, scheme) {
        return None;
    }
    let sch = chars_of(scheme);
    let slen = sch.len();
    let mut end: usize = 0;
    while end < r.len() && !is_url_end(r[end])
        invariant
            end <= r.len(),
            url_stop(r@, 0) == url_stop(r@, end as int),
        decreases r.len() - end,
    {
        end += 1;
    }
    if end <= slen {
        return None;
    }
    let mut tl = end;
    while tl > slen && is_trailing_punct(r[tl - 1])
        invariant
            slen <= tl <= end <= r.len(),
            punct_trimmed(r@, slen as int, end as int) == punct_trimmed(r@, slen as int, tl as int),
        decreases tl,
    {
        tl -= 1;
    }
    let href = sub_string(r, 0, tl);
    assert(href@ =~= r@.take(tl as int));
    if tl < r.len() && r[tl] == '[' {
        if let Some(c) = close_in(r, tl) {
            let ps = pieces_in(r, tl + 1, c, ',');
            proof {
                assert(views(ps@)[0] == ps@[0]@);
            }
            let text_value = if ps[0].len() == 0 {
                href.clone()
            } else {
                substitute_attrs(ps[0].as_slice(), attrs)
            };
            let text = single_text(text_value);
            return Some((Inline::Link { href, text }, c + 1));
        }
    }
    let text = single_text(href.clone());
    Some((Inline::Link { href, text }, tl))
}

/// Bare `https://`, `http://` and `ftp://` URLs.
fn autolink_at(r: &[char], attrs: &Attributes) -> (res: Option<(Inline, usize)>)
    ensures
        step_is(res, autolink(r@, attrs@), r.len() as int),
{
    proof {
        reveal_strlit("https://");
        assert("https://"@ =~= seq!['h', 't', 't', 'p', 's', ':', '/', '/']);
        reveal_strlit("http://");
        assert("http://"@ =~= seq!['h', 't', 't', 'p', ':', '/', '/']);
        reveal_strlit("ftp://");
        assert("ftp://"@ =~= seq!['f', 't', 'p', ':', '/', '/']);
    }
    if let Some(x) = autolink_scheme(r, "https://", attrs) {
        return Some(x);
    }
    if let Some(x) = autolink_scheme(r, "http://", attrs) {
        return Some(x);
    }
    autolink_scheme(r, "ftp://", attrs)
}

/// `++text++` (unconstrained) and `+text+` (constrained): the text with
/// no further substitution.
fn passthrough_at(r: &[char], buf: &[char]) -> (res: Option<(Inline, usize)>)
    ensures
        step_is(res, passthrough(r@, buf@), r.len() as int),
{
    proof {
        reveal_strlit("++");
        assert("++"@ =~= seq!['+', '+']);
        reveal_strlit("+");
        assert("+"@ =~= seq!['+']);
        assert(r@.skip(0) =~= r@);
    }
    if starts_with_lit(r, 0, "++") {
        let m = chars_of("++");
        return match find_closing(r, 2, m.as_slice(), false) {
            Some(k) => {
                let value = sub_string(r, 2, 2 + k);
                Some((Inline::Passthrough { value }, k + 4))
            },
            None => None,
        };
    }
    let m1 = chars_of("+");
    if is_constrained_open(r, 0, m1.as_slice(), buf) {
        match find_closing(r, 1, m1.as_slice(), true) {
            Some(k) => {
                let value = sub_string(r, 1, 1 + k);
                Some((Inline::Passthrough { value }, k + 2))
            },
            None => None,
        }
    } else {
        None
    }
}

/// `xref:target[text]`: the text, if any, parsed as a normal paragraph.
fn xref_at(r: &[char], attrs: &Attributes) -> (res: Option<(Inline, usize)>)
    ensures
        step_is(res, xref_macro(r@, attrs@), r.len() as int),
    decreases r.len(), 1nat,
{
    proof {
        reveal_strlit("xref:");
        assert("xref:"@ =~= seq!['x', 'r', 'e', 'f', ':']);
        assert(r@.skip(0) =~= r@);
    }
    if !starts_with_lit(r, 0, "xref:") {
        return None;
    }
    let te = scan_in(r, 5, false)?;
    if te == 5 {
        return None;
    }
    let ae = close_in(r, te)?;
    let target = sub_string(r, 5, te);
    let text = if ae == te + 1 {
        None
    } else {
        let inner = sub_vec(r, te + 1, ae);
        Some(parse_slice(inner.as_slice(), attrs, Subs::normal()))
    };
    Some((Inline::Xref { target, text }, ae + 1))
}

/// `<<target>>` and `<<target,text>>`: both trimmed, the text parsed as a
/// normal paragraph.
fn shorthand_xref_at(r: &[char], attrs: &Attributes) -> (res: Option<(Inline, usize)>)
    ensures
        step_is(res, shorthand_xref(r@, attrs@), r.len() as int),
    decreases r.len(), 1nat,
{
    proof {
        reveal_strlit("<<");
        assert("<<"@ =~= seq!['<', '<']);
        reveal_strlit(">>");
        assert(">>"@ =~= seq!['>', '>']);
        assert(r@.skip(0) =~= r@);
    }
    if !starts_with_lit(r, 0, "<<") {
        return None;
    }
    assert(r@.skip(2) =~= r@.subrange(2, r.len() as int));
    let c = find_lit_in(r, ">>", 2, r.len())?;
    let (ta, tb, text) = match find_char_in(r, ',', 2, c) {
        Some(cm) => {
            let (ta, tb) = trim_bounds(r, 2, cm);
            let (ra, rb) = trim_bounds(r, cm + 1, c);
            let inner = sub_vec(r, ra, rb);
            (ta, tb, Some(parse_slice(inner.as_slice(), attrs, Subs::normal())))
        },
        None => {
            let (ta, tb) = trim_bounds(r, 2, c);
            (ta, tb, None)
        },
    };
    if ta == tb {
        return None;
    }
    let target = sub_string(r, ta, tb);
    Some((Inline::Xref { target, text }, c + 2))
}

/// `footnote:[text]` and `footnote:id[text]`: the text parsed with the
/// active substitutions.
fn footnote_at(r: &[char], attrs: &Attributes, subs: Subs) -> (res: Option<(Inline, usize)>)
    ensures
        step_is(res, footnote_macro(r@, attrs@, subs), r.len() as int),
    decreases r.len(), 1nat,
{
    proof {
        reveal_strlit("footnote:");
        assert("footnote:"@ =~= seq!['f', 'o', 'o', 't', 'n', 'o', 't', 'e', ':']);
        assert(r@.skip(0) =~= r@);
    }
    if !starts_with_lit(r, 0, "footnote:") {
        return None;
    }
    let b = scan_in(r, 9, false)?;
    let id_chars = sub_vec(r, 9, b);
    if id_chars.len() > 0 && !is_attribute_name(id_chars.as_slice()) {
        return None;
    }
    let ae = close_in(r, b)?;
    let inner = sub_vec(r, b + 1, ae);
    let text = parse_slice(inner.as_slice(), attrs, subs);
    let id = if id_chars.len() == 0 {
        None
    } else {
        Some(string_of(id_chars.as_slice()))
    };
    Some((Inline::Footnote { id, text }, ae + 1))
}

/// The first macro that matches at the start of `r`.
fn try_macro(r: &[char], attrs: &Attributes, subs: Subs) -> (res: Option<(Inline, usize)>)
    ensures
        step_is(res, macro_at(r@, attrs@, subs), r.len() as int),
    decreases r.len(), 2nat,
{
    if let Some(m) = anchor_at(r) {
        return Some(m);
    }
    if let Some(m) = kbd_at(r) {
        return Some(m);
    }
    if let Some(m) = btn_at(r) {
        return Some(m);
    }
    if let Some(m) = menu_at(r) {
        return Some(m);
    }
    if let Some(m) = prefix_at(r, false, attrs) {
        return Some(m);
    }
    if let Some(m) = prefix_at(r, true, attrs) {
        return Some(m);
    }
    if let Some(m) = image_at(r) {
        return Some(m);
    }
    if let Some(m) = xref_at(r, attrs) {
        return Some(m);
    }
    if let Some(m) = shorthand_xref_at(r, attrs) {
        return Some(m);
    }
    if let Some(m) = footnote_at(r, attrs, subs) {
        return Some(m);
    }
    pass_at(r)
}

// ---------------------------------------------------------------------------
// smart quotes and quoted spans
// ---------------------------------------------------------------------------

/// `res` is the run of inlines that `s` describes, consuming at least one
/// and at most `len` characters.
pub open spec fn run_is(res: Option<(Vec<Inline>, usize)>, s: Option<(Seq<InlineV>, int)>, len: int) -> bool {
    match res {
        Some((xs, n)) => s == Some((inlines_v(xs@), n as int)) && 0 < n <= len,
        None => s is None,
    }
}

/// No word character ends `buf`.
fn left_ok(buf: &[char]) -> (res: bool)
    ensures
        res == smart_left_ok(buf@),
{
    if buf.len() == 0 {
        true
    } else {
        let c = buf[buf.len() - 1];
        !is_alphanumeric(c) && c != '_'
    }
}

/// The smart quote of pair `p` (``"`…`"`` or ``'`…`'``) at the start of
/// `r`.
#[verifier::spinoff_prover]
#[verifier::rlimit(40)]
fn smart_pair_at(r: &[char], buf: &[char], attrs: &Attributes, subs: Subs, p: usize) -> (res: Option<
    (Vec<Inline>, usize),
>)
    requires
        p < 2,
    ensures
        run_is(res, smart_with(r@, buf@, attrs@, subs, p as int), r.len() as int),
    decreases r.len(), 1nat,
{
    proof {
        reveal_strlit("\"`");
        assert("\"`"@ =~= seq!['"', '`']);
        reveal_strlit("'`");
        assert("'`"@ =~= seq!['\'', '`']);
        reveal_strlit("`\"");
        assert("`\""@ =~= seq!['`', '"']);
        reveal_strlit("`'");
        assert("`'"@ =~= seq!['`', '\'']);
        assert(r@.skip(0) =~= r@);
        assert(r@.skip(2) =~= r@.subrange(2, r.len() as int));
    }
    let (open, close, lq, rq) = if p == 0 {
        ("\"`", "`\"", '\u{201C}', '\u{201D}')
    } else {
        ("'`", "`'", '\u{2018}', '\u{2019}')
    };
    if !(starts_with_lit(r, 0, open) && left_ok(buf) && 2 < r.len() && !is_whitespace(r[2])) {
        return None;
    }
    let ci = find_lit_in(r, close, 2, r.len())?;
    if !(ci > 2 && !is_whitespace(r[ci - 1])) {
        return None;
    }
    let inner = sub_vec(r, 2, ci);
    let parsed = parse_slice(inner.as_slice(), attrs, subs);
    let mut out: Vec<Inline> = Vec::new();
    let mut l = String::new();
    push_char(&mut l, lq);
    let mut rr = String::new();
    push_char(&mut rr, rq);
    assert(inlines_v(out@) =~= Seq::<InlineV>::empty());
    push_inline(&mut out, Inline::Text { value: l });
    append_inlines(&mut out, parsed);
    push_inline(&mut out, Inline::Text { value: rr });
    assert(inlines_v(out@) =~= seq![InlineV::Text(seq![lq])] + inlines_v(parsed@) + seq![
        InlineV::Text(seq![rq]),
    ]);
    Some((out, ci + 2))
}

/// Smart quotes: ``"`text`"`` → “text” and ``'`text`'`` → ‘text’.
fn smart_at(r: &[char], buf: &[char], attrs: &Attributes, subs: Subs) -> (res: Option<
    (Vec<Inline>, usize),
>)
    ensures
        run_is(res, smart_quote(r@, buf@, attrs@, subs), r.len() as int),
    decreases r.len(), 2nat,
{
    if let Some(x) = smart_pair_at(r, buf, attrs, subs, 0) {
        return Some(x);
    }
    smart_pair_at(r, buf, attrs, subs, 1)
}

fn wrap_inline(w: Wrap, children: Vec<Inline>) -> (res: Inline)
    ensures
        inline_v(res) == InlineV::Wrapped(w, inlines_v(children@)),
{
    match w {
        Wrap::Strong => Inline::Strong { children },
        Wrap::Emphasis => Inline::Emphasis { children },
        Wrap::Monospace => Inline::Monospace { children },
        Wrap::Subscript => Inline::Subscript { children },
        Wrap::Superscript => Inline::Superscript { children },
        Wrap::Highlight => Inline::Highlight { children },
    }
}

/// The quote markers: unconstrained ones longest first (`**`, `__`,
/// ``` `` ```, `##`, `~`, `^`), then the constrained ones (`*`, `_`,
/// `` ` ``, `#`).
fn marker_of(i: usize) -> (res: (&'static str, Wrap, bool))
    requires
        i < 10,
    ensures
        (res.0@, res.1, res.2) == marker(i as int),
{
    proof {
        reveal_strlit("**");
        assert("**"@ =~= seq!['*', '*']);
        reveal_strlit("__");
        assert("__"@ =~= seq!['_', '_']);
        reveal_strlit("``");
        assert("``"@ =~= seq!['`', '`']);
        reveal_strlit("##");
        assert("##"@ =~= seq!['#', '#']);
        reveal_strlit("~");
        assert("~"@ =~= seq!['~']);
        reveal_strlit("^");
        assert("^"@ =~= seq!['^']);
        reveal_strlit("*");
        assert("*"@ =~= seq!['*']);
        reveal_strlit("_");
        assert("_"@ =~= seq!['_']);
        reveal_strlit("`");
        assert("`"@ =~= seq!['`']);
        reveal_strlit("#");
        assert("#"@ =~= seq!['#']);
    }
    if i == 0 {
        ("**", Wrap::Strong, false)
    } else if i == 1 {
        ("__", Wrap::Emphasis, false)
    } else if i == 2 {
        ("``", Wrap::Monospace, false)
    } else if i == 3 {
        ("##", Wrap::Highlight, false)
    } else if i == 4 {
        ("~", Wrap::Subscript, false)
    } else if i == 5 {
        ("^", Wrap::Superscript, false)
    } else if i == 6 {
        ("*", Wrap::Strong, true)
    } else if i == 7 {
        ("_", Wrap::Emphasis, true)
    } else if i == 8 {
        ("`", Wrap::Monospace, true)
    } else {
        ("#", Wrap::Highlight, true)
    }
}

/// The span of marker `i` at the start of `r`.
fn quote_marker_at(r: &[char], buf: &[char], attrs: &Attributes, subs: Subs, i: usize) -> (res:
    Option<(Inline, usize)>)
    requires
        i < 10,
    ensures
        step_is(res, quote_with(r@, buf@, attrs@, subs, i as int), r.len() as int),
    decreases r.len(), 1nat,
{
    let (lit, w, constrained) = marker_of(i);
    let m = chars_of(lit);
    assert(r@.skip(0) =~= r@);
    let opens = if constrained {
        is_constrained_open(r, 0, m.as_slice(), buf)
    } else {
        starts_with_lit(r, 0, lit)
    };
    if !opens || m.len() > r.len() {
        return None;
    }
    let k = find_closing(r, m.len(), m.as_slice(), constrained)?;
    let inner = sub_vec(r, m.len(), m.len() + k);
    let children = parse_slice(inner.as_slice(), attrs, subs);
    Some((wrap_inline(w, children), 2 * m.len() + k))
}

/// Strong, emphasis, monospace, highlight, subscript and superscript
/// spans; unconstrained markers are tried before constrained ones.
fn quote_at(r: &[char], buf: &[char], attrs: &Attributes, subs: Subs) -> (res: Option<
    (Inline, usize),
>)
    ensures
        step_is(res, quote_from(r@, buf@, attrs@, subs, 0), r.len() as int),
    decreases r.len(), 2nat,
{
    let mut i: usize = 0;
    while i < 10
        invariant
            i <= 10,
            quote_from(r@, buf@, attrs@, subs, 0) == quote_from(r@, buf@, attrs@, subs, i as int),
        decreases 10 - i,
    {
        if let Some(x) = quote_marker_at(r, buf, attrs, subs, i) {
            return Some(x);
        }
        i += 1;
    }
    None
}

} // verus!
