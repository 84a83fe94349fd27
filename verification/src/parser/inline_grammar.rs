//! What the inline parser produces, stated as spec functions over the
//! text: the macros, autolinks, passthroughs, quotes and smart quotes it
//! recognises, and the left-to-right walk that tries them in turn.
use vstd::prelude::*;

use crate::ast::{AttrV, InlineV, Wrap};
use crate::parser::inline::{
    attr_name, attr_ref_at, closing_from, constrained_open, escape_attr_spec, replacement_at,
    subst_attrs_from, unesc_from,
};
use crate::parser::subs::Subs;
use crate::text::{
    find, find_char, is_ascii_alnum, is_digit, is_ws, lemma_trim_len, split_char, starts_with, trim,
    unicode_alnum,
};

verus! {

// ---------------------------------------------------------------------------
// scanning helpers
// ---------------------------------------------------------------------------

/// First index `>= k` of `r` holding `[` (or, when `stop_ws`, whitespace).
pub open spec fn scan(r: Seq<char>, k: int, stop_ws: bool) -> Option<int>
    decreases r.len() - k,
{
    if k < 0 || k >= r.len() {
        None
    } else if r[k] == '[' || (stop_ws && is_ws(r[k])) {
        Some(k)
    } else {
        scan(r, k + 1, stop_ws)
    }
}

/// The pieces of `s` split at `sep`, each trimmed.
pub open spec fn pieces(s: Seq<char>, sep: char) -> Seq<Seq<char>> {
    split_char(s, sep).map_values(|p: Seq<char>| trim(p))
}

/// Offset in `r` of the first `]` at or after `k` that no backslash
/// escapes.
pub open spec fn close_bracket(r: Seq<char>, k: int) -> Option<int> {
    if 0 <= k <= r.len() {
        match unesc_from(r.skip(k), ']', 0, false) {
            Some(a) => Some(k + a),
            None => None,
        }
    } else {
        None
    }
}

/// The substitutions of a normal paragraph.
pub open spec fn normal_subs() -> Subs {
    Subs {
        specialchars: true,
        quotes: true,
        attributes: true,
        replacements: true,
        macros: true,
        post_replacements: true,
    }
}

/// The substitutions of document and section titles: all but the
/// post-replacements.
pub open spec fn header_subs() -> Subs {
    Subs {
        specialchars: true,
        quotes: true,
        attributes: true,
        replacements: true,
        macros: true,
        post_replacements: false,
    }
}

/// Every non-empty key, each in its own `<kbd>`, joined with `+`.
pub open spec fn kbd_keys_html(ps: Seq<Seq<char>>) -> Seq<char>
    decreases ps.len(),
{
    if ps.len() == 0 {
        Seq::empty()
    } else {
        let prev = kbd_keys_html(ps.drop_last());
        let k = ps.last();
        if k.len() == 0 {
            prev
        } else {
            prev + (if prev.len() > 0 {
                seq!['+']
            } else {
                Seq::empty()
            }) + "<kbd>"@ + escape_attr_spec(k) + "</kbd>"@
        }
    }
}

/// Every non-empty menu item after a `›`.
pub open spec fn menu_items_html(ps: Seq<Seq<char>>) -> Seq<char>
    decreases ps.len(),
{
    if ps.len() == 0 {
        Seq::empty()
    } else {
        let prev = menu_items_html(ps.drop_last());
        let k = ps.last();
        if k.len() == 0 {
            prev
        } else {
            prev + " \u{203A} <span class=\"menuitem\">"@ + escape_attr_spec(k) + "</span>"@
        }
    }
}

/// The piece at `i` when it is there and not empty.
pub open spec fn opt_piece(ps: Seq<Seq<char>>, i: int) -> Option<Seq<char>> {
    if 0 <= i < ps.len() && ps[i].len() > 0 {
        Some(ps[i])
    } else {
        None
    }
}

// ---------------------------------------------------------------------------
// macros without nested inline content
// ---------------------------------------------------------------------------

/// `anchor:id[...]`: an empty `<a>` carrying the id.
pub open spec fn anchor_macro(r: Seq<char>) -> Option<(InlineV, int)> {
    if !starts_with(r, seq!['a', 'n', 'c', 'h', 'o', 'r', ':']) {
        None
    } else {
        match scan(r, 7, false) {
            None => None,
            Some(te) => {
                let id = r.subrange(7, te);
                if id.len() == 0 || !attr_name(id) {
                    None
                } else {
                    match close_bracket(r, te) {
                        None => None,
                        Some(ae) => Some(
                            (
                                InlineV::RawHtml("<a id=\""@ + escape_attr_spec(id) + "\"></a>"@),
                                ae + 1,
                            ),
                        ),
                    }
                }
            },
        }
    }
}

/// `kbd:[A+B]`: each non-empty key in a `<kbd>`; nothing without keys.
pub open spec fn kbd_macro(r: Seq<char>) -> Option<(InlineV, int)> {
    if !starts_with(r, seq!['k', 'b', 'd', ':', '[']) {
        None
    } else {
        match close_bracket(r, 4) {
            None => None,
            Some(c) => {
                let keys = kbd_keys_html(pieces(r.subrange(5, c), '+'));
                if keys.len() == 0 {
                    None
                } else {
                    Some(
                        (
                            InlineV::RawHtml(
                                "<span class=\"keyseq\">"@ + keys + "</span>"@,
                            ),
                            c + 1,
                        ),
                    )
                }
            },
        }
    }
}

/// `btn:[Label]`.
pub open spec fn btn_macro(r: Seq<char>) -> Option<(InlineV, int)> {
    if !starts_with(r, seq!['b', 't', 'n', ':', '[']) {
        None
    } else {
        match close_bracket(r, 4) {
            None => None,
            Some(c) => Some(
                (
                    InlineV::RawHtml(
                        "<b class=\"button\">["@ + escape_attr_spec(r.subrange(5, c)) + "]</b>"@,
                    ),
                    c + 1,
                ),
            ),
        }
    }
}

/// `menu:Target[Item > Item]`: the target must be non-empty and hold no
/// whitespace.
pub open spec fn menu_macro(r: Seq<char>) -> Option<(InlineV, int)> {
    if !starts_with(r, seq!['m', 'e', 'n', 'u', ':']) {
        None
    } else {
        match scan(r, 5, false) {
            None => None,
            Some(b) => if b == 5 || exists|k: int| 5 <= k < b && is_ws(#[trigger] r[k]) {
                None
            } else {
                match close_bracket(r, b) {
                    None => None,
                    Some(ae) => Some(
                        (
                            InlineV::RawHtml(
                                "<span class=\"menuseq\"><span class=\"menu\">"@ + escape_attr_spec(
                                    r.subrange(5, b),
                                ) + "</span>"@ + menu_items_html(pieces(r.subrange(b + 1, ae), '>'))
                                    + "</span>"@,
                            ),
                            ae + 1,
                        ),
                    ),
                }
            },
        }
    }
}

/// `link:target[text]` (`mailto` false) and `mailto:addr[text]`: the
/// target runs to `[` and holds no whitespace; attribute references in
/// target and text are resolved; an empty text shows the target.
pub open spec fn prefix_macro(r: Seq<char>, mailto: bool, attrs: Map<Seq<char>, AttrV>) -> Option<
    (InlineV, int),
> {
    let plen: int = if mailto {
        7
    } else {
        5
    };
    let hit = if mailto {
        starts_with(r, seq!['m', 'a', 'i', 'l', 't', 'o', ':'])
    } else {
        starts_with(r, seq!['l', 'i', 'n', 'k', ':'])
    };
    if !hit {
        None
    } else {
        match scan(r, plen, true) {
            None => None,
            Some(te) => if r[te] != '[' || te == plen {
                None
            } else {
                match close_bracket(r, te) {
                    None => None,
                    Some(ae) => {
                        let target = subst_attrs_from(r.subrange(plen, te), attrs, 0);
                        let first = pieces(r.subrange(te + 1, ae), ',')[0];
                        let text = if first.len() == 0 {
                            target
                        } else {
                            subst_attrs_from(first, attrs, 0)
                        };
                        Some(
                            (
                                InlineV::Link {
                                    href: (if mailto {
                                        seq!['m', 'a', 'i', 'l', 't', 'o', ':']
                                    } else {
                                        Seq::empty()
                                    }) + target,
                                    text: seq![InlineV::Text(text)],
                                },
                                ae + 1,
                            ),
                        )
                    },
                }
            },
        }
    }
}

/// `image:target[alt,width,height]` (not `image::`).
pub open spec fn image_macro(r: Seq<char>) -> Option<(InlineV, int)> {
    if !starts_with(r, seq!['i', 'm', 'a', 'g', 'e', ':']) || (r.len() > 6 && r[6] == ':') {
        None
    } else {
        match scan(r, 6, true) {
            None => None,
            Some(te) => if r[te] != '[' || te == 6 {
                None
            } else {
                match close_bracket(r, te) {
                    None => None,
                    Some(ae) => {
                        let ps = pieces(r.subrange(te + 1, ae), ',');
                        Some(
                            (
                                InlineV::Image {
                                    target: r.subrange(6, te),
                                    alt: ps[0],
                                    width: opt_piece(ps, 1),
                                    height: opt_piece(ps, 2),
                                },
                                ae + 1,
                            ),
                        )
                    },
                }
            },
        }
    }
}

/// `pass:[text]` (an optional run of ASCII letters before `[`): the text
/// verbatim.
pub open spec fn pass_macro(r: Seq<char>) -> Option<(InlineV, int)> {
    if !starts_with(r, seq!['p', 'a', 's', 's', ':']) {
        None
    } else {
        match scan(r, 5, false) {
            None => None,
            Some(b) => if exists|k: int|
                5 <= k < b && (!is_ascii_alnum(#[trigger] r[k]) || is_digit(r[k])) {
                None
            } else {
                match close_bracket(r, b) {
                    None => None,
                    Some(ae) => Some((InlineV::RawHtml(r.subrange(b + 1, ae)), ae + 1)),
                }
            },
        }
    }
}

// ---------------------------------------------------------------------------
// autolinks and passthroughs
// ---------------------------------------------------------------------------

pub open spec fn url_end(c: char) -> bool {
    is_ws(c) || c == '[' || c == ']' || c == '<' || c == '>'
}

pub open spec fn trailing_punct(c: char) -> bool {
    c == '.' || c == ',' || c == ';' || c == ':' || c == '!' || c == '?'
}

/// First index `>= k` ending a URL (or the end).
pub open spec fn url_stop(r: Seq<char>, k: int) -> int
    decreases r.len() - k,
{
    if k < 0 || k >= r.len() || url_end(r[k]) {
        k
    } else {
        url_stop(r, k + 1)
    }
}

/// `e` with trailing punctuation dropped, not below `lo`.
pub open spec fn punct_trimmed(r: Seq<char>, lo: int, e: int) -> int
    decreases e - lo,
{
    if e > lo && 0 < e <= r.len() && trailing_punct(r[e - 1]) {
        punct_trimmed(r, lo, e - 1)
    } else {
        e
    }
}

/// A bare URL with scheme `scheme` at the start of `r`, optionally
/// followed by `[label]`.
pub open spec fn autolink_with(r: Seq<char>, scheme: Seq<char>, attrs: Map<Seq<char>, AttrV>) -> Option<
    (InlineV, int),
> {
    let slen = scheme.len() as int;
    if !starts_with(r, scheme) {
        None
    } else {
        let end = url_stop(r, 0);
        if end <= slen {
            None
        } else {
            let tl = punct_trimmed(r, slen, end);
            let href = r.take(tl);
            let labelled = if tl < r.len() && r[tl] == '[' {
                close_bracket(r, tl)
            } else {
                None
            };
            match labelled {
                Some(c) => {
                    let first = pieces(r.subrange(tl + 1, c), ',')[0];
                    let text = if first.len() == 0 {
                        href
                    } else {
                        subst_attrs_from(first, attrs, 0)
                    };
                    Some((InlineV::Link { href, text: seq![InlineV::Text(text)] }, c + 1))
                },
                None => Some((InlineV::Link { href, text: seq![InlineV::Text(href)] }, tl)),
            }
        }
    }
}

/// Bare `https://`, `http://` and `ftp://` URLs.
pub open spec fn autolink(r: Seq<char>, attrs: Map<Seq<char>, AttrV>) -> Option<(InlineV, int)> {
    match autolink_with(r, seq!['h', 't', 't', 'p', 's', ':', '/', '/'], attrs) {
        Some(x) => Some(x),
        None => match autolink_with(r, seq!['h', 't', 't', 'p', ':', '/', '/'], attrs) {
            Some(x) => Some(x),
            None => autolink_with(r, seq!['f', 't', 'p', ':', '/', '/'], attrs),
        },
    }
}

/// `++text++` anywhere, or `+text+` where a constrained span may open
/// after `buf`: the text, escaped later, with no substitution.
pub open spec fn passthrough(r: Seq<char>, buf: Seq<char>) -> Option<(InlineV, int)> {
    let double = starts_with(r, seq!['+', '+']);
    if double {
        match closing_from(r.skip(2), seq!['+', '+'], false, 0) {
            Some(k) => Some((InlineV::Passthrough(r.subrange(2, 2 + k)), k + 4)),
            None => None,
        }
    } else if constrained_open(r, seq!['+'], buf) {
        match closing_from(r.skip(1), seq!['+'], true, 0) {
            Some(k) => Some((InlineV::Passthrough(r.subrange(1, 1 + k)), k + 2)),
            None => None,
        }
    } else {
        None
    }
}

// ---------------------------------------------------------------------------
// markers
// ---------------------------------------------------------------------------

/// The unconstrained markers, longest first, and the constrained ones.
pub open spec fn marker(i: int) -> (Seq<char>, Wrap, bool) {
    if i == 0 {
        (seq!['*', '*'], Wrap::Strong, false)
    } else if i == 1 {
        (seq!['_', '_'], Wrap::Emphasis, false)
    } else if i == 2 {
        (seq!['`', '`'], Wrap::Monospace, false)
    } else if i == 3 {
        (seq!['#', '#'], Wrap::Highlight, false)
    } else if i == 4 {
        (seq!['~'], Wrap::Subscript, false)
    } else if i == 5 {
        (seq!['^'], Wrap::Superscript, false)
    } else if i == 6 {
        (seq!['*'], Wrap::Strong, true)
    } else if i == 7 {
        (seq!['_'], Wrap::Emphasis, true)
    } else if i == 8 {
        (seq!['`'], Wrap::Monospace, true)
    } else {
        (seq!['#'], Wrap::Highlight, true)
    }
}

/// The smart-quote pairs: ``"` `"`` and ``'` `'``.
pub open spec fn smart_pair(p: int) -> (Seq<char>, Seq<char>, char, char) {
    if p == 0 {
        (seq!['"', '`'], seq!['`', '"'], '\u{201C}', '\u{201D}')
    } else {
        (seq!['\'', '`'], seq!['`', '\''], '\u{2018}', '\u{2019}')
    }
}

/// No word character (by Unicode, or `_`) ends `buf`.
pub open spec fn smart_left_ok(buf: Seq<char>) -> bool {
    buf.len() == 0 || (!unicode_alnum(buf.last()) && buf.last() != '_')
}

/// The top-level text of `out` with `buf` flushed as a text node.
pub open spec fn flushed(buf: Seq<char>, out: Seq<InlineV>) -> Seq<InlineV> {
    if buf.len() > 0 {
        out.push(InlineV::Text(buf))
    } else {
        out
    }
}

// ---------------------------------------------------------------------------
// the walk and the constructs with nested content
// ---------------------------------------------------------------------------

/// The inlines of `s` under `subs`.
pub open spec fn inline_parse(s: Seq<char>, attrs: Map<Seq<char>, AttrV>, subs: Subs) -> Seq<InlineV>
    decreases s.len(), 4int, 0int,
{
    if s.len() == 0 {
        Seq::empty()
    } else {
        walk_from(s, attrs, subs, 0, Seq::empty(), Seq::empty())
    }
}

/// What the walk does at one position: emit one node, emit several, or
/// add characters to the pending text; each consumes a count of source
/// characters.
pub enum Step {
    Node(InlineV, int),
    Nodes(Seq<InlineV>, int),
    Chars(Seq<char>, int),
}

/// The step at `pos`, with `buf` the pending text. The first construct
/// that matches wins: a trailing ` +` line break, a macro, an autolink, an
/// attribute reference (resolved into the pending text), a passthrough, a
/// smart quote, a quoted span, a typographic replacement; otherwise the
/// character joins the pending text.
pub open spec fn step_at(
    src: Seq<char>,
    attrs: Map<Seq<char>, AttrV>,
    subs: Subs,
    pos: int,
    buf: Seq<char>,
) -> Step
    decreases src.len(), 3int, 0int,
{
    let r = src.skip(pos);
    if pos < 0 || pos >= src.len() {
        Step::Chars(Seq::empty(), 0)
    } else if subs.post_replacements && src.len() >= 2 && pos == src.len() - 2 && src[pos] == ' '
        && src[pos + 1] == '+' {
        Step::Node(InlineV::LineBreak, 2)
    } else {
        let mac = if subs.macros {
            match macro_at(r, attrs, subs) {
                Some(x) => Some(x),
                None => autolink(r, attrs),
            }
        } else {
            None
        };
        match mac {
            Some((x, n)) => Step::Node(x, n),
            None => {
                let aref = if subs.attributes {
                    attr_ref_at(r, attrs)
                } else {
                    None
                };
                match aref {
                    Some((v, n)) => Step::Chars(v, n),
                    None => {
                        let pt = if subs.quotes {
                            passthrough(r, buf)
                        } else {
                            None
                        };
                        match pt {
                            Some((x, n)) => Step::Node(x, n),
                            None => {
                                let sq = if subs.quotes {
                                    smart_quote(r, buf, attrs, subs)
                                } else {
                                    None
                                };
                                match sq {
                                    Some((xs, n)) => Step::Nodes(xs, n),
                                    None => {
                                        let q = if subs.quotes {
                                            quote_from(r, buf, attrs, subs, 0)
                                        } else {
                                            None
                                        };
                                        match q {
                                            Some((x, n)) => Step::Node(x, n),
                                            None => {
                                                let rep = if subs.replacements {
                                                    replacement_at(r)
                                                } else {
                                                    None
                                                };
                                                match rep {
                                                    Some((c, n)) => Step::Chars(c, n),
                                                    None => Step::Chars(seq![src[pos]], 1),
                                                }
                                            },
                                        }
                                    },
                                }
                            },
                        }
                    },
                }
            },
        }
    }
}

/// The walk from `pos`, with `buf` the pending text and `out` the inlines
/// so far: each step either flushes the pending text and emits nodes, or
/// extends the pending text.
pub open spec fn walk_from(
    src: Seq<char>,
    attrs: Map<Seq<char>, AttrV>,
    subs: Subs,
    pos: int,
    buf: Seq<char>,
    out: Seq<InlineV>,
) -> Seq<InlineV>
    decreases src.len(), 3int, src.len() - pos,
{
    if pos < 0 || pos >= src.len() {
        flushed(buf, out)
    } else {
        match step_at(src, attrs, subs, pos, buf) {
            Step::Node(x, n) => if 0 < n <= src.len() - pos {
                walk_from(src, attrs, subs, pos + n, Seq::empty(), flushed(buf, out).push(x))
            } else {
                Seq::empty()
            },
            Step::Nodes(xs, n) => if 0 < n <= src.len() - pos {
                walk_from(src, attrs, subs, pos + n, Seq::empty(), flushed(buf, out) + xs)
            } else {
                Seq::empty()
            },
            Step::Chars(v, n) => if 0 < n <= src.len() - pos {
                walk_from(src, attrs, subs, pos + n, buf + v, out)
            } else {
                Seq::empty()
            },
        }
    }
}

/// The first macro that matches at the start of `r`.
pub open spec fn macro_at(r: Seq<char>, attrs: Map<Seq<char>, AttrV>, subs: Subs) -> Option<(InlineV, int)>
    decreases r.len(), 2int, 0int,
{
    match anchor_macro(r) {
        Some(x) => Some(x),
        None => match kbd_macro(r) {
            Some(x) => Some(x),
            None => match btn_macro(r) {
                Some(x) => Some(x),
                None => match menu_macro(r) {
                    Some(x) => Some(x),
                    None => match prefix_macro(r, false, attrs) {
                        Some(x) => Some(x),
                        None => match prefix_macro(r, true, attrs) {
                            Some(x) => Some(x),
                            None => match image_macro(r) {
                                Some(x) => Some(x),
                                None => match xref_macro(r, attrs) {
                                    Some(x) => Some(x),
                                    None => match shorthand_xref(r, attrs) {
                                        Some(x) => Some(x),
                                        None => match footnote_macro(r, attrs, subs) {
                                            Some(x) => Some(x),
                                            None => pass_macro(r),
                                        },
                                    },
                                },
                            },
                        },
                    },
                },
            },
        },
    }
}

/// `xref:target[text]`: the text, if any, parsed as a normal paragraph.
pub open spec fn xref_macro(r: Seq<char>, attrs: Map<Seq<char>, AttrV>) -> Option<(InlineV, int)>
    decreases r.len(), 1int, 0int,
{
    if !starts_with(r, seq!['x', 'r', 'e', 'f', ':']) {
        None
    } else {
        match scan(r, 5, false) {
            None => None,
            Some(te) => if te == 5 {
                None
            } else {
                match close_bracket(r, te) {
                    None => None,
                    Some(ae) => if 5 < te < ae < r.len() {
                        Some(
                            (
                                InlineV::Xref {
                                    target: r.subrange(5, te),
                                    text: if ae == te + 1 {
                                        None
                                    } else {
                                        Some(inline_parse(r.subrange(te + 1, ae), attrs, normal_subs()))
                                    },
                                },
                                ae + 1,
                            ),
                        )
                    } else {
                        None
                    },
                }
            },
        }
    }
}

/// `<<target>>` and `<<target,text>>`: both trimmed, the text parsed as
/// a normal paragraph; an empty target is no cross reference.
pub open spec fn shorthand_xref(r: Seq<char>, attrs: Map<Seq<char>, AttrV>) -> Option<(InlineV, int)>
    decreases r.len(), 1int, 0int,
{
    if !starts_with(r, seq!['<', '<']) {
        None
    } else {
        match find(r.skip(2), seq!['>', '>']) {
            None => None,
            Some(d) => {
                let c = 2 + d;
                if 2 <= c && c + 2 <= r.len() {
                    let (target, text) = match find_char(r.subrange(2, c), ',') {
                        Some(cm) => if 0 <= cm && 3 + cm <= c {
                            proof {
                                lemma_trim_len(r.subrange(3 + cm, c));
                            }
                            (
                                trim(r.subrange(2, 2 + cm)),
                                Some(inline_parse(trim(r.subrange(3 + cm, c)), attrs, normal_subs())),
                            )
                        } else {
                            (Seq::empty(), None)
                        },
                        None => (trim(r.subrange(2, c)), None),
                    };
                    if target.len() == 0 {
                        None
                    } else {
                        Some((InlineV::Xref { target, text }, c + 2))
                    }
                } else {
                    None
                }
            },
        }
    }
}

/// `footnote:[text]` and `footnote:id[text]`: the text parsed with the
/// active substitutions; a present id must be an attribute name.
pub open spec fn footnote_macro(r: Seq<char>, attrs: Map<Seq<char>, AttrV>, subs: Subs) -> Option<
    (InlineV, int),
>
    decreases r.len(), 1int, 0int,
{
    if !starts_with(r, seq!['f', 'o', 'o', 't', 'n', 'o', 't', 'e', ':']) {
        None
    } else {
        match scan(r, 9, false) {
            None => None,
            Some(b) => {
                let id_chars = r.subrange(9, b);
                if id_chars.len() > 0 && !attr_name(id_chars) {
                    None
                } else {
                    match close_bracket(r, b) {
                        None => None,
                        Some(ae) => if 9 <= b < ae < r.len() {
                            Some(
                                (
                                    InlineV::Footnote {
                                        id: if id_chars.len() == 0 {
                                            None
                                        } else {
                                            Some(id_chars)
                                        },
                                        text: inline_parse(r.subrange(b + 1, ae), attrs, subs),
                                    },
                                    ae + 1,
                                ),
                            )
                        } else {
                            None
                        },
                    }
                }
            },
        }
    }
}

/// The smart quote of pair `p` at the start of `r`: the opening needs a
/// non-word character (or nothing) before it and no whitespace after it,
/// the closing no whitespace before it; the inner text is parsed with the
/// active substitutions.
pub open spec fn smart_with(
    r: Seq<char>,
    buf: Seq<char>,
    attrs: Map<Seq<char>, AttrV>,
    subs: Subs,
    p: int,
) -> Option<(Seq<InlineV>, int)>
    decreases r.len(), 1int, 0int,
{
    let (open, close, lq, rq) = smart_pair(p);
    if starts_with(r, open) && smart_left_ok(buf) && 2 < r.len() && !is_ws(r[2]) {
        match find(r.skip(2), close) {
            Some(d) => if 0 < d && !is_ws(r[2 + d - 1]) && 2 + d + 2 <= r.len() {
                Some(
                    (
                        seq![InlineV::Text(seq![lq])] + inline_parse(r.subrange(2, 2 + d), attrs, subs)
                            + seq![InlineV::Text(seq![rq])],
                        d + 4,
                    ),
                )
            } else {
                None
            },
            None => None,
        }
    } else {
        None
    }
}

/// Smart quotes: ``"`text`"`` first, then ``'`text`'``.
pub open spec fn smart_quote(
    r: Seq<char>,
    buf: Seq<char>,
    attrs: Map<Seq<char>, AttrV>,
    subs: Subs,
) -> Option<(Seq<InlineV>, int)>
    decreases r.len(), 2int, 0int,
{
    match smart_with(r, buf, attrs, subs, 0) {
        Some(x) => Some(x),
        None => smart_with(r, buf, attrs, subs, 1),
    }
}

/// The span of marker `i` at the start of `r`: an unconstrained marker
/// anywhere, a constrained one where a span may open after `buf`; the
/// inner text is parsed with the active substitutions.
pub open spec fn quote_with(
    r: Seq<char>,
    buf: Seq<char>,
    attrs: Map<Seq<char>, AttrV>,
    subs: Subs,
    i: int,
) -> Option<(InlineV, int)>
    decreases r.len(), 1int, 0int,
{
    let (m, w, constrained) = marker(i);
    let opens = if constrained {
        constrained_open(r, m, buf)
    } else {
        starts_with(r, m)
    };
    if opens && m.len() <= r.len() {
        match closing_from(r.skip(m.len() as int), m, constrained, 0) {
            Some(k) => if 0 < k && m.len() + k + m.len() <= r.len() {
                Some(
                    (
                        InlineV::Wrapped(
                            w,
                            inline_parse(r.subrange(m.len() as int, m.len() + k), attrs, subs),
                        ),
                        2 * m.len() + k,
                    ),
                )
            } else {
                None
            },
            None => None,
        }
    } else {
        None
    }
}

/// Quoted spans, trying marker `i` and then the next.
pub open spec fn quote_from(
    r: Seq<char>,
    buf: Seq<char>,
    attrs: Map<Seq<char>, AttrV>,
    subs: Subs,
    i: int,
) -> Option<(InlineV, int)>
    decreases r.len(), 2int, 10 - i,
{
    if i < 0 || i >= 10 {
        None
    } else {
        match quote_with(r, buf, attrs, subs, i) {
            Some(x) => Some(x),
            None => quote_from(r, buf, attrs, subs, i + 1),
        }
    }
}

/// One step of the walk at a position inside the text.
pub proof fn lemma_walk_unfold(
    src: Seq<char>,
    attrs: Map<Seq<char>, AttrV>,
    subs: Subs,
    pos: int,
    buf: Seq<char>,
    out: Seq<InlineV>,
)
    requires
        0 <= pos < src.len(),
    ensures
        walk_from(src, attrs, subs, pos, buf, out) == match step_at(src, attrs, subs, pos, buf) {
            Step::Node(x, n) => if 0 < n <= src.len() - pos {
                walk_from(src, attrs, subs, pos + n, Seq::empty(), flushed(buf, out).push(x))
            } else {
                Seq::empty()
            },
            Step::Nodes(xs, n) => if 0 < n <= src.len() - pos {
                walk_from(src, attrs, subs, pos + n, Seq::empty(), flushed(buf, out) + xs)
            } else {
                Seq::empty()
            },
            Step::Chars(v, n) => if 0 < n <= src.len() - pos {
                walk_from(src, attrs, subs, pos + n, buf + v, out)
            } else {
                Seq::empty()
            },
        },
{
}

} // verus!
