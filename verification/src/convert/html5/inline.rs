//! Inline rendering.
use vstd::prelude::*;

use crate::ast::{inline_v, inlines_v, lemma_inlines_v_len, Inline, InlineV, Wrap};
use crate::convert::html5::escape::{escape_attr_html, escape_html, push_escaped, push_escaped_attr};
use crate::text::{push_char, push_str};

verus! {

pub open spec fn open_tag(w: Wrap) -> Seq<char> {
    match w {
        Wrap::Strong => "<strong>"@,
        Wrap::Emphasis => "<em>"@,
        Wrap::Monospace => "<code>"@,
        Wrap::Subscript => "<sub>"@,
        Wrap::Superscript => "<sup>"@,
        Wrap::Highlight => "<mark>"@,
    }
}

pub open spec fn close_tag(w: Wrap) -> Seq<char> {
    match w {
        Wrap::Strong => "</strong>"@,
        Wrap::Emphasis => "</em>"@,
        Wrap::Monospace => "</code>"@,
        Wrap::Subscript => "</sub>"@,
        Wrap::Superscript => "</sup>"@,
        Wrap::Highlight => "</mark>"@,
    }
}

/// ` name="value"` with the value escaped, or nothing when absent.
pub open spec fn opt_attr(name_eq: Seq<char>, v: Option<Seq<char>>) -> Seq<char> {
    match v {
        Some(v) => name_eq + escape_attr_html(v) + "\""@,
        None => Seq::empty(),
    }
}

/// The HTML of one inline.
pub open spec fn inline_html(i: InlineV) -> Seq<char>
    decreases i,
{
    match i {
        InlineV::Text(v) => escape_html(v),
        InlineV::Wrapped(w, c) => open_tag(w) + inlines_html(c) + close_tag(w),
        InlineV::Footnote { id, text } => (match id {
            Some(id) => "<span class=\"footnote\" id=\""@ + escape_attr_html(id) + "\">"@,
            None => "<span class=\"footnote\">"@,
        }) + inlines_html(text) + "</span>"@,
        InlineV::Passthrough(v) => escape_html(v),
        InlineV::Link { href, text } => "<a href=\""@ + escape_attr_html(href) + "\">"@
            + inlines_html(text) + "</a>"@,
        InlineV::Xref { target, text } => "<a href=\"#"@ + escape_attr_html(target) + "\">"@
            + (match text {
            Some(t) => inlines_html(t),
            None => escape_html(target),
        }) + "</a>"@,
        InlineV::Image { target, alt, width, height } => "<img src=\""@ + escape_attr_html(target)
            + "\" alt=\""@ + escape_attr_html(alt) + "\""@ + opt_attr(" width=\""@, width)
            + opt_attr(" height=\""@, height) + ">"@,
        InlineV::AttributeRef(name) => seq!['{'] + name + seq!['}'],
        InlineV::LineBreak => "<br>"@,
        InlineV::RawHtml(v) => v,
    }
}

/// The HTML of an inline sequence: each inline in turn.
pub open spec fn inlines_html(s: Seq<InlineV>) -> Seq<char>
    decreases s,
{
    if s.len() == 0 {
        Seq::empty()
    } else {
        inline_html(s[0]) + inlines_html(s.subrange(1, s.len() as int))
    }
}

pub proof fn lemma_inlines_html_push(s: Seq<InlineV>, x: InlineV)
    ensures
        inlines_html(s.push(x)) == inlines_html(s) + inline_html(x),
    decreases s.len(),
{
    if s.len() == 0 {
        let e = Seq::<InlineV>::empty();
        assert(s.push(x).subrange(1, 1) =~= e);
        assert(s.push(x)[0] == x);
        assert(inlines_html(e) == Seq::<char>::empty());
        assert(inlines_html(s) == Seq::<char>::empty());
        assert(inlines_html(s.push(x)) == inline_html(x) + inlines_html(e));
        assert(inlines_html(s.push(x)) =~= inline_html(x));
    } else {
        let t = s.subrange(1, s.len() as int);
        lemma_inlines_html_push(t, x);
        assert(s.push(x).subrange(1, s.len() as int + 1) =~= t.push(x));
        assert(inlines_html(s.push(x)) =~= inlines_html(s) + inline_html(x));
    }
}

/// Appends the HTML of `inlines`.
pub fn write_inlines(out: &mut String, inlines: &[Inline])
    ensures
        final(out)@ == old(out)@ + inlines_html(inlines_v(inlines@)),
    decreases inlines@,
{
    let ghost all = inlines_v(inlines@);
    proof {
        lemma_inlines_v_len(inlines@);
    }
    let mut i: usize = 0;
    while i < inlines.len()
        invariant
            i <= inlines.len(),
            all == inlines_v(inlines@),
            all.len() == inlines@.len(),
            forall|k: int| 0 <= k < inlines@.len() ==> #[trigger] all[k] == inline_v(inlines@[k]),
            out@ == old(out)@ + inlines_html(all.take(i as int)),
        decreases inlines.len() - i,
    {
        proof {
            assert(decreases_to!(inlines@ => inlines@[i as int]));
        }
        write_inline(out, &inlines[i]);
        proof {
            assert(all.take(i + 1) =~= all.take(i as int).push(all[i as int]));
            lemma_inlines_html_push(all.take(i as int), all[i as int]);
        }
        i += 1;
    }
    assert(all.take(inlines.len() as int) =~= all);
}

/// Appends the HTML of one inline.
#[verifier::spinoff_prover]
#[verifier::rlimit(50)]
pub fn write_inline(out: &mut String, i: &Inline)
    ensures
        final(out)@ == old(out)@ + inline_html(inline_v(*i)),
    decreases *i,
{
    match i {
        Inline::Text { value } => push_escaped(out, value.as_str()),
        Inline::Strong { children } => {
            push_str(out, "<strong>");
            write_inlines(out, children.as_slice());
            push_str(out, "</strong>");
        },
        Inline::Emphasis { children } => {
            push_str(out, "<em>");
            write_inlines(out, children.as_slice());
            push_str(out, "</em>");
        },
        Inline::Monospace { children } => {
            push_str(out, "<code>");
            write_inlines(out, children.as_slice());
            push_str(out, "</code>");
        },
        Inline::Subscript { children } => {
            push_str(out, "<sub>");
            write_inlines(out, children.as_slice());
            push_str(out, "</sub>");
        },
        Inline::Superscript { children } => {
            push_str(out, "<sup>");
            write_inlines(out, children.as_slice());
            push_str(out, "</sup>");
        },
        Inline::Highlight { children } => {
            push_str(out, "<mark>");
            write_inlines(out, children.as_slice());
            push_str(out, "</mark>");
        },
        Inline::Footnote { id, text } => {
            match id {
                Some(id) => {
                    push_str(out, "<span class=\"footnote\" id=\"");
                    push_escaped_attr(out, id.as_str());
                    push_str(out, "\">");
                },
                None => push_str(out, "<span class=\"footnote\">"),
            }
            write_inlines(out, text.as_slice());
            push_str(out, "</span>");
        },
        Inline::Passthrough { value } => push_escaped(out, value.as_str()),
        Inline::Link { href, text } => {
            push_str(out, "<a href=\"");
            push_escaped_attr(out, href.as_str());
            push_str(out, "\">");
            write_inlines(out, text.as_slice());
            push_str(out, "</a>");
        },
        Inline::Xref { target, text } => {
            push_str(out, "<a href=\"#");
            push_escaped_attr(out, target.as_str());
            push_str(out, "\">");
            match text {
                Some(t) => write_inlines(out, t.as_slice()),
                None => push_escaped(out, target.as_str()),
            }
            push_str(out, "</a>");
        },
        Inline::Image { target, alt, width, height } => {
            push_str(out, "<img src=\"");
            push_escaped_attr(out, target.as_str());
            push_str(out, "\" alt=\"");
            push_escaped_attr(out, alt.as_str());
            push_str(out, "\"");
            match width {
                Some(w) => {
                    push_str(out, " width=\"");
                    push_escaped_attr(out, w.as_str());
                    push_str(out, "\"");
                },
                None => {},
            }
            match height {
                Some(h) => {
                    push_str(out, " height=\"");
                    push_escaped_attr(out, h.as_str());
                    push_str(out, "\"");
                },
                None => {},
            }
            push_str(out, ">");
        },
        Inline::AttributeRef { name } => {
            push_char(out, '{');
            push_str(out, name.as_str());
            push_char(out, '}');
        },
        Inline::LineBreak => push_str(out, "<br>"),
        Inline::RawHtml { value } => push_str(out, value.as_str()),
    }
    assert(final(out)@ =~= old(out)@ + inline_html(inline_v(*i)));
}

/// The HTML of `inlines`.
pub fn render_inlines(inlines: &[Inline]) -> (res: String)
    ensures
        res@ == inlines_html(inlines_v(inlines@)),
{
    let mut out = String::new();
    write_inlines(&mut out, inlines);
    out
}

/// Appends the plain text of `inlines`.
pub fn write_text_of(out: &mut String, inlines: &[Inline])
    ensures
        final(out)@ == old(out)@ + crate::convert::html5::model::text_of(inlines_v(inlines@)),
    decreases inlines@,
{
    let ghost all = inlines_v(inlines@);
    proof {
        lemma_inlines_v_len(inlines@);
    }
    let ghost start = out@;
    assert(all.skip(0) =~= all);
    let mut i: usize = 0;
    while i < inlines.len()
        invariant
            i <= inlines.len(),
            all == inlines_v(inlines@),
            all.len() == inlines@.len(),
            forall|k: int| 0 <= k < inlines@.len() ==> #[trigger] all[k] == inline_v(inlines@[k]),
            start + crate::convert::html5::model::text_of(all) == out@
                + crate::convert::html5::model::text_of(all.skip(i as int)),
        decreases inlines.len() - i,
    {
        proof {
            assert(decreases_to!(inlines@ => inlines@[i as int]));
        }
        let ghost before = out@;
        write_text_of_inline(out, &inlines[i]);
        proof {
            let t = all.skip(i as int);
            assert(t[0] == all[i as int]);
            assert(t.subrange(1, t.len() as int) =~= all.skip(i + 1));
            assert(out@ + crate::convert::html5::model::text_of(all.skip(i + 1)) =~= before
                + crate::convert::html5::model::text_of(t));
        }
        i += 1;
    }
    assert(all.skip(inlines.len() as int) =~= Seq::<InlineV>::empty());
    assert(out@ + Seq::<char>::empty() =~= out@);
}

fn write_text_of_inline(out: &mut String, i: &Inline)
    ensures
        final(out)@ == old(out)@ + crate::convert::html5::model::text_of_inline(inline_v(*i)),
    decreases *i,
{
    match i {
        Inline::Text { value } => push_str(out, value.as_str()),
        Inline::Strong { children }
        | Inline::Emphasis { children }
        | Inline::Monospace { children }
        | Inline::Subscript { children }
        | Inline::Superscript { children }
        | Inline::Highlight { children } => write_text_of(out, children.as_slice()),
        Inline::Footnote { text, .. } => write_text_of(out, text.as_slice()),
        Inline::Passthrough { value } => push_str(out, value.as_str()),
        Inline::Link { text, .. } => write_text_of(out, text.as_slice()),
        Inline::Xref { target, text } => match text {
            Some(t) => write_text_of(out, t.as_slice()),
            None => push_str(out, target.as_str()),
        },
        Inline::Image { alt, .. } => push_str(out, alt.as_str()),
        Inline::AttributeRef { name } => {
            push_char(out, '{');
            push_str(out, name.as_str());
            push_char(out, '}');
        },
        Inline::LineBreak => push_char(out, ' '),
        Inline::RawHtml { .. } => {},
    }
    assert(final(out)@ =~= old(out)@ + crate::convert::html5::model::text_of_inline(inline_v(*i)));
}

/// The plain text of `inlines`.
pub fn text_of_inlines(inlines: &[Inline]) -> (res: String)
    ensures
        res@ == crate::convert::html5::model::text_of(inlines_v(inlines@)),
{
    let mut out = String::new();
    write_text_of(&mut out, inlines);
    out
}

} // verus!
