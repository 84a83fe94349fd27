//! HTML5 converter.
//!
//! Enough HTML to see every block and inline the parser produces, with an
//! optional table of contents, section numbers and anchors, and hooks for
//! client-side syntax highlighters.
use vstd::prelude::*;

pub mod escape;
pub mod inline;
pub mod model;
pub mod ctx;
pub mod block;
pub mod table;
pub mod style;

pub use style::{Stylesheet, BUILTIN_CSS, BUILTIN_FILENAME};

use crate::ast::{blocks_v, inlines_v, AttrV, AttributeValue, Author, Converter, ConvertError, Document, Header, Revision};
use crate::convert::html5::block::{mismatch, render_blocks};
use crate::convert::html5::ctx::{attr_get, ctx_of, entries_of, render_toc, RenderCtx};
use crate::convert::html5::escape::{escape, escape_html, push_escaped};
use crate::convert::html5::inline::{inlines_html, text_of_inlines, write_inlines};
use crate::convert::html5::model::{blocks_html, blocks_ok, text_of, toc_html, truthy};
use crate::convert::html5::style::{
    highlighter_body, highlighter_head, render_highlighter_body, render_highlighter_head,
    render_stylesheet, stylesheet_html,
};
use crate::text::{join, join_strings, push_str};

verus! {

/// Converter options.
#[derive(Debug, Clone)]
pub struct Html5Options {
    pub stylesheet: Stylesheet,
}

impl Default for Html5Options {
    fn default() -> (res: Self)
        ensures
            res.stylesheet is BuiltinEmbed,
    {
        Html5Options { stylesheet: Stylesheet::BuiltinEmbed }
    }
}

/// The HTML5 backend.
#[derive(Debug, Clone)]
pub struct Html5Converter {
    pub options: Html5Options,
}

impl Default for Html5Converter {
    fn default() -> (res: Self)
        ensures
            res.options.stylesheet is BuiltinEmbed,
    {
        Html5Converter { options: Html5Options::default() }
    }
}

impl Html5Converter {
    /// A converter with the default options: the built-in stylesheet,
    /// inlined.
    pub fn new() -> (res: Self)
        ensures
            res.options.stylesheet is BuiltinEmbed,
    {
        Self::default()
    }

    pub fn with_options(options: Html5Options) -> (res: Self)
        ensures
            res.options == options,
    {
        Html5Converter { options }
    }
}

// ---------------------------------------------------------------------------
// the document
// ---------------------------------------------------------------------------

/// The text of `<title>`: the plain document title, or `Untitled`.
pub open spec fn title_text(h: Option<Header>) -> Seq<char> {
    match h {
        Some(h) => text_of(inlines_v(h.title@)),
        None => "Untitled"@,
    }
}

pub open spec fn author_names(a: Seq<Author>) -> Seq<Seq<char>> {
    Seq::new(a.len(), |k: int| escape_html(a[k].name@))
}

pub open spec fn opt_part(o: Option<String>) -> Seq<Seq<char>> {
    match o {
        Some(s) => seq![escape_html(s@)],
        None => Seq::empty(),
    }
}

/// The revision's number, date and remark that are present, escaped.
pub open spec fn revision_parts(r: Revision) -> Seq<Seq<char>> {
    opt_part(r.number) + opt_part(r.date) + opt_part(r.remark)
}

/// The document header: title, authors, revision line.
pub open spec fn header_html(h: Header) -> Seq<char> {
    "<header>\n"@ + "<h1>"@ + inlines_html(inlines_v(h.title@)) + "</h1>\n"@ + (if h.authors@.len()
        == 0 {
        Seq::empty()
    } else {
        "<p class=\"authors\">"@ + join(author_names(h.authors@), ", "@) + "</p>\n"@
    }) + (match h.revision {
        Some(r) => "<p class=\"revision\">"@ + join(revision_parts(r), " \u{b7} "@) + "</p>\n"@,
        None => Seq::empty(),
    }) + "</header>\n"@
}

pub open spec fn attr_text(v: AttrV) -> Seq<char> {
    match v {
        AttrV::Str(s) => s,
        AttrV::Bool(b) => if b {
            "true"@
        } else {
            "false"@
        },
    }
}

/// `key=value; ` for each attribute, in key order.
pub open spec fn attr_entries(keys: Seq<Seq<char>>, vals: Seq<AttrV>) -> Seq<char>
    decreases keys.len(),
{
    if keys.len() == 0 {
        Seq::empty()
    } else {
        attr_entries(keys.drop_last(), vals.drop_last()) + keys.last() + "="@ + attr_text(vals.last())
            + "; "@
    }
}

/// The document attributes as an HTML comment, when there are any.
pub open spec fn attrs_comment(keys: Seq<Seq<char>>, vals: Seq<AttrV>) -> Seq<char> {
    if keys.len() == 0 {
        Seq::empty()
    } else {
        "<!-- attributes: "@ + attr_entries(keys, vals) + "-->\n"@
    }
}

/// The whole page for `doc` with stylesheet `sheet`.
pub open spec fn document_html(sheet: Stylesheet, doc: Document) -> Seq<char> {
    let attrs = doc.attributes@;
    let bs = blocks_v(doc.blocks@);
    "<!doctype html>\n<html lang=\"en\">\n<head>\n"@ + "<meta charset=\"utf-8\">"@ + "\n"@
        + "<meta name=\"viewport\" content=\"width=device-width, initial-scale=1\">"@ + "\n"@
        + "<title>"@ + escape_html(title_text(doc.header)) + "</title>\n"@ + stylesheet_html(sheet)
        + highlighter_head(attrs) + "</head>\n<body>\n"@ + (match doc.header {
        Some(h) => header_html(h),
        None => Seq::empty(),
    }) + (if truthy(attr_get(attrs, "toc"@)) {
        toc_html(entries_of(attrs, bs))
    } else {
        Seq::empty()
    }) + blocks_html(ctx_of(attrs, bs), bs) + attrs_comment(
        doc.attributes.keys(),
        doc.attributes.vals(),
    ) + highlighter_body(attrs) + "</body>\n</html>\n"@
}

fn render_header(out: &mut String, h: &Header)
    ensures
        final(out)@ == old(out)@ + header_html(*h),
{
    push_str(out, "<header>\n");
    push_str(out, "<h1>");
    write_inlines(out, h.title.as_slice());
    push_str(out, "</h1>\n");
    let ghost a0 = out@;
    if h.authors.len() > 0 {
        push_str(out, "<p class=\"authors\">");
        let ghost p = author_names(h.authors@);
        let ghost start = out@;
        let mut i: usize = 0;
        while i < h.authors.len()
            invariant
                i <= h.authors.len(),
                p == author_names(h.authors@),
                out@ == start + join(p.take(i as int), ", "@),
            decreases h.authors.len() - i,
        {
            if i > 0 {
                push_str(out, ", ");
            }
            push_escaped(out, h.authors[i].name.as_str());
            proof {
                assert(p.take(i + 1).drop_last() =~= p.take(i as int));
                assert(p.take(i + 1).last() == escape_html(h.authors@[i as int].name@));
                if i == 0 {
                    assert(p.take(1) =~= seq![p[0]]);
                }
            }
            i += 1;
        }
        assert(p.take(h.authors.len() as int) =~= p);
        push_str(out, "</p>\n");
    }
    let ghost a1 = out@;
    match &h.revision {
        Some(rev) => {
            push_str(out, "<p class=\"revision\">");
            let mut parts: Vec<String> = Vec::new();
            match &rev.number {
                Some(s) => parts.push(escape(s.as_str())),
                None => {},
            }
            let ghost p1 = parts@.map_values(|p: String| p@);
            assert(p1 =~= opt_part(rev.number));
            match &rev.date {
                Some(s) => parts.push(escape(s.as_str())),
                None => {},
            }
            let ghost p2 = parts@.map_values(|p: String| p@);
            assert(p2 =~= opt_part(rev.number) + opt_part(rev.date));
            match &rev.remark {
                Some(s) => parts.push(escape(s.as_str())),
                None => {},
            }
            assert(parts@.map_values(|p: String| p@) =~= revision_parts(*rev));
            let joined = join_strings(&parts, " \u{b7} ");
            push_str(out, joined.as_str());
            push_str(out, "</p>\n");
        },
        None => {},
    }
    push_str(out, "</header>\n");
    assert(final(out)@ =~= old(out)@ + header_html(*h));
}

fn render_attrs_comment(out: &mut String, attrs: &crate::ast::Attributes)
    ensures
        final(out)@ == old(out)@ + attrs_comment(attrs.keys(), attrs.vals()),
{
    proof {
        attrs.lemma_lens();
    }
    let n = attrs.len();
    if n == 0 {
        assert(final(out)@ =~= old(out)@ + attrs_comment(attrs.keys(), attrs.vals()));
        return ;
    }
    push_str(out, "<!-- attributes: ");
    let ghost start = out@;
    let mut i: usize = 0;
    while i < n
        invariant
            i <= n,
            n == attrs.keys().len(),
            n == attrs.vals().len(),
            out@ == start + attr_entries(attrs.keys().take(i as int), attrs.vals().take(i as int)),
        decreases n - i,
    {
        let (k, v) = attrs.entry(i);
        push_str(out, k.as_str());
        push_str(out, "=");
        match v {
            AttributeValue::String(s) => push_str(out, s.as_str()),
            AttributeValue::Bool(b) => if *b {
                push_str(out, "true");
            } else {
                push_str(out, "false");
            },
        }
        push_str(out, "; ");
        proof {
            assert(attrs.keys().take(i + 1).drop_last() =~= attrs.keys().take(i as int));
            assert(attrs.vals().take(i + 1).drop_last() =~= attrs.vals().take(i as int));
            assert(out@ =~= start + attr_entries(attrs.keys().take(i + 1), attrs.vals().take(i + 1)));
        }
        i += 1;
    }
    assert(attrs.keys().take(n as int) =~= attrs.keys());
    assert(attrs.vals().take(n as int) =~= attrs.vals());
    push_str(out, "-->\n");
    assert(final(out)@ =~= old(out)@ + attrs_comment(attrs.keys(), attrs.vals()));
}

impl Converter for Html5Converter {
    /// Renders the whole page. Fails exactly when a delimited block pairs
    /// its style with the wrong content.
    fn convert(&self, doc: &Document) -> (r: Result<String, ConvertError>)
        ensures
            r is Ok <==> blocks_ok(blocks_v(doc.blocks@)),
            r matches Ok(html) ==> html@ == document_html(self.options.stylesheet, *doc),
            r matches Err(e) ==> mismatch(e),
    {
        let ctx = RenderCtx::new(doc);
        let mut out = String::new();
        push_str(&mut out, "<!doctype html>\n<html lang=\"en\">\n<head>\n");
        push_str(&mut out, "<meta charset=\"utf-8\">");
        push_str(&mut out, "\n");
        push_str(&mut out, "<meta name=\"viewport\" content=\"width=device-width, initial-scale=1\">");
        push_str(&mut out, "\n");
        let title_text = match &doc.header {
            Some(h) => text_of_inlines(h.title.as_slice()),
            None => "Untitled".to_owned(),
        };
        push_str(&mut out, "<title>");
        push_escaped(&mut out, title_text.as_str());
        push_str(&mut out, "</title>\n");
        render_stylesheet(&mut out, &self.options.stylesheet);
        render_highlighter_head(&mut out, &doc.attributes);
        push_str(&mut out, "</head>\n<body>\n");
        match &doc.header {
            Some(h) => render_header(&mut out, h),
            None => {},
        }
        if ctx.toc {
            render_toc(&mut out, &ctx);
        }
        let ghost before_blocks = out@;
        let r = render_blocks(&mut out, doc.blocks.as_slice(), &ctx);
        match r {
            Err(e) => {
                return Err(e);
            },
            Ok(()) => {},
        }
        render_attrs_comment(&mut out, &doc.attributes);
        render_highlighter_body(&mut out, &doc.attributes);
        push_str(&mut out, "</body>\n</html>\n");
        assert(out@ =~= document_html(self.options.stylesheet, *doc));
        Ok(out)
    }
}

} // verus!
