//! Stylesheet and client-side highlighter markup.
use vstd::prelude::*;

use crate::ast::{attr_str, AttrV, AttributeValue, Attributes};
use crate::convert::html5::escape::{escape_attr_html, push_escaped_attr};
use crate::convert::html5::model::lower_ascii;
use crate::text::{chars_of, ends_with, eq_lit, push_str, to_ascii_lowercase};

verus! {

/// The built-in default stylesheet.
pub const BUILTIN_CSS: &'static str = ":root {
  color-scheme: light dark;
  --adoc-bg: light-dark(#ffffff, #15171a);
  --adoc-fg: light-dark(#1d1f23, #e3e5e8);
  --adoc-muted: light-dark(#5c6370, #9aa1ac);
  --adoc-accent: light-dark(#1f6feb, #58a6ff);
  --adoc-code-bg: light-dark(#f4f5f7, #1f2227);
  --adoc-border: light-dark(#d8dbe0, #30343b);
}
body {
  margin: 0 auto;
  max-width: 52rem;
  padding: 2rem 1.25rem;
  background: var(--adoc-bg);
  color: var(--adoc-fg);
  font: 16px/1.6 system-ui, sans-serif;
}
a { color: var(--adoc-accent); }
h1, h2, h3, h4, h5, h6 { line-height: 1.25; }
.title { font-weight: 600; color: var(--adoc-muted); margin-top: 1rem; }
.authors, .revision { color: var(--adoc-muted); margin: 0.25rem 0; }
pre {
  position: relative;
  overflow-x: auto;
  padding: 0.75rem 1rem;
  background: var(--adoc-code-bg);
  border: 1px solid var(--adoc-border);
  border-radius: 6px;
}
pre[data-lang]::before {
  content: attr(data-lang);
  position: absolute;
  top: 0.25rem;
  right: 0.5rem;
  font-size: 0.75rem;
  color: var(--adoc-muted);
}
code { font-family: ui-monospace, monospace; font-size: 0.92em; }
.conum { font-weight: 700; color: var(--adoc-accent); }
.admonitionblock {
  border-left: 4px solid var(--adoc-accent);
  padding: 0.25rem 1rem;
  margin: 1rem 0;
}
.admonitionblock .label { font-weight: 700; text-transform: uppercase; }
.admonitionblock.warning, .admonitionblock.caution { border-left-color: #d1242f; }
.admonitionblock.tip { border-left-color: #1a7f37; }
.admonitionblock.important { border-left-color: #9a6700; }
.example, aside { border: 1px solid var(--adoc-border); border-radius: 6px; padding: 0.5rem 1rem; }
blockquote { border-left: 3px solid var(--adoc-border); margin-left: 0; padding-left: 1rem; }
table { border-collapse: collapse; margin: 1rem 0; }
th, td { border: 1px solid var(--adoc-border); padding: 0.35rem 0.6rem; vertical-align: top; }
.halign-left { text-align: left; }
.halign-center { text-align: center; }
.halign-right { text-align: right; }
.toc { border: 1px solid var(--adoc-border); border-radius: 6px; padding: 0.5rem 1rem; }
.toc-title { font-weight: 700; }
.sectnum { color: var(--adoc-muted); }
.anchor { margin-right: 0.35rem; text-decoration: none; }
.anchor::before { content: '#'; }
.footnote { font-size: 0.85em; color: var(--adoc-muted); }
.imageblock img { max-width: 100%; }
";

/// Default filename used when linking or copying the built-in stylesheet.
pub const BUILTIN_FILENAME: &'static str = "adoc.css";

/// How the stylesheet appears in the generated HTML; resolved by the
/// caller, rendered as handed.
#[derive(Debug, Clone)]
pub enum Stylesheet {
    /// Inline the built-in stylesheet (default).
    BuiltinEmbed,
    /// Emit `<link>` to the built-in stylesheet at `href`.
    BuiltinLink { href: String },
    /// Inline the supplied CSS content.
    CustomEmbed { css: String },
    /// Emit `<link>` to an arbitrary href.
    CustomLink { href: String },
    /// Emit no stylesheet at all.
    Omit,
}

impl Default for Stylesheet {
    fn default() -> (res: Self)
        ensures
            res is BuiltinEmbed,
    {
        Stylesheet::BuiltinEmbed
    }
}

/// The stylesheet's markup in `<head>`.
pub open spec fn stylesheet_html(s: Stylesheet) -> Seq<char> {
    match s {
        Stylesheet::Omit => Seq::empty(),
        Stylesheet::BuiltinEmbed => "<style>\n"@ + BUILTIN_CSS@ + "</style>\n"@,
        Stylesheet::CustomEmbed { css } => "<style>\n"@ + css@ + (if ends_with(css@, seq!['\n']) {
            Seq::empty()
        } else {
            "\n"@
        }) + "</style>\n"@,
        Stylesheet::BuiltinLink { href } => "<link rel=\"stylesheet\" href=\""@ + escape_attr_html(
            href@,
        ) + "\">\n"@,
        Stylesheet::CustomLink { href } => "<link rel=\"stylesheet\" href=\""@ + escape_attr_html(
            href@,
        ) + "\">\n"@,
    }
}

/// Appends the stylesheet's markup.
pub fn render_stylesheet(out: &mut String, stylesheet: &Stylesheet)
    ensures
        final(out)@ == old(out)@ + stylesheet_html(*stylesheet),
{
    match stylesheet {
        Stylesheet::Omit => {},
        Stylesheet::BuiltinEmbed => {
            push_str(out, "<style>\n");
            push_str(out, BUILTIN_CSS);
            push_str(out, "</style>\n");
        },
        Stylesheet::CustomEmbed { css } => {
            push_str(out, "<style>\n");
            push_str(out, css.as_str());
            let cs = chars_of(css.as_str());
            let ends_nl = cs.len() > 0 && cs[cs.len() - 1] == '\n';
            proof {
                if cs.len() > 0 {
                    assert(css@.skip(css@.len() - 1) =~= seq![cs@[cs.len() - 1]]);
                    if css@.skip(css@.len() - 1) == seq!['\n'] {
                        assert(css@.skip(css@.len() - 1)[0] == '\n');
                    }
                }
            }
            assert(ends_nl == ends_with(css@, seq!['\n']));
            if !ends_nl {
                push_str(out, "\n");
            }
            push_str(out, "</style>\n");
        },
        Stylesheet::BuiltinLink { href } | Stylesheet::CustomLink { href } => {
            push_str(out, "<link rel=\"stylesheet\" href=\"");
            push_escaped_attr(out, href.as_str());
            push_str(out, "\">\n");
        },
    }
    assert(final(out)@ =~= old(out)@ + stylesheet_html(*stylesheet));
}

// ---------------------------------------------------------------------------
// source highlighters
// ---------------------------------------------------------------------------

/// A client-side highlighter the converter knows how to load.
pub enum Highlighter {
    Prism,
    HighlightJs,
}

/// The recognised `:source-highlighter:`, compared case-insensitively;
/// none for unset or unsupported values.
pub open spec fn highlighter_of(attrs: Map<Seq<char>, AttrV>) -> Option<Highlighter> {
    match attr_str(attrs, "source-highlighter"@) {
        Some(v) => {
            let l = lower_ascii(v);
            if l == "prism"@ || l == "prismjs"@ {
                Some(Highlighter::Prism)
            } else if l == "highlightjs"@ || l == "highlight.js"@ {
                Some(Highlighter::HighlightJs)
            } else {
                None
            }
        },
        None => None,
    }
}

/// A string attribute, or `default` when unset or empty.
pub open spec fn attr_or(attrs: Map<Seq<char>, AttrV>, name: Seq<char>, default: Seq<char>) -> Seq<
    char,
> {
    match attr_str(attrs, name) {
        Some(s) => if s.len() > 0 {
            s
        } else {
            default
        },
        None => default,
    }
}

/// The highlighter's stylesheet link in `<head>`.
pub open spec fn highlighter_head(attrs: Map<Seq<char>, AttrV>) -> Seq<char> {
    match highlighter_of(attrs) {
        Some(Highlighter::Prism) => "<link rel=\"stylesheet\" href=\"https://cdn.jsdelivr.net/npm/prismjs@1/themes/"@
            + escape_attr_html(attr_or(attrs, "prism-theme"@, "prism"@)) + ".min.css\">\n"@,
        Some(Highlighter::HighlightJs) => "<link rel=\"stylesheet\" href=\"https://cdn.jsdelivr.net/npm/highlight.js@11/styles/"@
            + escape_attr_html(attr_or(attrs, "highlightjs-theme"@, "default"@)) + ".min.css\">\n"@,
        None => Seq::empty(),
    }
}

/// The highlighter's scripts at the end of `<body>`.
pub open spec fn highlighter_body(attrs: Map<Seq<char>, AttrV>) -> Seq<char> {
    match highlighter_of(attrs) {
        Some(Highlighter::Prism) => "<script src=\"https://cdn.jsdelivr.net/npm/prismjs@1/prism.min.js\"></script>\n"@
            + "<script src=\"https://cdn.jsdelivr.net/npm/prismjs@1/plugins/autoloader/prism-autoloader.min.js\"></script>\n"@,
        Some(Highlighter::HighlightJs) => "<script src=\"https://cdn.jsdelivr.net/npm/highlight.js@11/lib/common.min.js\"></script>\n"@
            + "<script>hljs.highlightAll();</script>\n"@,
        None => Seq::empty(),
    }
}

fn string_attr<'a>(attrs: &'a Attributes, name: &str) -> (res: Option<&'a str>)
    ensures
        res matches Some(s) ==> attr_str(attrs@, name@) == Some(s@),
        res is None ==> attr_str(attrs@, name@) is None,
{
    match attrs.get(name) {
        Some(v) => v.as_str(),
        None => None,
    }
}

/// The recognised `:source-highlighter:`.
pub fn source_highlighter(attrs: &Attributes) -> (res: Option<Highlighter>)
    ensures
        res == highlighter_of(attrs@),
{
    match string_attr(attrs, "source-highlighter") {
        Some(raw) => {
            let cs = chars_of(raw);
            let mut low: Vec<char> = Vec::new();
            let mut i: usize = 0;
            while i < cs.len()
                invariant
                    i <= cs.len(),
                    low@ == lower_ascii(cs@).take(i as int),
                decreases cs.len() - i,
            {
                low.push(to_ascii_lowercase(cs[i]));
                proof {
                    assert(lower_ascii(cs@).take(i + 1) =~= lower_ascii(cs@).take(i as int).push(
                        crate::text::lower(cs@[i as int]),
                    ));
                }
                i += 1;
            }
            assert(lower_ascii(cs@).take(cs.len() as int) =~= lower_ascii(raw@));
            if eq_lit(low.as_slice(), "prism") || eq_lit(low.as_slice(), "prismjs") {
                Some(Highlighter::Prism)
            } else if eq_lit(low.as_slice(), "highlightjs") || eq_lit(low.as_slice(), "highlight.js") {
                Some(Highlighter::HighlightJs)
            } else {
                None
            }
        },
        None => None,
    }
}

fn attr_or_default<'a>(attrs: &'a Attributes, name: &str, default: &'a str) -> (res: &'a str)
    ensures
        res@ == attr_or(attrs@, name@, default@),
{
    match string_attr(attrs, name) {
        Some(s) => if s.is_empty() {
            default
        } else {
            s
        },
        None => default,
    }
}

/// Appends the highlighter's stylesheet link.
pub fn render_highlighter_head(out: &mut String, attrs: &Attributes)
    ensures
        final(out)@ == old(out)@ + highlighter_head(attrs@),
{
    match source_highlighter(attrs) {
        Some(Highlighter::Prism) => {
            let theme = attr_or_default(attrs, "prism-theme", "prism");
            push_str(out, "<link rel=\"stylesheet\" href=\"https://cdn.jsdelivr.net/npm/prismjs@1/themes/");
            push_escaped_attr(out, theme);
            push_str(out, ".min.css\">\n");
        },
        Some(Highlighter::HighlightJs) => {
            let theme = attr_or_default(attrs, "highlightjs-theme", "default");
            push_str(out, "<link rel=\"stylesheet\" href=\"https://cdn.jsdelivr.net/npm/highlight.js@11/styles/");
            push_escaped_attr(out, theme);
            push_str(out, ".min.css\">\n");
        },
        None => {},
    }
    assert(final(out)@ =~= old(out)@ + highlighter_head(attrs@));
}

/// Appends the highlighter's scripts.
pub fn render_highlighter_body(out: &mut String, attrs: &Attributes)
    ensures
        final(out)@ == old(out)@ + highlighter_body(attrs@),
{
    match source_highlighter(attrs) {
        Some(Highlighter::Prism) => {
            push_str(out, "<script src=\"https://cdn.jsdelivr.net/npm/prismjs@1/prism.min.js\"></script>\n");
            push_str(out, "<script src=\"https://cdn.jsdelivr.net/npm/prismjs@1/plugins/autoloader/prism-autoloader.min.js\"></script>\n");
        },
        Some(Highlighter::HighlightJs) => {
            push_str(out, "<script src=\"https://cdn.jsdelivr.net/npm/highlight.js@11/lib/common.min.js\"></script>\n");
            push_str(out, "<script>hljs.highlightAll();</script>\n");
        },
        None => {},
    }
    assert(final(out)@ =~= old(out)@ + highlighter_body(attrs@));
}

} // verus!
