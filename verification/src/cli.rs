//! The decisions behind the command line: `-a` attribute entries, the
//! stylesheet a document asks for, output and base paths.
use vstd::prelude::*;

use crate::ast::{attr_str, AttrV, AttributeValue, Attributes};
use crate::convert::html5::ctx::{attr_get, is_truthy};
use crate::convert::html5::model::truthy;
use crate::convert::html5::{Stylesheet, BUILTIN_FILENAME};
use crate::parser::idgen::strip_trailing;
use crate::preprocessor::{
    adjoined, is_plain_name, is_sep, no_backslash, path_is_absolute, path_join, path_parent, relative_form,
};
use crate::text::{chars_of, find_char, push_str, string_of, sub_string};

verus! {

// ---------------------------------------------------------------------------
// -a NAME[=VALUE]
// ---------------------------------------------------------------------------

/// A `-a` entry: `NAME` sets it, `NAME=VALUE` gives it a value, `!NAME`,
/// `NAME!` and `NAME!=VALUE` unset it; an empty name is no entry.
pub open spec fn cli_attribute(raw: Seq<char>) -> Option<(Seq<char>, AttrV)> {
    let parts: (Seq<char>, Option<Seq<char>>, bool) = if raw.len() > 0 && raw[0] == '!' {
        (raw.skip(1), None, true)
    } else {
        match find_char(raw, '=') {
            Some(i) => {
                let n = raw.take(i);
                if n.len() > 0 && n.last() == '!' {
                    (n.drop_last(), Some(raw.skip(i + 1)), true)
                } else {
                    (n, Some(raw.skip(i + 1)), false)
                }
            },
            None => if raw.len() > 0 && raw.last() == '!' {
                (raw.drop_last(), None, true)
            } else {
                (raw, None, false)
            },
        }
    };
    if parts.0.len() == 0 {
        None
    } else {
        Some(
            (
                parts.0,
                if parts.2 {
                    AttrV::Bool(false)
                } else {
                    match parts.1 {
                        None => AttrV::Bool(true),
                        Some(v) => AttrV::Str(v),
                    }
                },
            ),
        )
    }
}

/// Parses one `-a` entry.
pub fn parse_one_cli_attribute(raw: &str) -> (res: Option<(String, AttributeValue)>)
    ensures
        res matches Some((n, v)) ==> cli_attribute(raw@) == Some((n@, v@)),
        res is None <==> cli_attribute(raw@) is None,
{
    let cs = chars_of(raw);
    let n = cs.len();
    let mut name_a: usize = 0;
    let mut name_b: usize = n;
    let mut value: Option<(usize, usize)> = None;
    let mut negate = false;
    if n > 0 && cs[0] == '!' {
        name_a = 1;
        negate = true;
        assert(raw@.skip(1) =~= cs@.subrange(1, n as int));
    } else {
        match crate::text::find_char_in(cs.as_slice(), '=', 0, n) {
            Some(i) => {
                proof {
                    assert(cs@.subrange(0, n as int) =~= cs@);
                    crate::text::lemma_find_char_from(cs@, '=', 0);
                }
                assert(find_char(raw@, '=') == Some(i as int));
                value = Some((i + 1, n));
                assert(raw@.skip(i + 1) =~= cs@.subrange(i + 1, n as int));
                if i > 0 && cs[i - 1] == '!' {
                    name_b = i - 1;
                    negate = true;
                    assert(raw@.take(i as int).drop_last() =~= cs@.subrange(0, i - 1));
                } else {
                    name_b = i;
                    assert(raw@.take(i as int) =~= cs@.subrange(0, i as int));
                }
            },
            None => {
                proof {
                    assert(cs@.subrange(0, n as int) =~= cs@);
                    crate::text::lemma_find_char_from(cs@, '=', 0);
                }
                assert(find_char(raw@, '=') is None);
                if n > 0 && cs[n - 1] == '!' {
                    name_b = n - 1;
                    negate = true;
                    assert(raw@.drop_last() =~= cs@.subrange(0, n - 1));
                } else {
                    assert(raw@ =~= cs@.subrange(0, n as int));
                }
            },
        }
    }
    if name_b <= name_a {
        return None;
    }
    let name = sub_string(cs.as_slice(), name_a, name_b);
    let v = if negate {
        AttributeValue::Bool(false)
    } else {
        match value {
            None => AttributeValue::Bool(true),
            Some((a, b)) => AttributeValue::String(sub_string(cs.as_slice(), a, b)),
        }
    };
    Some((name, v))
}

/// The attribute set the `-a` entries give, each entry overriding earlier
/// ones for its name; the first entry that is no entry is the error.
pub open spec fn cli_attributes_from(raws: Seq<Seq<char>>, m: Map<Seq<char>, AttrV>) -> Result<
    Map<Seq<char>, AttrV>,
    Seq<char>,
>
    decreases raws.len(),
{
    if raws.len() == 0 {
        Ok(m)
    } else {
        match cli_attribute(raws[0]) {
            Some((k, v)) => cli_attributes_from(raws.skip(1), m.insert(k, v)),
            None => Err(raws[0]),
        }
    }
}

/// Parses the `-a` entries in order; the error is the offending entry.
pub fn parse_cli_attributes(raw: &Vec<String>) -> (res: Result<Attributes, String>)
    ensures
        res matches Ok(a) ==> cli_attributes_from(raw@.map_values(|s: String| s@), Map::empty())
            == Ok::<Map<Seq<char>, AttrV>, Seq<char>>(a@),
        res matches Err(e) ==> cli_attributes_from(raw@.map_values(|s: String| s@), Map::empty())
            == Err::<Map<Seq<char>, AttrV>, Seq<char>>(e@),
{
    let ghost rv = raw@.map_values(|s: String| s@);
    let mut attrs = Attributes::new();
    let mut i: usize = 0;
    assert(rv.skip(0) =~= rv);
    while i < raw.len()
        invariant
            i <= raw.len(),
            rv == raw@.map_values(|s: String| s@),
            cli_attributes_from(rv, Map::empty()) == cli_attributes_from(rv.skip(i as int), attrs@),
        decreases raw.len() - i,
    {
        proof {
            assert(rv.skip(i as int)[0] == raw@[i as int]@);
            assert(rv.skip(i as int).skip(1) =~= rv.skip(i + 1));
        }
        match parse_one_cli_attribute(raw[i].as_str()) {
            Some((k, v)) => {
                attrs.insert(k, v);
            },
            None => {
                return Err(raw[i].clone());
            },
        }
        i += 1;
    }
    assert(rv.skip(raw.len() as int) =~= Seq::<Seq<char>>::empty());
    Ok(attrs)
}

// ---------------------------------------------------------------------------
// stylesheets
// ---------------------------------------------------------------------------

/// Where the page's stylesheet comes from: ready to render, or the
/// contents of a file the caller reads into [`Stylesheet::CustomEmbed`].
pub enum StylesheetSource {
    Ready(Stylesheet),
    ReadFile { path: String },
}

/// `name` under `stylesdir` when one is set.
pub open spec fn under_dir(dir: Option<Seq<char>>, name: Seq<char>) -> Seq<char> {
    match dir {
        Some(d) => strip_trailing(d, '/') + seq!['/'] + name,
        None => name,
    }
}

fn join_under(dir: Option<&str>, name: &str) -> (res: String)
    ensures
        res@ == under_dir(
            match dir {
                Some(d) => Some(d@),
                None => None,
            },
            name@,
        ),
{
    match dir {
        Some(d) => {
            let cs = chars_of(d);
            let mut e: usize = cs.len();
            assert(cs@.take(cs.len() as int) =~= d@);
            while e > 0 && cs[e - 1] == '/'
                invariant
                    e <= cs.len(),
                    strip_trailing(cs@.take(e as int), '/') == strip_trailing(d@, '/'),
                decreases e,
            {
                assert(cs@.take(e - 1) =~= cs@.take(e as int).drop_last());
                e -= 1;
            }
            let mut out = sub_string(cs.as_slice(), 0, e);
            assert(cs@.subrange(0, e as int) =~= cs@.take(e as int));
            crate::text::push_char(&mut out, '/');
            push_str(&mut out, name);
            out
        },
        None => name.to_owned(),
    }
}

/// The stylesheet the document attributes ask for: none under
/// `:stylesheet!:` or an empty `:stylesheet:`; the built-in one, inlined
/// or (under `:linkcss:`) linked; or a custom one, linked under
/// `:linkcss:` or else read from a file and inlined. Names resolve under
/// `:stylesdir:`.
pub open spec fn stylesheet_choice(attrs: Map<Seq<char>, AttrV>) -> (int, Option<Seq<char>>) {
    let off = match attr_get(attrs, "stylesheet"@) {
        Some(AttrV::Bool(b)) => !b,
        Some(AttrV::Str(s)) => s.len() == 0,
        None => false,
    };
    let linkcss = truthy(attr_get(attrs, "linkcss"@));
    let name = match attr_str(attrs, "stylesheet"@) {
        Some(s) => if s.len() > 0 {
            Some(s)
        } else {
            None
        },
        None => None,
    };
    let dir = attr_str(attrs, "stylesdir"@);
    if off {
        (0, None)
    } else {
        match name {
            None => if linkcss {
                (2, Some(under_dir(dir, BUILTIN_FILENAME@)))
            } else {
                (1, None)
            },
            Some(n) => if linkcss {
                (4, Some(under_dir(dir, n)))
            } else {
                (3, Some(under_dir(dir, n)))
            },
        }
    }
}

/// The stylesheet a document asks for (see [`stylesheet_choice`]); a
/// custom inlined one is a file to read, at its name under `:stylesdir:`
/// resolved against `base_dir` unless absolute.
pub fn resolve_stylesheet(attrs: &Attributes, base_dir: &str) -> (res: StylesheetSource)
    ensures
        stylesheet_choice(attrs@).0 == 0 ==> res matches StylesheetSource::Ready(Stylesheet::Omit),
        stylesheet_choice(attrs@).0 == 1 ==> res matches StylesheetSource::Ready(Stylesheet::BuiltinEmbed),
        stylesheet_choice(attrs@).0 == 2 ==> (res matches StylesheetSource::Ready(Stylesheet::BuiltinLink { href })
            && Some(href@) == stylesheet_choice(attrs@).1),
        stylesheet_choice(attrs@).0 == 3 ==> (res matches StylesheetSource::ReadFile { path } && (
        relative_form(stylesheet_choice(attrs@).1.unwrap()) && no_backslash(base_dir@) ==> adjoined(
            base_dir@,
            stylesheet_choice(attrs@).1.unwrap(),
            path@,
        ))),
        stylesheet_choice(attrs@).0 == 4 ==> (res matches StylesheetSource::Ready(Stylesheet::CustomLink { href })
            && Some(href@) == stylesheet_choice(attrs@).1),
{
    let sheet = attrs.get("stylesheet");
    let off = match sheet {
        Some(AttributeValue::Bool(b)) => !*b,
        Some(AttributeValue::String(s)) => s.as_str().is_empty(),
        None => false,
    };
    if off {
        return StylesheetSource::Ready(Stylesheet::Omit);
    }
    let linkcss = is_truthy(attrs.get("linkcss"));
    let name: Option<&str> = match sheet {
        Some(AttributeValue::String(s)) => if s.as_str().is_empty() {
            None
        } else {
            Some(s.as_str())
        },
        _ => None,
    };
    let dir: Option<&str> = match attrs.get("stylesdir") {
        Some(AttributeValue::String(s)) => Some(s.as_str()),
        _ => None,
    };
    match name {
        None => if linkcss {
            StylesheetSource::Ready(Stylesheet::BuiltinLink { href: join_under(dir, BUILTIN_FILENAME) })
        } else {
            StylesheetSource::Ready(Stylesheet::BuiltinEmbed)
        },
        Some(n) => if linkcss {
            StylesheetSource::Ready(Stylesheet::CustomLink { href: join_under(dir, n) })
        } else {
            StylesheetSource::ReadFile { path: resolve_style_path(base_dir, dir, n) }
        },
    }
}

/// `name` under `stylesdir`, resolved against `base_dir` unless it is
/// absolute.
pub fn resolve_style_path(base_dir: &str, stylesdir: Option<&str>, name: &str) -> (res: String)
    ensures
        ({
            let rel = under_dir(
                match stylesdir {
                    Some(d) => Some(d@),
                    None => None,
                },
                name@,
            );
            relative_form(rel) && no_backslash(base_dir@) ==> adjoined(base_dir@, rel, res@)
        }),
{
    let rel = join_under(stylesdir, name);
    if path_is_absolute(rel.as_str()) {
        rel
    } else {
        path_join(base_dir, rel.as_str())
    }
}

/// What `:copycss:` writes: the built-in stylesheet, inlined custom CSS,
/// or a linked custom file to read.
pub enum CssCopy {
    Builtin,
    Inline(String),
    File { path: String },
}

/// The name a copied inlined stylesheet is derived from: the
/// `:stylesheet:` value, else the built-in file name.
pub open spec fn copy_name(attrs: Map<Seq<char>, AttrV>) -> Seq<char> {
    match attr_str(attrs, "stylesheet"@) {
        Some(s) => s,
        None => BUILTIN_FILENAME@,
    }
}

/// What to copy next to the output and under which file name; nothing
/// when the page has no stylesheet.
pub fn plan_stylesheet_copy(stylesheet: &Stylesheet, attrs: &Attributes, base_dir: &str) -> (res:
    Option<(CssCopy, String)>)
    ensures
        res is None <==> stylesheet is Omit,
        (stylesheet is BuiltinEmbed || stylesheet is BuiltinLink) ==> (res matches Some((CssCopy::Builtin, f)) && f@ == BUILTIN_FILENAME@),
        stylesheet matches Stylesheet::CustomEmbed { css } ==> (res matches Some((CssCopy::Inline(c), _)) && c@ == css@),
        stylesheet matches Stylesheet::CustomEmbed { .. } ==> (res matches Some((_, f)) && (
        is_plain_name(copy_name(attrs@)) ==> f@ == copy_name(attrs@)) && (copy_name(attrs@).len() > 0
            ==> f@.len() > 0)),
        stylesheet matches Stylesheet::CustomLink { href } ==> (res matches Some((CssCopy::File { path }, f))
            && (relative_form(href@) && no_backslash(base_dir@) ==> adjoined(base_dir@, href@, path@))
            && (is_plain_name(href@) ==> f@ == href@) && (href@.len() > 0 ==> f@.len() > 0)),
{
    match stylesheet {
        Stylesheet::Omit => None,
        Stylesheet::BuiltinEmbed | Stylesheet::BuiltinLink { .. } => Some((CssCopy::Builtin, BUILTIN_FILENAME.to_owned())),
        Stylesheet::CustomEmbed { css } => {
            let name: &str = match attrs.get("stylesheet") {
                Some(AttributeValue::String(s)) => s.as_str(),
                _ => BUILTIN_FILENAME,
            };
            Some((CssCopy::Inline(css.clone()), path_leaf(name)))
        },
        Stylesheet::CustomLink { href } => {
            let path = resolve_style_path(base_dir, None, href.as_str());
            Some((CssCopy::File { path }, path_leaf(href.as_str())))
        },
    }
}

// ---------------------------------------------------------------------------
// paths
// ---------------------------------------------------------------------------

/// Where the output goes: `-o` (under `-D` when relative), else
/// `<stem>.html` under `-D`, else standard output (`None`).
pub fn resolve_output_path(out: Option<&str>, destination_dir: Option<&str>, input: Option<&str>) -> (res:
    Option<String>)
    ensures
        res is None <==> (out is None && destination_dir is None),
        destination_dir is None ==> (out matches Some(o) ==> (res matches Some(r) && r@ == o@)),
        out matches Some(o) ==> (destination_dir matches Some(d) ==> (relative_form(o@)
            && no_backslash(d@) ==> (res matches Some(r) && adjoined(d@, o@, r@)))),
        out is None ==> (destination_dir matches Some(d) ==> (no_backslash(d@) ==> (input is None ==> (
        res matches Some(r) && adjoined(d@, "out.html"@, r@))))),
        out is None ==> (destination_dir matches Some(d) ==> (no_backslash(d@) ==> (input matches Some(
            i,
        ) ==> (is_plain_name(i@) ==> (res matches Some(r) && adjoined(d@, stem_of(i@) + ".html"@, r@)))))),
{
    match (out, destination_dir) {
        (Some(o), Some(dir)) => if !path_is_absolute(o) {
            Some(path_join(dir, o))
        } else {
            Some(o.to_owned())
        },
        (Some(o), None) => Some(o.to_owned()),
        (None, Some(dir)) => {
            let stem = match input {
                Some(i) => match path_file_stem(i) {
                    Some(s) => s,
                    None => "out".to_owned(),
                },
                None => "out".to_owned(),
            };
            let mut file = stem;
            push_str(&mut file, ".html");
            proof {
                reveal_strlit(".html");
                reveal_strlit("out");
                reveal_strlit("out.html");
                assert("out"@ + ".html"@ =~= "out.html"@);
                if let Some(i) = input {
                    if is_plain_name(i@) {
                        lemma_stem_prefix(i@);
                    }
                }
            }
            Some(path_join(dir, file.as_str()))
        },
        (None, None) => None,
    }
}

/// The base directory for includes and stylesheets: `--base-dir`, else
/// the input's directory, else `.`.
pub fn preprocessor_base_dir(base_dir: Option<&str>, input: Option<&str>) -> (res: String)
    ensures
        base_dir matches Some(b) ==> res@ == b@,
        (base_dir is None && input is None) ==> res@ == "."@,
        base_dir is None ==> (input matches Some(i) ==> (is_plain_name(i@) ==> res@.len() == 0)),
        base_dir is None ==> (input matches Some(i) ==> (res@ == "."@ || (res@.len() < i@.len()
            && res@ == i@.take(res@.len() as int)))),
{
    match base_dir {
        Some(b) => b.to_owned(),
        None => match input {
            Some(i) => match path_parent(i) {
                Some(p) => p,
                None => ".".to_owned(),
            },
            None => ".".to_owned(),
        },
    }
}

/// Index of the last `.` in `s`, or -1.
pub open spec fn last_dot(s: Seq<char>) -> int
    decreases s.len(),
{
    if s.len() == 0 {
        -1
    } else if s.last() == '.' {
        s.len() - 1
    } else {
        last_dot(s.drop_last())
    }
}

/// The stem of a file name: the whole name when it holds no `.` or only a
/// leading one, else the part before the last `.`.
pub open spec fn stem_of(name: Seq<char>) -> Seq<char> {
    if last_dot(name) <= 0 {
        name
    } else {
        name.take(last_dot(name))
    }
}

proof fn lemma_last_dot_bound(s: Seq<char>)
    ensures
        -1 <= last_dot(s) < s.len(),
    decreases s.len(),
{
    if s.len() > 0 && s.last() != '.' {
        lemma_last_dot_bound(s.drop_last());
    }
}

/// The stem of a plain name is a leading part of it, so again holds no
/// separator and no `:`.
proof fn lemma_stem_prefix(name: Seq<char>)
    requires
        is_plain_name(name),
    ensures
        relative_form(stem_of(name) + ".html"@),
        stem_of(name).len() > 0,
{
    reveal_strlit(".html");
    lemma_last_dot_bound(name);
    let st = stem_of(name);
    let f = st + ".html"@;
    assert forall|i: int| 0 <= i < st.len() implies #[trigger] st[i] == name[i] by {}
    assert forall|i: int| 0 <= i < f.len() implies #[trigger] f[i] != ':' by {
        if i < st.len() {
            assert(f[i] == name[i]);
        }
    }
    assert(!is_sep(f[0])) by {
        assert(f[0] == name[0]);
    }
}

/// `camino::Utf8Path::file_stem`: the stem of the file name. Stated:
/// for a single file name, the stem as the documentation defines it. What
/// other paths give depends on the platform's path syntax and is left
/// unsaid.
#[verifier::external_body]
fn path_file_stem(p: &str) -> (res: Option<String>)
    ensures
        is_plain_name(p@) ==> res is Some && res.unwrap()@ == stem_of(p@),
{
    camino::Utf8Path::new(p).file_stem().map(|s| s.to_string())
}

/// `camino::Utf8Path::file_name`: the final component of the path, if
/// there is one. Stated: a component is never empty, and a single file
/// name is its own final component. Which component it is otherwise
/// depends on the platform's path syntax and is left unsaid.
#[verifier::external_body]
fn path_file_name(p: &str) -> (res: Option<String>)
    ensures
        is_plain_name(p@) ==> res is Some && res.unwrap()@ == p@,
        res is Some ==> res.unwrap()@.len() > 0,
{
    camino::Utf8Path::new(p).file_name().map(|s| s.to_string())
}

/// The last component of a path, or the whole text when there is none.
fn path_leaf(p: &str) -> (res: String)
    ensures
        is_plain_name(p@) ==> res@ == p@,
        p@.len() > 0 ==> res@.len() > 0,
{
    match path_file_name(p) {
        Some(n) => n,
        None => p.to_owned(),
    }
}

} // verus!
