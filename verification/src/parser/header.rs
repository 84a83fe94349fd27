//! Document header parser.
//!
//! Recognises the optional title (`= Title`), author line, revision line,
//! and leading attribute entries (`:name: value` / `:!name:`). Author and
//! revision lines only count if a title is present.
use vstd::prelude::*;

use crate::ast::{inlines_v, AttrV, AttributeValue, Attributes, Author, Header, Revision};
use crate::parser::inline_grammar::{header_subs, inline_parse};
use crate::parser::cursor::{texts, Cursor};
use crate::parser::inline::{attr_name, is_attribute_name};
use crate::parser::subs::Subs;
use crate::preprocessor::PreprocessedLine;
use crate::text::{
    chars_of, find_char, find_char_in, is_blank, is_blank_slice, is_whitespace, is_ws, join,
    lead_ws, push_char, push_chars, push_decimal, push_str, skip_ws, split_char, split_on,
    string_of, sub_string, sub_vec, trim, trim_bounds, trim_end, trim_vec, views, dec_digits,
};

verus! {

// ---------------------------------------------------------------------------
// attribute entries
// ---------------------------------------------------------------------------

/// `:name: value`, `:name:` (set), `:!name:` / `:name!:` (unset).
pub open spec fn entry_spec(text: Seq<char>) -> Option<(Seq<char>, AttrV)> {
    let t = trim_end(text);
    if t.len() == 0 || t[0] != ':' {
        None
    } else {
        let rest = t.drop_first();
        match find_char(rest, ':') {
            None => None,
            Some(k) => {
                let name_part = rest.take(k);
                let value = trim(rest.skip(k + 1));
                let (name, negate) = if name_part.len() > 0 && name_part[0] == '!' {
                    (name_part.drop_first(), true)
                } else if name_part.len() > 0 && name_part.last() == '!' {
                    (name_part.drop_last(), true)
                } else {
                    (name_part, false)
                };
                if !attr_name(name) {
                    None
                } else if negate {
                    Some((name, AttrV::Bool(false)))
                } else if value.len() == 0 {
                    Some((name, AttrV::Bool(true)))
                } else {
                    Some((name, AttrV::Str(value)))
                }
            },
        }
    }
}

pub fn parse_attribute_entry(text: &str) -> (res: Option<(String, AttributeValue)>)
    ensures
        res matches Some((n, v)) ==> entry_spec(text@) == Some((n@, v@)),
        res is None <==> entry_spec(text@) is None,
{
    let s = chars_of(text);
    let t = crate::text::trim_end_vec(s.as_slice());
    if t.len() == 0 || t[0] != ':' {
        return None;
    }
    let ghost rest = t@.drop_first();
    let k = match find_char_in(t.as_slice(), ':', 1, t.len()) {
        Some(k) => k,
        None => {
            assert(t@.subrange(1, t@.len() as int) =~= rest);
            return None;
        },
    };
    assert(t@.subrange(1, t@.len() as int) =~= rest);
    let kk = k - 1;
    let np = sub_vec(t.as_slice(), 1, k);
    assert(np@ =~= rest.take(kk as int));
    let (na, nb, negate) = if np.len() > 0 && np[0] == '!' {
        (1usize, np.len(), true)
    } else if np.len() > 0 && np[np.len() - 1] == '!' {
        (0usize, np.len() - 1, true)
    } else {
        (0usize, np.len(), false)
    };
    let name = sub_vec(np.as_slice(), na, nb);
    assert(name@ =~= (if np@.len() > 0 && np@[0] == '!' {
        np@.drop_first()
    } else if np@.len() > 0 && np@.last() == '!' {
        np@.drop_last()
    } else {
        np@
    }));
    if !is_attribute_name(name.as_slice()) {
        return None;
    }
    let (va, vb) = trim_bounds(t.as_slice(), k + 1, t.len());
    assert(t@.subrange(k + 1, t@.len() as int) =~= rest.skip(kk + 1));
    let name_s = string_of(name.as_slice());
    if negate {
        Some((name_s, AttributeValue::Bool(false)))
    } else if va == vb {
        Some((name_s, AttributeValue::Bool(true)))
    } else {
        Some((name_s, AttributeValue::String(sub_string(t.as_slice(), va, vb))))
    }
}

/// First index `>= i` whose line is not blank.
pub open spec fn skip_blank_from(ts: Seq<Seq<char>>, i: int) -> int
    decreases ts.len() - i,
{
    if i < 0 || i >= ts.len() || !is_blank(ts[i]) {
        i
    } else {
        skip_blank_from(ts, i + 1)
    }
}

/// Consecutive attribute entries (blank lines between them allowed) from
/// line `i` on: where the run stops and the attributes after applying it.
pub open spec fn entries_from(ts: Seq<Seq<char>>, i: int, m: Map<Seq<char>, AttrV>) -> (
    int,
    Map<Seq<char>, AttrV>,
)
    decreases ts.len() - i,
{
    let j = skip_blank_from(ts, i);
    if i < 0 || j >= ts.len() || j < i {
        (j, m)
    } else {
        match entry_spec(ts[j]) {
            Some((k, v)) => entries_from(ts, j + 1, m.insert(k, v)),
            None => (j, m),
        }
    }
}

pub proof fn lemma_skip_blank_from(ts: Seq<Seq<char>>, i: int)
    requires
        0 <= i <= ts.len(),
    ensures
        i <= skip_blank_from(ts, i) <= ts.len(),
        forall|j: int| i <= j < skip_blank_from(ts, i) ==> is_blank(#[trigger] ts[j]),
        skip_blank_from(ts, i) < ts.len() ==> !is_blank(ts[skip_blank_from(ts, i)]),
    decreases ts.len() - i,
{
    if i < ts.len() && is_blank(ts[i]) {
        lemma_skip_blank_from(ts, i + 1);
    }
}

/// The first `i` with `i >= from` and a non-blank line, given the lines in
/// between are blank.
pub proof fn lemma_skip_blank_same(ts: Seq<Seq<char>>, from: int, to: int)
    requires
        0 <= from <= to <= ts.len(),
        forall|j: int| from <= j < to ==> is_blank(#[trigger] ts[j]),
        to < ts.len() ==> !is_blank(ts[to]),
    ensures
        skip_blank_from(ts, from) == to,
    decreases to - from,
{
    if from < to {
        lemma_skip_blank_same(ts, from + 1, to);
    }
}

/// Consumes consecutive attribute-entry lines (`:name: value`, `:!name:`).
pub fn consume_attribute_entries(cursor: &mut Cursor, attrs: &mut Attributes)
    requires
        0 <= old(cursor).pos() <= old(cursor).lines().len(),
    ensures
        final(cursor).lines() == old(cursor).lines(),
        old(cursor).pos() <= final(cursor).pos() <= final(cursor).lines().len(),
        (final(cursor).pos(), final(attrs)@) == entries_from(
            texts(old(cursor).lines()),
            old(cursor).pos(),
            old(attrs)@,
        ),
{
    let ghost ts = texts(cursor.lines());
    loop
        invariant
            cursor.lines() == old(cursor).lines(),
            ts == texts(cursor.lines()),
            0 <= cursor.pos() <= ts.len(),
            old(cursor).pos() <= cursor.pos(),
            entries_from(ts, cursor.pos(), attrs@) == entries_from(
                ts,
                old(cursor).pos(),
                old(attrs)@,
            ),
        decreases ts.len() - cursor.pos(),
    {
        let ghost p0 = cursor.pos();
        cursor.skip_blank_lines();
        proof {
            lemma_skip_blank_same(ts, p0, cursor.pos());
        }
        let line = match cursor.peek() {
            Some(l) => l,
            None => {
                return;
            },
        };
        assert(ts[cursor.pos()] == line.text@);
        match parse_attribute_entry(line.text.as_str()) {
            Some((name, value)) => {
                attrs.insert(name, value);
                cursor.advance();
            },
            None => {
                return;
            },
        }
    }
}

// ---------------------------------------------------------------------------
// title, authors, revision
// ---------------------------------------------------------------------------

/// `= Title`: one `=`, a space, and some non-blank text.
pub open spec fn title_line(t: Seq<char>) -> bool {
    t.len() >= 3 && t[0] == '=' && t[1] == ' ' && !is_blank(t.skip(2))
}

fn is_title_line(text: &[char]) -> (res: bool)
    ensures
        res == title_line(text@),
{
    if text.len() < 3 || text[0] != '=' || text[1] != ' ' {
        return false;
    }
    let rest = sub_vec(text, 2, text.len());
    assert(rest@ =~= text@.skip(2));
    !is_blank_slice(rest.as_slice())
}

/// `t` starts with `marker` followed by a space or another `marker`.
pub open spec fn marker_start(t: Seq<char>, marker: char) -> bool {
    t.len() >= 2 && t[0] == marker && (t[1] == ' ' || t[1] == marker)
}

/// Non-empty, and not a section marker, attribute entry, block attribute
/// line, list item or block title.
pub open spec fn author_line(text: Seq<char>) -> bool {
    let t = trim(text);
    &&& t.len() > 0
    &&& t[0] != '='
    &&& t[0] != ':'
    &&& t[0] != '['
    &&& !marker_start(t, '*')
    &&& !marker_start(t, '.')
}

fn is_author_line(text: &[char]) -> (res: bool)
    ensures
        res == author_line(text@),
{
    let t = trim_vec(text);
    t.len() > 0 && t[0] != '=' && t[0] != ':' && t[0] != '[' && !(t.len() >= 2 && t[0] == '*' && (
    t[1] == ' ' || t[1] == '*')) && !(t.len() >= 2 && t[0] == '.' && (t[1] == ' ' || t[1]
        == '.'))
}

#[verifier::ext_equal]
pub struct AuthorV {
    pub name: Seq<char>,
    pub email: Option<Seq<char>>,
}

pub open spec fn author_v(a: Author) -> AuthorV {
    AuthorV { name: a.name@, email: crate::ast::opt_str_v(a.email) }
}

pub open spec fn authors_v(s: Seq<Author>) -> Seq<AuthorV> {
    s.map_values(|a: Author| author_v(a))
}

/// Last index of `c` in `s`.
pub open spec fn rfind_char(s: Seq<char>, c: char) -> Option<int>
    decreases s.len(),
{
    if s.len() == 0 {
        None
    } else if s.last() == c {
        Some(s.len() - 1)
    } else {
        rfind_char(s.drop_last(), c)
    }
}

/// `Name <email>` or just `Name` (the part is already trimmed).
pub open spec fn one_author(part: Seq<char>) -> AuthorV {
    let plain = AuthorV { name: part, email: None };
    match find_char(part, '<') {
        Some(lt) => match rfind_char(part, '>') {
            Some(gt) => if gt > lt {
                let email = trim(part.subrange(lt + 1, gt));
                AuthorV {
                    name: trim(part.take(lt)),
                    email: if email.len() == 0 {
                        None
                    } else {
                        Some(email)
                    },
                }
            } else {
                plain
            },
            None => plain,
        },
        None => plain,
    }
}

/// `;`-separated authors; parts with an empty name are dropped.
pub open spec fn author_list(text: Seq<char>) -> Seq<AuthorV> {
    split_char(text, ';').map_values(|p: Seq<char>| one_author(trim(p))).filter(
        |a: AuthorV| a.name.len() > 0,
    )
}

fn rfind_char_exec(s: &[char], c: char) -> (res: Option<usize>)
    ensures
        res matches Some(k) ==> rfind_char(s@, c) == Some(k as int) && k < s.len(),
        res is None ==> rfind_char(s@, c) is None,
{
    let mut k = s.len();
    assert(s@.take(k as int) =~= s@);
    while k > 0
        invariant
            k <= s.len(),
            rfind_char(s@, c) == rfind_char(s@.take(k as int), c),
        decreases k,
    {
        assert(s@.take(k as int).drop_last() =~= s@.take(k - 1));
        if s[k - 1] == c {
            return Some(k - 1);
        }
        k -= 1;
    }
    None
}

fn parse_one_author(part: &[char]) -> (res: Author)
    ensures
        author_v(res) =~= one_author(part@),
{
    let lt = find_char_in(part, '<', 0, part.len());
    let gt = rfind_char_exec(part, '>');
    assert(part@.subrange(0, part@.len() as int) =~= part@);
    assert(lt matches Some(l) ==> find_char(part@, '<') == Some(l as int));
    assert(lt is None ==> find_char(part@, '<') is None);
    if let Some(lt) = lt {
        if let Some(gt) = gt {
            if gt > lt {
                let (na, nb) = trim_bounds(part, 0, lt);
                let (ea, eb) = trim_bounds(part, lt + 1, gt);
                assert(part@.subrange(0, lt as int) =~= part@.take(lt as int));
                let name = sub_string(part, na, nb);
                let email = if ea == eb {
                    None
                } else {
                    Some(sub_string(part, ea, eb))
                };
                let res = Author { name, email };
                assert(author_v(res).name == trim(part@.take(lt as int)));
                return res;
            }
        }
    }
    Author { name: string_of(part), email: None }
}

fn parse_author_line(text: &[char]) -> (res: Vec<Author>)
    ensures
        authors_v(res@) == author_list(text@),
{
    let parts = split_on(text, ';');
    let ghost pv = views(parts@);
    let ghost mapped = pv.map_values(|p: Seq<char>| one_author(trim(p)));
    let mut out: Vec<Author> = Vec::new();
    let mut i: usize = 0;
    while i < parts.len()
        invariant
            i <= parts.len(),
            pv == views(parts@),
            mapped == pv.map_values(|p: Seq<char>| one_author(trim(p))),
            authors_v(out@) == mapped.take(i as int).filter(|a: AuthorV| a.name.len() > 0),
        decreases parts.len() - i,
    {
        let t = trim_vec(parts[i].as_slice());
        let a = parse_one_author(t.as_slice());
        proof {
            assert(mapped.take(i + 1).drop_last() =~= mapped.take(i as int));
            assert(mapped[i as int] == author_v(a));
            reveal(Seq::filter);
            assert(mapped.take(i + 1).last() == mapped[i as int]);
        }
        if !a.name.as_str().is_empty() {
            let ghost prev = out@;
            out.push(a);
            assert(authors_v(out@) =~= authors_v(prev).push(author_v(a)));
        } else {
            proof {
                assert(a.name@.len() == 0);
            }
        }
        i += 1;
    }
    assert(mapped.take(parts.len() as int) =~= mapped);
    out
}

/// Not blank, not an attribute entry, not a section marker.
pub open spec fn revision_line(text: Seq<char>) -> bool {
    let t = trim(text);
    t.len() > 0 && t[0] != ':' && t[0] != '='
}

#[verifier::ext_equal]
pub struct RevisionV {
    pub number: Option<Seq<char>>,
    pub date: Option<Seq<char>>,
    pub remark: Option<Seq<char>>,
}

pub open spec fn revision_v(r: Revision) -> RevisionV {
    RevisionV {
        number: crate::ast::opt_str_v(r.number),
        date: crate::ast::opt_str_v(r.date),
        remark: crate::ast::opt_str_v(r.remark),
    }
}

/// `v<number>, <date>: <remark>`: the remark follows the first `:`, the
/// date the first `,` before it.
pub open spec fn revision_spec(text: Seq<char>) -> RevisionV {
    let t = trim(text);
    let (head, remark) = match find_char(t, ':') {
        Some(k) => (trim(t.take(k)), Some(trim(t.skip(k + 1)))),
        None => (t, None),
    };
    match find_char(head, ',') {
        Some(k) => RevisionV {
            number: Some(trim(head.take(k))),
            date: Some(trim(head.skip(k + 1))),
            remark,
        },
        None => RevisionV { number: Some(head), date: None, remark },
    }
}

fn is_revision_line(text: &[char]) -> (res: bool)
    ensures
        res == revision_line(text@),
{
    let t = trim_vec(text);
    t.len() > 0 && t[0] != ':' && t[0] != '='
}

fn parse_revision_line(text: &[char]) -> (res: Revision)
    ensures
        revision_v(res) == revision_spec(text@),
{
    let t = trim_vec(text);
    let n = t.len();
    assert(t@.subrange(0, n as int) =~= t@);
    let colon = find_char_in(t.as_slice(), ':', 0, n);
    let (head, remark) = match colon {
        Some(k) => {
            let (a, b) = trim_bounds(t.as_slice(), 0, k);
            let (ra, rb) = trim_bounds(t.as_slice(), k + 1, n);
            assert(t@.subrange(0, k as int) =~= t@.take(k as int));
            assert(t@.subrange(k + 1, n as int) =~= t@.skip(k + 1));
            (sub_vec(t.as_slice(), a, b), Some(sub_string(t.as_slice(), ra, rb)))
        },
        None => (t, None),
    };
    let hn = head.len();
    assert(head@.subrange(0, hn as int) =~= head@);
    match find_char_in(head.as_slice(), ',', 0, hn) {
        Some(k) => {
            let (a, b) = trim_bounds(head.as_slice(), 0, k);
            let (da, db) = trim_bounds(head.as_slice(), k + 1, hn);
            assert(head@.subrange(0, k as int) =~= head@.take(k as int));
            assert(head@.subrange(k + 1, hn as int) =~= head@.skip(k + 1));
            Revision {
                number: Some(sub_string(head.as_slice(), a, b)),
                date: Some(sub_string(head.as_slice(), da, db)),
                remark,
            }
        },
        None => Revision { number: Some(string_of(head.as_slice())), date: None, remark },
    }
}


// ---------------------------------------------------------------------------
// derived attributes
// ---------------------------------------------------------------------------

/// Number of leading non-whitespace characters.
pub open spec fn lead_nonws(s: Seq<char>) -> nat
    decreases s.len(),
{
    if s.len() > 0 && !is_ws(s[0]) {
        1 + lead_nonws(s.drop_first())
    } else {
        0
    }
}

/// `split_whitespace` from index `i` on.
pub open spec fn words_from(s: Seq<char>, i: int) -> Seq<Seq<char>>
    decreases s.len() - i,
{
    if i < 0 || i >= s.len() {
        Seq::empty()
    } else {
        let j = i + lead_ws(s.skip(i));
        if j >= s.len() {
            Seq::empty()
        } else {
            let k = j + lead_nonws(s.skip(j));
            if k <= j || k > s.len() {
                Seq::empty()
            } else {
                seq![s.subrange(j, k)] + words_from(s, k)
            }
        }
    }
}

proof fn lemma_lead_nonws(s: Seq<char>, k: int)
    requires
        0 <= k <= s.len(),
        forall|i: int| 0 <= i < k ==> !is_ws(#[trigger] s[i]),
        k < s.len() ==> is_ws(s[k]),
    ensures
        lead_nonws(s) == k,
    decreases k,
{
    if k > 0 {
        let t = s.drop_first();
        assert forall|i: int| 0 <= i < k - 1 implies !is_ws(#[trigger] t[i]) by {
            assert(t[i] == s[i + 1]);
        }
        if k < s.len() {
            assert(t[k - 1] == s[k]);
        }
        lemma_lead_nonws(t, k - 1);
    }
}

pub fn split_words(s: &[char]) -> (res: Vec<Vec<char>>)
    ensures
        views(res@) == words_from(s@, 0),
        forall|i: int| 0 <= i < res@.len() ==> (#[trigger] res@[i])@.len() > 0,
{
    let mut out: Vec<Vec<char>> = Vec::new();
    let mut i: usize = 0;
    while i < s.len()
        invariant
            i <= s.len(),
            views(out@) + words_from(s@, i as int) == words_from(s@, 0),
            forall|k: int| 0 <= k < out@.len() ==> (#[trigger] out@[k])@.len() > 0,
        decreases s.len() - i,
    {
        let j = skip_ws(s, i, s.len());
        assert(s@.subrange(i as int, s.len() as int) =~= s@.skip(i as int));
        proof {
            crate::text::lemma_lead_ws_bound(s@.skip(i as int));
            if j < s.len() {
                assert(s@.skip(i as int)[j - i] == s@[j as int]);
            }
        }
        if j >= s.len() {
            assert(words_from(s@, i as int) =~= Seq::<Seq<char>>::empty());
            assert(views(out@) + words_from(s@, j as int) =~= views(out@));
            i = j;
            continue;
        }
        let mut k = j;
        while k < s.len() && !is_whitespace(s[k])
            invariant
                j <= k <= s.len(),
                forall|t: int| j <= t < k ==> !is_ws(#[trigger] s@[t]),
            decreases s.len() - k,
        {
            k += 1;
        }
        proof {
            let t = s@.skip(j as int);
            assert forall|x: int| 0 <= x < k - j implies !is_ws(#[trigger] t[x]) by {
                assert(t[x] == s@[j + x]);
            }
            if k < s.len() {
                assert(t[k - j] == s@[k as int]);
            }
            lemma_lead_nonws(t, k - j);
            assert(s@[j as int] == t[0]);
        }
        let w = sub_vec(s, j, k);
        let ghost prev = views(out@);
        out.push(w);
        assert(views(out@) =~= prev.push(w@));
        assert(words_from(s@, i as int) == seq![w@] + words_from(s@, k as int));
        assert(prev.push(w@) + words_from(s@, k as int) =~= prev + (seq![w@] + words_from(
            s@,
            k as int,
        )));
        i = k;
    }
    proof {
        if i >= s.len() {
            assert(words_from(s@, i as int) =~= Seq::<Seq<char>>::empty());
        }
    }
    assert(views(out@) =~= views(out@) + Seq::<Seq<char>>::empty());
    out
}

/// Sets `k` to `v` unless the document already set it.
pub open spec fn set_absent(m: Map<Seq<char>, AttrV>, k: Seq<char>, v: Seq<char>) -> Map<
    Seq<char>,
    AttrV,
> {
    if m.contains_key(k) {
        m
    } else {
        m.insert(k, AttrV::Str(v))
    }
}

/// `{firstname}`, `{middlename}`, `{lastname}` from the name's words.
pub open spec fn name_attrs(m: Map<Seq<char>, AttrV>, ws: Seq<Seq<char>>) -> Map<Seq<char>, AttrV> {
    if ws.len() == 0 {
        m
    } else if ws.len() == 1 {
        set_absent(m, "firstname"@, ws[0])
    } else if ws.len() == 2 {
        set_absent(set_absent(m, "firstname"@, ws[0]), "lastname"@, ws[1])
    } else {
        set_absent(
            set_absent(
                set_absent(m, "firstname"@, ws[0]),
                "middlename"@,
                join(ws.subrange(1, ws.len() - 1), seq![' ']),
            ),
            "lastname"@,
            ws.last(),
        )
    }
}

/// The attributes of the first author.
pub open spec fn first_author_attrs(m: Map<Seq<char>, AttrV>, a: AuthorV) -> Map<Seq<char>, AttrV> {
    let m1 = set_absent(m, "author"@, a.name);
    let m2 = match a.email {
        Some(e) => set_absent(m1, "email"@, e),
        None => m1,
    };
    let ws = words_from(a.name, 0);
    let m3 = name_attrs(m2, ws);
    let initials = ws.map_values(|w: Seq<char>| w[0]);
    if initials.len() > 0 {
        set_absent(m3, "authorinitials"@, initials)
    } else {
        m3
    }
}

/// `{author_N}` and `{email_N}` for the authors at indexes `1 .. n`
/// (numbered from 2).
pub open spec fn extra_authors(m: Map<Seq<char>, AttrV>, authors: Seq<AuthorV>, n: int) -> Map<
    Seq<char>,
    AttrV,
>
    decreases n,
{
    if n <= 1 {
        m
    } else {
        let m1 = extra_authors(m, authors, n - 1);
        let a = authors[n - 1];
        let m2 = set_absent(m1, "author_"@ + dec_digits(n as nat), a.name);
        match a.email {
            Some(e) => set_absent(m2, "email_"@ + dec_digits(n as nat), e),
            None => m2,
        }
    }
}

/// The revision number without a leading `v`.
pub open spec fn strip_v(s: Seq<char>) -> Seq<char> {
    if s.len() > 0 && s[0] == 'v' {
        s.drop_first()
    } else {
        s
    }
}

pub open spec fn revision_attrs(m: Map<Seq<char>, AttrV>, r: Option<RevisionV>) -> Map<
    Seq<char>,
    AttrV,
> {
    match r {
        None => m,
        Some(r) => {
            let m1 = match r.number {
                Some(num) => set_absent(m, "revnumber"@, trim(strip_v(num))),
                None => m,
            };
            let m2 = match r.date {
                Some(d) => set_absent(m1, "revdate"@, d),
                None => m1,
            };
            match r.remark {
                Some(x) => set_absent(m2, "revremark"@, x),
                None => m2,
            }
        },
    }
}

pub open spec fn author_names(authors: Seq<AuthorV>) -> Seq<Seq<char>> {
    authors.map_values(|a: AuthorV| a.name)
}

/// The spec's derived attributes: `{doctitle}`, the first author's name
/// parts, email and initials, `{authors}`, `{author_N}`/`{email_N}`, and
/// the revision fields. Values the document already set are kept.
pub open spec fn derived_attrs(
    m: Map<Seq<char>, AttrV>,
    title: Seq<char>,
    authors: Seq<AuthorV>,
    rev: Option<RevisionV>,
) -> Map<Seq<char>, AttrV> {
    let m1 = set_absent(m, "doctitle"@, title);
    let m2 = if authors.len() > 0 {
        first_author_attrs(m1, authors[0])
    } else {
        m1
    };
    let names = join(author_names(authors), ", "@);
    let m3 = if names.len() > 0 {
        set_absent(m2, "authors"@, names)
    } else {
        m2
    };
    let m4 = extra_authors(m3, authors, authors.len() as int);
    revision_attrs(m4, rev)
}

fn set_if_absent(attrs: &mut Attributes, name: &str, value: &[char])
    ensures
        final(attrs)@ == set_absent(old(attrs)@, name@, value@),
{
    if !attrs.contains_key(name) {
        attrs.insert(name.to_string(), AttributeValue::String(string_of(value)));
    }
}

fn set_if_absent_s(attrs: &mut Attributes, name: String, value: &[char])
    ensures
        final(attrs)@ == set_absent(old(attrs)@, name@, value@),
{
    if !attrs.contains_key(name.as_str()) {
        attrs.insert(name, AttributeValue::String(string_of(value)));
    }
}

fn opt_chars(o: &Option<String>) -> (res: Option<Vec<char>>)
    ensures
        res matches Some(v) ==> o matches Some(s) && v@ == s@,
        res is None ==> o is None,
{
    match o {
        Some(s) => Some(chars_of(s.as_str())),
        None => None,
    }
}

fn first_author_attributes(attrs: &mut Attributes, first: &Author)
    ensures
        final(attrs)@ == first_author_attrs(old(attrs)@, author_v(*first)),
{
    let ghost a = author_v(*first);
    let ghost m0 = attrs@;
    let name = chars_of(first.name.as_str());
    set_if_absent(attrs, "author", name.as_slice());
    let ghost m1 = attrs@;
    if let Some(email) = opt_chars(&first.email) {
        set_if_absent(attrs, "email", email.as_slice());
    }
    let ghost m2 = attrs@;
    assert(m2 == (match a.email {
        Some(e) => set_absent(m1, "email"@, e),
        None => m1,
    }));
    let parts = split_words(name.as_slice());
    let ghost ws = views(parts@);
    assert(ws == words_from(a.name, 0));
    let n = parts.len();
    if n == 1 {
        set_if_absent(attrs, "firstname", parts[0].as_slice());
        assert(attrs@ == name_attrs(m2, ws));
    } else if n == 2 {
        set_if_absent(attrs, "firstname", parts[0].as_slice());
        set_if_absent(attrs, "lastname", parts[1].as_slice());
        assert(attrs@ == name_attrs(m2, ws));
    } else if n > 2 {
        set_if_absent(attrs, "firstname", parts[0].as_slice());
        let ghost ma = attrs@;
        assert(ma == set_absent(m2, "firstname"@, ws[0]));
        let mut middle_parts: Vec<Vec<char>> = Vec::new();
        let mut i: usize = 1;
        while i < n - 1
            invariant
                1 <= i <= n - 1,
                n == parts@.len(),
                ws == views(parts@),
                views(middle_parts@) =~= ws.subrange(1, i as int),
            decreases n - 1 - i,
        {
            let piece = sub_vec(parts[i].as_slice(), 0, parts[i].len());
            assert(piece@ =~= ws[i as int]);
            let ghost prev = views(middle_parts@);
            middle_parts.push(piece);
            assert(views(middle_parts@) =~= prev.push(piece@));
            i += 1;
        }
        let mut sp: Vec<char> = Vec::new();
        sp.push(' ');
        assert(sp@ =~= seq![' ']);
        let middle = crate::text::join_vecs(&middle_parts, sp.as_slice());
        assert(middle@ == join(ws.subrange(1, n - 1), seq![' ']));
        set_if_absent(attrs, "middlename", middle.as_slice());
        set_if_absent(attrs, "lastname", parts[n - 1].as_slice());
        assert(ws.last() == parts@[n - 1]@);
        assert(attrs@ == name_attrs(m2, ws));
    } else {
        assert(attrs@ == name_attrs(m2, ws));
    }
    let ghost m3 = attrs@;
    let mut initials: Vec<char> = Vec::new();
    let mut i: usize = 0;
    while i < n
        invariant
            i <= n == parts@.len(),
            ws == views(parts@),
            forall|k: int| 0 <= k < parts@.len() ==> (#[trigger] parts@[k])@.len() > 0,
            initials@ =~= ws.take(i as int).map_values(|w: Seq<char>| w[0]),
        decreases n - i,
    {
        initials.push(parts[i][0]);
        i += 1;
    }
    assert(ws.take(n as int) =~= ws);
    if initials.len() > 0 {
        set_if_absent(attrs, "authorinitials", initials.as_slice());
    }
}

/// Populate the derived attributes of the header; user-supplied entries
/// take precedence.
fn set_derived_attributes(
    attrs: &mut Attributes,
    title: &[char],
    authors: &[Author],
    revision: &Option<Revision>,
)
    ensures
        final(attrs)@ == derived_attrs(
            old(attrs)@,
            title@,
            authors_v(authors@),
            match *revision {
                Some(r) => Some(revision_v(r)),
                None => None,
            },
        ),
{
    let ghost av = authors_v(authors@);
    set_if_absent(attrs, "doctitle", title);
    if authors.len() > 0 {
        first_author_attributes(attrs, &authors[0]);
    }
    let mut names: Vec<Vec<char>> = Vec::new();
    let mut i: usize = 0;
    while i < authors.len()
        invariant
            i <= authors.len(),
            av == authors_v(authors@),
            views(names@) =~= author_names(av).take(i as int),
        decreases authors.len() - i,
    {
        let nm = chars_of(authors[i].name.as_str());
        let ghost prev = views(names@);
        names.push(nm);
        assert(views(names@) =~= prev.push(nm@));
        assert(author_names(av).take(i + 1) =~= author_names(av).take(i as int).push(
            author_names(av)[i as int],
        ));
        i += 1;
    }
    assert(author_names(av).take(authors.len() as int) =~= author_names(av));
    let sep = chars_of(", ");
    let joined = crate::text::join_vecs(&names, sep.as_slice());
    if joined.len() > 0 {
        set_if_absent(attrs, "authors", joined.as_slice());
    }
    let ghost m3 = attrs@;
    let mut idx: usize = 1;
    while idx < authors.len()
        invariant
            1 <= idx,
            idx <= authors.len() || idx == 1,
            av == authors_v(authors@),
            attrs@ == extra_authors(m3, av, idx as int),
        decreases authors.len() - idx,
    {
        let n = idx + 1;
        let a = &authors[idx];
        let mut key = String::new();
        push_str(&mut key, "author_");
        push_decimal(&mut key, n as u128);
        let nm = chars_of(a.name.as_str());
        set_if_absent_s(attrs, key, nm.as_slice());
        if let Some(email) = opt_chars(&a.email) {
            let mut ekey = String::new();
            push_str(&mut ekey, "email_");
            push_decimal(&mut ekey, n as u128);
            set_if_absent_s(attrs, ekey, email.as_slice());
        }
        idx += 1;
    }
    proof {
        if authors.len() == 0 {
            assert(attrs@ == extra_authors(m3, av, 0));
        }
    }
    if let Some(rev) = revision {
        if let Some(num) = opt_chars(&rev.number) {
            let start: usize = if num.len() > 0 && num[0] == 'v' {
                1
            } else {
                0
            };
            let stripped = sub_vec(num.as_slice(), start, num.len());
            assert(stripped@ =~= strip_v(num@));
            let t = trim_vec(stripped.as_slice());
            set_if_absent(attrs, "revnumber", t.as_slice());
        }
        if let Some(date) = opt_chars(&rev.date) {
            set_if_absent(attrs, "revdate", date.as_slice());
        }
        if let Some(remark) = opt_chars(&rev.remark) {
            set_if_absent(attrs, "revremark", remark.as_slice());
        }
    }
}


// ---------------------------------------------------------------------------
// the header
// ---------------------------------------------------------------------------

/// After the title at line `p`: the authors, the revision (only read when
/// some author was), and the index of the first line after them.
pub open spec fn header_tail(ts: Seq<Seq<char>>, p: int) -> (Seq<AuthorV>, Option<RevisionV>, int) {
    let a = p + 1;
    let (authors, q1) = if a < ts.len() && author_line(ts[a]) {
        (author_list(ts[a]), a + 1)
    } else {
        (Seq::<AuthorV>::empty(), a)
    };
    if authors.len() > 0 && q1 < ts.len() && revision_line(ts[q1]) {
        (authors, Some(revision_spec(ts[q1])), q1 + 1)
    } else {
        (authors, None, q1)
    }
}

pub open spec fn opt_revision_v(r: Option<Revision>) -> Option<RevisionV> {
    match r {
        Some(r) => Some(revision_v(r)),
        None => None,
    }
}

/// Where the header ends and the attributes after it: a title line (the
/// first non-blank line, `= Title`) with its author and revision lines,
/// then attribute entries, which also come without a title.
pub open spec fn header_state(ts: Seq<Seq<char>>, p0: int, a: Map<Seq<char>, AttrV>) -> (
    int,
    Map<Seq<char>, AttrV>,
) {
    let p = skip_blank_from(ts, p0);
    if p >= ts.len() {
        (p, a)
    } else if !title_line(ts[p]) {
        entries_from(ts, p, a)
    } else {
        let (authors, rev, q) = header_tail(ts, p);
        let (end, m) = entries_from(ts, q, a);
        (end, derived_attrs(m, trim(ts[p].skip(2)), authors, rev))
    }
}

/// The header read from line `p0` on: none without a title line;
/// otherwise its title (parsed with the attributes its entries set), its
/// authors and revision, and the title line's location.
pub open spec fn header_is(
    h: Option<Header>,
    ls: Seq<PreprocessedLine>,
    p0: int,
    a: Map<Seq<char>, AttrV>,
) -> bool {
    let ts = texts(ls);
    let p = skip_blank_from(ts, p0);
    if p >= ts.len() || !title_line(ts[p]) {
        h is None
    } else {
        let (authors, rev, q) = header_tail(ts, p);
        let (end, m) = entries_from(ts, q, a);
        &&& h matches Some(h)
        &&& h.location == ls[p].location
        &&& authors_v(h.authors@) == authors
        &&& opt_revision_v(h.revision) == rev
        &&& inlines_v(h.title@) == inline_parse(trim(ts[p].skip(2)), m, header_subs())
    }
}

pub fn try_parse_header(cursor: &mut Cursor, attrs: &mut Attributes) -> (res: Option<Header>)
    requires
        0 <= old(cursor).pos() <= old(cursor).lines().len(),
    ensures
        final(cursor).lines() == old(cursor).lines(),
        old(cursor).pos() <= final(cursor).pos() <= final(cursor).lines().len(),
        (final(cursor).pos(), final(attrs)@) == header_state(
            texts(old(cursor).lines()),
            old(cursor).pos(),
            old(attrs)@,
        ),
        header_is(res, old(cursor).lines(), old(cursor).pos(), old(attrs)@),
{
    let ghost ts = texts(cursor.lines());
    let ghost p0 = cursor.pos();
    cursor.skip_blank_lines();
    proof {
        lemma_skip_blank_same(ts, p0, cursor.pos());
    }
    let line = match cursor.peek() {
        Some(l) => l,
        None => {
            return None;
        },
    };
    let ghost p = cursor.pos();
    assert(ts[p] == line.text@);
    let text = chars_of(line.text.as_str());
    if !is_title_line(text.as_slice()) {
        proof {
            lemma_skip_blank_from(ts, p);
            assert(skip_blank_from(ts, p) == p);
        }
        consume_attribute_entries(cursor, attrs);
        return None;
    }
    let rest = sub_vec(text.as_slice(), 2, text.len());
    assert(rest@ =~= ts[p].skip(2));
    let title_text = trim_vec(rest.as_slice());
    let location = line.location;
    cursor.advance();
    let mut authors: Vec<Author> = Vec::new();
    if let Some(next) = cursor.peek() {
        assert(ts[p + 1] == next.text@);
        let nt = chars_of(next.text.as_str());
        if is_author_line(nt.as_slice()) {
            authors = parse_author_line(nt.as_slice());
            cursor.advance();
        }
    }
    let mut revision: Option<Revision> = None;
    if authors.len() > 0 {
        if let Some(next) = cursor.peek() {
            let nt = chars_of(next.text.as_str());
            if is_revision_line(nt.as_slice()) {
                revision = Some(parse_revision_line(nt.as_slice()));
                cursor.advance();
            }
        }
    }
    proof {
        let (av, rv, q) = header_tail(ts, p);
        assert(authors_v(authors@) == av);
        assert(opt_revision_v(revision) == rv);
        assert(cursor.pos() == q);
    }
    consume_attribute_entries(cursor, attrs);
    let title = crate::parser::inline::parse_slice(title_text.as_slice(), attrs, Subs::header());
    set_derived_attributes(attrs, title_text.as_slice(), authors.as_slice(), &revision);
    Some(Header { title, authors, revision, location })
}

} // verus!
