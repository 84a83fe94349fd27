//! Character-level text helpers shared by the parser, preprocessor and
//! converter. Text is modelled as `Seq<char>`; executable code works on
//! `&[char]` slices and builds `String`s from them.
use vstd::prelude::*;
use vstd::slice::slice_to_vec;

verus! {

// ---------------------------------------------------------------------------
// character classes
// ---------------------------------------------------------------------------

/// Unicode `White_Space` property (what `char::is_whitespace` tests).
pub open spec fn is_ws(c: char) -> bool {
    let u = c as u32;
    ||| 0x09 <= u <= 0x0D
    ||| u == 0x20
    ||| u == 0x85
    ||| u == 0xA0
    ||| u == 0x1680
    ||| 0x2000 <= u <= 0x200A
    ||| u == 0x2028
    ||| u == 0x2029
    ||| u == 0x202F
    ||| u == 0x205F
    ||| u == 0x3000
}

pub open spec fn is_digit(c: char) -> bool {
    '0' <= c <= '9'
}

pub open spec fn is_ascii_alpha(c: char) -> bool {
    ('a' <= c <= 'z') || ('A' <= c <= 'Z')
}

pub open spec fn is_ascii_alnum(c: char) -> bool {
    is_ascii_alpha(c) || is_digit(c)
}

pub open spec fn lower(c: char) -> char {
    if 'A' <= c <= 'Z' {
        ((c as u32) + 32) as char
    } else {
        c
    }
}

/// Unicode `Alphabetic || Numeric` — what `char::is_alphanumeric` tests.
/// The full property tables are not restated here.
pub uninterp spec fn unicode_alnum(c: char) -> bool;

pub fn is_whitespace(c: char) -> (res: bool)
    ensures
        res == is_ws(c),
{
    let u = c as u32;
    (0x09 <= u && u <= 0x0D) || u == 0x20 || u == 0x85 || u == 0xA0 || u == 0x1680 || (0x2000
        <= u && u <= 0x200A) || u == 0x2028 || u == 0x2029 || u == 0x202F || u == 0x205F || u
        == 0x3000
}

pub fn is_ascii_digit(c: char) -> (res: bool)
    ensures
        res == is_digit(c),
{
    '0' <= c && c <= '9'
}

pub fn is_ascii_alphanumeric(c: char) -> (res: bool)
    ensures
        res == is_ascii_alnum(c),
{
    ('a' <= c && c <= 'z') || ('A' <= c && c <= 'Z') || ('0' <= c && c <= '9')
}

pub fn to_ascii_lowercase(c: char) -> (res: char)
    ensures
        res == lower(c),
{
    if 'A' <= c && c <= 'Z' {
        let u = c as u32 + 32;
        // `u` is an ASCII lowercase letter, hence a valid scalar value.
        char_from_ascii(u)
    } else {
        c
    }
}

pub fn char_from_ascii(u: u32) -> (res: char)
    requires
        u < 128,
    ensures
        res == u as char,
{
    let b = u as u8;
    b as char
}

/// `char::is_alphanumeric` from std: Unicode `Alphabetic` or `Numeric`.
/// The contract names the result and restates only the ASCII range,
/// where the documentation fixes it to `[A-Za-z0-9]`.
#[verifier::external_body]
pub fn is_alphanumeric(c: char) -> (res: bool)
    ensures
        res == unicode_alnum(c),
        (c as u32) < 128 ==> (res == is_ascii_alnum(c)),
{
    c.is_alphanumeric()
}

/// Word character for the constrained-quote boundary rule.
pub open spec fn is_word(c: char) -> bool {
    unicode_alnum(c) || c == '_'
}

pub fn is_word_char(c: char) -> (res: bool)
    ensures
        res == is_word(c),
{
    c == '_' || is_alphanumeric(c)
}

// ---------------------------------------------------------------------------
// string <-> char sequence
// ---------------------------------------------------------------------------

/// `String::push` from std: appends one character.
#[verifier::external_body]
pub fn push_char(s: &mut String, c: char)
    ensures
        final(s)@ == old(s)@.push(c),
{
    s.push(c);
}

pub fn chars_of(s: &str) -> (res: Vec<char>)
    ensures
        res@ == s@,
{
    let mut out: Vec<char> = Vec::new();
    for c in it: s.chars()
        invariant
            out@ == it.seq().take(it.index() as int),
    {
        out.push(c);
    }
    out
}

pub fn push_chars(out: &mut String, s: &[char])
    ensures
        final(out)@ == old(out)@ + s@,
{
    let mut i: usize = 0;
    while i < s.len()
        invariant
            i <= s.len(),
            out@ == old(out)@ + s@.take(i as int),
        decreases s.len() - i,
    {
        push_char(out, s[i]);
        i += 1;
        assert(s@.take(i as int) == s@.take(i - 1).push(s@[i - 1]));
    }
    assert(s@.take(s.len() as int) == s@);
}

pub fn string_of(s: &[char]) -> (res: String)
    ensures
        res@ == s@,
{
    let mut out = String::new();
    push_chars(&mut out, s);
    out
}

pub fn push_str(out: &mut String, s: &str)
    ensures
        final(out)@ == old(out)@ + s@,
{
    out.append(s);
}

pub fn sub_vec(s: &[char], a: usize, b: usize) -> (res: Vec<char>)
    requires
        a <= b <= s.len(),
    ensures
        res@ == s@.subrange(a as int, b as int),
{
    slice_to_vec(&s[a..b])
}

pub fn sub_string(s: &[char], a: usize, b: usize) -> (res: String)
    requires
        a <= b <= s.len(),
    ensures
        res@ == s@.subrange(a as int, b as int),
{
    string_of(&s[a..b])
}

// ---------------------------------------------------------------------------
// equality and prefixes
// ---------------------------------------------------------------------------

pub open spec fn starts_with(s: Seq<char>, p: Seq<char>) -> bool {
    p.len() <= s.len() && s.take(p.len() as int) == p
}

pub open spec fn ends_with(s: Seq<char>, p: Seq<char>) -> bool {
    p.len() <= s.len() && s.skip(s.len() - p.len()) == p
}

pub fn seq_eq(a: &[char], b: &[char]) -> (res: bool)
    ensures
        res == (a@ == b@),
{
    if a.len() != b.len() {
        return false;
    }
    let mut i: usize = 0;
    while i < a.len()
        invariant
            a.len() == b.len(),
            i <= a.len(),
            forall|j: int| 0 <= j < i ==> a@[j] == b@[j],
        decreases a.len() - i,
    {
        if a[i] != b[i] {
            return false;
        }
        i += 1;
    }
    assert(a@ == b@);
    true
}

/// Does `s[at..]` start with `p`?
pub fn starts_with_at(s: &[char], at: usize, p: &[char]) -> (res: bool)
    requires
        at <= s.len(),
    ensures
        res == starts_with(s@.skip(at as int), p@),
{
    if p.len() > s.len() - at {
        return false;
    }
    let mut i: usize = 0;
    while i < p.len()
        invariant
            at + p.len() <= s.len(),
            i <= p.len(),
            forall|j: int| 0 <= j < i ==> s@[at + j] == p@[j],
        decreases p.len() - i,
    {
        if s[at + i] != p[i] {
            assert(s@.skip(at as int).take(p.len() as int)[i as int] != p@[i as int]);
            return false;
        }
        i += 1;
    }
    assert(s@.skip(at as int).take(p.len() as int) == p@);
    true
}

pub fn eq_lit(a: &[char], lit: &str) -> (res: bool)
    ensures
        res == (a@ == lit@),
{
    let l = chars_of(lit);
    seq_eq(a, l.as_slice())
}

pub fn starts_with_lit(s: &[char], at: usize, lit: &str) -> (res: bool)
    requires
        at <= s.len(),
    ensures
        res == starts_with(s@.skip(at as int), lit@),
{
    let l = chars_of(lit);
    starts_with_at(s, at, l.as_slice())
}

// ---------------------------------------------------------------------------
// trimming
// ---------------------------------------------------------------------------

/// Number of leading whitespace characters.
pub open spec fn lead_ws(s: Seq<char>) -> nat
    decreases s.len(),
{
    if s.len() > 0 && is_ws(s[0]) {
        1 + lead_ws(s.drop_first())
    } else {
        0
    }
}

/// Number of trailing whitespace characters.
pub open spec fn trail_ws(s: Seq<char>) -> nat
    decreases s.len(),
{
    if s.len() > 0 && is_ws(s.last()) {
        1 + trail_ws(s.drop_last())
    } else {
        0
    }
}

pub open spec fn trim_start(s: Seq<char>) -> Seq<char> {
    s.skip(lead_ws(s) as int)
}

pub open spec fn trim_end(s: Seq<char>) -> Seq<char> {
    s.take(s.len() - trail_ws(s))
}

pub open spec fn trim(s: Seq<char>) -> Seq<char> {
    trim_start(trim_end(s))
}

pub open spec fn is_blank(s: Seq<char>) -> bool {
    forall|i: int| 0 <= i < s.len() ==> is_ws(#[trigger] s[i])
}

pub proof fn lemma_lead_ws_bound(s: Seq<char>)
    ensures
        lead_ws(s) <= s.len(),
        forall|i: int| 0 <= i < lead_ws(s) ==> is_ws(#[trigger] s[i]),
        lead_ws(s) < s.len() ==> !is_ws(s[lead_ws(s) as int]),
    decreases s.len(),
{
    if s.len() > 0 && is_ws(s[0]) {
        lemma_lead_ws_bound(s.drop_first());
        assert forall|i: int| 0 <= i < lead_ws(s) implies is_ws(#[trigger] s[i]) by {
            if i > 0 {
                assert(s[i] == s.drop_first()[i - 1]);
            }
        }
    }
}

pub proof fn lemma_trail_ws_bound(s: Seq<char>)
    ensures
        trail_ws(s) <= s.len(),
        forall|i: int| s.len() - trail_ws(s) <= i < s.len() ==> is_ws(#[trigger] s[i]),
        trail_ws(s) < s.len() ==> !is_ws(s[s.len() - trail_ws(s) - 1]),
    decreases s.len(),
{
    if s.len() > 0 && is_ws(s.last()) {
        lemma_trail_ws_bound(s.drop_last());
        assert forall|i: int| s.len() - trail_ws(s) <= i < s.len() implies is_ws(
            #[trigger] s[i],
        ) by {
            if i < s.len() - 1 {
                assert(s[i] == s.drop_last()[i]);
            }
        }
    }
}

/// Trimming never lengthens.
pub proof fn lemma_trim_len(s: Seq<char>)
    ensures
        trim(s).len() <= s.len(),
{
    lemma_trail_ws_bound(s);
    lemma_lead_ws_bound(trim_end(s));
}

/// `lead_ws` agrees with the first non-whitespace index.
pub proof fn lemma_lead_ws_char(s: Seq<char>, k: int)
    requires
        0 <= k <= s.len(),
        forall|i: int| 0 <= i < k ==> is_ws(#[trigger] s[i]),
        k < s.len() ==> !is_ws(s[k]),
    ensures
        lead_ws(s) == k,
    decreases k,
{
    if k > 0 {
        let t = s.drop_first();
        assert forall|i: int| 0 <= i < k - 1 implies is_ws(#[trigger] t[i]) by {
            assert(t[i] == s[i + 1]);
        }
        if k < s.len() {
            assert(t[k - 1] == s[k]);
        }
        lemma_lead_ws_char(t, k - 1);
    }
}

pub proof fn lemma_trail_ws_char(s: Seq<char>, k: int)
    requires
        0 <= k <= s.len(),
        forall|i: int| k <= i < s.len() ==> is_ws(#[trigger] s[i]),
        k > 0 ==> !is_ws(s[k - 1]),
    ensures
        trail_ws(s) == s.len() - k,
    decreases s.len() - k,
{
    if k < s.len() {
        let t = s.drop_last();
        assert forall|i: int| k <= i < t.len() implies is_ws(#[trigger] t[i]) by {
            assert(t[i] == s[i]);
        }
        if k > 0 {
            assert(t[k - 1] == s[k - 1]);
        }
        lemma_trail_ws_char(t, k);
    }
}

pub proof fn lemma_blank_trim(s: Seq<char>)
    ensures
        is_blank(s) <==> trim(s).len() == 0,
        is_blank(s) <==> trim_end(s).len() == 0,
        is_blank(s) <==> trim_start(s).len() == 0,
{
    lemma_trail_ws_bound(s);
    lemma_lead_ws_bound(s);
    let e = trim_end(s);
    lemma_lead_ws_bound(e);
    if is_blank(s) {
        lemma_trail_ws_char(s, 0);
        lemma_lead_ws_char(s, s.len() as int);
    } else {
        let j = choose|j: int| 0 <= j < s.len() && !is_ws(s[j]);
        assert(j < s.len() - trail_ws(s));
        assert(e[j] == s[j]);
        assert(lead_ws(e) <= j);
    }
}

/// Index of the first non-whitespace character in `s[from..to]`.
pub fn skip_ws(s: &[char], from: usize, to: usize) -> (k: usize)
    requires
        from <= to <= s.len(),
    ensures
        k == from + lead_ws(s@.subrange(from as int, to as int)),
        from <= k <= to,
{
    let mut k = from;
    while k < to && is_whitespace(s[k])
        invariant
            from <= k <= to <= s.len(),
            forall|i: int| from <= i < k ==> is_ws(#[trigger] s@[i]),
        decreases to - k,
    {
        k += 1;
    }
    proof {
        let t = s@.subrange(from as int, to as int);
        assert forall|i: int| 0 <= i < k - from implies is_ws(#[trigger] t[i]) by {
            assert(t[i] == s@[from + i]);
        }
        if k < to {
            assert(t[k - from] == s@[k as int]);
        }
        lemma_lead_ws_char(t, k - from);
    }
    k
}

/// One past the last non-whitespace character in `s[from..to]`.
pub fn skip_ws_back(s: &[char], from: usize, to: usize) -> (k: usize)
    requires
        from <= to <= s.len(),
    ensures
        k == to - trail_ws(s@.subrange(from as int, to as int)),
        from <= k <= to,
{
    let mut k = to;
    while k > from && is_whitespace(s[k - 1])
        invariant
            from <= k <= to <= s.len(),
            forall|i: int| k <= i < to ==> is_ws(#[trigger] s@[i]),
        decreases k - from,
    {
        k -= 1;
    }
    proof {
        let t = s@.subrange(from as int, to as int);
        assert forall|i: int| k - from <= i < t.len() implies is_ws(#[trigger] t[i]) by {
            assert(t[i] == s@[from + i]);
        }
        if k > from {
            assert(t[k - from - 1] == s@[k - 1]);
        }
        lemma_trail_ws_char(t, k - from);
    }
    k
}

/// Bounds of `trim(s[from..to])` inside `s`.
pub fn trim_bounds(s: &[char], from: usize, to: usize) -> (r: (usize, usize))
    requires
        from <= to <= s.len(),
    ensures
        from <= r.0 <= r.1 <= to,
        s@.subrange(r.0 as int, r.1 as int) == trim(s@.subrange(from as int, to as int)),
{
    let e = skip_ws_back(s, from, to);
    let b = skip_ws(s, from, e);
    proof {
        let t = s@.subrange(from as int, to as int);
        assert(trim_end(t) == s@.subrange(from as int, e as int));
        assert(trim_start(s@.subrange(from as int, e as int)) == s@.subrange(b as int, e as int));
    }
    (b, e)
}

pub fn trim_vec(s: &[char]) -> (res: Vec<char>)
    ensures
        res@ == trim(s@),
{
    let (b, e) = trim_bounds(s, 0, s.len());
    assert(s@.subrange(0, s.len() as int) == s@);
    sub_vec(s, b, e)
}

pub fn trim_end_vec(s: &[char]) -> (res: Vec<char>)
    ensures
        res@ == trim_end(s@),
{
    let e = skip_ws_back(s, 0, s.len());
    assert(s@.subrange(0, s.len() as int) == s@);
    sub_vec(s, 0, e)
}

pub fn trim_start_vec(s: &[char]) -> (res: Vec<char>)
    ensures
        res@ == trim_start(s@),
{
    let b = skip_ws(s, 0, s.len());
    assert(s@.subrange(0, s.len() as int) == s@);
    sub_vec(s, b, s.len())
}

pub fn is_blank_slice(s: &[char]) -> (res: bool)
    ensures
        res == is_blank(s@),
{
    let mut i: usize = 0;
    while i < s.len()
        invariant
            i <= s.len(),
            forall|j: int| 0 <= j < i ==> is_ws(#[trigger] s@[j]),
        decreases s.len() - i,
    {
        if !is_whitespace(s[i]) {
            return false;
        }
        i += 1;
    }
    true
}

// ---------------------------------------------------------------------------
// searching
// ---------------------------------------------------------------------------

/// First index `>= i` at which `p` occurs in `s`.
pub open spec fn find_from(s: Seq<char>, p: Seq<char>, i: int) -> Option<int>
    decreases s.len() + 1 - i,
{
    if i < 0 || i + p.len() > s.len() {
        None
    } else if s.subrange(i, i + p.len()) == p {
        Some(i)
    } else {
        find_from(s, p, i + 1)
    }
}

pub open spec fn find(s: Seq<char>, p: Seq<char>) -> Option<int> {
    find_from(s, p, 0)
}

pub proof fn lemma_find_from(s: Seq<char>, p: Seq<char>, i: int)
    requires
        0 <= i,
    ensures
        find_from(s, p, i) matches Some(k) ==> i <= k && k + p.len() <= s.len() && s.subrange(
            k,
            k + p.len(),
        ) == p && forall|j: int|
            i <= j < k ==> #[trigger] s.subrange(j, j + p.len()) != p,
        find_from(s, p, i) is None ==> forall|j: int|
            i <= j && j + p.len() <= s.len() ==> #[trigger] s.subrange(j, j + p.len()) != p,
    decreases s.len() + 1 - i,
{
    if i + p.len() > s.len() {
    } else if s.subrange(i, i + p.len()) == p {
    } else {
        lemma_find_from(s, p, i + 1);
    }
}

/// First index of character `c` at or after `i`.
pub open spec fn find_char_from(s: Seq<char>, c: char, i: int) -> Option<int>
    decreases s.len() - i,
{
    if i < 0 || i >= s.len() {
        None
    } else if s[i] == c {
        Some(i)
    } else {
        find_char_from(s, c, i + 1)
    }
}

pub open spec fn find_char(s: Seq<char>, c: char) -> Option<int> {
    find_char_from(s, c, 0)
}

pub proof fn lemma_find_char_from(s: Seq<char>, c: char, i: int)
    requires
        0 <= i,
    ensures
        find_char_from(s, c, i) matches Some(k) ==> i <= k < s.len() && s[k] == c && forall|
            j: int,
        |
            i <= j < k ==> #[trigger] s[j] != c,
        find_char_from(s, c, i) is None ==> forall|j: int| i <= j < s.len() ==> #[trigger] s[j] != c,
    decreases s.len() - i,
{
    if i < s.len() && s[i] != c {
        lemma_find_char_from(s, c, i + 1);
    }
}

/// `find_char_from` is determined by the first occurrence.
pub proof fn lemma_find_char_first(s: Seq<char>, c: char, i: int, k: int)
    requires
        0 <= i <= k <= s.len(),
        forall|j: int| i <= j < k ==> #[trigger] s[j] != c,
    ensures
        find_char_from(s, c, i) == find_char_from(s, c, k),
    decreases k - i,
{
    if i < k {
        lemma_find_char_first(s, c, i + 1, k);
    }
}

pub fn find_char_in(s: &[char], c: char, from: usize, to: usize) -> (res: Option<usize>)
    requires
        from <= to <= s.len(),
    ensures
        res matches Some(k) ==> from <= k < to && find_char(s@.subrange(from as int, to as int), c)
            == Some(k - from),
        res is None ==> find_char(s@.subrange(from as int, to as int), c) is None,
{
    let ghost t = s@.subrange(from as int, to as int);
    let mut k = from;
    while k < to
        invariant
            from <= k <= to <= s.len(),
            t == s@.subrange(from as int, to as int),
            find_char_from(t, c, 0) == find_char_from(t, c, k - from),
        decreases to - k,
    {
        if s[k] == c {
            assert(t[k - from] == c);
            return Some(k);
        }
        assert(t[k - from] != c);
        k += 1;
    }
    None
}

pub fn find_in(s: &[char], p: &[char], from: usize, to: usize) -> (res: Option<usize>)
    requires
        from <= to <= s.len(),
    ensures
        res matches Some(k) ==> from <= k && k + p.len() <= to && find(
            s@.subrange(from as int, to as int),
            p@,
        ) == Some(k - from),
        res is None ==> find(s@.subrange(from as int, to as int), p@) is None,
{
    let ghost t = s@.subrange(from as int, to as int);
    if p.len() == 0 {
        assert(t.subrange(0, 0) =~= p@);
        return Some(from);
    }
    let mut k = from;
    while p.len() <= to - k
        invariant
            from <= k <= to <= s.len(),
            t == s@.subrange(from as int, to as int),
            p.len() > 0,
            find_from(t, p@, 0) == find_from(t, p@, k - from),
        decreases to - k,
    {
        let hit = starts_with_at(s, k, p);
        assert(s@.skip(k as int).take(p.len() as int) == t.subrange(
            k - from,
            k - from + p.len(),
        ));
        if hit {
            return Some(k);
        }
        k += 1;
    }
    None
}

pub fn find_lit_in(s: &[char], lit: &str, from: usize, to: usize) -> (res: Option<usize>)
    requires
        from <= to <= s.len(),
    ensures
        res matches Some(k) ==> from <= k && k + lit@.len() <= to && find(
            s@.subrange(from as int, to as int),
            lit@,
        ) == Some(k - from),
        res is None ==> find(s@.subrange(from as int, to as int), lit@) is None,
{
    let l = chars_of(lit);
    find_in(s, l.as_slice(), from, to)
}

// ---------------------------------------------------------------------------
// splitting and joining
// ---------------------------------------------------------------------------

/// Views of a sequence of character vectors.
pub open spec fn views(v: Seq<Vec<char>>) -> Seq<Seq<char>> {
    v.map_values(|x: Vec<char>| x@)
}

/// Views of a sequence of strings.
pub open spec fn sviews(v: Seq<String>) -> Seq<Seq<char>> {
    v.map_values(|x: String| x@)
}

/// `str::split(c)` on a character sequence.
pub open spec fn split_char(s: Seq<char>, c: char) -> Seq<Seq<char>>
    decreases s.len(),
{
    match find_char(s, c) {
        Some(k) => if 0 <= k < s.len() {
            seq![s.take(k)] + split_char(s.skip(k + 1), c)
        } else {
            seq![s]
        },
        None => seq![s],
    }
}

/// Join pieces with a separator.
pub open spec fn join(parts: Seq<Seq<char>>, sep: Seq<char>) -> Seq<char>
    decreases parts.len(),
{
    if parts.len() == 0 {
        Seq::empty()
    } else if parts.len() == 1 {
        parts[0]
    } else {
        join(parts.drop_last(), sep) + sep + parts.last()
    }
}

pub proof fn lemma_find_char_shift(s: Seq<char>, c: char, i: int)
    requires
        0 <= i <= s.len(),
    ensures
        find_char_from(s, c, i) == (match find_char(s.skip(i), c) {
            Some(k) => Some(k + i),
            None => None::<int>,
        }),
    decreases s.len() - i,
{
    lemma_find_char_shift_gen(s, c, i, i);
}

proof fn lemma_find_char_shift_gen(s: Seq<char>, c: char, i: int, j: int)
    requires
        0 <= i <= j <= s.len(),
    ensures
        find_char_from(s, c, j) == (match find_char_from(s.skip(i), c, j - i) {
            Some(k) => Some(k + i),
            None => None::<int>,
        }),
    decreases s.len() - j,
{
    if j < s.len() {
        assert(s.skip(i)[j - i] == s[j]);
        lemma_find_char_shift_gen(s, c, i, j + 1);
    }
}

/// Exec `split` on a character slice.
pub fn split_on(s: &[char], c: char) -> (res: Vec<Vec<char>>)
    ensures
        views(res@) == split_char(s@, c),
{
    let mut out: Vec<Vec<char>> = Vec::new();
    let mut start: usize = 0;
    assert(views(out@) =~= Seq::<Seq<char>>::empty());
    assert(s@.skip(0) == s@);
    loop
        invariant
            start <= s.len(),
            split_char(s@, c) == views(out@) + split_char(s@.skip(start as int), c),
        decreases s.len() - start,
    {
        let f = find_char_in(s, c, start, s.len());
        proof {
            let t = s@.skip(start as int);
            assert(s@.subrange(start as int, s.len() as int) == t);
        }
        match f {
            Some(k) => {
                let piece = sub_vec(s, start, k);
                proof {
                    let t = s@.skip(start as int);
                    let kk = k - start;
                    assert(t.take(kk) == piece@);
                    assert(t.skip(kk + 1) == s@.skip(k + 1));
                    assert(split_char(t, c) == seq![piece@] + split_char(s@.skip(k + 1), c));
                }
                let ghost old_out = views(out@);
                out.push(piece);
                proof {
                    assert(views(out@) =~= old_out.push(piece@));
                    assert(old_out.push(piece@) + split_char(s@.skip(k + 1), c) == old_out + (seq![
                        piece@,
                    ] + split_char(s@.skip(k + 1), c)));
                }
                start = k + 1;
            },
            None => {
                let piece = sub_vec(s, start, s.len());
                let ghost old_out = views(out@);
                proof {
                    let t = s@.skip(start as int);
                    assert(piece@ == t);
                    assert(split_char(t, c) == seq![t]);
                }
                out.push(piece);
                assert(views(out@) =~= old_out.push(piece@));
                return out;
            },
        }
    }
}

pub fn join_vecs(parts: &Vec<Vec<char>>, sep: &[char]) -> (res: Vec<char>)
    ensures
        res@ == join(views(parts@), sep@),
{
    let mut out: Vec<char> = Vec::new();
    let mut i: usize = 0;
    while i < parts.len()
        invariant
            i <= parts.len(),
            out@ == join(views(parts@).take(i as int), sep@),
        decreases parts.len() - i,
    {
        if i > 0 {
            out.extend_from_slice(sep);
        }
        out.extend_from_slice(parts[i].as_slice());
        proof {
            let pv = views(parts@);
            assert(pv.take(i + 1).drop_last() == pv.take(i as int));
            assert(pv.take(i + 1).last() == parts[i as int]@);
            if i == 0 {
                assert(pv.take(1) == seq![parts[0]@]);
            }
        }
        i += 1;
    }
    assert(views(parts@).take(parts.len() as int) == views(parts@));
    out
}

pub fn join_strings(parts: &Vec<String>, sep: &str) -> (res: String)
    ensures
        res@ == join(parts@.map_values(|p: String| p@), sep@),
{
    let mut out = String::new();
    let mut i: usize = 0;
    let ghost pv = parts@.map_values(|p: String| p@);
    while i < parts.len()
        invariant
            i <= parts.len(),
            pv == parts@.map_values(|p: String| p@),
            out@ == join(pv.take(i as int), sep@),
        decreases parts.len() - i,
    {
        if i > 0 {
            push_str(&mut out, sep);
        }
        push_str(&mut out, parts[i].as_str());
        proof {
            assert(pv.take(i + 1).drop_last() == pv.take(i as int));
            assert(pv.take(i + 1).last() == parts[i as int]@);
            if i == 0 {
                assert(pv.take(1) == seq![parts[0]@]);
            }
        }
        i += 1;
    }
    assert(pv.take(parts.len() as int) == pv);
    out
}

// ---------------------------------------------------------------------------
// integers
// ---------------------------------------------------------------------------

pub open spec fn digit_val(c: char) -> int {
    (c as u32) - ('0' as u32)
}

pub open spec fn all_digits(s: Seq<char>) -> bool {
    forall|i: int| 0 <= i < s.len() ==> is_digit(#[trigger] s[i])
}

/// Decimal value of a digit string.
pub open spec fn digits_value(s: Seq<char>) -> nat
    decreases s.len(),
{
    if s.len() == 0 {
        0
    } else {
        (digits_value(s.drop_last()) * 10 + digit_val(s.last())) as nat
    }
}

/// `str::parse` for an integer type with range `lo..=hi`: an optional sign
/// (`-` only for signed types) then one or more ASCII digits.
pub open spec fn parse_int(s: Seq<char>, signed: bool, lo: int, hi: int) -> Option<int> {
    let neg = s.len() > 0 && s[0] == '-' && signed;
    let has_sign = s.len() > 0 && (s[0] == '+' || (s[0] == '-' && signed));
    let body = if has_sign {
        s.drop_first()
    } else {
        s
    };
    if body.len() == 0 || !all_digits(body) {
        None
    } else {
        let v = if neg {
            -(digits_value(body) as int)
        } else {
            digits_value(body) as int
        };
        if lo <= v <= hi {
            Some(v)
        } else {
            None
        }
    }
}

proof fn lemma_digits_value_step(s: Seq<char>, i: int)
    requires
        0 <= i < s.len(),
        is_digit(s[i]),
    ensures
        digits_value(s.take(i + 1)) == digits_value(s.take(i)) * 10 + digit_val(s[i]),
        digits_value(s.take(i + 1)) >= digits_value(s.take(i)),
{
    assert(s.take(i + 1).drop_last() == s.take(i));
}

/// Parses an integer the way `str::parse::<iN/uN>` does, for a range that
/// fits in `i64`.
#[verifier::spinoff_prover]
#[verifier::rlimit(40)]
pub fn parse_int_exec(s: &[char], signed: bool, lo: i64, hi: i64) -> (res: Option<i64>)
    requires
        lo <= 0 <= hi,
    ensures
        res == (match parse_int(s@, signed, lo as int, hi as int) {
            Some(v) => Some(v as i64),
            None => None::<i64>,
        }),
{
    let n = s.len();
    let neg = n > 0 && s[0] == '-' && signed;
    let has_sign = n > 0 && (s[0] == '+' || (s[0] == '-' && signed));
    let start: usize = if has_sign {
        1
    } else {
        0
    };
    let ghost body = if has_sign {
        s@.drop_first()
    } else {
        s@
    };
    assert(body == s@.skip(start as int));
    if start >= n {
        return None;
    }
    // validate digits first
    let mut i = start;
    while i < n
        invariant
            start <= i <= n == s.len(),
            body == s@.skip(start as int),
            has_sign == (s@.len() > 0 && (s@[0] == '+' || (s@[0] == '-' && signed))),
            body == (if has_sign {
                s@.drop_first()
            } else {
                s@
            }),
            forall|j: int| start <= j < i ==> is_digit(#[trigger] s@[j]),
        decreases n - i,
    {
        if !is_ascii_digit(s[i]) {
            assert(body[i - start] == s@[i as int]);
            assert(!is_digit(body[i - start]));
            assert(!all_digits(body));
            return None;
        }
        i += 1;
    }
    assert(all_digits(body)) by {
        assert forall|j: int| 0 <= j < body.len() implies is_digit(#[trigger] body[j]) by {
            assert(body[j] == s@[start + j]);
        }
    }
    // accumulate with a cap so the running value never overflows
    let cap: u64 = 0x8000_0000_0000_0000;
    let mut acc: u64 = 0;
    let mut over = false;
    let mut k = start;
    while k < n
        invariant
            start <= k <= n == s.len(),
            body == s@.skip(start as int),
            all_digits(body),
            cap == 0x8000_0000_0000_0000,
            !over ==> acc as int == digits_value(body.take(k - start)) && acc <= cap,
            over ==> digits_value(body.take(k - start)) > cap,
        decreases n - k,
    {
        proof {
            assert(body[k - start] == s@[k as int]);
            assert(is_digit(body[k - start]));
            lemma_digits_value_step(body, k - start);
            assert((k - start) + 1 == (k + 1) - start);
        }
        let d = (s[k] as u32 - '0' as u32) as u64;
        if !over {
            if acc > cap / 10 {
                over = true;
                assert(digits_value(body.take(k + 1 - start)) > cap) by (nonlinear_arith)
                    requires
                        digits_value(body.take(k + 1 - start)) == acc * 10 + d,
                        acc > cap / 10,
                        cap == 0x8000_0000_0000_0000,
                ;
            } else {
                acc = acc * 10 + d;
                if acc > cap {
                    over = true;
                }
            }
        }
        k += 1;
    }
    assert(body.take(n - start) == body);
    if over {
        return None;
    }
    let v: i128 = if neg {
        -(acc as i128)
    } else {
        acc as i128
    };
    if v < lo as i128 || v > hi as i128 {
        return None;
    }
    Some(v as i64)
}


/// The ASCII digit for `d` (`0 <= d < 10`).
pub open spec fn digit_char(d: int) -> char {
    (d + 48) as char
}

/// Decimal representation of `n`, without leading zeros.
pub open spec fn dec_digits(n: nat) -> Seq<char>
    decreases n,
{
    if n < 10 {
        seq![digit_char(n as int)]
    } else {
        dec_digits(n / 10).push(digit_char((n % 10) as int))
    }
}

pub proof fn lemma_dec_digits(n: nat)
    ensures
        dec_digits(n).len() > 0,
        all_digits(dec_digits(n)),
        digits_value(dec_digits(n)) == n,
    decreases n,
{
    let s = dec_digits(n);
    if n >= 10 {
        lemma_dec_digits(n / 10);
        assert(s.drop_last() == dec_digits(n / 10));
        assert(digit_val(digit_char((n % 10) as int)) == n % 10);
        assert(n == (n / 10) * 10 + n % 10);
        assert(s.last() == digit_char((n % 10) as int));
        assert(digits_value(s) == digits_value(s.drop_last()) * 10 + digit_val(s.last()));
        assert forall|i: int| 0 <= i < s.len() implies is_digit(#[trigger] s[i]) by {
            if i < s.len() - 1 {
                assert(s[i] == dec_digits(n / 10)[i]);
            }
        }
    } else {
        assert(s.drop_last() =~= Seq::<char>::empty());
        assert(digit_val(digit_char(n as int)) == n);
        assert(digits_value(s) == digits_value(s.drop_last()) * 10 + digit_val(s.last()));
    }
}

pub proof fn lemma_dec_injective(a: nat, b: nat)
    requires
        dec_digits(a) == dec_digits(b),
    ensures
        a == b,
{
    lemma_dec_digits(a);
    lemma_dec_digits(b);
}

/// Appends the decimal representation of `n`.
pub fn push_decimal(out: &mut String, n: u128)
    ensures
        final(out)@ == old(out)@ + dec_digits(n as nat),
    decreases n,
{
    if n >= 10 {
        push_decimal(out, n / 10);
    }
    let d = (n % 10) as u32;
    let c = char_from_ascii(48 + d);
    push_char(out, c);
    assert(final(out)@ =~= old(out)@ + dec_digits(n as nat));
}


/// `v` reversed, by popping.
pub fn reversed<T>(v: Vec<T>) -> (res: Vec<T>)
    ensures
        res@ == v@.reverse(),
{
    let mut src = v;
    let mut out: Vec<T> = Vec::new();
    while src.len() > 0
        invariant
            v@ == src@ + out@.reverse(),
        decreases src.len(),
    {
        let x = src.pop().unwrap();
        out.push(x);
        assert(v@ =~= src@ + out@.reverse());
    }
    assert(out@.reverse().reverse() =~= out@);
    assert(v@ =~= out@.reverse());
    assert(v@.reverse() =~= out@);
    out
}

} // verus!
