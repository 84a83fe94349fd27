//! HTML escaping and callout-marker substitution.
use vstd::prelude::*;

use crate::text::{chars_of, is_ascii_digit, is_digit, push_char, push_str, starts_with, starts_with_lit};

verus! {

/// How one character of text content is written in HTML.
pub open spec fn esc_char(c: char) -> Seq<char> {
    if c == '&' {
        "&amp;"@
    } else if c == '<' {
        "&lt;"@
    } else if c == '>' {
        "&gt;"@
    } else {
        seq![c]
    }
}

/// How one character of an attribute value is written in HTML.
pub open spec fn esc_attr_char(c: char) -> Seq<char> {
    if c == '"' {
        "&quot;"@
    } else {
        esc_char(c)
    }
}

/// Text content escaped: `&`, `<` and `>` become entities.
pub open spec fn escape_html(s: Seq<char>) -> Seq<char>
    decreases s.len(),
{
    if s.len() == 0 {
        Seq::empty()
    } else {
        escape_html(s.drop_last()) + esc_char(s.last())
    }
}

/// Attribute value escaped: as text content, and `"` becomes `&quot;`.
pub open spec fn escape_attr_html(s: Seq<char>) -> Seq<char>
    decreases s.len(),
{
    if s.len() == 0 {
        Seq::empty()
    } else {
        escape_attr_html(s.drop_last()) + esc_attr_char(s.last())
    }
}

pub proof fn lemma_escape_add(a: Seq<char>, b: Seq<char>)
    ensures
        escape_html(a + b) == escape_html(a) + escape_html(b),
        escape_attr_html(a + b) == escape_attr_html(a) + escape_attr_html(b),
    decreases b.len(),
{
    if b.len() == 0 {
        assert(a + b =~= a);
    } else {
        lemma_escape_add(a, b.drop_last());
        assert((a + b).drop_last() =~= a + b.drop_last());
        assert((a + b).last() == b.last());
    }
}

/// Appends `s` escaped as text content.
pub fn push_escaped(out: &mut String, s: &str)
    ensures
        final(out)@ == old(out)@ + escape_html(s@),
{
    let cs = chars_of(s);
    let mut i: usize = 0;
    while i < cs.len()
        invariant
            i <= cs.len(),
            cs@ == s@,
            out@ == old(out)@ + escape_html(cs@.take(i as int)),
        decreases cs.len() - i,
    {
        let c = cs[i];
        if c == '&' {
            push_str(out, "&amp;");
        } else if c == '<' {
            push_str(out, "&lt;");
        } else if c == '>' {
            push_str(out, "&gt;");
        } else {
            push_char(out, c);
        }
        proof {
            assert(cs@.take(i + 1).drop_last() =~= cs@.take(i as int));
            assert(cs@.take(i + 1).last() == c);
            assert(out@ =~= old(out)@ + escape_html(cs@.take(i + 1)));
        }
        i += 1;
    }
    assert(cs@.take(cs.len() as int) =~= s@);
}

/// Appends `s` escaped as an attribute value.
pub fn push_escaped_attr(out: &mut String, s: &str)
    ensures
        final(out)@ == old(out)@ + escape_attr_html(s@),
{
    let cs = chars_of(s);
    let mut i: usize = 0;
    while i < cs.len()
        invariant
            i <= cs.len(),
            cs@ == s@,
            out@ == old(out)@ + escape_attr_html(cs@.take(i as int)),
        decreases cs.len() - i,
    {
        let c = cs[i];
        if c == '&' {
            push_str(out, "&amp;");
        } else if c == '<' {
            push_str(out, "&lt;");
        } else if c == '>' {
            push_str(out, "&gt;");
        } else if c == '"' {
            push_str(out, "&quot;");
        } else {
            push_char(out, c);
        }
        proof {
            assert(cs@.take(i + 1).drop_last() =~= cs@.take(i as int));
            assert(cs@.take(i + 1).last() == c);
            assert(out@ =~= old(out)@ + escape_attr_html(cs@.take(i + 1)));
        }
        i += 1;
    }
    assert(cs@.take(cs.len() as int) =~= s@);
}

/// `s` escaped as text content.
pub fn escape(s: &str) -> (res: String)
    ensures
        res@ == escape_html(s@),
{
    let mut out = String::new();
    push_escaped(&mut out, s);
    out
}

/// `s` escaped as an attribute value.
pub fn escape_attr(s: &str) -> (res: String)
    ensures
        res@ == escape_attr_html(s@),
{
    let mut out = String::new();
    push_escaped_attr(&mut out, s);
    out
}

// ---------------------------------------------------------------------------
// callout markers
// ---------------------------------------------------------------------------

/// End of the run of ASCII digits in `s` starting at `i`.
pub open spec fn digit_run_end(s: Seq<char>, i: int) -> int
    decreases s.len() - i,
{
    if 0 <= i < s.len() && is_digit(s[i]) {
        digit_run_end(s, i + 1)
    } else {
        i
    }
}

/// Whether an escaped callout marker `&lt;N&gt;` (one or more digits)
/// starts at `i`.
pub open spec fn conum_at(s: Seq<char>, i: int) -> bool {
    &&& 0 <= i
    &&& starts_with(s.skip(i), "&lt;"@)
    &&& digit_run_end(s, i + 4) > i + 4
    &&& starts_with(s.skip(digit_run_end(s, i + 4)), "&gt;"@)
}

/// The escaped listing body from `i` on, with every `&lt;N&gt;` marker
/// replaced by `<b class="conum">(N)</b>`.
pub open spec fn conums_from(s: Seq<char>, i: int) -> Seq<char>
    decreases s.len() - i,
{
    if i < 0 || i >= s.len() {
        Seq::empty()
    } else if conum_at(s, i) {
        let j = digit_run_end(s, i + 4);
        if j + 4 <= s.len() {
            "<b class=\"conum\">("@ + s.subrange(i + 4, j) + ")</b>"@ + conums_from(s, j + 4)
        } else {
            Seq::empty()
        }
    } else {
        seq![s[i]] + conums_from(s, i + 1)
    }
}

proof fn lemma_digit_run_end(s: Seq<char>, i: int)
    requires
        0 <= i <= s.len(),
    ensures
        i <= digit_run_end(s, i) <= s.len(),
        forall|k: int| i <= k < digit_run_end(s, i) ==> is_digit(#[trigger] s[k]),
    decreases s.len() - i,
{
    if i < s.len() && is_digit(s[i]) {
        lemma_digit_run_end(s, i + 1);
    }
}

fn digit_end(s: &[char], i: usize) -> (j: usize)
    requires
        i <= s.len(),
    ensures
        j == digit_run_end(s@, i as int),
        i <= j <= s.len(),
    decreases s.len() - i,
{
    if i < s.len() && is_ascii_digit(s[i]) {
        digit_end(s, i + 1)
    } else {
        i
    }
}

/// Replaces `&lt;N&gt;` markers in an already escaped listing body with
/// callout badges.
pub fn substitute_conums(s: &str) -> (res: String)
    ensures
        res@ == conums_from(s@, 0),
{
    let cs = chars_of(s);
    let mut out = String::new();
    let mut i: usize = 0;
    while i < cs.len()
        invariant
            i <= cs.len(),
            cs@ == s@,
            conums_from(s@, 0) == out@ + conums_from(s@, i as int),
        decreases cs.len() - i,
    {
        let mut matched = false;
        if starts_with_lit(cs.as_slice(), i, "&lt;") {
            proof {
                reveal_strlit("&lt;");
            }
            let j = digit_end(cs.as_slice(), i + 4);
            if j > i + 4 && starts_with_lit(cs.as_slice(), j, "&gt;") {
                proof {
                    reveal_strlit("&gt;");
                    assert(conum_at(s@, i as int));
                }
                let ghost before = out@;
                push_str(&mut out, "<b class=\"conum\">(");
                let mut k: usize = i + 4;
                while k < j
                    invariant
                        i + 4 <= k <= j <= cs.len(),
                        cs@ == s@,
                        out@ == before + "<b class=\"conum\">("@ + s@.subrange(i + 4, k as int),
                    decreases j - k,
                {
                    push_char(&mut out, cs[k]);
                    proof {
                        assert(s@.subrange(i + 4, k + 1) =~= s@.subrange(i + 4, k as int).push(s@[k as int]));
                    }
                    k += 1;
                }
                push_str(&mut out, ")</b>");
                proof {
                    assert(out@ =~= before + ("<b class=\"conum\">("@ + s@.subrange(i + 4, j as int) + ")</b>"@));
                }
                matched = true;
                i = j + 4;
            }
        }
        if !matched {
            push_char(&mut out, cs[i]);
            i += 1;
        }
    }
    out
}

} // verus!
