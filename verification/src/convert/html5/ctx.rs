//! The document-wide pre-walk: table of contents, section numbers and
//! anchors.
use vstd::prelude::*;

use crate::ast::{block_v, blocks_v, lemma_blocks_v_len, AttrV, AttributeValue, Block, Document};
use crate::convert::html5::escape::{push_escaped, push_escaped_attr};
use crate::convert::html5::inline::text_of_inlines;
use crate::convert::html5::model::{
    bump, lower_ascii, min6, number_text, numbers_of, rep, toc_close, toc_html, toc_items, toc_link,
    truthy, walk_sections as walk_spec, CtxV, TocV,
};
use crate::strmap::StrMap;
use crate::text::{chars_of, dec_digits, eq_lit, join, push_decimal, push_str, to_ascii_lowercase};
use crate::convert::html5::block::lemma_rep_snoc;

verus! {

/// One table-of-contents entry.
pub(crate) struct TocEntry {
    pub(crate) level: u8,
    pub(crate) id: String,
    pub(crate) number: String,
    pub(crate) title_plain: String,
}

pub(crate) open spec fn toc_v(s: Seq<TocEntry>) -> Seq<TocV> {
    s.map_values(|e: TocEntry| TocV { level: e.level, id: e.id@, number: e.number@, title: e.title_plain@ })
}

/// State derived from the document attributes and one pre-walk over the
/// sections, threaded through block rendering.
pub(crate) struct RenderCtx {
    /// `:toc:` — render a table of contents at the top of the body.
    pub(crate) toc: bool,
    /// `:sectnums:` — number section headings.
    pub(crate) sectnums: bool,
    /// `:sectanchors:` — put a self-link in each section heading.
    pub(crate) sectanchors: bool,
    /// Section id to its number; empty numbers without `:sectnums:`.
    pub(crate) section_numbers: StrMap<String>,
    /// One entry per section with an id, in document order.
    pub(crate) toc_entries: Vec<TocEntry>,
}

impl RenderCtx {
    pub(crate) open spec fn cv(&self) -> CtxV {
        CtxV { sectanchors: self.sectanchors, numbers: self.section_numbers@ }
    }
}

/// The value of attribute `name`, if set.
pub open spec fn attr_get(attrs: Map<Seq<char>, AttrV>, name: Seq<char>) -> Option<AttrV> {
    if attrs.contains_key(name) {
        Some(attrs[name])
    } else {
        None
    }
}

/// The context a document renders with.
pub open spec fn ctx_of(attrs: Map<Seq<char>, AttrV>, blocks: Seq<crate::ast::BlockV>) -> CtxV {
    CtxV {
        sectanchors: truthy(attr_get(attrs, "sectanchors"@)),
        numbers: numbers_of(
            walk_spec(blocks, Seq::new(7, |k: int| 0u32), truthy(attr_get(attrs, "sectnums"@))).1,
        ),
    }
}

/// The table-of-contents entries of a document.
pub open spec fn entries_of(attrs: Map<Seq<char>, AttrV>, blocks: Seq<crate::ast::BlockV>) -> Seq<TocV> {
    walk_spec(blocks, Seq::new(7, |k: int| 0u32), truthy(attr_get(attrs, "sectnums"@))).1
}

/// Whether an attribute value turns a flag on.
pub fn is_truthy(v: Option<&AttributeValue>) -> (res: bool)
    ensures
        res == truthy(
            match v {
                Some(a) => Some(a@),
                None => None,
            },
        ),
{
    match v {
        Some(AttributeValue::Bool(b)) => *b,
        Some(AttributeValue::String(s)) => {
            let cs = chars_of(s.as_str());
            if cs.len() == 0 {
                return false;
            }
            let mut low: Vec<char> = Vec::new();
            let mut i: usize = 0;
            while i < cs.len()
                invariant
                    i <= cs.len(),
                    low@ == lower_ascii(cs@).take(i as int),
                decreases cs.len() - i,
            {
                low.push(to_ascii_lowercase(cs[i]));
                proof {
                    assert(lower_ascii(cs@).take(i + 1) =~= lower_ascii(cs@).take(i as int).push(
                        crate::text::lower(cs@[i as int]),
                    ));
                }
                i += 1;
            }
            assert(lower_ascii(cs@).take(cs.len() as int) =~= lower_ascii(cs@));
            !eq_lit(low.as_slice(), "false")
        },
        None => false,
    }
}

/// `"c[1].c[2]…c[level]"`.
fn number_string(c: &Vec<u32>, level: usize) -> (res: String)
    requires
        c.len() == 7,
        level <= 6,
    ensures
        res@ == number_text(c@, level as int),
{
    let ghost parts = Seq::new(level as nat, |k: int| dec_digits(c@[k + 1] as nat));
    let mut out = String::new();
    let mut i: usize = 0;
    while i < level
        invariant
            i <= level <= 6,
            c.len() == 7,
            parts == Seq::new(level as nat, |k: int| dec_digits(c@[k + 1] as nat)),
            out@ == join(parts.take(i as int), "."@),
        decreases level - i,
    {
        if i > 0 {
            push_str(&mut out, ".");
        }
        push_decimal(&mut out, c[i + 1] as u128);
        proof {
            assert(parts.take(i + 1).drop_last() =~= parts.take(i as int));
            assert(parts.take(i + 1).last() == dec_digits(c@[i + 1] as nat));
            if i == 0 {
                assert(parts.take(1) =~= seq![parts[0]]);
            }
        }
        i += 1;
    }
    assert(parts.take(level as int) =~= parts);
    out
}

/// Walks the sections of `blocks`, numbering them and collecting the
/// entries of those with ids.
fn walk_sections(
    blocks: &[Block],
    counter: &mut Vec<u32>,
    sectnums: bool,
    numbers: &mut StrMap<String>,
    toc: &mut Vec<TocEntry>,
)
    requires
        old(counter).len() == 7,
        old(numbers)@ == numbers_of(toc_v(old(toc)@)),
    ensures
        final(counter).len() == 7,
        final(counter)@ == walk_spec(blocks_v(blocks@), old(counter)@, sectnums).0,
        toc_v(final(toc)@) == toc_v(old(toc)@) + walk_spec(blocks_v(blocks@), old(counter)@, sectnums).1,
        final(numbers)@ == numbers_of(toc_v(final(toc)@)),
    decreases blocks@,
{
    let ghost all = blocks_v(blocks@);
    proof {
        lemma_blocks_v_len(blocks@);
    }
    let ghost c0 = counter@;
    let ghost t0 = toc_v(toc@);
    assert(all.skip(0) =~= all);
    assert(t0 + Seq::<TocV>::empty() =~= t0);
    let mut i: usize = 0;
    while i < blocks.len()
        invariant
            i <= blocks.len(),
            all == blocks_v(blocks@),
            all.len() == blocks@.len(),
            forall|k: int| 0 <= k < blocks@.len() ==> #[trigger] all[k] == block_v(blocks@[k]),
            counter.len() == 7,
            walk_spec(all, c0, sectnums).0 == walk_spec(all.skip(i as int), counter@, sectnums).0,
            t0 + walk_spec(all, c0, sectnums).1 == toc_v(toc@) + walk_spec(
                all.skip(i as int),
                counter@,
                sectnums,
            ).1,
            numbers@ == numbers_of(toc_v(toc@)),
        decreases blocks.len() - i,
    {
        let ghost s = all.skip(i as int);
        let ghost cb = counter@;
        let ghost tb = toc_v(toc@);
        proof {
            assert(s[0] == all[i as int]);
            assert(s.subrange(1, s.len() as int) =~= all.skip(i + 1));
        }
        match &blocks[i] {
            Block::Section(sec) => {
                let lv: usize = if sec.level > 6 { 6 } else { sec.level as usize };
                assert(lv == min6(sec.level));
                let cur = counter[lv];
                let next: u32 = if cur == u32::MAX { 0 } else { cur + 1 };
                counter.set(lv, next);
                let mut k: usize = lv + 1;
                while k < 7
                    invariant
                        lv < k <= 7,
                        lv <= 6,
                        counter.len() == 7,
                        forall|j: int| 0 <= j < k ==> #[trigger] counter@[j] == bump(cb, lv as int)[j],
                        forall|j: int| k <= j < 7 ==> #[trigger] counter@[j] == cb[j],
                        cb.len() == 7,
                    decreases 7 - k,
                {
                    counter.set(k, 0);
                    k += 1;
                }
                assert(counter@ =~= bump(cb, lv as int));
                let number = if sectnums {
                    number_string(counter, lv)
                } else {
                    String::new()
                };
                let ghost c1 = counter@;
                match &sec.meta.id {
                    Some(id) => {
                        let title = text_of_inlines(sec.title.as_slice());
                        let ghost before = toc@;
                        numbers.insert(id.clone(), number.clone());
                        toc.push(
                            TocEntry {
                                level: sec.level,
                                id: id.clone(),
                                number,
                                title_plain: title,
                            },
                        );
                        proof {
                            assert(toc_v(toc@).drop_last() =~= toc_v(before));
                        }
                    },
                    None => {},
                }
                let ghost here = toc_v(toc@).skip(tb.len() as int);
                proof {
                    assert(decreases_to!(blocks@ => blocks@[i as int]));
                    assert(decreases_to!(blocks@[i as int] => (blocks@[i as int])->Section_0));
                    assert(decreases_to!((blocks@[i as int])->Section_0 => (blocks@[i as int])->Section_0.blocks));
                    assert(decreases_to!((blocks@[i as int])->Section_0.blocks => (blocks@[i as int])->Section_0.blocks@));
                }
                let ghost th = toc_v(toc@);
                walk_sections(sec.blocks.as_slice(), counter, sectnums, numbers, toc);
                proof {
                    let inner = walk_spec(blocks_v(sec.blocks@), c1, sectnums);
                    let after = walk_spec(all.skip(i + 1), inner.0, sectnums);
                    assert(th =~= tb + here);
                    assert(walk_spec(s, cb, sectnums).0 == after.0);
                    assert(walk_spec(s, cb, sectnums).1 == here + inner.1 + after.1);
                    assert(tb + walk_spec(s, cb, sectnums).1 =~= toc_v(toc@) + after.1);
                }
            },
            _ => {},
        }
        i += 1;
    }
    assert(all.skip(blocks.len() as int) =~= Seq::<crate::ast::BlockV>::empty());
    assert(toc_v(toc@) + Seq::<TocV>::empty() =~= toc_v(toc@));
}

impl RenderCtx {
    /// Reads `:toc:`, `:sectnums:` and `:sectanchors:` and walks the
    /// sections once.
    pub(crate) fn new(doc: &Document) -> (res: Self)
        ensures
            res.toc == truthy(attr_get(doc.attributes@, "toc"@)),
            res.cv() == ctx_of(doc.attributes@, blocks_v(doc.blocks@)),
            toc_v(res.toc_entries@) == entries_of(doc.attributes@, blocks_v(doc.blocks@)),
    {
        let toc = is_truthy(doc.attributes.get("toc"));
        let sectnums = is_truthy(doc.attributes.get("sectnums"));
        let sectanchors = is_truthy(doc.attributes.get("sectanchors"));
        let mut counter: Vec<u32> = vec![0, 0, 0, 0, 0, 0, 0];
        assert(counter@ =~= Seq::new(7, |k: int| 0u32));
        let mut section_numbers: StrMap<String> = StrMap::new();
        let mut toc_entries: Vec<TocEntry> = Vec::new();
        assert(toc_v(toc_entries@) =~= Seq::<TocV>::empty());
        assert(section_numbers@ =~= numbers_of(Seq::<TocV>::empty()));
        walk_sections(
            doc.blocks.as_slice(),
            &mut counter,
            sectnums,
            &mut section_numbers,
            &mut toc_entries,
        );
        assert(toc_v(toc_entries@) =~= entries_of(doc.attributes@, blocks_v(doc.blocks@)));
        RenderCtx { toc, sectnums, sectanchors, section_numbers, toc_entries }
    }
}

/// Appends the list opens, or the item and list closes, that take the
/// table of contents from `depth` to `level`.
fn write_toc_moves(out: &mut String, depth: u8, level: u8, li_open: bool)
    ensures
        final(out)@ == old(out)@ + (if level > depth {
            rep("<ul>\n"@, (level - depth) as nat)
        } else {
            (if li_open {
                "</li>\n"@
            } else {
                Seq::<char>::empty()
            }) + rep("</ul>\n</li>\n"@, (depth - level) as nat)
        }),
{
    if level > depth {
        let mut d: u8 = depth;
        while d < level
            invariant
                depth <= d <= level,
                out@ == old(out)@ + rep("<ul>\n"@, (d - depth) as nat),
            decreases level - d,
        {
            push_str(out, "<ul>\n");
            proof {
                lemma_rep_snoc("<ul>\n"@, (d - depth) as nat);
            }
            d += 1;
        }
    } else {
        if li_open {
            push_str(out, "</li>\n");
        }
        let ghost mid = out@;
        let mut d: u8 = depth;
        while d > level
            invariant
                level <= d <= depth,
                out@ == mid + rep("</ul>\n</li>\n"@, (depth - d) as nat),
            decreases d,
        {
            push_str(out, "</ul>\n</li>\n");
            proof {
                lemma_rep_snoc("</ul>\n</li>\n"@, (depth - d) as nat);
            }
            d -= 1;
        }
    }
}

fn write_toc_link(out: &mut String, entry: &TocEntry)
    ensures
        final(out)@ == old(out)@ + toc_link(toc_v(seq![*entry])[0]),
{
    push_str(out, "<li><a href=\"#");
    push_escaped_attr(out, entry.id.as_str());
    push_str(out, "\">");
    if !entry.number.as_str().is_empty() {
        push_str(out, "<span class=\"sectnum\">");
        push_str(out, entry.number.as_str());
        push_str(out, "</span> ");
    }
    push_escaped(out, entry.title_plain.as_str());
    push_str(out, "</a>");
    assert(final(out)@ =~= old(out)@ + toc_link(toc_v(seq![*entry])[0]));
}

/// Appends the table of contents.
pub(crate) fn render_toc(out: &mut String, ctx: &RenderCtx)
    ensures
        final(out)@ == old(out)@ + toc_html(toc_v(ctx.toc_entries@)),
{
    let ghost all = toc_v(ctx.toc_entries@);
    if ctx.toc_entries.len() == 0 {
        assert(final(out)@ =~= old(out)@ + toc_html(all));
        return ;
    }
    push_str(out, "<div id=\"toc\" class=\"toc\">");
    push_str(out, "\n");
    push_str(out, "<div class=\"toc-title\">Table of Contents</div>");
    push_str(out, "\n");
    let ghost start = out@;
    assert(all.skip(0) =~= all);
    let mut depth: u8 = 0;
    let mut li_open = false;
    let mut i: usize = 0;
    while i < ctx.toc_entries.len()
        invariant
            i <= ctx.toc_entries.len(),
            all == toc_v(ctx.toc_entries@),
            start + toc_items(all, 0, false) == out@ + toc_items(all.skip(i as int), depth as nat, li_open),
            i > 0 ==> li_open,
        decreases ctx.toc_entries.len() - i,
    {
        let entry = &ctx.toc_entries[i];
        let level = entry.level;
        let ghost before = out@;
        let ghost d_in = depth;
        let ghost li_in = li_open;
        let ghost t = all.skip(i as int);
        proof {
            assert(t[0] == all[i as int]);
            assert(t.subrange(1, t.len() as int) =~= all.skip(i + 1));
        }
        write_toc_moves(out, depth, level, li_open);
        depth = level;
        proof {
            assert(toc_v(seq![*entry])[0] == all[i as int]);
        }
        write_toc_link(out, entry);
        li_open = true;
        proof {
            assert(out@ + toc_items(all.skip(i + 1), depth as nat, li_open) =~= before + toc_items(t, d_in as nat, li_in));
        }
        i += 1;
    }
    let ghost end = out@;
    if li_open {
        push_str(out, "</li>\n");
    }
    let ghost mid = out@;
    let ghost d0 = depth;
    while depth > 1
        invariant
            1 <= d0 ==> 1 <= depth <= d0,
            d0 == 0 ==> depth == 0,
            out@ == mid + rep("</ul>\n</li>\n"@, (d0 - depth) as nat),
        decreases depth,
    {
        push_str(out, "</ul>\n</li>\n");
        proof {
            lemma_rep_snoc("</ul>\n</li>\n"@, (d0 - depth) as nat);
        }
        depth -= 1;
    }
    if depth == 1 {
        push_str(out, "</ul>\n");
    }
    assert(li_open);
    assert(out@ =~= end + toc_close(d0 as nat, true));
    push_str(out, "</div>\n");
    assert(all.skip(ctx.toc_entries.len() as int) =~= Seq::<TocV>::empty());
    assert(final(out)@ =~= old(out)@ + toc_html(all));
}

} // verus!
