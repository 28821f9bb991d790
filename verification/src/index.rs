//! What the full-text search indexes for one concept: its heading-delimited
//! sections plus a preamble covering any prose before the first heading, so
//! nothing is unsearchable.

use vstd::prelude::*;
use crate::sections::{Section, cmark_events, events_ok, parse_sections, section_views, sections_spec};
use crate::text::{chars_to_string, lines, lines_spec, owned, str_to_chars, trim_chars, trim_spec, views};

verus! {

/// One unit of the search index.
pub struct IndexSection {
    /// The heading (the concept title for the preamble).
    pub heading: String,
    /// The heading's slug (empty for the preamble).
    pub slug: String,
    /// Heading depth (0 for the preamble).
    pub level: u8,
    /// 1-based file line where the unit starts.
    pub line: usize,
    /// The unit's text.
    pub body: String,
}

pub open spec fn index_section_views(v: Seq<IndexSection>) -> Seq<(Seq<char>, Seq<char>, u8, usize, Seq<char>)> {
    v.map_values(|s: IndexSection| (s.heading@, s.slug@, s.level, s.line, s.body@))
}

/// Lines joined with `\n` between them.
pub open spec fn join_lines(ls: Seq<Seq<char>>) -> Seq<char>
    decreases ls.len(),
{
    if ls.len() == 0 {
        seq![]
    } else if ls.len() == 1 {
        ls[0]
    } else {
        join_lines(ls.drop_last()) + seq!['\n'] + ls.last()
    }
}

/// The body's lines before the first section's line (all of the body when
/// there are no sections).
pub open spec fn preamble_spec(body: Seq<char>, start: usize, secs: Seq<(Seq<char>, Seq<char>, u8, usize, Seq<char>)>) -> Seq<char> {
    if secs.len() > 0 {
        let ls = lines_spec(body);
        let gap = if secs[0].3 >= start { secs[0].3 - start } else { 0 };
        let n = if gap <= ls.len() { gap } else { ls.len() as int };
        join_lines(ls.take(n))
    } else {
        body
    }
}

/// The preamble (titled with the concept title, when it holds any
/// non-whitespace) followed by the sections.
pub open spec fn index_spec(body: Seq<char>, start: usize, title: Seq<char>, secs: Seq<(Seq<char>, Seq<char>, u8, usize, Seq<char>)>)
    -> Seq<(Seq<char>, Seq<char>, u8, usize, Seq<char>)> {
    let pre = preamble_spec(body, start, secs);
    if trim_spec(pre).len() > 0 {
        seq![(title, Seq::<char>::empty(), 0u8, start, pre)] + secs
    } else {
        secs
    }
}

fn join(ls: &Vec<Vec<char>>, n: usize) -> (r: Vec<char>)
    requires
        n <= ls.len(),
    ensures
        r@ == join_lines(views(ls@).take(n as int)),
{
    let ghost lv = views(ls@);
    let mut out: Vec<char> = Vec::new();
    let mut i: usize = 0;
    assert(lv.take(0) =~= Seq::<Seq<char>>::empty());
    while i < n
        invariant
            n <= ls.len(),
            lv == views(ls@),
            0 <= i <= n,
            out@ == join_lines(lv.take(i as int)),
        decreases n - i,
    {
        let ghost before = out@;
        if i > 0 {
            out.push('\n');
        }
        let mut j: usize = 0;
        let ghost mid = out@;
        while j < ls[i].len()
            invariant
                i < ls.len(),
                0 <= j <= ls@[i as int]@.len(),
                out@ == mid + ls@[i as int]@.take(j as int),
            decreases ls@[i as int]@.len() - j,
        {
            out.push(ls[i][j]);
            j += 1;
            assert(out@ =~= mid + ls@[i as int]@.take(j as int));
        }
        assert(ls@[i as int]@.take(ls@[i as int]@.len() as int) =~= ls@[i as int]@);
        assert(lv.take(i + 1).drop_last() =~= lv.take(i as int));
        assert(lv.take(i + 1).last() == lv[i as int]);
        if i == 0 {
            assert(out@ =~= join_lines(lv.take(1)));
        } else {
            assert(out@ =~= before + seq!['\n'] + lv[i as int]);
        }
        i += 1;
    }
    out
}

/// The units to index for one body: the preamble, then the sections.
/// `start` is the file line at which the body begins.
pub fn index_sections(body: &str, start: usize, title: &str) -> (r: Vec<IndexSection>)
    requires
        start + body@.len() <= usize::MAX,
    ensures
        events_ok(body@, cmark_events(body@)) ==> index_section_views(r@)
            == index_spec(body@, start, title@, sections_spec(body@, cmark_events(body@), start)),
        !events_ok(body@, cmark_events(body@)) ==> index_section_views(r@)
            == index_spec(body@, start, title@, seq![]),
{
    let secs = parse_sections(body, start);
    let ghost sv = section_views(secs@);
    let chars = str_to_chars(body);
    let ls = lines(&chars);
    let preamble: Vec<char> = if secs.len() > 0 {
        let first_line = secs[0].line;
        let gap = if first_line >= start { first_line - start } else { 0 };
        let n = if gap <= ls.len() { gap } else { ls.len() };
        assert(sv[0].3 == secs@[0].line);
        join(&ls, n)
    } else {
        chars
    };
    assert(preamble@ == preamble_spec(body@, start, sv));
    let mut out: Vec<IndexSection> = Vec::new();
    let t = trim_chars(&preamble);
    if t.len() > 0 {
        proof {
            reveal_strlit("");
        }
        assert(""@ =~= Seq::<char>::empty());
        out.push(IndexSection {
            heading: owned(title),
            slug: owned(""),
            level: 0,
            line: start,
            body: chars_to_string(&preamble),
        });
    }
    let ghost head = index_section_views(out@);
    let mut i: usize = 0;
    while i < secs.len()
        invariant
            0 <= i <= secs.len(),
            sv == section_views(secs@),
            index_section_views(out@) == head + sv.take(i as int),
        decreases secs.len() - i,
    {
        let s = &secs[i];
        let u = IndexSection {
            heading: s.heading.clone(),
            slug: s.slug.clone(),
            level: s.level,
            line: s.line,
            body: s.body.clone(),
        };
        let ghost before = out@;
        out.push(u);
        assert(index_section_views(out@) =~= index_section_views(before).push((u.heading@, u.slug@, u.level, u.line, u.body@)));
        assert(sv.take(i + 1) =~= sv.take(i as int).push(sv[i as int]));
        assert(head + sv.take(i + 1) =~= (head + sv.take(i as int)).push(sv[i as int]));
        i += 1;
    }
    assert(sv.take(secs.len() as int) =~= sv);
    out
}

} // verus!
