//! Heading-delimited sections of a concept body.
//!
//! A section runs from a heading to the next heading of the same or higher
//! level, and carries the absolute file line of its heading. Headings inside
//! fenced code blocks are not headings: the CommonMark parser decides what a
//! heading is.

use pulldown_cmark::{Event, Options, Parser, Tag, TagEnd};
use vstd::prelude::*;
use crate::text::{
    char_lowercase, chars_to_string, is_alphanumeric, lines, lines_spec, slice_chars, str_to_chars, trim_chars,
    trim_end_chars, trim_end_spec, trim_spec, unicode_alphanumeric, unicode_lower_char, views,
};
use crate::wikilinks::count_char;

verus! {

/// One heading-delimited section of a document body.
#[derive(Debug, Clone, PartialEq, Eq)]
pub struct Section {
    /// The heading text (without leading `#`s).
    pub heading: String,
    /// A url-style slug derived from the heading.
    pub slug: String,
    /// Heading depth, 1–6.
    pub level: u8,
    /// 1-based line in the source file where the heading sits.
    pub line: usize,
    /// The section's source markdown, from its heading to the next
    /// sibling-or-shallower heading, trailing whitespace removed.
    pub body: String,
}

pub open spec fn section_view(s: Section) -> (Seq<char>, Seq<char>, u8, usize, Seq<char>) {
    (s.heading@, s.slug@, s.level, s.line, s.body@)
}

pub open spec fn section_views(v: Seq<Section>) -> Seq<(Seq<char>, Seq<char>, u8, usize, Seq<char>)> {
    v.map_values(|s: Section| section_view(s))
}

// ---------------------------------------------------------------------------
// Slugs.

/// The slug built so far and whether a separator is pending.
pub open spec fn slug_state(s: Seq<char>) -> (Seq<char>, bool)
    decreases s.len(),
{
    if s.len() == 0 {
        (seq![], false)
    } else {
        let (out, pending) = slug_state(s.drop_last());
        let c = s.last();
        if unicode_alphanumeric(c) {
            let base = if pending && out.len() > 0 { out.push('-') } else { out };
            (base + unicode_lower_char(c), false)
        } else {
            (out, true)
        }
    }
}

/// Alphanumerics lowercased; each run of other characters between two
/// alphanumerics becomes one `-`; nothing leads or trails.
pub open spec fn slugify_spec(s: Seq<char>) -> Seq<char> {
    slug_state(s).0
}

/// A slug character: an ASCII lowercase letter, a digit, or `-`.
pub open spec fn slug_char(c: char) -> bool {
    crate::text::is_ascii_lower(c) || crate::text::is_ascii_digit(c) || c == '-'
}

/// The shape of a slug: slug characters only, no `-` at either end and
/// never two in a row.
pub open spec fn slug_shape(r: Seq<char>) -> bool {
    &&& forall|i: int| 0 <= i < r.len() ==> slug_char(#[trigger] r[i])
    &&& (r.len() > 0 ==> r[0] != '-' && r.last() != '-')
    &&& forall|i: int| 0 <= i < r.len() - 1 ==> !(#[trigger] r[i] == '-' && r[i + 1] == '-')
}

/// What the slug state of an ASCII heading looks like at every step.
proof fn lemma_slug_state_shape(s: Seq<char>)
    requires
        crate::text::all_ascii(s),
    ensures
        slug_shape(slug_state(s).0),
    decreases s.len(),
{
    if s.len() > 0 {
        let p = s.drop_last();
        assert(crate::text::all_ascii(p)) by {
            assert forall|i: int| 0 <= i < p.len() implies crate::text::is_ascii_char(#[trigger] p[i]) by {
                assert(p[i] == s[i]);
            }
        }
        lemma_slug_state_shape(p);
        let (out, pending) = slug_state(p);
        let c = s.last();
        assert(crate::text::is_ascii_char(c)) by {
            assert(c == s[s.len() - 1]);
        }
        if unicode_alphanumeric(c) {
            let base = if pending && out.len() > 0 { out.push('-') } else { out };
            let lc = crate::text::ascii_lower(c);
            assert(slug_char(lc) && lc != '-');
            let r = base + seq![lc];
            assert(slug_state(s).0 == r);
            assert forall|i: int| 0 <= i < r.len() implies slug_char(#[trigger] r[i]) by {
                if i < out.len() {
                    assert(r[i] == out[i]);
                }
            }
            assert forall|i: int| 0 <= i < r.len() - 1 implies !(#[trigger] r[i] == '-' && r[i + 1] == '-') by {
                if i + 1 < out.len() {
                    assert(r[i] == out[i] && r[i + 1] == out[i + 1]);
                } else if i + 1 == out.len() {
                    assert(r[i] == out[i]);
                }
            }
            if out.len() > 0 {
                assert(r[0] == out[0]);
            }
        }
    }
}

/// A slug of an ASCII heading has the slug shape.
pub proof fn lemma_slug_shape(s: Seq<char>)
    requires
        crate::text::all_ascii(s),
    ensures
        slug_shape(slugify_spec(s)),
{
    lemma_slug_state_shape(s);
}

/// Reading a well-shaped slug back, prefix by prefix: a trailing `-` is
/// pending, the rest is already out.
proof fn lemma_slug_state_of_slug(r: Seq<char>, k: int)
    requires
        slug_shape(r),
        0 <= k <= r.len(),
    ensures
        k > 0 && r[k - 1] == '-' ==> slug_state(r.take(k)) == (r.take(k - 1), true),
        !(k > 0 && r[k - 1] == '-') ==> slug_state(r.take(k)) == (r.take(k), false),
    decreases k,
{
    if k > 0 {
        lemma_slug_state_of_slug(r, k - 1);
        let t = r.take(k);
        assert(t.drop_last() =~= r.take(k - 1));
        assert(t.last() == r[k - 1]);
        let c = r[k - 1];
        assert(slug_char(c));
        if c != '-' {
            assert(crate::text::is_ascii_char(c));
            assert(crate::text::ascii_lower(c) == c);
            if k >= 2 && r[k - 2] == '-' {
                assert(k - 2 > 0) by {
                    if k - 2 == 0 {
                        assert(r[0] != '-');
                    }
                }
                assert(r.take(k - 2).len() > 0);
                assert(r.take(k - 2).push('-') + seq![c] =~= t);
            } else {
                assert(r.take(k - 1) + seq![c] =~= t);
            }
        } else {
            if k >= 2 {
                assert(r[k - 2] != '-');
            } else {
                assert(r[0] != '-');
            }
        }
    } else {
        assert(r.take(0) =~= Seq::<char>::empty());
    }
}

/// Slugifying a slug of an ASCII heading gives it back:
/// `slugify(slugify(s)) == slugify(s)`.
pub proof fn lemma_slugify_idempotent(s: Seq<char>)
    requires
        crate::text::all_ascii(s),
    ensures
        slugify_spec(slugify_spec(s)) == slugify_spec(s),
{
    let r = slugify_spec(s);
    lemma_slug_shape(s);
    lemma_slug_state_of_slug(r, r.len() as int);
    assert(r.take(r.len() as int) =~= r);
}

/// Lowercases and hyphenates a heading into a slug.
pub fn slugify(s: &str) -> (r: String)
    ensures
        r@ == slugify_spec(s@),
{
    let v = str_to_chars(s);
    let mut out: Vec<char> = Vec::new();
    let mut pending = false;
    let mut i: usize = 0;
    assert(v@.take(0) =~= Seq::<char>::empty());
    while i < v.len()
        invariant
            v@ == s@,
            0 <= i <= v.len(),
            (out@, pending) == slug_state(v@.take(i as int)),
        decreases v.len() - i,
    {
        let c = v[i];
        assert(v@.take(i + 1).drop_last() =~= v@.take(i as int));
        assert(v@.take(i + 1).last() == c);
        if is_alphanumeric(c) {
            if pending && out.len() > 0 {
                out.push('-');
            }
            pending = false;
            let low = char_lowercase(c);
            let ghost before = out@;
            let mut j: usize = 0;
            while j < low.len()
                invariant
                    0 <= j <= low.len(),
                    out@ == before + low@.take(j as int),
                decreases low.len() - j,
            {
                out.push(low[j]);
                j += 1;
                assert(out@ =~= before + low@.take(j as int));
            }
            assert(low@.take(low.len() as int) =~= low@);
        } else {
            pending = true;
        }
        i += 1;
    }
    assert(v@.take(v.len() as int) =~= v@);
    chars_to_string(&out)
}

// ---------------------------------------------------------------------------
// Where the body starts in the file.

pub open spec fn fence_line() -> Seq<char> {
    seq!['-', '-', '-']
}

/// The first line at or after `i` that reads `---` once trimmed (-1 if none).
pub open spec fn closing_from(ls: Seq<Seq<char>>, i: int) -> int
    decreases ls.len() - i,
{
    if i < 0 || i >= ls.len() {
        -1
    } else if trim_spec(ls[i]) == fence_line() {
        i
    } else {
        closing_from(ls, i + 1)
    }
}

/// The 1-based file line where the body begins: after a leading `---`
/// frontmatter block and the one blank line that follows its closing `---`;
/// line 1 when there is no (closed) frontmatter block.
pub open spec fn body_start_spec(raw: Seq<char>) -> int {
    let ls = lines_spec(raw);
    if ls.len() == 0 || trim_spec(ls[0]) != fence_line() {
        1
    } else {
        let end = closing_from(ls, 1);
        if end < 0 {
            1
        } else {
            let start = end + 1;
            if start < ls.len() && ls[start].len() == 0 {
                start + 2
            } else {
                start + 1
            }
        }
    }
}

proof fn lemma_lines_len(s: Seq<char>)
    ensures
        lines_spec(s).len() <= s.len(),
        lines_spec(s).len() > 0 ==> lines_spec(s).len() - 1 + lines_spec(s)[0].len() <= s.len(),
    decreases s.len(),
{
    if s.len() > 0 {
        let k = crate::text::first_pos(s, '\n');
        crate::text::lemma_first_pos_bounds(s, '\n');
        if k < s.len() {
            lemma_lines_len(s.skip(k + 1));
            assert(crate::text::strip_cr(s.take(k)).len() <= k);
        }
    }
}

proof fn lemma_trim_len(s: Seq<char>)
    ensures
        trim_spec(s).len() <= s.len(),
{
    lemma_trim_start_len(s);
    lemma_trim_end_len(crate::text::trim_start_spec(s));
}

proof fn lemma_trim_start_len(s: Seq<char>)
    ensures
        crate::text::trim_start_spec(s).len() <= s.len(),
    decreases s.len(),
{
    if s.len() > 0 {
        lemma_trim_start_len(s.drop_first());
    }
}

proof fn lemma_trim_end_len(s: Seq<char>)
    ensures
        trim_end_spec(s).len() <= s.len(),
    decreases s.len(),
{
    if s.len() > 0 {
        lemma_trim_end_len(s.drop_last());
    }
}

proof fn lemma_closing_from(ls: Seq<Seq<char>>, i: int)
    requires
        0 <= i,
    ensures
        closing_from(ls, i) == -1 || i <= closing_from(ls, i) < ls.len(),
    decreases ls.len() - i,
{
    if i < ls.len() && trim_spec(ls[i]) != fence_line() {
        lemma_closing_from(ls, i + 1);
    }
}

fn is_fence(l: &Vec<char>) -> (r: bool)
    ensures
        r == (trim_spec(l@) == fence_line()),
{
    let t = trim_chars(l);
    if t.len() != 3 {
        return false;
    }
    let r = t[0] == '-' && t[1] == '-' && t[2] == '-';
    assert(r ==> t@ =~= fence_line());
    r
}

/// The 1-based source line on which the document body begins.
pub fn body_start_line(raw: &str) -> (r: usize)
    ensures
        r as int == body_start_spec(raw@),
{
    let chars = str_to_chars(raw);
    let _cl = chars.len();
    let ls = lines(&chars);
    let ghost lv = views(ls@);
    if ls.len() == 0 || !is_fence(&ls[0]) {
        return 1;
    }
    proof {
        lemma_lines_len(chars@);
        assert(lv == lines_spec(chars@));
        assert(lv[0] == ls@[0]@);
        assert(trim_spec(lv[0]).len() == 3);
        lemma_trim_len(lv[0]);
        assert(lv.len() == ls.len());
        assert(lv[0].len() >= 3);
        assert(lv.len() - 1 + lv[0].len() <= chars@.len());
        assert(chars@.len() <= usize::MAX);
    }
    let mut i: usize = 1;
    while i < ls.len()
        invariant
            lv == views(ls@),
            lv == lines_spec(raw@),
            lv.len() > 0,
            trim_spec(lv[0]) == fence_line(),
            ls.len() + 2 <= usize::MAX,
            1 <= i <= ls.len(),
            closing_from(lv, i as int) == closing_from(lv, 1),
        decreases ls.len() - i,
    {
        if is_fence(&ls[i]) {
            proof {
                lemma_closing_from(lv, 1);
                assert(lv[i as int] == ls@[i as int]@);
                assert(closing_from(lv, i as int) == i);
                assert(lv == lines_spec(raw@));
            }
            let start = i + 1;
            if start < ls.len() && ls[start].len() == 0 {
                assert(lv[start as int] == ls@[start as int]@);
                return start + 2;
            }
            proof {
                if start < ls.len() {
                    assert(lv[start as int] == ls@[start as int]@);
                }
            }
            return start + 1;
        }
        i += 1;
    }
    1
}

// ---------------------------------------------------------------------------
// The CommonMark event stream.

/// The CommonMark event stream of a body, reduced to what section chunking
/// reads: `(kind, byte offset, heading level, text)` where kind 1 opens a
/// heading, 2 is text or inline code, 3 closes a heading, 0 is anything else.
pub uninterp spec fn cmark_events(body: Seq<char>) -> Seq<(u8, usize, u8, Seq<char>)>;

pub open spec fn event_views(v: Seq<(u8, usize, u8, String)>) -> Seq<(u8, usize, u8, Seq<char>)> {
    v.map_values(|e: (u8, usize, u8, String)| (e.0, e.1, e.2, e.3@))
}

/// `pulldown_cmark::Parser::new_ext(body, Options::empty()).into_offset_iter()`,
/// each event reduced to a plain tuple: the start of its byte range, the
/// heading level for a heading start, the text for text and inline code.
/// Claimed: the result is the named event stream of `body`.
#[verifier::external_body]
fn markdown_events(body: &str) -> (r: Vec<(u8, usize, u8, String)>)
    ensures
        event_views(r@) == cmark_events(body@),
{
    let mut out = Vec::new();
    for (event, range) in Parser::new_ext(body, Options::empty()).into_offset_iter() {
        out.push(match event {
            Event::Start(Tag::Heading { level, .. }) => (1u8, range.start, level as u8, String::new()),
            Event::Text(t) | Event::Code(t) => (2u8, range.start, 0u8, t.to_string()),
            Event::End(TagEnd::Heading(_)) => (3u8, range.start, 0u8, String::new()),
            _ => (0u8, range.start, 0u8, String::new()),
        });
    }
    out
}

/// Headings found so far — (byte offset, level, text) — and the one open.
pub open spec fn markers_state(ev: Seq<(u8, usize, u8, Seq<char>)>) -> (Seq<(usize, u8, Seq<char>)>, Option<(usize, u8, Seq<char>)>)
    decreases ev.len(),
{
    if ev.len() == 0 {
        (seq![], None)
    } else {
        let (ms, cur) = markers_state(ev.drop_last());
        let e = ev.last();
        if e.0 == 1 {
            (ms, Some((e.1, e.2, seq![])))
        } else if e.0 == 2 {
            match cur {
                Some(m) => (ms, Some((m.0, m.1, m.2 + e.3))),
                None => (ms, None),
            }
        } else if e.0 == 3 {
            match cur {
                Some(m) => (ms.push(m), None),
                None => (ms, None),
            }
        } else {
            (ms, cur)
        }
    }
}

/// The closed headings of an event stream, in order.
pub open spec fn markers_spec(ev: Seq<(u8, usize, u8, Seq<char>)>) -> Seq<(usize, u8, Seq<char>)> {
    markers_state(ev).0
}

// ---------------------------------------------------------------------------
// Byte offsets and characters.

/// The UTF-8 length of a character.
pub open spec fn utf8_len(c: char) -> nat {
    if (c as u32) < 0x80 {
        1
    } else if (c as u32) < 0x800 {
        2
    } else if (c as u32) < 0x10000 {
        3
    } else {
        4
    }
}

pub open spec fn byte_len(s: Seq<char>) -> nat
    decreases s.len(),
{
    if s.len() == 0 {
        0
    } else {
        byte_len(s.drop_last()) + utf8_len(s.last())
    }
}

/// The first character index at or after `i` where `b` bytes have been
/// consumed (-1 if `b` is not a character boundary).
pub open spec fn cpos_from(s: Seq<char>, b: int, i: int) -> int
    decreases s.len() + 1 - i,
{
    if i < 0 || i > s.len() {
        -1
    } else if byte_len(s.take(i)) == b {
        i
    } else {
        cpos_from(s, b, i + 1)
    }
}

pub open spec fn cpos(s: Seq<char>, b: int) -> int {
    cpos_from(s, b, 0)
}

proof fn lemma_cpos_from(s: Seq<char>, b: int, i: int)
    requires
        0 <= i,
    ensures
        cpos_from(s, b, i) == -1 || i <= cpos_from(s, b, i) <= s.len(),
    decreases s.len() + 1 - i,
{
    if i <= s.len() && byte_len(s.take(i)) != b {
        lemma_cpos_from(s, b, i + 1);
    }
}

/// Character positions follow byte offsets in order.
proof fn lemma_cpos_mono(s: Seq<char>, b1: int, b2: int)
    requires
        b1 <= b2,
        cpos(s, b1) >= 0,
        cpos(s, b2) >= 0,
    ensures
        cpos(s, b1) <= cpos(s, b2),
{
    lemma_cpos_hit(s, b1, 0);
    lemma_cpos_hit(s, b2, 0);
    lemma_cpos_from(s, b1, 0);
    lemma_cpos_from(s, b2, 0);
    let k1 = cpos(s, b1);
    let k2 = cpos(s, b2);
    if k2 < k1 {
        lemma_byte_len_mono(s, k2, k1);
    }
}

/// A longer prefix holds at least as many of a character, and a prefix holds
/// at most as many as it is long.
proof fn lemma_count_prefix(s: Seq<char>, a: int, b: int, c: char)
    requires
        0 <= a <= b <= s.len(),
    ensures
        count_char(s.take(a), c) <= count_char(s.take(b), c),
        count_char(s.take(b), c) <= b,
    decreases b,
{
    if b > 0 {
        assert(s.take(b).drop_last() =~= s.take(b - 1));
        if a < b {
            lemma_count_prefix(s, a, b - 1, c);
        } else {
            lemma_count_prefix(s, b - 1, b - 1, c);
        }
    }
}

/// Sections come in document order: for an event stream whose headings
/// sit at character boundaries in increasing byte order, each section's
/// line is at or after the line of the one before it.
pub proof fn lemma_sections_in_order(body: Seq<char>, ev: Seq<(u8, usize, u8, Seq<char>)>, start_line: usize)
    requires
        events_ok(body, ev),
        start_line + body.len() <= usize::MAX,
    ensures
        forall|i: int, j: int| 0 <= i < j < sections_spec(body, ev, start_line).len()
            ==> (#[trigger] sections_spec(body, ev, start_line)[i]).3 <= (#[trigger] sections_spec(body, ev, start_line)[j]).3,
{
    let ms = markers_spec(ev);
    let secs = sections_spec(body, ev, start_line);
    assert forall|i: int, j: int| 0 <= i < j < secs.len() implies (#[trigger] secs[i]).3 <= (#[trigger] secs[j]).3 by {
        let ki = cpos(body, ms[i].0 as int);
        let kj = cpos(body, ms[j].0 as int);
        assert(ki >= 0 && kj >= 0);
        lemma_cpos_mono(body, ms[i].0 as int, ms[j].0 as int);
        lemma_cpos_from(body, ms[j].0 as int, 0);
        lemma_count_prefix(body, ki, kj, '\n');
        assert(secs[i] == section_at(body, ms, start_line, i));
        assert(secs[j] == section_at(body, ms, start_line, j));
    }
}

fn utf8_width(c: char) -> (r: usize)
    ensures
        r == utf8_len(c),
{
    let x = c as u32;
    if x < 0x80 {
        1
    } else if x < 0x800 {
        2
    } else if x < 0x10000 {
        3
    } else {
        4
    }
}

/// The character index at which `b` bytes of `v` have been consumed.
fn char_pos(v: &Vec<char>, b: usize) -> (r: Option<usize>)
    ensures
        match r {
            Some(i) => i as int == cpos(v@, b as int) && i <= v.len(),
            None => cpos(v@, b as int) == -1,
        },
{
    let mut i: usize = 0;
    let mut acc: usize = 0;
    assert(v@.take(0) =~= Seq::<char>::empty());
    while i <= v.len()
        invariant
            0 <= i <= v.len() + 1,
            i <= v.len() ==> acc == byte_len(v@.take(i as int)),
            cpos_from(v@, b as int, i as int) == cpos(v@, b as int),
        decreases v.len() + 1 - i,
    {
        if acc == b {
            return Some(i);
        }
        if i == v.len() {
            assert(cpos_from(v@, b as int, i + 1) == -1);
            return None;
        }
        let w = utf8_width(v[i]);
        assert(v@.take(i + 1).drop_last() =~= v@.take(i as int));
        assert(v@.take(i + 1).last() == v@[i as int]);
        if acc > b || b - acc < w {
            // Every later prefix is longer than `b` bytes.
            proof {
                lemma_cpos_past(v@, b as int, i + 1);
                assert(cpos_from(v@, b as int, i as int) == cpos_from(v@, b as int, i + 1));
            }
            return None;
        }
        acc = acc + w;
        i += 1;
    }
    None
}

proof fn lemma_byte_len_mono(s: Seq<char>, i: int, j: int)
    requires
        0 <= i <= j <= s.len(),
    ensures
        byte_len(s.take(i)) + (j - i) <= byte_len(s.take(j)),
    decreases j - i,
{
    if i < j {
        lemma_byte_len_mono(s, i, j - 1);
        assert(s.take(j).drop_last() =~= s.take(j - 1));
    }
}

/// Once a prefix passes `b` bytes, no later prefix has exactly `b`.
proof fn lemma_cpos_past(s: Seq<char>, b: int, i: int)
    requires
        0 <= i <= s.len(),
        byte_len(s.take(i)) > b,
    ensures
        cpos_from(s, b, i) == -1,
    decreases s.len() + 1 - i,
{
    if i < s.len() {
        lemma_byte_len_mono(s, i, i + 1);
        lemma_cpos_past(s, b, i + 1);
    } else {
        assert(cpos_from(s, b, i + 1) == -1);
    }
}

// ---------------------------------------------------------------------------
// Sections from an event stream.

/// Every heading offset is a character boundary of `body`, and offsets never
/// decrease: what slicing the body at those offsets needs.
pub open spec fn events_ok(body: Seq<char>, ev: Seq<(u8, usize, u8, Seq<char>)>) -> bool {
    let ms = markers_spec(ev);
    &&& forall|i: int| 0 <= i < ms.len() ==> cpos(body, (#[trigger] ms[i]).0 as int) >= 0
    &&& forall|i: int, j: int| 0 <= i < j < ms.len() ==> (#[trigger] ms[i]).0 <= (#[trigger] ms[j]).0
}

/// The first marker after `i` at the same or a shallower level (-1 if none).
pub open spec fn next_sibling(ms: Seq<(usize, u8, Seq<char>)>, i: int, j: int) -> int
    decreases ms.len() - j,
{
    if j < 0 || j >= ms.len() {
        -1
    } else if ms[j].1 <= ms[i].1 {
        j
    } else {
        next_sibling(ms, i, j + 1)
    }
}

/// Section `i` of `body`, from its markers.
pub open spec fn section_at(body: Seq<char>, ms: Seq<(usize, u8, Seq<char>)>, start_line: usize, i: int)
    -> (Seq<char>, Seq<char>, u8, usize, Seq<char>) {
    let start = cpos(body, ms[i].0 as int);
    let nx = next_sibling(ms, i, i + 1);
    let end = if nx >= 0 { cpos(body, ms[nx].0 as int) } else { body.len() as int };
    (
        ms[i].2,
        slugify_spec(ms[i].2),
        ms[i].1,
        (start_line + count_char(body.take(start), '\n')) as usize,
        trim_end_spec(body.subrange(start, end)),
    )
}

/// The sections of `body` given its event stream.
pub open spec fn sections_spec(body: Seq<char>, ev: Seq<(u8, usize, u8, Seq<char>)>, start_line: usize)
    -> Seq<(Seq<char>, Seq<char>, u8, usize, Seq<char>)> {
    let ms = markers_spec(ev);
    Seq::new(ms.len(), |i: int| section_at(body, ms, start_line, i))
}

fn markers(ev: &Vec<(u8, usize, u8, String)>) -> (r: Vec<(usize, u8, Vec<char>)>)
    ensures
        r@.map_values(|m: (usize, u8, Vec<char>)| (m.0, m.1, m.2@)) == markers_spec(event_views(ev@)),
{
    let ghost evv = event_views(ev@);
    let mut ms: Vec<(usize, u8, Vec<char>)> = Vec::new();
    let mut cur: Option<(usize, u8, Vec<char>)> = None;
    let mut i: usize = 0;
    assert(evv.take(0) =~= Seq::<(u8, usize, u8, Seq<char>)>::empty());
    while i < ev.len()
        invariant
            evv == event_views(ev@),
            0 <= i <= ev.len(),
            ms@.map_values(|m: (usize, u8, Vec<char>)| (m.0, m.1, m.2@)) == markers_state(evv.take(i as int)).0,
            match cur {
                Some(m) => markers_state(evv.take(i as int)).1 == Some((m.0, m.1, m.2@)),
                None => markers_state(evv.take(i as int)).1 is None,
            },
        decreases ev.len() - i,
    {
        assert(evv.take(i + 1).drop_last() =~= evv.take(i as int));
        assert(evv.take(i + 1).last() == evv[i as int]);
        let kind = ev[i].0;
        if kind == 1 {
            let empty: Vec<char> = Vec::new();
            assert(empty@ =~= Seq::<char>::empty());
            cur = Some((ev[i].1, ev[i].2, empty));
        } else if kind == 2 {
            match cur {
                Some(m) => {
                    let mut text = m.2;
                    let add = str_to_chars(ev[i].3.as_str());
                    let ghost before = text@;
                    let mut j: usize = 0;
                    while j < add.len()
                        invariant
                            0 <= j <= add.len(),
                            text@ == before + add@.take(j as int),
                        decreases add.len() - j,
                    {
                        text.push(add[j]);
                        j += 1;
                        assert(text@ =~= before + add@.take(j as int));
                    }
                    assert(add@.take(add.len() as int) =~= add@);
                    cur = Some((m.0, m.1, text));
                },
                None => {},
            }
        } else if kind == 3 {
            match cur {
                Some(m) => {
                    let ghost before = ms@;
                    ms.push(m);
                    assert(ms@.map_values(|m: (usize, u8, Vec<char>)| (m.0, m.1, m.2@)) =~= before.map_values(
                        |m: (usize, u8, Vec<char>)| (m.0, m.1, m.2@)).push((m.0, m.1, m.2@)));
                    cur = None;
                },
                None => {},
            }
        }
        i += 1;
    }
    assert(evv.take(ev.len() as int) =~= evv);
    ms
}

/// The sections of `body`, given its CommonMark event stream `ev` (see
/// `cmark_events`). `start_line` is the file line at which `body` begins.
pub fn sections_from_events(body: &str, ev: &Vec<(u8, usize, u8, String)>, start_line: usize) -> (r: Vec<Section>)
    requires
        events_ok(body@, event_views(ev@)),
        start_line + body@.len() <= usize::MAX,
    ensures
        section_views(r@) == sections_spec(body@, event_views(ev@), start_line),
{
    let v = str_to_chars(body);
    let ms = markers(ev);
    let ghost msv = markers_spec(event_views(ev@));
    assert(ms@.len() == msv.len());
    let mut out: Vec<Section> = Vec::new();
    let mut i: usize = 0;
    while i < ms.len()
        invariant
            v@ == body@,
            msv == markers_spec(event_views(ev@)),
            events_ok(body@, event_views(ev@)),
            start_line + body@.len() <= usize::MAX,
            ms@.map_values(|m: (usize, u8, Vec<char>)| (m.0, m.1, m.2@)) == msv,
            0 <= i <= ms.len(),
            section_views(out@) =~= Seq::new(i as nat, |k: int| section_at(body@, msv, start_line, k)),
        decreases ms.len() - i,
    {
        assert(msv[i as int] == (ms@[i as int].0, ms@[i as int].1, ms@[i as int].2@));
        let start = match char_pos(&v, ms[i].0) {
            Some(p) => p,
            None => {
                assert(false);
                0
            },
        };
        let level = ms[i].1;
        let mut j: usize = i + 1;
        while j < ms.len() && ms[j].1 > level
            invariant
                i < j <= ms.len(),
                ms@.map_values(|m: (usize, u8, Vec<char>)| (m.0, m.1, m.2@)) == msv,
                level == msv[i as int].1,
                next_sibling(msv, i as int, j as int) == next_sibling(msv, i as int, i + 1),
            decreases ms.len() - j,
        {
            assert(msv[j as int].1 == ms@[j as int].1);
            j += 1;
        }
        let end = if j < ms.len() {
            assert(msv[j as int].1 == ms@[j as int].1);
            assert(msv[j as int].0 == ms@[j as int].0);
            assert(msv[i as int].0 <= msv[j as int].0);
            match char_pos(&v, ms[j].0) {
                Some(p) => p,
                None => {
                    assert(false);
                    0
                },
            }
        } else {
            v.len()
        };
        proof {
            if j < ms.len() {
                lemma_cpos_order(body@, msv[i as int].0 as int, msv[j as int].0 as int);
            }
        }
        let mut nl: usize = 0;
        let mut k: usize = 0;
        assert(v@.take(0) =~= Seq::<char>::empty());
        while k < start
            invariant
                start <= v.len(),
                0 <= k <= start,
                nl == count_char(v@.take(k as int), '\n'),
                nl <= k,
            decreases start - k,
        {
            assert(v@.take(k + 1).drop_last() =~= v@.take(k as int));
            if v[k] == '\n' {
                nl += 1;
            }
            k += 1;
        }
        let heading = chars_to_string(&ms[i].2);
        let slug = slugify(heading.as_str());
        let piece = slice_chars(&v, start, end);
        let trimmed = trim_end_chars(&piece);
        let sec = Section {
            heading,
            slug,
            level,
            line: start_line + nl,
            body: chars_to_string(&trimmed),
        };
        let ghost before = section_views(out@);
        out.push(sec);
        assert(section_views(out@) =~= before.push(section_view(sec)));
        i += 1;
    }
    out
}

proof fn lemma_cpos_order(s: Seq<char>, a: int, b: int)
    requires
        a <= b,
        cpos(s, a) >= 0,
        cpos(s, b) >= 0,
    ensures
        cpos(s, a) <= cpos(s, b),
{
    lemma_cpos_from(s, a, 0);
    lemma_cpos_from(s, b, 0);
    lemma_cpos_hit(s, a, 0);
    lemma_cpos_hit(s, b, 0);
    let i = cpos(s, a);
    let j = cpos(s, b);
    if j < i {
        lemma_byte_len_mono(s, j, i);
        if a == b {
            lemma_cpos_first(s, b, 0, j);
        }
    }
}

proof fn lemma_cpos_hit(s: Seq<char>, b: int, i: int)
    requires
        0 <= i,
        cpos_from(s, b, i) >= 0,
    ensures
        byte_len(s.take(cpos_from(s, b, i))) == b,
    decreases s.len() + 1 - i,
{
    if i <= s.len() && byte_len(s.take(i)) != b {
        lemma_cpos_hit(s, b, i + 1);
    }
}

proof fn lemma_cpos_first(s: Seq<char>, b: int, i: int, k: int)
    requires
        0 <= i <= k <= s.len(),
        byte_len(s.take(k)) == b,
    ensures
        cpos_from(s, b, i) >= 0 && cpos_from(s, b, i) <= k,
    decreases k - i,
{
    if byte_len(s.take(i)) != b {
        lemma_cpos_first(s, b, i + 1, k);
    }
}

/// Parses `body` into sections; `start_line` is the file line at which the
/// body begins (see `body_start_line`). Empty if the parser's offsets did not
/// fall on character boundaries in order.
pub fn parse_sections(body: &str, start_line: usize) -> (r: Vec<Section>)
    requires
        start_line + body@.len() <= usize::MAX,
    ensures
        events_ok(body@, cmark_events(body@)) ==> section_views(r@) == sections_spec(body@, cmark_events(body@), start_line),
        !events_ok(body@, cmark_events(body@)) ==> r@.len() == 0,
{
    let ev = markdown_events(body);
    if check_events(body, &ev) {
        sections_from_events(body, &ev, start_line)
    } else {
        Vec::new()
    }
}

/// Whether an event stream meets `events_ok` for `body`.
pub fn check_events(body: &str, ev: &Vec<(u8, usize, u8, String)>) -> (r: bool)
    ensures
        r == events_ok(body@, event_views(ev@)),
{
    let v = str_to_chars(body);
    let ms = markers(ev);
    let ghost msv = markers_spec(event_views(ev@));
    let mut i: usize = 0;
    while i < ms.len()
        invariant
            v@ == body@,
            msv == markers_spec(event_views(ev@)),
            ms@.map_values(|m: (usize, u8, Vec<char>)| (m.0, m.1, m.2@)) == msv,
            0 <= i <= ms.len(),
            forall|k: int| 0 <= k < i ==> cpos(body@, (#[trigger] msv[k]).0 as int) >= 0,
            forall|k: int| 0 < k < i ==> msv[k - 1].0 <= (#[trigger] msv[k]).0,
        decreases ms.len() - i,
    {
        assert(msv[i as int].0 == ms@[i as int].0);
        if char_pos(&v, ms[i].0).is_none() {
            assert(cpos(body@, msv[i as int].0 as int) < 0);
            assert(!events_ok(body@, event_views(ev@)));
            return false;
        }
        if i > 0 && ms[i - 1].0 > ms[i].0 {
            assert(msv[i - 1].0 == ms@[i - 1].0);
            assert(msv[i - 1].0 > msv[i as int].0);
            assert(!events_ok(body@, event_views(ev@)));
            return false;
        }
        i += 1;
    }
    proof {
        assert forall|a: int, c: int| 0 <= a < c < msv.len() implies (#[trigger] msv[a]).0 <= (#[trigger] msv[c]).0 by {
            lemma_chain(msv, a, c);
        }
    }
    true
}

proof fn lemma_chain(ms: Seq<(usize, u8, Seq<char>)>, a: int, c: int)
    requires
        0 <= a < c < ms.len(),
        forall|k: int| 0 < k < ms.len() ==> ms[k - 1].0 <= (#[trigger] ms[k]).0,
    ensures
        ms[a].0 <= ms[c].0,
    decreases c - a,
{
    if c > a + 1 {
        lemma_chain(ms, a, c - 1);
    }
    assert(ms[c - 1].0 <= ms[c].0);
}

} // verus!
