//! Obsidian-style `[[wikilink]]` extraction from a concept body.
//!
//! Shapes covered: `[[Note]]`, `[[Note|Alias]]`, `[[folder/Note]]`,
//! `[[Note.md]]`, `[[Note#Heading]]`, `[[Note#^block]]` and embeds
//! `![[Note]]` all yield the note `Note`; same-note references (`[[#h]]`),
//! empty and external targets yield nothing. Fenced code blocks and inline
//! code spans are skipped.

use vstd::prelude::*;
use crate::text::{
    before_first, before_first_chars, chars_to_string, contains, contains_spec, ends_with,
    ends_with_spec, lines, lines_spec, slice_chars, starts_with, starts_with_spec, str_to_chars,
    trim_chars, trim_end_chars, trim_end_spec, trim_spec, trim_start_chars, trim_start_spec, views,
};

verus! {

/// A wikilink found in a concept body, reduced to the note it points at.
#[derive(Clone, Debug, PartialEq, Eq)]
pub struct Wikilink {
    /// The note target: alias and anchors stripped, `.md` removed, trimmed.
    pub target: String,
}

// ---------------------------------------------------------------------------
// Specification.

pub open spec fn count_char(s: Seq<char>, c: char) -> nat
    decreases s.len(),
{
    if s.len() == 0 {
        0
    } else {
        count_char(s.drop_last(), c) + if s.last() == c { 1nat } else { 0nat }
    }
}

/// A backtick toggles inline code; backticks and code characters become spaces.
pub open spec fn blank_inline_code_spec(line: Seq<char>) -> Seq<char> {
    Seq::new(
        line.len(),
        |i: int|
            if line[i] == '`' || count_char(line.take(i), '`') % 2 == 1 {
                ' '
            } else {
                line[i]
            },
    )
}

pub open spec fn fence3(f: char) -> Seq<char> {
    seq![f, f, f]
}

/// The code-free view of a body's lines: fenced blocks (opened by a line
/// starting, after indentation, with three backticks or tildes, and closed
/// by a line starting with three of the same) are dropped, other lines have
/// their inline code blanked.
pub open spec fn code_free_spec(lines: Seq<Seq<char>>, fence: Option<char>) -> Seq<Seq<char>>
    decreases lines.len(),
{
    if lines.len() == 0 {
        seq![]
    } else {
        let line = lines[0];
        let t = trim_start_spec(line);
        let rest = lines.drop_first();
        match fence {
            Some(f) => if starts_with_spec(t, fence3(f)) {
                code_free_spec(rest, None)
            } else {
                code_free_spec(rest, Some(f))
            },
            None => if starts_with_spec(t, fence3('`')) {
                code_free_spec(rest, Some('`'))
            } else if starts_with_spec(t, fence3('~')) {
                code_free_spec(rest, Some('~'))
            } else {
                seq![blank_inline_code_spec(line)] + code_free_spec(rest, None)
            },
        }
    }
}

pub open spec fn code_free_lines_spec(body: Seq<char>) -> Seq<Seq<char>> {
    code_free_spec(lines_spec(body), None)
}

pub open spec fn open_at(s: Seq<char>, i: int) -> bool {
    0 <= i && i + 1 < s.len() && s[i] == '[' && s[i + 1] == '['
}

pub open spec fn close_at(s: Seq<char>, i: int) -> bool {
    0 <= i && i + 1 < s.len() && s[i] == ']' && s[i + 1] == ']'
}

/// Where the `]]` closing a wikilink whose body starts at `j` sits; `None`
/// when the line ends first or another `[[` intervenes.
pub open spec fn close_pos(s: Seq<char>, j: int) -> Option<int>
    decreases s.len() - j,
{
    if j < 0 || j + 1 >= s.len() {
        None
    } else if close_at(s, j) {
        Some(j)
    } else if open_at(s, j) {
        None
    } else {
        close_pos(s, j + 1)
    }
}

pub proof fn lemma_close_pos(s: Seq<char>, j: int)
    ensures
        close_pos(s, j) matches Some(k) ==> j <= k && close_at(s, k)
            && forall|m: int| j <= m < k ==> !close_at(s, m) && !open_at(s, m),
    decreases s.len() - j,
{
    if !(j < 0 || j + 1 >= s.len()) && !close_at(s, j) && !open_at(s, j) {
        lemma_close_pos(s, j + 1);
    }
}

pub open spec fn md_suffix() -> Seq<char> {
    seq!['.', 'm', 'd']
}

pub open spec fn scheme_sep() -> Seq<char> {
    seq![':', '/', '/']
}

pub open spec fn strip_md(s: Seq<char>) -> Seq<char> {
    if ends_with_spec(s, md_suffix()) {
        s.take(s.len() - 3)
    } else {
        s
    }
}

/// The note a wikilink body names: text before `|`, then before `#`, trimmed;
/// nothing for an empty or external (`://`) target; a `.md` suffix dropped and
/// trailing space trimmed, nothing if that leaves it empty.
pub open spec fn note_target_spec(inner: Seq<char>) -> Option<Seq<char>> {
    let note = trim_spec(before_first(before_first(inner, '|'), '#'));
    if note.len() == 0 || contains_spec(note, scheme_sep()) {
        None
    } else {
        let n2 = trim_end_spec(strip_md(note));
        if n2.len() == 0 {
            None
        } else {
            Some(n2)
        }
    }
}

/// The targets of the wikilinks on a line, scanning from position `i`.
pub open spec fn scan_spec(s: Seq<char>, i: int) -> Seq<Seq<char>>
    decreases s.len() - i,
{
    if i < 0 || i + 1 >= s.len() {
        seq![]
    } else if open_at(s, i) {
        match close_pos(s, i + 2) {
            Some(j) => {
                let rest = if i < j + 2 <= s.len() { scan_spec(s, j + 2) } else { seq![] };
                match note_target_spec(s.subrange(i + 2, j)) {
                    Some(t) => seq![t] + rest,
                    None => rest,
                }
            },
            None => scan_spec(s, i + 1),
        }
    } else {
        scan_spec(s, i + 1)
    }
}

pub open spec fn scan_lines_spec(lines: Seq<Seq<char>>) -> Seq<Seq<char>>
    decreases lines.len(),
{
    if lines.len() == 0 {
        seq![]
    } else {
        scan_lines_spec(lines.drop_last()) + scan_spec(lines.last(), 0)
    }
}

/// The wikilink targets of a body, in document order.
pub open spec fn extract_spec(body: Seq<char>) -> Seq<Seq<char>> {
    scan_lines_spec(code_free_lines_spec(body))
}

/// What every extracted target looks like: not empty, trimmed, on one
/// line, free of the `|` that starts an alias and the `#` that starts an
/// anchor, and not an external `scheme://` reference.
pub open spec fn target_shape(t: Seq<char>) -> bool {
    &&& t.len() > 0
    &&& trim_spec(t) == t
    &&& forall|j: int| 0 <= j < t.len() ==> #[trigger] t[j] != '|' && t[j] != '#' && t[j] != '\n'
    &&& !contains_spec(t, scheme_sep())
}

/// Every character of `s` satisfies `p`.
pub open spec fn all_chars(s: Seq<char>, p: spec_fn(char) -> bool) -> bool {
    forall|k: int| 0 <= k < s.len() ==> p(#[trigger] s[k])
}

/// The lines of a text hold no line feed, and only characters of the text.
proof fn lemma_lines_chars(s: Seq<char>, p: spec_fn(char) -> bool)
    requires
        forall|k: int| 0 <= k < s.len() && s[k] != '\n' ==> p(#[trigger] s[k]),
    ensures
        forall|q: int| 0 <= q < lines_spec(s).len() ==> all_chars(#[trigger] lines_spec(s)[q], |c: char| p(c) && c != '\n'),
    decreases s.len(),
{
    if s.len() > 0 {
        crate::text::lemma_first_pos_bounds(s, '\n');
        let k = crate::text::first_pos(s, '\n');
        let pn = |c: char| p(c) && c != '\n';
        if k >= s.len() {
            assert(lines_spec(s) == seq![s]);
            assert(all_chars(s, pn));
        } else {
            let rest = s.skip(k + 1);
            assert forall|j: int| 0 <= j < rest.len() && rest[j] != '\n' implies p(#[trigger] rest[j]) by {
                assert(rest[j] == s[k + 1 + j]);
            }
            lemma_lines_chars(rest, p);
            let first = crate::text::strip_cr(s.take(k));
            assert(all_chars(first, pn)) by {
                assert forall|j: int| 0 <= j < first.len() implies pn(#[trigger] first[j]) by {
                    assert(first[j] == s[j]);
                }
            }
            assert(lines_spec(s) == seq![first] + lines_spec(rest));
            assert forall|q: int| 0 <= q < lines_spec(s).len() implies all_chars(#[trigger] lines_spec(s)[q], pn) by {
                if q > 0 {
                    assert(lines_spec(s)[q] == lines_spec(rest)[q - 1]);
                }
            }
        }
    }
}

/// Dropping fenced code and blanking inline code keeps every line's
/// characters within `p`, when `p` admits a space.
proof fn lemma_code_free_chars(lines: Seq<Seq<char>>, fence: Option<char>, p: spec_fn(char) -> bool)
    requires
        p(' '),
        forall|q: int| 0 <= q < lines.len() ==> all_chars(#[trigger] lines[q], p),
    ensures
        forall|q: int| 0 <= q < code_free_spec(lines, fence).len() ==> all_chars(#[trigger] code_free_spec(lines, fence)[q], p),
    decreases lines.len(),
{
    if lines.len() > 0 {
        let rest = lines.drop_first();
        assert forall|q: int| 0 <= q < rest.len() implies all_chars(#[trigger] rest[q], p) by {
            assert(rest[q] == lines[q + 1]);
        }
        lemma_code_free_chars(rest, None, p);
        lemma_code_free_chars(rest, Some('`'), p);
        lemma_code_free_chars(rest, Some('~'), p);
        if fence is Some {
            lemma_code_free_chars(rest, fence, p);
        }
        let line = lines[0];
        let bl = blank_inline_code_spec(line);
        assert(all_chars(line, p));
        assert(all_chars(bl, p)) by {
            assert forall|k: int| 0 <= k < bl.len() implies p(#[trigger] bl[k]) by {
                assert(p(line[k]));
            }
        }
        let out = code_free_spec(lines, fence);
        let tail = code_free_spec(rest, None);
        let t = trim_start_spec(line);
        match fence {
            Some(f) => {
                if starts_with_spec(t, fence3(f)) {
                    assert(out == tail);
                } else {
                    assert(out == code_free_spec(rest, Some(f)));
                }
            },
            None => {
                if starts_with_spec(t, fence3('`')) {
                    assert(out == code_free_spec(rest, Some('`')));
                } else if starts_with_spec(t, fence3('~')) {
                    assert(out == code_free_spec(rest, Some('~')));
                } else {
                    assert(out == seq![bl] + tail);
                    assert forall|q: int| 0 <= q < out.len() implies all_chars(#[trigger] out[q], p) by {
                        if q > 0 {
                            assert(out[q] == tail[q - 1]);
                        }
                    }
                }
            },
        }
    }
}

/// The code-free lines of a body hold no line feed, and only characters
/// that `p` admits where `p` admits a space and every other character of the body.
pub proof fn lemma_code_free_lines_chars(body: Seq<char>, p: spec_fn(char) -> bool)
    requires
        p(' '),
        forall|k: int| 0 <= k < body.len() && body[k] != '\n' ==> p(#[trigger] body[k]),
    ensures
        forall|q: int| 0 <= q < code_free_lines_spec(body).len()
            ==> all_chars(#[trigger] code_free_lines_spec(body)[q], |c: char| p(c) && c != '\n'),
{
    lemma_lines_chars(body, p);
    lemma_code_free_chars(lines_spec(body), None, |c: char| p(c) && c != '\n');
}

/// Trimming leaves neither end on whitespace.
proof fn lemma_trim_ends(s: Seq<char>)
    ensures
        trim_start_spec(s).len() > 0 ==> !crate::text::unicode_whitespace(trim_start_spec(s)[0]),
        trim_end_spec(s).len() > 0 ==> !crate::text::unicode_whitespace(trim_end_spec(s).last()),
    decreases s.len(),
{
    if s.len() > 0 {
        lemma_trim_ends(s.drop_first());
        lemma_trim_ends(s.drop_last());
    }
}

/// Trimming leading whitespace keeps a suffix.
proof fn lemma_trim_start_suffix(s: Seq<char>)
    ensures
        trim_start_spec(s).len() <= s.len(),
        trim_start_spec(s) == s.skip(s.len() - trim_start_spec(s).len()),
    decreases s.len(),
{
    if s.len() > 0 && crate::text::unicode_whitespace(s[0]) {
        lemma_trim_start_suffix(s.drop_first());
        let m = trim_start_spec(s).len();
        assert(s.drop_first().skip(s.len() - 1 - m) =~= s.skip(s.len() - m));
    } else {
        assert(s.skip(0) =~= s);
    }
}

/// The note a wikilink body names has the target shape.
proof fn lemma_note_target_shape(inner: Seq<char>)
    requires
        forall|k: int| 0 <= k < inner.len() ==> #[trigger] inner[k] != '\n',
    ensures
        note_target_spec(inner) matches Some(t) ==> target_shape(t),
{
    if let Some(t) = note_target_spec(inner) {
        crate::text::lemma_first_pos_bounds(inner, '|');
        let bf1 = before_first(inner, '|');
        crate::text::lemma_first_pos_bounds(bf1, '#');
        let bf2 = before_first(bf1, '#');
        assert forall|j: int| 0 <= j < bf2.len() implies #[trigger] bf2[j] != '|' && bf2[j] != '#' && bf2[j] != '\n' by {
            assert(bf2[j] == bf1[j]);
            assert(bf1[j] == inner[j]);
        }
        let ts = trim_start_spec(bf2);
        lemma_trim_start_suffix(bf2);
        let k = bf2.len() - ts.len();
        let note = trim_end_spec(ts);
        crate::splice::lemma_trim_end_prefix(ts);
        assert(note == trim_spec(bf2));
        assert forall|j: int| 0 <= j < note.len() implies #[trigger] note[j] == bf2[k + j] by {
            assert(note[j] == ts[j]);
        }
        let sm = strip_md(note);
        assert(sm.len() <= note.len());
        assert(forall|j: int| 0 <= j < sm.len() ==> #[trigger] sm[j] == note[j]);
        crate::splice::lemma_trim_end_prefix(sm);
        assert(t == trim_end_spec(sm));
        assert forall|j: int| 0 <= j < t.len() implies #[trigger] t[j] != '|' && t[j] != '#' && t[j] != '\n' by {
            assert(t[j] == sm[j]);
            assert(sm[j] == note[j]);
            assert(note[j] == bf2[k + j]);
        }
        lemma_trim_ends(bf2);
        lemma_trim_ends(ts);
        lemma_trim_ends(sm);
        assert(note.len() > 0 && note[0] == ts[0]);
        assert(t[0] == note[0]);
        assert(!crate::text::unicode_whitespace(t[0]));
        assert(!crate::text::unicode_whitespace(t.last()));
        assert(trim_start_spec(t) == t);
        assert(trim_end_spec(t) == t);
        if contains_spec(t, scheme_sep()) {
            let i = choose|i: int| crate::text::occurs_at(t, scheme_sep(), i);
            assert(note.subrange(i, i + 3) =~= t.subrange(i, i + 3));
            assert(crate::text::occurs_at(note, scheme_sep(), i));
        }
    }
}

/// Every target found on a line from position `i` has the target shape.
proof fn lemma_scan_shape(s: Seq<char>, i: int)
    requires
        forall|k: int| 0 <= k < s.len() ==> #[trigger] s[k] != '\n',
    ensures
        forall|q: int| 0 <= q < scan_spec(s, i).len() ==> target_shape(#[trigger] scan_spec(s, i)[q]),
    decreases s.len() - i,
{
    if i < 0 || i + 1 >= s.len() {
        assert(scan_spec(s, i).len() == 0);
    } else if open_at(s, i) {
        match close_pos(s, i + 2) {
            Some(j) => {
                if i < j + 2 <= s.len() {
                    lemma_scan_shape(s, j + 2);
                }
                lemma_close_pos(s, i + 2);
                assert forall|k: int| 0 <= k < s.subrange(i + 2, j).len() implies #[trigger] s.subrange(i + 2, j)[k] != '\n' by {
                    assert(s.subrange(i + 2, j)[k] == s[i + 2 + k]);
                }
                lemma_note_target_shape(s.subrange(i + 2, j));
                let rest = if i < j + 2 <= s.len() { scan_spec(s, j + 2) } else { seq![] };
                match note_target_spec(s.subrange(i + 2, j)) {
                    Some(t) => {
                        assert(scan_spec(s, i) == seq![t] + rest);
                        assert forall|q: int| 0 <= q < scan_spec(s, i).len() implies target_shape(#[trigger] scan_spec(s, i)[q]) by {
                            if q > 0 {
                                assert(scan_spec(s, i)[q] == rest[q - 1]);
                            }
                        }
                    },
                    None => {
                        assert(scan_spec(s, i) == rest);
                    },
                }
            },
            None => {
                lemma_scan_shape(s, i + 1);
                assert(scan_spec(s, i) == scan_spec(s, i + 1));
            },
        }
    } else {
        lemma_scan_shape(s, i + 1);
        assert(scan_spec(s, i) == scan_spec(s, i + 1));
    }
}

proof fn lemma_scan_lines_shape(lines: Seq<Seq<char>>)
    requires
        forall|q: int, k: int| 0 <= q < lines.len() && 0 <= k < lines[q].len() ==> #[trigger] lines[q][k] != '\n',
    ensures
        forall|q: int| 0 <= q < scan_lines_spec(lines).len() ==> target_shape(#[trigger] scan_lines_spec(lines)[q]),
    decreases lines.len(),
{
    if lines.len() > 0 {
        assert forall|q: int, k: int| 0 <= q < lines.drop_last().len() && 0 <= k < lines.drop_last()[q].len()
            implies #[trigger] lines.drop_last()[q][k] != '\n' by {
            assert(lines.drop_last()[q] == lines[q]);
        }
        lemma_scan_lines_shape(lines.drop_last());
        assert forall|k: int| 0 <= k < lines.last().len() implies #[trigger] lines.last()[k] != '\n' by {
            assert(lines.last() == lines[lines.len() - 1]);
        }
        lemma_scan_shape(lines.last(), 0);
        let a = scan_lines_spec(lines.drop_last());
        let b = scan_spec(lines.last(), 0);
        assert forall|q: int| 0 <= q < scan_lines_spec(lines).len() implies target_shape(#[trigger] scan_lines_spec(lines)[q]) by {
            if q < a.len() {
                assert(scan_lines_spec(lines)[q] == a[q]);
            } else {
                assert(scan_lines_spec(lines)[q] == b[q - a.len()]);
            }
        }
    }
}

/// Every wikilink target `extract` returns is non-empty, trimmed, on one
/// line, carries no alias (`|`) or anchor (`#`), and is never an external
/// `://` reference.
pub proof fn lemma_extract_target_shape(body: Seq<char>)
    ensures
        forall|q: int| 0 <= q < extract_spec(body).len() ==> target_shape(#[trigger] extract_spec(body)[q]),
{
    let any = |c: char| true;
    lemma_code_free_lines_chars(body, any);
    let ls = code_free_lines_spec(body);
    assert forall|q: int, k: int| 0 <= q < ls.len() && 0 <= k < ls[q].len() implies #[trigger] ls[q][k] != '\n' by {
        assert(all_chars(ls[q], |c: char| any(c) && c != '\n'));
    }
    lemma_scan_lines_shape(ls);
}

pub open spec fn targets(v: Seq<Wikilink>) -> Seq<Seq<char>> {
    v.map_values(|w: Wikilink| w.target@)
}


// ---------------------------------------------------------------------------
// Implementation.

/// Extracts every `[[wikilink]]` (and `![[embed]]`) target from a body,
/// skipping fenced code blocks and inline code spans, in document order.
pub fn extract(body: &str) -> (r: Vec<Wikilink>)
    ensures
        targets(r@) == extract_spec(body@),
{
    let cf = code_free_lines(body);
    let ghost cfv = views(cf@);
    let mut out: Vec<Wikilink> = Vec::new();
    let mut k: usize = 0;
    assert(cfv.take(0) =~= Seq::<Seq<char>>::empty());
    while k < cf.len()
        invariant
            0 <= k <= cf.len(),
            cfv == views(cf@),
            targets(out@) == scan_lines_spec(cfv.take(k as int)),
        decreases cf.len() - k,
    {
        scan_line(&cf[k], &mut out);
        assert(cfv.take(k + 1).drop_last() =~= cfv.take(k as int));
        k += 1;
    }
    assert(cfv.take(cf.len() as int) =~= cfv);
    out
}

/// The body's lines with fenced code blocks removed and inline code spans
/// blanked out.
pub fn code_free_lines(body: &str) -> (r: Vec<Vec<char>>)
    ensures
        views(r@) == code_free_lines_spec(body@),
{
    let chars = str_to_chars(body);
    let ls = lines(&chars);
    let ghost lv = views(ls@);
    let mut out: Vec<Vec<char>> = Vec::new();
    let mut fence: Option<char> = None;
    let mut k: usize = 0;
    assert(lv.skip(0) =~= lv);
    while k < ls.len()
        invariant
            0 <= k <= ls.len(),
            lv == views(ls@),
            lv == lines_spec(body@),
            views(out@) + code_free_spec(lv.skip(k as int), fence) == code_free_spec(lv, None),
        decreases ls.len() - k,
    {
        let line = &ls[k];
        let trimmed = trim_start_chars(line);
        let ghost before = out@;
        assert(lv.skip(k as int).drop_first() =~= lv.skip(k + 1));
        assert(lv.skip(k as int)[0] == line@);
        match fence {
            Some(f) => {
                if starts_with(&trimmed, &vec![f, f, f]) {
                    fence = None;
                }
            },
            None => {
                if starts_with(&trimmed, &vec!['`', '`', '`']) {
                    fence = Some('`');
                } else if starts_with(&trimmed, &vec!['~', '~', '~']) {
                    fence = Some('~');
                } else {
                    let b = blank_inline_code(line);
                    out.push(b);
                    assert(views(out@) =~= views(before).push(b@));
                    assert(views(out@) + code_free_spec(lv.skip(k + 1), fence) =~= views(before) + code_free_spec(lv.skip(k as int), None));
                }
            },
        }
        k += 1;
    }
    assert(lv.skip(k as int) =~= Seq::<Seq<char>>::empty());
    assert(views(out@) + code_free_spec(lv.skip(k as int), fence) =~= views(out@));
    out
}

/// Replaces inline code spans (backtick-delimited) with spaces.
pub fn blank_inline_code(line: &Vec<char>) -> (r: Vec<char>)
    ensures
        r@ == blank_inline_code_spec(line@),
{
    let mut out: Vec<char> = Vec::new();
    let mut in_code = false;
    let mut i: usize = 0;
    while i < line.len()
        invariant
            0 <= i <= line.len(),
            in_code == (count_char(line@.take(i as int), '`') % 2 == 1),
            out@ == blank_inline_code_spec(line@).take(i as int),
        decreases line.len() - i,
    {
        let c = line[i];
        assert(line@.take(i + 1).drop_last() =~= line@.take(i as int));
        if c == '`' {
            in_code = !in_code;
            out.push(' ');
        } else if in_code {
            out.push(' ');
        } else {
            out.push(c);
        }
        i += 1;
        assert(out@ =~= blank_inline_code_spec(line@).take(i as int));
    }
    assert(blank_inline_code_spec(line@).take(i as int) =~= blank_inline_code_spec(line@));
    out
}

/// Scans one code-free line for `[[…]]` spans, appending their targets.
fn scan_line(line: &Vec<char>, out: &mut Vec<Wikilink>)
    ensures
        targets(final(out)@) == targets(old(out)@) + scan_spec(line@, 0),
{
    let ghost start = targets(out@);
    let mut i: usize = 0;
    assert(targets(out@) + scan_spec(line@, 0) =~= start + scan_spec(line@, 0));
    while i < line.len() && i + 1 < line.len()
        invariant
            i <= line.len(),
            targets(out@) + scan_spec(line@, i as int) == start + scan_spec(line@, 0),
        decreases line.len() - i,
    {
        if line[i] == '[' && line[i + 1] == '[' {
            proof {
                lemma_close_pos(line@, i + 2);
            }
            match take_until_close(line, i + 2) {
                Some((inner, next)) => {
                    let ghost before = targets(out@);
                    match note_target(&inner) {
                        Some(t) => {
                            let w = Wikilink { target: chars_to_string(&t) };
                            out.push(w);
                            assert(targets(out@) =~= before.push(t@));
                            assert(targets(out@) + scan_spec(line@, next as int) =~= before + scan_spec(line@, i as int));
                        },
                        None => {},
                    }
                    i = next;
                },
                None => {
                    i += 1;
                },
            }
        } else {
            i += 1;
        }
    }
    assert(scan_spec(line@, i as int) =~= Seq::<Seq<char>>::empty());
    assert(targets(out@) + scan_spec(line@, i as int) =~= targets(out@));
}

/// Reads the wikilink body starting just past the opening `[[`, returning the
/// inner text and the index just past the closing `]]`.
fn take_until_close(chars: &Vec<char>, start: usize) -> (r: Option<(Vec<char>, usize)>)
    requires
        start <= chars.len(),
    ensures
        match close_pos(chars@, start as int) {
            Some(j) => r matches Some((inner, next)) && inner@ == chars@.subrange(start as int, j)
                && next == j + 2,
            None => r is None,
        },
{
    proof {
        lemma_close_pos(chars@, start as int);
    }
    let mut i = start;
    while i < chars.len() && i + 1 < chars.len()
        invariant
            start <= i <= chars.len(),
            close_pos(chars@, i as int) == close_pos(chars@, start as int),
        decreases chars.len() - i,
    {
        if chars[i] == ']' && chars[i + 1] == ']' {
            let inner = slice_chars(chars, start, i);
            return Some((inner, i + 2));
        }
        if chars[i] == '[' && chars[i + 1] == '[' {
            return None;
        }
        i += 1;
    }
    None
}

/// Reduces a wikilink's inner text to the note it targets.
fn note_target(inner: &Vec<char>) -> (r: Option<Vec<char>>)
    ensures
        match note_target_spec(inner@) {
            Some(t) => r matches Some(v) && v@ == t,
            None => r is None,
        },
{
    let a = before_first_chars(inner, '|');
    let b = before_first_chars(&a, '#');
    let note = trim_chars(&b);
    if note.len() == 0 || contains(&note, &vec![':', '/', '/']) {
        return None;
    }
    let stripped = if ends_with(&note, &vec!['.', 'm', 'd']) {
        slice_chars(&note, 0, note.len() - 3)
    } else {
        slice_chars(&note, 0, note.len())
    };
    assert(note@.subrange(0, note.len() as int) =~= note@);
    let n2 = trim_end_chars(&stripped);
    if n2.len() == 0 {
        None
    } else {
        Some(n2)
    }
}

} // verus!
