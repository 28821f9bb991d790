//! Inline Obsidian `#tag` extraction from a concept body.
//!
//! A tag starts at `#` only at line start or after whitespace; the run after
//! `#` may hold Unicode letters, digits and `-`, `_`, `/`, must hold at least
//! one letter, and loses trailing `/` and `-`. Tags are lowercased and kept
//! in document order with duplicates. Fenced code and inline code are skipped.

use vstd::prelude::*;
use crate::text::{
    chars_to_string, is_alphabetic, is_alphanumeric, is_whitespace, slice_chars, str_lowercase,
    string_views, unicode_alphabetic, unicode_alphanumeric, unicode_lower_str, unicode_whitespace,
    views,
};
use crate::wikilinks::{code_free_lines, code_free_lines_spec};

verus! {

pub open spec fn is_tag_char(c: char) -> bool {
    unicode_alphanumeric(c) || c == '-' || c == '_' || c == '/'
}

/// The end of the run of tag characters starting at `i`.
pub open spec fn run_end(s: Seq<char>, i: int) -> int
    decreases s.len() - i,
{
    if 0 <= i < s.len() && is_tag_char(s[i]) {
        run_end(s, i + 1)
    } else {
        i
    }
}

pub open spec fn has_letter(s: Seq<char>, a: int, b: int) -> bool {
    exists|k: int| a <= k < b && unicode_alphabetic(#[trigger] s[k])
}

pub open spec fn is_sep(c: char) -> bool {
    c == '/' || c == '-'
}

/// `e` moved left past trailing `/` and `-`, not below `a`.
pub open spec fn trim_seps(s: Seq<char>, a: int, e: int) -> int
    decreases e - a,
{
    if e > a && is_sep(s[e - 1]) {
        trim_seps(s, a, e - 1)
    } else {
        e
    }
}

/// The tag whose body starts at `start` (just past `#`), with the index past
/// its whole run; `None` if the run is empty, holds no letter, or is only
/// separators.
pub open spec fn take_tag_spec(s: Seq<char>, start: int) -> Option<(Seq<char>, int)> {
    let r = run_end(s, start);
    if r == start || !has_letter(s, start, r) {
        None
    } else {
        let e = trim_seps(s, start, r);
        if e == start {
            None
        } else {
            Some((unicode_lower_str(s.subrange(start, e)), r))
        }
    }
}

pub open spec fn opens_tag(s: Seq<char>, i: int) -> bool {
    0 <= i < s.len() && s[i] == '#' && (i == 0 || unicode_whitespace(s[i - 1]))
}

/// The tags of one code-free line, scanning from position `i`.
pub open spec fn tag_scan_spec(s: Seq<char>, i: int) -> Seq<Seq<char>>
    decreases s.len() - i,
{
    if i < 0 || i >= s.len() {
        seq![]
    } else if opens_tag(s, i) {
        match take_tag_spec(s, i + 1) {
            Some((t, n)) => if i < n <= s.len() {
                seq![t] + tag_scan_spec(s, n)
            } else {
                seq![]
            },
            None => tag_scan_spec(s, i + 1),
        }
    } else {
        tag_scan_spec(s, i + 1)
    }
}

pub open spec fn tag_lines_spec(lines: Seq<Seq<char>>) -> Seq<Seq<char>>
    decreases lines.len(),
{
    if lines.len() == 0 {
        seq![]
    } else {
        tag_lines_spec(lines.drop_last()) + tag_scan_spec(lines.last(), 0)
    }
}

/// The inline tags of a body, lowercased, in document order.
pub open spec fn extract_spec(body: Seq<char>) -> Seq<Seq<char>> {
    tag_lines_spec(code_free_lines_spec(body))
}

pub proof fn lemma_run_end(s: Seq<char>, i: int)
    requires
        0 <= i <= s.len(),
    ensures
        i <= run_end(s, i) <= s.len(),
        forall|k: int| i <= k < run_end(s, i) ==> is_tag_char(#[trigger] s[k]),
        run_end(s, i) < s.len() ==> !is_tag_char(s[run_end(s, i)]),
    decreases s.len() - i,
{
    if i < s.len() && is_tag_char(s[i]) {
        lemma_run_end(s, i + 1);
    }
}

pub proof fn lemma_trim_seps(s: Seq<char>, a: int, e: int)
    requires
        a <= e,
    ensures
        a <= trim_seps(s, a, e) <= e,
    decreases e - a,
{
    if e > a && is_sep(s[e - 1]) {
        lemma_trim_seps(s, a, e - 1);
    }
}

/// What every tag of an ASCII body looks like: not empty, lowercase,
/// holding a letter, made of letters, digits, `-`, `_` and `/`, and not
/// ending in `/` or `-`.
pub open spec fn tag_shape(t: Seq<char>) -> bool {
    &&& t.len() > 0
    &&& crate::text::ascii_lower_seq(t) == t
    &&& exists|k: int| 0 <= k < t.len() && crate::text::is_ascii_lower(#[trigger] t[k])
    &&& forall|k: int| 0 <= k < t.len() ==> (crate::text::is_ascii_lower(#[trigger] t[k]) || crate::text::is_ascii_digit(t[k])
        || t[k] == '-' || t[k] == '_' || t[k] == '/')
    &&& !is_sep(t.last())
}

proof fn lemma_trim_seps_tail(s: Seq<char>, a: int, e: int)
    requires
        a <= e,
    ensures
        forall|k: int| trim_seps(s, a, e) <= k < e ==> is_sep(#[trigger] s[k]),
        trim_seps(s, a, e) > a ==> !is_sep(s[trim_seps(s, a, e) - 1]),
    decreases e - a,
{
    if e > a && is_sep(s[e - 1]) {
        lemma_trim_seps_tail(s, a, e - 1);
    }
}

/// A tag read from an ASCII line has the tag shape.
proof fn lemma_take_tag_shape(s: Seq<char>, start: int)
    requires
        0 <= start <= s.len(),
        crate::text::all_ascii(s),
    ensures
        take_tag_spec(s, start) matches Some((t, n)) ==> tag_shape(t) && start < n <= s.len(),
{
    lemma_run_end(s, start);
    let r = run_end(s, start);
    if let Some((t, n)) = take_tag_spec(s, start) {
        lemma_trim_seps(s, start, r);
        lemma_trim_seps_tail(s, start, r);
        let e = trim_seps(s, start, r);
        let sub = s.subrange(start, e);
        assert(crate::text::all_ascii(sub)) by {
            assert forall|i: int| 0 <= i < sub.len() implies crate::text::is_ascii_char(#[trigger] sub[i]) by {
                assert(sub[i] == s[start + i]);
            }
        }
        assert(t == crate::text::ascii_lower_seq(sub));
        let k0 = choose|k: int| start <= k < r && unicode_alphabetic(#[trigger] s[k]);
        assert(crate::text::is_ascii_char(s[k0]));
        assert(k0 < e) by {
            if k0 >= e {
                assert(is_sep(s[k0]));
            }
        }
        assert(crate::text::is_ascii_lower(t[k0 - start])) by {
            assert(sub[k0 - start] == s[k0]);
        }
        assert forall|k: int| 0 <= k < t.len() implies (crate::text::is_ascii_lower(#[trigger] t[k]) || crate::text::is_ascii_digit(t[k])
            || t[k] == '-' || t[k] == '_' || t[k] == '/') by {
            assert(sub[k] == s[start + k]);
            assert(is_tag_char(s[start + k]));
            assert(crate::text::is_ascii_char(s[start + k]));
        }
        assert(crate::text::ascii_lower_seq(t) =~= t);
        assert(t.last() == crate::text::ascii_lower(s[e - 1]));
    }
}

/// The tags found on an ASCII line from position `i` have the tag shape.
proof fn lemma_tag_scan_shape(s: Seq<char>, i: int)
    requires
        crate::text::all_ascii(s),
    ensures
        forall|q: int| 0 <= q < tag_scan_spec(s, i).len() ==> tag_shape(#[trigger] tag_scan_spec(s, i)[q]),
    decreases s.len() - i,
{
    if i < 0 || i >= s.len() {
        assert(tag_scan_spec(s, i).len() == 0);
    } else if opens_tag(s, i) {
        lemma_take_tag_shape(s, i + 1);
        match take_tag_spec(s, i + 1) {
            Some((t, n)) => {
                lemma_tag_scan_shape(s, n);
                let rest = tag_scan_spec(s, n);
                assert(tag_scan_spec(s, i) == seq![t] + rest);
                assert forall|q: int| 0 <= q < tag_scan_spec(s, i).len() implies tag_shape(#[trigger] tag_scan_spec(s, i)[q]) by {
                    if q > 0 {
                        assert(tag_scan_spec(s, i)[q] == rest[q - 1]);
                    }
                }
            },
            None => {
                lemma_tag_scan_shape(s, i + 1);
                assert(tag_scan_spec(s, i) == tag_scan_spec(s, i + 1));
            },
        }
    } else {
        lemma_tag_scan_shape(s, i + 1);
        assert(tag_scan_spec(s, i) == tag_scan_spec(s, i + 1));
    }
}

proof fn lemma_tag_lines_shape(lines: Seq<Seq<char>>)
    requires
        forall|q: int| 0 <= q < lines.len() ==> crate::text::all_ascii(#[trigger] lines[q]),
    ensures
        forall|q: int| 0 <= q < tag_lines_spec(lines).len() ==> tag_shape(#[trigger] tag_lines_spec(lines)[q]),
    decreases lines.len(),
{
    if lines.len() > 0 {
        let init = lines.drop_last();
        assert forall|q: int| 0 <= q < init.len() implies crate::text::all_ascii(#[trigger] init[q]) by {
            assert(init[q] == lines[q]);
        }
        lemma_tag_lines_shape(init);
        assert(crate::text::all_ascii(lines.last())) by {
            assert(lines.last() == lines[lines.len() - 1]);
        }
        lemma_tag_scan_shape(lines.last(), 0);
        let a = tag_lines_spec(init);
        let b = tag_scan_spec(lines.last(), 0);
        assert forall|q: int| 0 <= q < tag_lines_spec(lines).len() implies tag_shape(#[trigger] tag_lines_spec(lines)[q]) by {
            if q < a.len() {
                assert(tag_lines_spec(lines)[q] == a[q]);
            } else {
                assert(tag_lines_spec(lines)[q] == b[q - a.len()]);
            }
        }
    }
}

/// Every tag of an ASCII body is non-empty, lowercase, holds a letter, is
/// made of letters, digits, `-`, `_` and `/`, and does not end in `/` or `-`.
pub proof fn lemma_extract_tag_shape(body: Seq<char>)
    requires
        crate::text::all_ascii(body),
    ensures
        forall|q: int| 0 <= q < extract_spec(body).len() ==> tag_shape(#[trigger] extract_spec(body)[q]),
{
    let p = |c: char| crate::text::is_ascii_char(c);
    crate::wikilinks::lemma_code_free_lines_chars(body, p);
    let ls = code_free_lines_spec(body);
    assert forall|q: int| 0 <= q < ls.len() implies crate::text::all_ascii(#[trigger] ls[q]) by {
        assert(crate::wikilinks::all_chars(ls[q], |c: char| p(c) && c != '\n'));
        assert forall|k: int| 0 <= k < ls[q].len() implies crate::text::is_ascii_char(#[trigger] ls[q][k]) by {
            let f = |c: char| p(c) && c != '\n';
            assert(f(ls[q][k]));
        }
    }
    lemma_tag_lines_shape(ls);
}

/// Extracts every inline `#tag` from a body, lowercased, in document order.
pub fn extract(body: &str) -> (r: Vec<String>)
    ensures
        string_views(r@) == extract_spec(body@),
{
    let cf = code_free_lines(body);
    let ghost cfv = views(cf@);
    let mut out: Vec<String> = Vec::new();
    let mut k: usize = 0;
    assert(cfv.take(0) =~= Seq::<Seq<char>>::empty());
    while k < cf.len()
        invariant
            0 <= k <= cf.len(),
            cfv == views(cf@),
            string_views(out@) == tag_lines_spec(cfv.take(k as int)),
        decreases cf.len() - k,
    {
        scan_line(&cf[k], &mut out);
        assert(cfv.take(k + 1).drop_last() =~= cfv.take(k as int));
        k += 1;
    }
    assert(cfv.take(cf.len() as int) =~= cfv);
    out
}

/// Scans one code-free line for `#tag` tokens.
fn scan_line(line: &Vec<char>, out: &mut Vec<String>)
    ensures
        string_views(final(out)@) == string_views(old(out)@) + tag_scan_spec(line@, 0),
{
    let ghost start = string_views(out@);
    let mut i: usize = 0;
    while i < line.len()
        invariant
            i <= line.len(),
            string_views(out@) + tag_scan_spec(line@, i as int) == start + tag_scan_spec(line@, 0),
        decreases line.len() - i,
    {
        if line[i] == '#' && (i == 0 || is_whitespace(line[i - 1])) {
            proof {
                lemma_run_end(line@, i + 1);
            }
            match take_tag(line, i + 1) {
                Some((tag, next)) => {
                    let ghost before = string_views(out@);
                    let ghost tv = tag@;
                    out.push(tag);
                    assert(string_views(out@) =~= before.push(tv));
                    assert(string_views(out@) + tag_scan_spec(line@, next as int) =~= before + tag_scan_spec(line@, i as int));
                    i = next;
                },
                None => {
                    i += 1;
                },
            }
        } else {
            i += 1;
        }
    }
    assert(tag_scan_spec(line@, i as int) =~= Seq::<Seq<char>>::empty());
    assert(string_views(out@) + tag_scan_spec(line@, i as int) =~= string_views(out@));
}

/// Reads a tag body starting just past the `#`.
fn take_tag(chars: &Vec<char>, start: usize) -> (r: Option<(String, usize)>)
    requires
        start <= chars.len(),
    ensures
        match take_tag_spec(chars@, start as int) {
            Some((t, n)) => r matches Some((tag, next)) && tag@ == t && next == n,
            None => r is None,
        },
{
    proof {
        lemma_run_end(chars@, start as int);
    }
    let mut i = start;
    let mut letter = false;
    while i < chars.len()
        invariant
            start <= i <= chars.len(),
            run_end(chars@, i as int) == run_end(chars@, start as int),
            letter == has_letter(chars@, start as int, i as int),
        ensures
            i == run_end(chars@, start as int),
            letter == has_letter(chars@, start as int, i as int),
        decreases chars.len() - i,
    {
        let c = chars[i];
        if is_alphanumeric(c) {
            let al = is_alphabetic(c);
            assert(has_letter(chars@, start as int, i + 1) == (letter || unicode_alphabetic(chars@[i as int])));
            letter = letter || al;
            i += 1;
        } else if c == '-' || c == '_' || c == '/' {
            assert(!unicode_alphabetic(c));
            assert(has_letter(chars@, start as int, i + 1) == letter);
            i += 1;
        } else {
            assert(!is_tag_char(c));
            break;
        }
    }
    proof {
        lemma_trim_seps(chars@, start as int, i as int);
    }
    if i == start || !letter {
        return None;
    }
    let mut end = i;
    while end > start && (chars[end - 1] == '/' || chars[end - 1] == '-')
        invariant
            start <= end <= i <= chars.len(),
            trim_seps(chars@, start as int, end as int) == trim_seps(chars@, start as int, i as int),
        decreases end - start,
    {
        end -= 1;
    }
    if end == start {
        return None;
    }
    let raw = chars_to_string(&slice_chars(chars, start, end));
    let tag = str_lowercase(raw.as_str());
    Some((tag, i))
}

} // verus!
