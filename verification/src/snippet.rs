//! The text shown with a search hit: the highlighted fragment with its
//! whitespace collapsed, or the opening words of the section when the
//! fragment is empty.

use vstd::prelude::*;
use crate::text::{chars_to_string, is_whitespace, str_to_chars, trim_chars, trim_spec, unicode_whitespace, views};

verus! {

/// Most words of a section's body shown when no fragment matched.
pub const FALLBACK_WORDS: usize = 24;

/// The whitespace-separated words of `s`, in order (as `split_whitespace`
/// yields them).
pub open spec fn words_spec(s: Seq<char>) -> Seq<Seq<char>>
    decreases s.len(),
{
    if s.len() == 0 {
        seq![]
    } else {
        let w = words_spec(s.drop_last());
        let c = s.last();
        if unicode_whitespace(c) {
            w
        } else if s.len() >= 2 && !unicode_whitespace(s[s.len() - 2]) {
            w.update(w.len() - 1, w.last().push(c))
        } else {
            w.push(seq![c])
        }
    }
}

/// Words joined with one space between each two.
pub open spec fn join_spaced(ws: Seq<Seq<char>>) -> Seq<char>
    decreases ws.len(),
{
    if ws.len() == 0 {
        seq![]
    } else if ws.len() == 1 {
        ws[0]
    } else {
        join_spaced(ws.drop_last()) + seq![' '] + ws.last()
    }
}

/// At most the first `n` of `ws`.
pub open spec fn first_words(ws: Seq<Seq<char>>, n: nat) -> Seq<Seq<char>> {
    if ws.len() <= n { ws } else { ws.take(n as int) }
}

/// A hit's snippet: the trimmed fragment with each run of whitespace
/// collapsed to one space; when the fragment is blank, the first
/// `FALLBACK_WORDS` words of the body, joined the same way.
pub open spec fn snippet_spec(fragment: Seq<char>, body: Seq<char>) -> Seq<char> {
    let f = trim_spec(fragment);
    if f.len() == 0 {
        join_spaced(first_words(words_spec(body), FALLBACK_WORDS as nat))
    } else {
        join_spaced(words_spec(f))
    }
}

/// The words of `cs`.
fn words(cs: &Vec<char>) -> (r: Vec<Vec<char>>)
    ensures
        views(r@) == words_spec(cs@),
{
    let mut out: Vec<Vec<char>> = Vec::new();
    let mut prev_ws = true;
    let mut i: usize = 0;
    assert(cs@.take(0) =~= Seq::<char>::empty());
    while i < cs.len()
        invariant
            0 <= i <= cs.len(),
            views(out@) == words_spec(cs@.take(i as int)),
            prev_ws == (i == 0 || unicode_whitespace(cs@[i - 1])),
            !prev_ws ==> out@.len() > 0,
        decreases cs.len() - i,
    {
        let c = cs[i];
        let w = is_whitespace(c);
        let ghost before = views(out@);
        let ghost t = cs@.take(i + 1);
        assert(t.drop_last() =~= cs@.take(i as int));
        assert(t.last() == c);
        if i > 0 {
            assert(t[t.len() - 2] == cs@[i - 1]);
        }
        if !w {
            if prev_ws {
                let mut v: Vec<char> = Vec::new();
                v.push(c);
                out.push(v);
                assert(views(out@) =~= before.push(seq![c]));
            } else {
                let mut last = out.pop().unwrap();
                last.push(c);
                out.push(last);
                assert(views(out@) =~= before.update(before.len() - 1, before.last().push(c)));
            }
        } else {
            assert(views(out@) == before);
        }
        prev_ws = w;
        i += 1;
    }
    assert(cs@.take(cs.len() as int) =~= cs@);
    out
}

/// The first `n` of `ws`, joined with single spaces.
fn join_first(ws: &Vec<Vec<char>>, n: usize) -> (r: Vec<char>)
    requires
        n <= ws.len(),
    ensures
        r@ == join_spaced(views(ws@).take(n as int)),
{
    let ghost vw = views(ws@);
    let mut out: Vec<char> = Vec::new();
    let mut j: usize = 0;
    assert(vw.take(0) =~= Seq::<Seq<char>>::empty());
    while j < n
        invariant
            0 <= j <= n <= ws.len(),
            vw == views(ws@),
            out@ == join_spaced(vw.take(j as int)),
        decreases n - j,
    {
        let ghost before = out@;
        let ghost t = vw.take(j + 1);
        assert(t.drop_last() =~= vw.take(j as int));
        assert(t.last() == ws@[j as int]@);
        if j > 0 {
            out.push(' ');
        }
        let w = &ws[j];
        let mut k: usize = 0;
        let ghost base = out@;
        while k < w.len()
            invariant
                0 <= k <= w.len(),
                out@ == base + w@.take(k as int),
            decreases w.len() - k,
        {
            out.push(w[k]);
            assert(w@.take(k + 1) =~= w@.take(k as int).push(w@[k as int]));
            k += 1;
            assert(out@ =~= base + w@.take(k as int));
        }
        assert(w@.take(w.len() as int) =~= w@);
        if j == 0 {
            assert(t.len() == 1);
            assert(out@ =~= t[0]);
        } else {
            assert(out@ =~= before + seq![' '] + t.last());
        }
        j += 1;
    }
    out
}

/// The snippet of a search hit from the highlighter's `fragment` and the
/// section's `body` (see `snippet_spec`).
pub fn hit_snippet(fragment: &str, body: &str) -> (r: String)
    ensures
        r@ == snippet_spec(fragment@, body@),
{
    let f = trim_chars(&str_to_chars(fragment));
    if f.len() == 0 {
        let ws = words(&str_to_chars(body));
        let n = if ws.len() <= FALLBACK_WORDS { ws.len() } else { FALLBACK_WORDS };
        let out = join_first(&ws, n);
        proof {
            if ws.len() <= FALLBACK_WORDS {
                assert(views(ws@).take(n as int) =~= views(ws@));
            }
        }
        chars_to_string(&out)
    } else {
        let ws = words(&f);
        let out = join_first(&ws, ws.len());
        assert(views(ws@).take(ws.len() as int) =~= views(ws@));
        chars_to_string(&out)
    }
}

} // verus!
