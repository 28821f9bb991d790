//! Marker-delimited blocks inside a text: the theory behind re-running a
//! block injection.
//!
//! A block is spliced between an opening and a closing marker; when the
//! markers are absent the block is appended. Splicing the same block a
//! second time leaves the text unchanged, as long as the text's markers
//! were either absent or in order and the block holds its closing marker
//! only at its end.

use vstd::prelude::*;

use crate::text::{contains_spec, first_occ, occurs_at, trim_end_spec};

verus! {

/// The text with `blk` put in place of everything from the first `bg` to
/// the first `en`, or appended after the trimmed text when the markers are
/// missing or out of order.
pub open spec fn splice_spec(c: Seq<char>, blk: Seq<char>, bg: Seq<char>, en: Seq<char>) -> Seq<char> {
    let b = first_occ(c, bg);
    let e = first_occ(c, en);
    if b >= 0 && e >= 0 && e >= b {
        c.take(b) + blk + c.skip(e + en.len())
    } else {
        trim_end_spec(c) + seq!['\n', '\n'] + blk + seq!['\n']
    }
}

/// The markers of a text are usable for a second splice: both occur in
/// order, or neither occurs.
pub open spec fn markers_sound(c: Seq<char>, bg: Seq<char>, en: Seq<char>) -> bool {
    let b = first_occ(c, bg);
    let e = first_occ(c, en);
    (b >= 0 && e >= b) || (b < 0 && e < 0)
}

/// A marker that can stand on a line: non-empty and without a newline.
pub open spec fn one_line(m: Seq<char>) -> bool {
    m.len() > 0 && forall|k: int| 0 <= k < m.len() ==> m[k] != '\n'
}

/// A block fit for splicing: it opens with `bg` and its first `en` is the
/// one that ends it.
pub open spec fn block_fits(blk: Seq<char>, bg: Seq<char>, en: Seq<char>) -> bool {
    &&& blk.len() >= bg.len()
    &&& blk.take(bg.len() as int) == bg
    &&& first_occ(blk, en) == blk.len() - en.len()
}

proof fn lemma_min_occ(s: Seq<char>, p: Seq<char>, i: int)
    requires
        occurs_at(s, p, i),
    ensures
        exists|k: int| occurs_at(s, p, k) && forall|j: int| 0 <= j < k ==> !occurs_at(s, p, j),
    decreases i,
{
    if exists|j: int| 0 <= j < i && occurs_at(s, p, j) {
        let j = choose|j: int| 0 <= j < i && occurs_at(s, p, j);
        lemma_min_occ(s, p, j);
    } else {
        assert(occurs_at(s, p, i) && forall|j: int| 0 <= j < i ==> !occurs_at(s, p, j));
    }
}

/// `first_occ` is the least position at which `p` occurs, and -1 exactly
/// when `p` occurs nowhere.
pub proof fn lemma_first_occ(s: Seq<char>, p: Seq<char>)
    ensures
        first_occ(s, p) >= -1,
        first_occ(s, p) >= 0 ==> occurs_at(s, p, first_occ(s, p)),
        forall|j: int| 0 <= j < first_occ(s, p) ==> !occurs_at(s, p, j),
        first_occ(s, p) < 0 ==> forall|j: int| !occurs_at(s, p, j),
{
    reveal(first_occ);
    if contains_spec(s, p) {
        let i = choose|i: int| occurs_at(s, p, i);
        lemma_min_occ(s, p, i);
    }
}

/// A position where `p` occurs with no earlier occurrence is `first_occ`.
pub proof fn lemma_first_occ_at(s: Seq<char>, p: Seq<char>, i: int)
    requires
        occurs_at(s, p, i),
        forall|j: int| 0 <= j < i ==> !occurs_at(s, p, j),
    ensures
        first_occ(s, p) == i,
{
    lemma_first_occ(s, p);
    let f = first_occ(s, p);
    if f < 0 {
        assert(!occurs_at(s, p, i));
    } else if f < i {
        assert(!occurs_at(s, p, f));
    } else if f > i {
        assert(!occurs_at(s, p, i));
    }
}

/// Trimming trailing whitespace keeps a prefix.
pub proof fn lemma_trim_end_prefix(s: Seq<char>)
    ensures
        trim_end_spec(s).len() <= s.len(),
        trim_end_spec(s) == s.take(trim_end_spec(s).len() as int),
    decreases s.len(),
{
    if s.len() > 0 && crate::text::unicode_whitespace(s.last()) {
        lemma_trim_end_prefix(s.drop_last());
        assert(s.drop_last().take(trim_end_spec(s).len() as int) =~= s.take(trim_end_spec(s).len() as int));
    } else {
        assert(s.take(s.len() as int) =~= s);
    }
}

/// A window of `r` that overlaps a newline of `r` cannot hold a one-line
/// marker.
pub proof fn lemma_window_newline(r: Seq<char>, m: Seq<char>, j: int, k: int)
    requires
        one_line(m),
        j <= k < j + m.len(),
        r[k] == '\n',
    ensures
        !occurs_at(r, m, j),
{
    if occurs_at(r, m, j) {
        assert(r.subrange(j, j + m.len())[k - j] == r[k]);
    }
}

/// Where `r` and `c` agree on their first `n` characters, an occurrence
/// in `r` that ends by `n` is one in `c`.
proof fn lemma_window_prefix(r: Seq<char>, c: Seq<char>, m: Seq<char>, j: int, n: int)
    requires
        0 <= j,
        j + m.len() <= n <= r.len(),
        n <= c.len(),
        r.take(n) == c.take(n),
        occurs_at(r, m, j),
    ensures
        occurs_at(c, m, j),
{
    assert(r.subrange(j, j + m.len()) =~= r.take(n).subrange(j, j + m.len()));
    assert(c.subrange(j, j + m.len()) =~= c.take(n).subrange(j, j + m.len()));
}

/// Where `r` holds `blk` from `o` on, an occurrence in `r` inside that
/// stretch is one in `blk`.
pub proof fn lemma_window_block(r: Seq<char>, blk: Seq<char>, m: Seq<char>, o: int, j: int)
    requires
        0 <= o <= j,
        j + m.len() <= o + blk.len() <= r.len(),
        r.subrange(o, o + blk.len()) == blk,
        occurs_at(r, m, j),
    ensures
        occurs_at(blk, m, j - o),
{
    assert(blk.subrange(j - o, j - o + m.len()) =~= r.subrange(j, j + m.len()));
}

/// Splicing a fitting block a second time changes nothing, when the text's
/// markers were sound.
pub proof fn lemma_splice_twice(c: Seq<char>, blk: Seq<char>, bg: Seq<char>, en: Seq<char>)
    requires
        one_line(bg),
        one_line(en),
        en.len() <= bg.len(),
        block_fits(blk, bg, en),
        markers_sound(c, bg, en),
    ensures
        splice_spec(splice_spec(c, blk, bg, en), blk, bg, en) == splice_spec(c, blk, bg, en),
{
    let b = first_occ(c, bg);
    let e = first_occ(c, en);
    let r = splice_spec(c, blk, bg, en);
    lemma_first_occ(c, bg);
    lemma_first_occ(c, en);
    lemma_first_occ(blk, en);
    let fe: int = blk.len() - en.len();
    assert(blk.subrange(fe, fe + en.len()) == en);
    if b >= 0 && e >= b {
        // The block replaces the old one in place.
        let n = b + bg.len();
        assert(r.subrange(b, b + blk.len()) =~= blk);
        assert(r.take(n) =~= c.take(n)) by {
            assert(c.subrange(b, n) == bg);
            assert(c.take(n) =~= c.take(b) + c.subrange(b, n));
            assert(r.take(n) =~= c.take(b) + blk.take(bg.len() as int));
        }
        assert(occurs_at(r, bg, b)) by {
            assert(r.subrange(b, b + bg.len()) =~= blk.take(bg.len() as int));
        }
        assert forall|j: int| 0 <= j < b implies !occurs_at(r, bg, j) by {
            if occurs_at(r, bg, j) {
                lemma_window_prefix(r, c, bg, j, n);
            }
        }
        lemma_first_occ_at(r, bg, b);
        let q = b + fe;
        assert(occurs_at(r, en, q)) by {
            assert(r.subrange(q, q + en.len()) =~= blk.subrange(fe, fe + en.len()));
        }
        assert forall|j: int| 0 <= j < q implies !occurs_at(r, en, j) by {
            if occurs_at(r, en, j) {
                if j < b {
                    lemma_window_prefix(r, c, en, j, n);
                } else {
                    lemma_window_block(r, blk, en, b, j);
                }
            }
        }
        lemma_first_occ_at(r, en, q);
        assert(splice_spec(r, blk, bg, en) =~= r.take(b) + blk + r.skip(q + en.len()));
        assert(r.take(b) =~= c.take(b));
        assert(r.skip(q + en.len()) =~= c.skip(e + en.len()));
    } else {
        // The block was appended after the trimmed text.
        let t = trim_end_spec(c);
        lemma_trim_end_prefix(c);
        let tl = t.len() as int;
        let p0: int = tl + 2;
        assert(r =~= t + seq!['\n', '\n'] + blk + seq!['\n']);
        assert(r[tl] == '\n');
        assert(r[tl + 1] == '\n');
        assert(r.subrange(p0, p0 + blk.len()) =~= blk);
        assert(r.take(tl) =~= c.take(tl));
        assert(occurs_at(r, bg, p0)) by {
            assert(r.subrange(p0, p0 + bg.len()) =~= blk.take(bg.len() as int));
        }
        assert forall|j: int| 0 <= j < p0 implies !occurs_at(r, bg, j) by {
            if occurs_at(r, bg, j) {
                if j + bg.len() <= tl {
                    lemma_window_prefix(r, c, bg, j, tl);
                } else {
                    let k = if j >= tl { j } else { tl };
                    lemma_window_newline(r, bg, j, k);
                }
            }
        }
        lemma_first_occ_at(r, bg, p0);
        let q = p0 + fe;
        assert(occurs_at(r, en, q)) by {
            assert(r.subrange(q, q + en.len()) =~= blk.subrange(fe, fe + en.len()));
        }
        assert forall|j: int| 0 <= j < q implies !occurs_at(r, en, j) by {
            if occurs_at(r, en, j) {
                if j + en.len() <= tl {
                    lemma_window_prefix(r, c, en, j, tl);
                } else if j < p0 {
                    let k = if j >= tl { j } else { tl };
                    lemma_window_newline(r, en, j, k);
                } else {
                    lemma_window_block(r, blk, en, p0, j);
                }
            }
        }
        lemma_first_occ_at(r, en, q);
        assert(splice_spec(r, blk, bg, en) =~= r.take(p0) + blk + r.skip(q + en.len()));
    }
}

/// None of the first `n` characters of `s` is a newline, checked one
/// position at a time.
pub open spec fn no_newline_upto(s: Seq<char>, n: nat) -> bool
    decreases n,
{
    if n == 0 {
        true
    } else {
        s[n - 1] != '\n' && no_newline_upto(s, (n - 1) as nat)
    }
}

pub proof fn lemma_no_newline(s: Seq<char>, n: nat)
    requires
        no_newline_upto(s, n),
        n <= s.len(),
    ensures
        forall|k: int| 0 <= k < n ==> s[k] != '\n',
    decreases n,
{
    if n > 0 {
        lemma_no_newline(s, (n - 1) as nat);
    }
}

/// A `<` directly followed by `!` starts at `i`.
pub open spec fn opens_comment(s: Seq<char>, i: int) -> bool {
    s[i] == '<' && s[i + 1] == '!'
}

/// No `<` is directly followed by `!` in `s`.
pub open spec fn no_comment_open(s: Seq<char>) -> bool {
    forall|i: int| 0 <= i && i + 1 < s.len() ==> !#[trigger] opens_comment(s, i)
}

/// The same property of the first `n` characters, checked one position at
/// a time.
pub open spec fn no_comment_open_upto(s: Seq<char>, n: nat) -> bool
    decreases n,
{
    if n <= 1 {
        true
    } else {
        !(s[n - 2] == '<' && s[n - 1] == '!') && no_comment_open_upto(s, (n - 1) as nat)
    }
}

pub proof fn lemma_no_comment_open(s: Seq<char>, n: nat)
    requires
        no_comment_open_upto(s, n),
        n <= s.len(),
    ensures
        forall|i: int| 0 <= i && i + 1 < n ==> !#[trigger] opens_comment(s, i),
    decreases n,
{
    if n > 1 {
        lemma_no_comment_open(s, (n - 1) as nat);
    }
}

pub proof fn lemma_no_comment_open_concat(x: Seq<char>, y: Seq<char>)
    requires
        no_comment_open(x),
        no_comment_open(y),
        x.len() == 0 || x.last() != '<',
    ensures
        no_comment_open(x + y),
{
    let s = x + y;
    assert forall|i: int| 0 <= i && i + 1 < s.len() implies !#[trigger] opens_comment(s, i) by {
        if i + 1 < x.len() {
            assert(s[i] == x[i] && s[i + 1] == x[i + 1]);
            assert(!opens_comment(x, i));
        } else if i + 1 == x.len() {
            assert(s[i] == x.last());
        } else {
            assert(s[i] == y[i - x.len()] && s[i + 1] == y[i + 1 - x.len()]);
            assert(!opens_comment(y, i - x.len()));
        }
    }
}

/// An HTML comment marker followed by a block free of comment openings is
/// a fitting block: its closing marker occurs only at its end.
pub proof fn lemma_comment_block_fits(bg: Seq<char>, mid: Seq<char>, en: Seq<char>)
    requires
        bg.len() >= 2,
        en.len() >= 2,
        en.len() <= bg.len(),
        en[0] == '<',
        en[1] == '!',
        bg.take(en.len() as int) != en,
        no_comment_open(bg.drop_first() + mid),
        mid.len() > 0,
        mid.last() != '<',
    ensures
        block_fits(bg + mid + en, bg, en),
{
    let blk = bg + mid + en;
    let x = bg.drop_first() + mid;
    let fe: int = blk.len() - en.len();
    assert(blk.take(bg.len() as int) =~= bg);
    assert(blk.subrange(fe, fe + en.len()) =~= en);
    assert forall|j: int| 0 <= j < fe implies !occurs_at(blk, en, j) by {
        if occurs_at(blk, en, j) {
            let w = blk.subrange(j, j + en.len());
            assert(w[0] == '<' && w[1] == '!');
            assert(blk[j] == '<' && blk[j + 1] == '!');
            if j == 0 {
                assert(blk.take(en.len() as int) =~= bg.take(en.len() as int));
                assert(w =~= blk.take(en.len() as int));
            } else if j + 1 < 1 + x.len() {
                assert(blk[j] == x[j - 1]);
                assert(blk[j + 1] == x[j]);
                assert(opens_comment(x, j - 1));
            } else {
                assert(blk[j + 1] == en[0]);
            }
        }
    }
    lemma_first_occ_at(blk, en, fe);
}

/// No `<` among the first `n` characters of `s`, checked one at a time.
pub open spec fn no_lt_upto(s: Seq<char>, n: nat) -> bool
    decreases n,
{
    if n == 0 {
        true
    } else {
        s[n - 1] != '<' && no_lt_upto(s, (n - 1) as nat)
    }
}

pub proof fn lemma_no_lt(s: Seq<char>, n: nat)
    requires
        no_lt_upto(s, n),
        n <= s.len(),
    ensures
        forall|k: int| 0 <= k < n ==> #[trigger] s[k] != '<',
    decreases n,
{
    if n > 0 {
        lemma_no_lt(s, (n - 1) as nat);
    }
}

/// In a text that opens with `pre`, then `name`, then a line break, no
/// one-line marker beginning with `<` starts before the break's end, when
/// `pre` holds no `<` and `name` holds no such marker.
pub proof fn lemma_no_marker_in_head(r: Seq<char>, pre: Seq<char>, name: Seq<char>, m: Seq<char>)
    requires
        one_line(m),
        m[0] == '<',
        forall|k: int| 0 <= k < pre.len() ==> #[trigger] pre[k] != '<',
        !contains_spec(name, m),
        pre.len() + name.len() + 1 <= r.len(),
        r.take((pre.len() + name.len() + 1) as int) == pre + name + seq!['\n'],
    ensures
        forall|j: int| 0 <= j <= pre.len() + name.len() ==> !#[trigger] occurs_at(r, m, j),
{
    let h = pre + name + seq!['\n'];
    let a = pre.len() as int;
    let b = a + name.len();
    assert forall|k: int| 0 <= k < h.len() implies #[trigger] r[k] == h[k] by {
        assert(r.take(h.len() as int)[k] == r[k]);
    }
    assert(r.subrange(a, b) =~= name) by {
        assert forall|k: int| 0 <= k < b - a implies r.subrange(a, b)[k] == name[k] by {
            assert(r[a + k] == h[a + k]);
        }
    }
    assert forall|j: int| 0 <= j <= b implies !#[trigger] occurs_at(r, m, j) by {
        if occurs_at(r, m, j) {
            assert(r.subrange(j, j + m.len())[0] == r[j]);
            if j < a {
                assert(r[j] == pre[j]);
            } else if j + m.len() <= b {
                lemma_window_block(r, name, m, a, j);
                assert(contains_spec(name, m));
            } else {
                assert(r[b] == h[b]);
                lemma_window_newline(r, m, j, b);
            }
        }
    }
}

} // verus!
