//! Ordering of adjacency lists and dead links: sorted insertion that keeps
//! every element (counted with multiplicity) and, for dead links, keeps
//! entries with the same target in the order they were found.

use vstd::prelude::*;
use crate::graph::DeadClass;
use crate::edges::{dead_views, edge_views};
use crate::text::{chars_less, chars_lt, lemma_chars_lt_asym, lemma_chars_lt_total, lemma_chars_lt_trans};

verus! {

// ---------------------------------------------------------------------------
// Edges: (node, kind), ordered by node then kind.

/// `a` sorts no later than `b`.
pub open spec fn edge_le(a: (int, Seq<char>), b: (int, Seq<char>)) -> bool {
    a.0 < b.0 || (a.0 == b.0 && !chars_lt(b.1, a.1))
}

pub open spec fn edges_sorted(s: Seq<(int, Seq<char>)>) -> bool {
    forall|i: int, j: int| 0 <= i < j < s.len() ==> edge_le(#[trigger] s[i], #[trigger] s[j])
}

/// How many times `e` occurs in `s`.
pub open spec fn count_edge(s: Seq<(int, Seq<char>)>, e: (int, Seq<char>)) -> nat
    decreases s.len(),
{
    if s.len() == 0 {
        0
    } else {
        count_edge(s.drop_last(), e) + if s.last() == e { 1nat } else { 0nat }
    }
}

pub proof fn lemma_count_insert(s: Seq<(int, Seq<char>)>, p: int, x: (int, Seq<char>), e: (int, Seq<char>))
    requires
        0 <= p <= s.len(),
    ensures
        count_edge(s.insert(p, x), e) == count_edge(s, e) + if x == e { 1nat } else { 0nat },
    decreases s.len(),
{
    if p == s.len() {
        assert(s.insert(p, x) =~= s.push(x));
        assert(s.push(x).drop_last() =~= s);
    } else {
        let t = s.drop_last();
        lemma_count_insert(t, p, x, e);
        assert(s.insert(p, x).drop_last() =~= t.insert(p, x));
        assert(s.insert(p, x).last() == s.last());
    }
}

pub proof fn lemma_count_concat(a: Seq<(int, Seq<char>)>, b: Seq<(int, Seq<char>)>, e: (int, Seq<char>))
    ensures
        count_edge(a + b, e) == count_edge(a, e) + count_edge(b, e),
    decreases b.len(),
{
    if b.len() == 0 {
        assert(a + b =~= a);
    } else {
        lemma_count_concat(a, b.drop_last(), e);
        assert((a + b).drop_last() =~= a + b.drop_last());
        assert((a + b).last() == b.last());
    }
}

pub proof fn lemma_count_member(s: Seq<(int, Seq<char>)>, m: int)
    requires
        0 <= m < s.len(),
    ensures
        count_edge(s, s[m]) > 0,
    decreases s.len(),
{
    if m < s.len() - 1 {
        lemma_count_member(s.drop_last(), m);
        assert(s.drop_last()[m] == s[m]);
    }
}

pub proof fn lemma_count_zero_outside(s: Seq<(int, Seq<char>)>, n: int, e: (int, Seq<char>))
    requires
        forall|m: int| 0 <= m < s.len() ==> 0 <= (#[trigger] s[m]).0 < n,
        !(0 <= e.0 < n),
    ensures
        count_edge(s, e) == 0,
    decreases s.len(),
{
    if s.len() > 0 {
        assert forall|m: int| 0 <= m < s.drop_last().len() implies 0 <= (#[trigger] s.drop_last()[m]).0 < n by {
            assert(s.drop_last()[m] == s[m]);
        }
        lemma_count_zero_outside(s.drop_last(), n, e);
        assert(s.last() == s[s.len() - 1]);
    }
}

proof fn lemma_edge_le_trans(a: (int, Seq<char>), b: (int, Seq<char>), c: (int, Seq<char>))
    requires
        edge_le(a, b),
        edge_le(b, c),
    ensures
        edge_le(a, c),
{
    if a.0 == b.0 && b.0 == c.0 {
        if chars_lt(c.1, a.1) {
            lemma_chars_lt_total(b.1, a.1);
            lemma_chars_lt_total(c.1, b.1);
            if a.1 == b.1 {
            } else if b.1 == c.1 {
            } else {
                lemma_chars_lt_trans(a.1, b.1, c.1);
                lemma_chars_lt_asym(a.1, c.1);
            }
        }
    }
}

proof fn lemma_edge_total(a: (int, Seq<char>), b: (int, Seq<char>))
    ensures
        edge_le(a, b) || edge_le(b, a),
{
    lemma_chars_lt_total(a.1, b.1);
    if chars_lt(a.1, b.1) {
        lemma_chars_lt_asym(a.1, b.1);
    }
}

fn edge_less(a: &(usize, String), b: &(usize, String)) -> (r: bool)
    ensures
        r == !edge_le((b.0 as int, b.1@), (a.0 as int, a.1@)),
{
    if a.0 != b.0 {
        a.0 < b.0
    } else {
        let av = crate::text::str_to_chars(a.1.as_str());
        let bv = crate::text::str_to_chars(b.1.as_str());
        chars_less(&av, &bv)
    }
}

/// Sorts edges by (node, kind), keeping each edge as many times as it occurs.
pub fn sort_edges(v: &Vec<(usize, String)>) -> (r: Vec<(usize, String)>)
    ensures
        edges_sorted(edge_views(r@)),
        forall|e: (int, Seq<char>)| #[trigger] count_edge(edge_views(r@), e) == count_edge(edge_views(v@), e),
{
    let ghost vv = edge_views(v@);
    let mut out: Vec<(usize, String)> = Vec::new();
    let mut i: usize = 0;
    let n = v.len();
    assert(vv.take(0) =~= Seq::<(int, Seq<char>)>::empty());
    while i < n
        invariant
            n == v.len(),
            vv == edge_views(v@),
            0 <= i <= n,
            edges_sorted(edge_views(out@)),
            forall|e: (int, Seq<char>)| #[trigger] count_edge(edge_views(out@), e) == count_edge(vv.take(i as int), e),
        decreases n - i,
    {
        let x = (v[i].0, v[i].1.clone());
        let ghost xv = (x.0 as int, x.1@);
        assert(xv == vv[i as int]);
        let ghost ov = edge_views(out@);
        // First position whose element sorts strictly after `x`.
        let mut p: usize = 0;
        while p < out.len() && !edge_less(&x, &out[p])
            invariant
                0 <= p <= out.len(),
                ov == edge_views(out@),
                xv == (x.0 as int, x.1@),
                forall|k: int| 0 <= k < p ==> edge_le(#[trigger] ov[k], xv),
            decreases out.len() - p,
        {
            p += 1;
        }
        proof {
            if p < out.len() {
                assert forall|k: int| p <= k < ov.len() implies !edge_le(#[trigger] ov[k], xv) by {
                    if k > p && edge_le(ov[k], xv) {
                        lemma_edge_le_trans(ov[p as int], ov[k], xv);
                    }
                }
            }
        }
        out.insert(p, x);
        proof {
            let nv = edge_views(out@);
            assert(nv =~= ov.insert(p as int, xv));
            assert forall|a: int, b: int| 0 <= a < b < nv.len() implies edge_le(#[trigger] nv[a], #[trigger] nv[b]) by {
                if a < p && b == p {
                } else if a == p && b > p {
                    lemma_edge_total(ov[b - 1], xv);
                } else if a < p && b > p {
                    lemma_edge_total(ov[b - 1], xv);
                    lemma_edge_le_trans(ov[a], xv, ov[b - 1]);
                } else if b < p {
                } else {
                    assert(nv[a] == ov[a - 1] && nv[b] == ov[b - 1]);
                }
            }
            assert forall|e: (int, Seq<char>)| #[trigger] count_edge(nv, e) == count_edge(vv.take(i + 1), e) by {
                lemma_count_insert(ov, p as int, xv, e);
                assert(vv.take(i + 1).drop_last() =~= vv.take(i as int));
            }
        }
        i += 1;
    }
    assert(vv.take(n as int) =~= vv);
    out
}

// ---------------------------------------------------------------------------
// Dead links of one source: ordered by target as written, stable.

pub open spec fn raws_sorted(s: Seq<(Seq<char>, Seq<char>, DeadClass)>) -> bool {
    forall|i: int, j: int| 0 <= i < j < s.len() ==> !chars_lt((#[trigger] s[j]).0, (#[trigger] s[i]).0)
}

/// The entries of `s` whose target is `r`, in order.
pub open spec fn with_raw(s: Seq<(Seq<char>, Seq<char>, DeadClass)>, r: Seq<char>) -> Seq<(Seq<char>, Seq<char>, DeadClass)>
    decreases s.len(),
{
    if s.len() == 0 {
        seq![]
    } else if s.last().0 == r {
        with_raw(s.drop_last(), r).push(s.last())
    } else {
        with_raw(s.drop_last(), r)
    }
}

proof fn lemma_with_raw_insert(s: Seq<(Seq<char>, Seq<char>, DeadClass)>, p: int, x: (Seq<char>, Seq<char>, DeadClass), r: Seq<char>)
    requires
        0 <= p <= s.len(),
        forall|k: int| p <= k < s.len() ==> (#[trigger] s[k]).0 != x.0,
    ensures
        with_raw(s.insert(p, x), r) == if x.0 == r { with_raw(s, r).push(x) } else { with_raw(s, r) },
    decreases s.len(),
{
    if p == s.len() {
        assert(s.insert(p, x) =~= s.push(x));
        assert(s.push(x).drop_last() =~= s);
    } else {
        let t = s.drop_last();
        assert forall|k: int| p <= k < t.len() implies (#[trigger] t[k]).0 != x.0 by {
            assert(t[k] == s[k]);
        }
        lemma_with_raw_insert(t, p, x, r);
        assert(s.insert(p, x).drop_last() =~= t.insert(p, x));
        assert(s.insert(p, x).last() == s.last());
        assert(s.last() == s[s.len() - 1]);
    }
}

fn raw_less(a: &String, b: &String) -> (r: bool)
    ensures
        r == chars_lt(a@, b@),
{
    let av = crate::text::str_to_chars(a.as_str());
    let bv = crate::text::str_to_chars(b.as_str());
    chars_less(&av, &bv)
}

/// Sorts one source's dead links by target, stably.
pub fn sort_dead(v: &Vec<(String, String, DeadClass)>) -> (r: Vec<(String, String, DeadClass)>)
    ensures
        raws_sorted(dead_views(r@)),
        forall|t: Seq<char>| #[trigger] with_raw(dead_views(r@), t) == with_raw(dead_views(v@), t),
{
    let ghost vv = dead_views(v@);
    let mut out: Vec<(String, String, DeadClass)> = Vec::new();
    let mut i: usize = 0;
    let n = v.len();
    assert(vv.take(0) =~= Seq::<(Seq<char>, Seq<char>, DeadClass)>::empty());
    while i < n
        invariant
            n == v.len(),
            vv == dead_views(v@),
            0 <= i <= n,
            raws_sorted(dead_views(out@)),
            forall|t: Seq<char>| #[trigger] with_raw(dead_views(out@), t) == with_raw(vv.take(i as int), t),
        decreases n - i,
    {
        let x = (v[i].0.clone(), v[i].1.clone(), v[i].2);
        let ghost xv = (x.0@, x.1@, x.2);
        assert(xv == vv[i as int]);
        let ghost ov = dead_views(out@);
        let mut p: usize = 0;
        while p < out.len() && !raw_less(&x.0, &out[p].0)
            invariant
                0 <= p <= out.len(),
                ov == dead_views(out@),
                xv == (x.0@, x.1@, x.2),
                forall|k: int| 0 <= k < p ==> !chars_lt(xv.0, (#[trigger] ov[k]).0),
            decreases out.len() - p,
        {
            p += 1;
        }
        proof {
            assert forall|k: int| p <= k < ov.len() implies chars_lt(xv.0, (#[trigger] ov[k]).0) by {
                if k > p {
                    if !chars_lt(ov[k].0, ov[p as int].0) {
                        lemma_chars_lt_total(ov[k].0, ov[p as int].0);
                        if ov[k].0 != ov[p as int].0 {
                            lemma_chars_lt_trans(xv.0, ov[p as int].0, ov[k].0);
                        }
                    } else {
                        assert(false);
                    }
                }
            }
            assert forall|k: int| p <= k < ov.len() implies (#[trigger] ov[k]).0 != xv.0 by {
                crate::text::lemma_chars_lt_irrefl(xv.0);
            }
        }
        out.insert(p, x);
        proof {
            let nv = dead_views(out@);
            assert(nv =~= ov.insert(p as int, xv));
            assert forall|a: int, b: int| 0 <= a < b < nv.len() implies !chars_lt((#[trigger] nv[b]).0, (#[trigger] nv[a]).0) by {
                if a < p && b == p {
                } else if a == p && b > p {
                    lemma_chars_lt_asym(xv.0, ov[b - 1].0);
                } else if a < p && b > p {
                    lemma_chars_lt_asym(xv.0, ov[b - 1].0);
                    if chars_lt(ov[b - 1].0, ov[a].0) {
                        lemma_chars_lt_total(ov[a].0, xv.0);
                        if ov[a].0 == xv.0 {
                        } else {
                            lemma_chars_lt_trans(ov[a].0, xv.0, ov[b - 1].0);
                            lemma_chars_lt_asym(ov[a].0, ov[b - 1].0);
                        }
                    }
                } else if b < p {
                } else {
                    assert(nv[a] == ov[a - 1] && nv[b] == ov[b - 1]);
                }
            }
            assert forall|t: Seq<char>| #[trigger] with_raw(nv, t) == with_raw(vv.take(i + 1), t) by {
                lemma_with_raw_insert(ov, p as int, xv, t);
                assert(vv.take(i + 1).drop_last() =~= vv.take(i as int));
                assert(vv.take(i + 1).last() == xv);
            }
        }
        i += 1;
    }
    assert(vv.take(n as int) =~= vv);
    out
}

} // verus!
