//! `okq stats`: a one-pass overview of the visible concepts: counts,
//! distributions, graph metrics and health counts.

use vstd::prelude::*;
use crate::cli::StatsArgs;
use crate::concept::{ConceptId, id_lt, join_slash};
use crate::graph::{Graph, min_usize};
use crate::model::Concept;
use crate::text::{chars_lt, lemma_chars_lt_asym, lemma_chars_lt_total, lemma_chars_lt_trans, owned, str_eq, str_less, string_views};
use crate::trust::opt_view;
use crate::view::Corpus;
use crate::fmt::{decimal_string, digits, push_str};

verus! {

/// How often `k` occurs in `items`.
pub open spec fn count_of(items: Seq<Seq<char>>, k: Seq<char>) -> nat
    decreases items.len(),
{
    if items.len() == 0 {
        0
    } else {
        count_of(items.drop_last(), k) + if items.last() == k { 1nat } else { 0nat }
    }
}

pub open spec fn keys_sorted(out: Seq<(String, usize)>) -> bool {
    forall|i: int, j: int| 0 <= i < j < out.len() ==> chars_lt((#[trigger] out[i]).0@, (#[trigger] out[j]).0@)
}

/// `out` tallies `items`: each distinct item once, in key order, with its
/// count (saturating).
pub open spec fn tally_ok(items: Seq<Seq<char>>, out: Seq<(String, usize)>) -> bool {
    &&& keys_sorted(out)
    &&& forall|m: int| 0 <= m < out.len() ==> count_of(items, (#[trigger] out[m]).0@) > 0
        && out[m].1 == min_usize(count_of(items, out[m].0@))
    &&& forall|k: Seq<char>| #[trigger] count_of(items, k) > 0 ==> exists|m: int| 0 <= m < out.len() && out[m].0@ == k
}

/// Counts each distinct string, keyed in order.
pub fn tally(items: &Vec<String>) -> (r: Vec<(String, usize)>)
    ensures
        tally_ok(string_views(items@), r@),
{
    let ghost iv = string_views(items@);
    let mut out: Vec<(String, usize)> = Vec::new();
    let mut i: usize = 0;
    while i < items.len()
        invariant
            iv == string_views(items@),
            0 <= i <= items.len(),
            tally_ok(iv.take(i as int), out@),
        decreases items.len() - i,
    {
        let x = &items[i];
        let ghost pre = iv.take(i as int);
        let ghost post = iv.take(i + 1);
        assert(post.drop_last() =~= pre);
        assert(post.last() == x@);
        // The first key not below `x`.
        let mut p: usize = 0;
        while p < out.len() && str_less(out[p].0.as_str(), x.as_str())
            invariant
                0 <= p <= out.len(),
                forall|q: int| 0 <= q < p ==> chars_lt((#[trigger] out@[q]).0@, x@),
            decreases out.len() - p,
        {
            p += 1;
        }
        let ghost old_out = out@;
        if p < out.len() && str_eq(out[p].0.as_str(), x.as_str()) {
            let c = out[p].1;
            let k = owned(out[p].0.as_str());
            let n = if c == usize::MAX { c } else { c + 1 };
            out.set(p, (k, n));
            proof {
                assert forall|m: int| 0 <= m < out@.len() implies count_of(post, (#[trigger] out@[m]).0@) > 0
                    && out@[m].1 == min_usize(count_of(post, out@[m].0@)) by {
                    assert(out@[m].0@ == old_out[m].0@);
                }
                assert forall|kk: Seq<char>| #[trigger] count_of(post, kk) > 0 implies exists|m: int| 0 <= m < out@.len() && out@[m].0@ == kk by {
                    if kk != x@ {
                        assert(count_of(pre, kk) > 0);
                        let m = choose|m: int| 0 <= m < old_out.len() && old_out[m].0@ == kk;
                        assert(out@[m].0@ == kk);
                    } else {
                        assert(out@[p as int].0@ == kk);
                    }
                }
                assert(keys_sorted(out@)) by {
                    assert forall|a: int, b: int| 0 <= a < b < out@.len() implies chars_lt((#[trigger] out@[a]).0@, (#[trigger] out@[b]).0@) by {
                        assert(out@[a].0@ == old_out[a].0@);
                        assert(out@[b].0@ == old_out[b].0@);
                    }
                }
            }
        } else {
            proof {
                if p < out@.len() {
                    lemma_chars_lt_total(out@[p as int].0@, x@);
                }
                assert(count_of(pre, x@) == 0) by {
                    if count_of(pre, x@) > 0 {
                        let m = choose|m: int| 0 <= m < old_out.len() && old_out[m].0@ == x@;
                        if m < p {
                            lemma_chars_lt_asym(old_out[m].0@, x@);
                        } else if m > p {
                            lemma_chars_lt_trans(x@, old_out[p as int].0@, old_out[m].0@);
                            lemma_chars_lt_asym(x@, old_out[m].0@);
                        }
                    }
                }
            }
            out.insert(p, (owned(x.as_str()), 1));
            proof {
                assert forall|m: int| 0 <= m < out@.len() implies count_of(post, (#[trigger] out@[m]).0@) > 0
                    && out@[m].1 == min_usize(count_of(post, out@[m].0@)) by {
                    if m < p {
                        assert(out@[m] == old_out[m]);
                        lemma_chars_lt_asym(old_out[m].0@, x@);
                    } else if m > p {
                        assert(out@[m] == old_out[m - 1]);
                        if m - 1 > p {
                            lemma_chars_lt_trans(x@, old_out[p as int].0@, old_out[m - 1].0@);
                        }
                        lemma_chars_lt_asym(x@, old_out[m - 1].0@);
                    }
                }
                assert forall|kk: Seq<char>| #[trigger] count_of(post, kk) > 0 implies exists|m: int| 0 <= m < out@.len() && out@[m].0@ == kk by {
                    if kk != x@ {
                        assert(count_of(pre, kk) > 0);
                        let m = choose|m: int| 0 <= m < old_out.len() && old_out[m].0@ == kk;
                        if m < p {
                            assert(out@[m].0@ == kk);
                        } else {
                            assert(out@[m + 1].0@ == kk);
                        }
                    } else {
                        assert(out@[p as int].0@ == kk);
                    }
                }
                assert(keys_sorted(out@)) by {
                    assert forall|a: int, b: int| 0 <= a < b < out@.len() implies chars_lt((#[trigger] out@[a]).0@, (#[trigger] out@[b]).0@) by {
                        if b < p {
                            assert(out@[a] == old_out[a] && out@[b] == old_out[b]);
                        } else if b == p {
                            assert(out@[a] == old_out[a]);
                        } else if a < p {
                            assert(out@[a] == old_out[a] && out@[b] == old_out[b - 1]);
                            if b - 1 > p {
                                lemma_chars_lt_trans(x@, old_out[p as int].0@, old_out[b - 1].0@);
                            }
                            lemma_chars_lt_trans(old_out[a].0@, x@, old_out[b - 1].0@);
                        } else if a == p {
                            assert(out@[b] == old_out[b - 1]);
                            if b - 1 > p {
                                lemma_chars_lt_trans(x@, old_out[p as int].0@, old_out[b - 1].0@);
                            }
                        } else {
                            assert(out@[a] == old_out[a - 1] && out@[b] == old_out[b - 1]);
                        }
                    }
                }
            }
        }
        i += 1;
    }
    assert(iv.take(items.len() as int) =~= iv);
    out
}

/// A hub concept: identity, location and its degrees.
pub struct Hub {
    /// The concept id.
    pub id: String,
    /// The frontmatter title, if present.
    pub title: Option<String>,
    /// Path relative to the bundle root.
    pub path: String,
    /// Number of inbound edges.
    pub in_degree: usize,
    /// Number of outbound edges.
    pub out_degree: usize,
}

/// The `okq.stats/v1` envelope, but for the link density (a ratio the shell
/// computes from `edges` and `concepts`).
pub struct StatsOutput {
    /// `okq.stats/v1`.
    pub schema: String,
    /// Number of visible concepts.
    pub concepts: usize,
    /// Total resolved edges.
    pub edges: usize,
    /// Concepts with no inbound edges.
    pub orphans: usize,
    /// Broken links: concrete references to missing concepts.
    pub dead_links: usize,
    /// Phantom links: bare `[[names]]` of notes not yet written.
    pub phantoms: usize,
    /// Files okf could not parse.
    pub parse_errors: usize,
    /// Count of concepts by frontmatter `type` (untyped under `(untyped)`).
    pub types: Vec<(String, usize)>,
    /// Count of concepts by frontmatter tag.
    pub tags: Vec<(String, usize)>,
    /// Count of edges by kind.
    pub edge_types: Vec<(String, usize)>,
    /// The most linked-to concepts, capped by `--top`.
    pub hubs: Vec<Hub>,
}

/// A node's in-degree in `g` (0 for an id that is not a node).
pub open spec fn in_deg(g: Graph, id: Seq<Seq<char>>) -> int {
    if g.node_of(id) >= 0 { g.in_view(g.node_of(id)).len() as int } else { 0 }
}

pub open spec fn out_deg(g: Graph, id: Seq<Seq<char>>) -> int {
    if g.node_of(id) >= 0 { g.out_view(g.node_of(id)).len() as int } else { 0 }
}

/// Concept `j` is a hub candidate: visible and linked to.
pub open spec fn candidate(c: Corpus, g: Graph, j: int) -> bool {
    c.visible(j) && in_deg(g, c.bundle_view()[j].id@) > 0
}

/// Hub order: in-degree descending, then id text, then bundle position.
pub open spec fn ranks_before(c: Corpus, g: Graph, i: int, j: int) -> bool {
    let di = in_deg(g, c.bundle_view()[i].id@);
    let dj = in_deg(g, c.bundle_view()[j].id@);
    let ti = join_slash(c.bundle_view()[i].id@);
    let tj = join_slash(c.bundle_view()[j].id@);
    di > dj || (di == dj && (chars_lt(ti, tj) || (ti == tj && i < j)))
}

pub open spec fn candidate_count(c: Corpus, g: Graph, n: int) -> nat
    decreases n,
{
    if n <= 0 {
        0
    } else {
        candidate_count(c, g, n - 1) + if candidate(c, g, n - 1) { 1nat } else { 0nat }
    }
}

/// `h` is the hub entry of concept `k`.
pub open spec fn hub_of(c: Corpus, g: Graph, k: int, h: Hub) -> bool {
    let x = c.bundle_view()[k];
    &&& h.id@ == join_slash(x.id@)
    &&& opt_view(h.title) == opt_view(x.title)
    &&& h.path@ == x.path@
    &&& h.in_degree == in_deg(g, x.id@)
    &&& h.out_degree == out_deg(g, x.id@)
}

/// `hs` are the `top` first candidates in hub order (all of them when there
/// are fewer), drawn from the bundle positions `src`.
pub open spec fn hubs_from(c: Corpus, g: Graph, top: usize, src: Seq<int>, hs: Seq<Hub>) -> bool {
    &&& hs.len() == src.len()
    &&& src.len() == (if top < candidate_count(c, g, c.bundle_view().len() as int) { top as nat } else { candidate_count(c, g, c.bundle_view().len() as int) })
    &&& forall|i: int| 0 <= i < src.len() ==> candidate(c, g, #[trigger] src[i]) && hub_of(c, g, src[i], hs[i])
    &&& forall|i: int, j: int| 0 <= i < j < src.len() ==> ranks_before(c, g, #[trigger] src[i], #[trigger] src[j])
    &&& forall|k: int| #[trigger] candidate(c, g, k) && !src.contains(k) ==> forall|i: int| 0 <= i < src.len() ==> ranks_before(c, g, #[trigger] src[i], k)
}

proof fn lemma_ranks_trans(c: Corpus, g: Graph, a: int, b: int, d: int)
    requires
        ranks_before(c, g, a, b),
        ranks_before(c, g, b, d),
    ensures
        ranks_before(c, g, a, d),
{
    let ta = join_slash(c.bundle_view()[a].id@);
    let tb = join_slash(c.bundle_view()[b].id@);
    let td = join_slash(c.bundle_view()[d].id@);
    if chars_lt(ta, tb) && chars_lt(tb, td) {
        lemma_chars_lt_trans(ta, tb, td);
    }
}

proof fn lemma_ranks_total(c: Corpus, g: Graph, a: int, b: int)
    requires
        a != b,
    ensures
        ranks_before(c, g, a, b) || ranks_before(c, g, b, a),
        !(ranks_before(c, g, a, b) && ranks_before(c, g, b, a)),
{
    let ta = join_slash(c.bundle_view()[a].id@);
    let tb = join_slash(c.bundle_view()[b].id@);
    lemma_chars_lt_total(ta, tb);
    if chars_lt(ta, tb) {
        lemma_chars_lt_asym(ta, tb);
    }
    if chars_lt(tb, ta) {
        lemma_chars_lt_asym(tb, ta);
    }
}

/// Hubs are listed most linked-to first: each listed hub is linked to, has
/// at least the in-degree of the one after it and of every candidate
/// `--top` left out, and at most `top` are listed.
pub proof fn lemma_hubs_by_in_degree(c: Corpus, g: Graph, top: usize, src: Seq<int>, hs: Seq<Hub>)
    requires
        hubs_from(c, g, top, src, hs),
    ensures
        hs.len() <= top,
        forall|i: int| 0 <= i < hs.len() ==> #[trigger] hs[i].in_degree > 0,
        forall|i: int| 0 <= i < hs.len() - 1 ==> #[trigger] hs[i].in_degree >= hs[i + 1].in_degree,
        forall|k: int, i: int| #[trigger] candidate(c, g, k) && !src.contains(k) && 0 <= i < hs.len()
            ==> #[trigger] hs[i].in_degree >= in_deg(g, c.bundle_view()[k].id@),
{
    assert forall|i: int| 0 <= i < hs.len() implies #[trigger] hs[i].in_degree > 0 by {
        assert(candidate(c, g, src[i]) && hub_of(c, g, src[i], hs[i]));
    }
    assert forall|i: int| 0 <= i < hs.len() - 1 implies #[trigger] hs[i].in_degree >= hs[i + 1].in_degree by {
        assert(ranks_before(c, g, src[i], src[i + 1]));
        assert(hub_of(c, g, src[i], hs[i]) && hub_of(c, g, src[i + 1], hs[i + 1]));
    }
    assert forall|k: int, i: int| #[trigger] candidate(c, g, k) && !src.contains(k) && 0 <= i < hs.len()
        implies #[trigger] hs[i].in_degree >= in_deg(g, c.bundle_view()[k].id@) by {
        assert(ranks_before(c, g, src[i], k));
        assert(hub_of(c, g, src[i], hs[i]));
    }
}

fn hub_rank_before(a: &Hub, ai: usize, b: &Hub, bi: usize) -> (r: bool)
    ensures
        r == (a.in_degree > b.in_degree || (a.in_degree == b.in_degree && (chars_lt(a.id@, b.id@) || (a.id@ == b.id@ && ai < bi)))),
{
    if a.in_degree != b.in_degree {
        return a.in_degree > b.in_degree;
    }
    if str_less(a.id.as_str(), b.id.as_str()) {
        return true;
    }
    str_eq(a.id.as_str(), b.id.as_str()) && ai < bi
}

/// The most linked-to visible concepts, in-degree descending with id
/// tie-break, at most `top` of them.
pub fn hubs(corpus: &Corpus, g: &Graph, top: usize) -> (r: Vec<Hub>)
    requires
        g.wf(),
    ensures
        exists|src: Seq<int>| #[trigger] hubs_from(*corpus, *g, top, src, r@),
{
    let b = corpus.bundle().concepts();
    let ghost bv = corpus.bundle_view();
    let mut list: Vec<Hub> = Vec::new();
    let mut idx: Vec<usize> = Vec::new();
    let mut j: usize = 0;
    while j < b.len()
        invariant
            g.wf(),
            b@ == bv,
            bv == corpus.bundle_view(),
            0 <= j <= b.len(),
            list@.len() == idx@.len(),
            idx@.len() == candidate_count(*corpus, *g, j as int),
            forall|i: int| 0 <= i < idx@.len() ==> (#[trigger] idx@[i]) < j && candidate(*corpus, *g, idx@[i] as int)
                && hub_of(*corpus, *g, idx@[i] as int, list@[i]),
            forall|i: int, k: int| 0 <= i < k < idx@.len() ==> ranks_before(*corpus, *g, #[trigger] idx@[i] as int, #[trigger] idx@[k] as int),
            forall|k: int| 0 <= k < j && #[trigger] candidate(*corpus, *g, k) ==> exists|i: int| 0 <= i < idx@.len() && idx@[i] == k,
        decreases b.len() - j,
    {
        let c = &b[j];
        let d = g.in_degree(&c.id);
        if d > 0 && !corpus.is_hidden(&c.id) {
            let title = match &c.title {
                Some(t) => Some(owned(t.as_str())),
                None => None,
            };
            let h = Hub { id: c.id.to_text(), title, path: owned(c.path.as_str()), in_degree: d, out_degree: g.out_degree(&c.id) };
            assert(candidate(*corpus, *g, j as int));
            // The first entry that `h` ranks before.
            let mut p: usize = 0;
            while p < list.len() && !hub_rank_before(&h, j, &list[p], idx[p])
                invariant
                    0 <= p <= list@.len(),
                    list@.len() == idx@.len(),
                    forall|q: int| 0 <= q < idx@.len() ==> (#[trigger] idx@[q]) < j && hub_of(*corpus, *g, idx@[q] as int, list@[q]),
                    hub_of(*corpus, *g, j as int, h),
                    forall|q: int| 0 <= q < p ==> ranks_before(*corpus, *g, #[trigger] idx@[q] as int, j as int),
                decreases list@.len() - p,
            {
                proof {
                    lemma_ranks_total(*corpus, *g, idx@[p as int] as int, j as int);
                }
                p += 1;
            }
            let ghost old_idx = idx@;
            proof {
                if p < idx@.len() {
                    assert(ranks_before(*corpus, *g, j as int, idx@[p as int] as int));
                }
            }
            list.insert(p, h);
            idx.insert(p, j);
            proof {
                assert forall|i: int, k: int| 0 <= i < k < idx@.len() implies ranks_before(*corpus, *g, #[trigger] idx@[i] as int, #[trigger] idx@[k] as int) by {
                    if k < p {
                        assert(idx@[i] == old_idx[i] && idx@[k] == old_idx[k]);
                    } else if k == p {
                        assert(idx@[i] == old_idx[i]);
                    } else if i < p {
                        assert(idx@[i] == old_idx[i] && idx@[k] == old_idx[k - 1]);
                        if k - 1 > p {
                            lemma_ranks_trans(*corpus, *g, j as int, old_idx[p as int] as int, old_idx[k - 1] as int);
                        }
                        lemma_ranks_trans(*corpus, *g, old_idx[i] as int, j as int, old_idx[k - 1] as int);
                    } else if i == p {
                        assert(idx@[k] == old_idx[k - 1]);
                        if k - 1 > p {
                            lemma_ranks_trans(*corpus, *g, j as int, old_idx[p as int] as int, old_idx[k - 1] as int);
                        }
                    } else {
                        assert(idx@[i] == old_idx[i - 1] && idx@[k] == old_idx[k - 1]);
                    }
                }
                assert forall|k: int| 0 <= k < j + 1 && #[trigger] candidate(*corpus, *g, k) implies exists|i: int| 0 <= i < idx@.len() && idx@[i] == k by {
                    if k == j {
                        assert(idx@[p as int] == k);
                    } else {
                        let i = choose|i: int| 0 <= i < old_idx.len() && old_idx[i] == k;
                        if i < p {
                            assert(idx@[i] == k);
                        } else {
                            assert(idx@[i + 1] == k);
                        }
                    }
                }
            }
        } else {
            assert(!candidate(*corpus, *g, j as int));
        }
        j += 1;
    }
    let ghost full = idx@;
    list.truncate(top);
    idx.truncate(top);
    proof {
        let src = Seq::new(idx@.len(), |i: int| idx@[i] as int);
        assert forall|k: int| #[trigger] candidate(*corpus, *g, k) && !src.contains(k) implies forall|i: int| 0 <= i < src.len() ==> ranks_before(*corpus, *g, #[trigger] src[i], k) by {
            assert(0 <= k < bv.len());
            let m = choose|m: int| 0 <= m < full.len() && full[m] == k;
            assert forall|i: int| 0 <= i < src.len() implies ranks_before(*corpus, *g, #[trigger] src[i], k) by {
                if m < src.len() {
                    assert(src[m] == k);
                }
                assert(src[i] == full[i]);
            }
        }
        assert(hubs_from(*corpus, *g, top, src, list@));
    }
    list
}

/// The type bucket of a concept: its `type`, or `(untyped)`.
pub open spec fn type_key(c: Concept) -> Seq<char> {
    match c.type_ {
        Some(t) => t@,
        None => "(untyped)"@,
    }
}

/// The type buckets of the visible concepts among the first `n`, in order.
pub open spec fn type_items(c: Corpus, n: int) -> Seq<Seq<char>>
    decreases n,
{
    if n <= 0 {
        seq![]
    } else {
        type_items(c, n - 1) + if c.visible(n - 1) { seq![type_key(c.bundle_view()[n - 1])] } else { seq![] }
    }
}

/// The frontmatter tags of the visible concepts among the first `n`, in order.
pub open spec fn tag_items(c: Corpus, n: int) -> Seq<Seq<char>>
    decreases n,
{
    if n <= 0 {
        seq![]
    } else {
        tag_items(c, n - 1) + if c.visible(n - 1) { string_views(c.bundle_view()[n - 1].tags@) } else { seq![] }
    }
}

pub open spec fn visible_count(c: Corpus, n: int) -> nat
    decreases n,
{
    if n <= 0 {
        0
    } else {
        visible_count(c, n - 1) + if c.visible(n - 1) { 1nat } else { 0nat }
    }
}

/// What the statistics of the graph `g` of the corpus's visible concepts are.
pub open spec fn stats_of(g: Graph, c: Corpus, top: usize, parse_errors: usize, o: StatsOutput) -> bool {
    let n = c.bundle_view().len() as int;
    &&& g.built_from(c.bundle_view(), c.hidden_view())
    &&& o.concepts == visible_count(c, n)
    &&& o.edges == min_usize(g.edge_total())
    &&& (exists|ids: Seq<Seq<Seq<char>>>| {
        &&& #[trigger] ids.len() == o.orphans
        &&& forall|i: int, j: int| 0 <= i < j < ids.len() ==> id_lt(#[trigger] ids[i], #[trigger] ids[j])
        &&& forall|x: Seq<Seq<char>>| ids.contains(x) <==> #[trigger] g.is_orphan(c.bundle_view(), c.hidden_view(), x)
    })
    &&& o.dead_links == crate::graph::class_count(g.dead_view(), crate::graph::DeadClass::Broken)
    &&& o.phantoms == crate::graph::class_count(g.dead_view(), crate::graph::DeadClass::Phantom)
    &&& o.parse_errors == parse_errors
    &&& tally_ok(type_items(c, n), o.types@)
    &&& tally_ok(tag_items(c, n), o.tags@)
    &&& keys_sorted(o.edge_types@)
    &&& forall|m: int| 0 <= m < o.edge_types@.len() ==> g.kind_total((#[trigger] o.edge_types@[m]).0@) > 0
        && o.edge_types@[m].1 == min_usize(g.kind_total(o.edge_types@[m].0@))
    &&& forall|k: Seq<char>| #[trigger] g.kind_total(k) > 0 ==> exists|m: int| 0 <= m < o.edge_types@.len() && o.edge_types@[m].0@ == k
    &&& exists|src: Seq<int>| #[trigger] hubs_from(c, g, top, src, o.hubs@)
}

/// `okq stats`: counts, distributions, graph metrics and health counts of
/// the visible concepts; `parse_errors` is how many files the loader
/// could not parse.
pub fn run(corpus: &Corpus, args: &StatsArgs, parse_errors: usize) -> (out: StatsOutput)
    requires
        corpus.wf(),
    ensures
        out.schema@ == "okq.stats/v1"@,
        exists|g: Graph| #[trigger] stats_of(g, *corpus, args.top, parse_errors, out),
{
    let g = Graph::build(corpus.bundle(), corpus.hidden());
    let b = corpus.bundle().concepts();
    let ghost bv = corpus.bundle_view();
    let mut types: Vec<String> = Vec::new();
    let mut tags: Vec<String> = Vec::new();
    let mut count: usize = 0;
    let mut j: usize = 0;
    while j < b.len()
        invariant
            b@ == bv,
            bv == corpus.bundle_view(),
            0 <= j <= b.len(),
            count == visible_count(*corpus, j as int),
            count <= j,
            string_views(types@) == type_items(*corpus, j as int),
            string_views(tags@) == tag_items(*corpus, j as int),
        decreases b.len() - j,
    {
        let c = &b[j];
        if !corpus.is_hidden(&c.id) {
            count += 1;
            let ghost before = types@;
            let t = match &c.type_ {
                Some(t) => owned(t.as_str()),
                None => owned("(untyped)"),
            };
            types.push(t);
            assert(string_views(types@) =~= string_views(before).push(type_key(*c)));
            let mut k: usize = 0;
            let ghost base = tags@;
            while k < c.tags.len()
                invariant
                    0 <= k <= c.tags.len(),
                    string_views(tags@) == string_views(base) + string_views(c.tags@).take(k as int),
                decreases c.tags.len() - k,
            {
                let ghost pre = tags@;
                tags.push(owned(c.tags[k].as_str()));
                assert(string_views(tags@) =~= string_views(base) + string_views(c.tags@).take(k + 1)) by {
                    assert(string_views(tags@) =~= string_views(pre).push(c.tags@[k as int]@));
                }
                k += 1;
            }
            assert(string_views(c.tags@).take(c.tags.len() as int) =~= string_views(c.tags@));
        } else {
            assert(type_items(*corpus, j + 1) =~= type_items(*corpus, j as int));
            assert(tag_items(*corpus, j + 1) =~= tag_items(*corpus, j as int));
        }
        j += 1;
    }
    let orphan_ids = g.orphans(corpus.bundle(), corpus.hidden());
    let hs = hubs(corpus, &g, args.top);
    let ghost hv = hs@;
    let out = StatsOutput {
        schema: owned("okq.stats/v1"),
        concepts: count,
        edges: g.total_edges(),
        orphans: orphan_ids.len(),
        dead_links: g.broken_count(),
        phantoms: g.phantom_count(),
        parse_errors,
        types: tally(&types),
        tags: tally(&tags),
        edge_types: g.edge_kind_counts(),
        hubs: hs,
    };
    proof {
        let ids = crate::concept::id_views(orphan_ids@);
        assert(ids.len() == out.orphans);
        assert(forall|i: int, j: int| 0 <= i < j < ids.len() ==> id_lt(#[trigger] ids[i], #[trigger] ids[j]));
        assert(forall|x: Seq<Seq<char>>| ids.contains(x) <==> #[trigger] g.is_orphan(corpus.bundle_view(), corpus.hidden_view(), x));
        assert(tally_ok(type_items(*corpus, bv.len() as int), out.types@));
        assert(tally_ok(tag_items(*corpus, bv.len() as int), out.tags@));
        assert(out.concepts == visible_count(*corpus, bv.len() as int));
        let src = choose|src: Seq<int>| #[trigger] hubs_from(*corpus, g, args.top, src, hv);
        assert(hubs_from(*corpus, g, args.top, src, out.hubs@));
    }
    assert(stats_of(g, *corpus, args.top, parse_errors, out));
    out
}

// ---------------------------------------------------------------------------
// Human output

pub open spec fn pair_view(p: (String, usize)) -> (Seq<char>, usize) {
    (p.0@, p.1)
}

pub open spec fn pair_views(s: Seq<(String, usize)>) -> Seq<(Seq<char>, usize)> {
    s.map_values(|p: (String, usize)| pair_view(p))
}

/// Distribution order: count descending, then key.
pub open spec fn dist_before(a: (Seq<char>, usize), b: (Seq<char>, usize)) -> bool {
    a.1 > b.1 || (a.1 == b.1 && chars_lt(a.0, b.0))
}

/// `s` holds the entries of `m` in distribution order.
pub open spec fn dist_order(m: Seq<(String, usize)>, s: Seq<(Seq<char>, usize)>) -> bool {
    &&& s.len() == m.len()
    &&& forall|i: int| 0 <= i < s.len() ==> pair_views(m).contains(#[trigger] s[i])
    &&& forall|j: int| 0 <= j < m.len() ==> s.contains(#[trigger] pair_views(m)[j])
    &&& forall|i: int, j: int| 0 <= i < j < s.len() ==> dist_before(#[trigger] s[i], #[trigger] s[j])
}

/// `k v` entries joined with `, `.
pub open spec fn entries_text(s: Seq<(Seq<char>, usize)>) -> Seq<char>
    decreases s.len(),
{
    if s.len() == 0 {
        seq![]
    } else if s.len() == 1 {
        s[0].0 + seq![' '] + digits(s[0].1 as nat)
    } else {
        entries_text(s.drop_last()) + seq![',', ' '] + s.last().0 + seq![' '] + digits(s.last().1 as nat)
    }
}

/// The first `top` entries (all for 0), and `, … (N total)` when some
/// were left out.
pub open spec fn dist_text(s: Seq<(Seq<char>, usize)>, top: usize) -> Seq<char> {
    let shown = if top == 0 || s.len() <= top { s.len() as int } else { top as int };
    entries_text(s.take(shown)) + if top != 0 && s.len() > top {
        seq![',', ' ', '…', ' ', '('] + digits(s.len()) + " total)"@
    } else {
        seq![]
    }
}

proof fn lemma_dist_trans(a: (Seq<char>, usize), b: (Seq<char>, usize), c: (Seq<char>, usize))
    requires
        dist_before(a, b),
        dist_before(b, c),
    ensures
        dist_before(a, c),
{
    if a.1 == b.1 && b.1 == c.1 {
        lemma_chars_lt_trans(a.0, b.0, c.0);
    }
}

/// The entries of a tally in distribution order.
fn dist_sort(map: &Vec<(String, usize)>) -> (sorted: Vec<(String, usize)>)
    requires
        keys_sorted(map@),
    ensures
        dist_order(map@, pair_views(sorted@)),
{
    let mut sorted: Vec<(String, usize)> = Vec::new();
    let ghost mut src: Seq<int> = seq![];
    let mut j: usize = 0;
    while j < map.len()
        invariant
            keys_sorted(map@),
            0 <= j <= map.len(),
            src.len() == sorted@.len(),
            sorted@.len() == j,
            forall|i: int| 0 <= i < src.len() ==> 0 <= #[trigger] src[i] < j && pair_view(sorted@[i]) == pair_view(map@[src[i]]),
            forall|k: int| 0 <= k < j ==> #[trigger] src.contains(k),
            forall|a: int, b: int| 0 <= a < b < sorted@.len() ==> dist_before(#[trigger] pair_view(sorted@[a]), #[trigger] pair_view(sorted@[b])),
        decreases map.len() - j,
    {
        let e = &map[j];
        let mut p: usize = 0;
        while p < sorted.len() && !(e.1 > sorted[p].1 || (e.1 == sorted[p].1 && str_less(e.0.as_str(), sorted[p].0.as_str())))
            invariant
                *e == map@[j as int],
                0 <= p <= sorted@.len(),
                forall|q: int| 0 <= q < p ==> !dist_before(pair_view(map@[j as int]), #[trigger] pair_view(sorted@[q])),
            decreases sorted@.len() - p,
        {
            p += 1;
        }
        let ghost old_sorted = sorted@;
        let ghost old_src = src;
        proof {
            // Entries before `p` come before `e`: keys are distinct.
            assert forall|q: int| 0 <= q < p implies dist_before(#[trigger] pair_view(old_sorted[q]), pair_view(map@[j as int])) by {
                let k = old_src[q];
                assert(k < j);
                assert(chars_lt(map@[k].0@, map@[j as int].0@));
                lemma_chars_lt_total(pair_view(old_sorted[q]).0, map@[j as int].0@);
            }
        }
        sorted.insert(p, (owned(e.0.as_str()), e.1));
        proof {
            src = old_src.insert(p as int, j as int);
            assert forall|a: int, b: int| 0 <= a < b < sorted@.len() implies dist_before(#[trigger] pair_view(sorted@[a]), #[trigger] pair_view(sorted@[b])) by {
                if b < p {
                    assert(sorted@[a] == old_sorted[a] && sorted@[b] == old_sorted[b]);
                } else if b == p {
                    assert(sorted@[a] == old_sorted[a]);
                } else if a < p {
                    assert(sorted@[a] == old_sorted[a] && sorted@[b] == old_sorted[b - 1]);
                    lemma_dist_trans(pair_view(old_sorted[a]), pair_view(map@[j as int]), pair_view(old_sorted[p as int]));
                    if b - 1 > p {
                        lemma_dist_trans(pair_view(old_sorted[a]), pair_view(old_sorted[p as int]), pair_view(old_sorted[b - 1]));
                    }
                } else if a == p {
                    assert(sorted@[b] == old_sorted[b - 1]);
                    if b - 1 > p {
                        lemma_dist_trans(pair_view(map@[j as int]), pair_view(old_sorted[p as int]), pair_view(old_sorted[b - 1]));
                    }
                } else {
                    assert(sorted@[a] == old_sorted[a - 1] && sorted@[b] == old_sorted[b - 1]);
                }
            }
            assert forall|k: int| 0 <= k < j + 1 implies #[trigger] src.contains(k) by {
                if k == j {
                    assert(src[p as int] == k);
                } else {
                    assert(old_src.contains(k));
                    let i = choose|i: int| 0 <= i < old_src.len() && #[trigger] old_src[i] == k;
                    if i < p {
                        assert(src[i] == k);
                    } else {
                        assert(src[i + 1] == k);
                    }
                }
            }
        }
        j += 1;
    }
    let ghost sv = pair_views(sorted@);
    proof {
        assert forall|i: int| 0 <= i < sv.len() implies pair_views(map@).contains(#[trigger] sv[i]) by {
            assert(sv[i] == pair_views(map@)[src[i]]);
        }
        assert forall|j: int| 0 <= j < map@.len() implies sv.contains(#[trigger] pair_views(map@)[j]) by {
            assert(src.contains(j));
            let i = choose|i: int| 0 <= i < src.len() && #[trigger] src[i] == j;
            assert(sv[i] == pair_views(map@)[j]);
        }
        assert forall|a: int, b: int| 0 <= a < b < sv.len() implies dist_before(#[trigger] sv[a], #[trigger] sv[b]) by {
            assert(sv[a] == pair_view(sorted@[a]) && sv[b] == pair_view(sorted@[b]));
        }
        assert(sv.len() == map@.len());
        assert(dist_order(map@, sv));
    }
    sorted
}

/// Formats a tally as `k v, k v` ordered by count descending (key
/// tie-break), capped at `top` entries (0 = no cap).
pub fn distribution(map: &Vec<(String, usize)>, top: usize) -> (r: String)
    requires
        keys_sorted(map@),
    ensures
        exists|s: Seq<(Seq<char>, usize)>| #[trigger] dist_order(map@, s) && r@ == dist_text(s, top),
{
    let sorted = dist_sort(map);
    let ghost sv = pair_views(sorted@);
    let total = sorted.len();
    let shown = if top == 0 || total <= top { total } else { top };
    let mut out = String::new();
    let mut i: usize = 0;
    assert(sv.take(0) =~= Seq::<(Seq<char>, usize)>::empty());
    while i < shown
        invariant
            sv == pair_views(sorted@),
            shown <= sorted@.len(),
            0 <= i <= shown,
            out@ == entries_text(sv.take(i as int)),
        decreases shown - i,
    {
        assert(sv.take(i + 1).drop_last() =~= sv.take(i as int));
        assert(sv.take(i + 1).last() == pair_view(sorted@[i as int]));
        if i > 0 {
            out.push(',');
            out.push(' ');
        }
        push_str(&mut out, sorted[i].0.as_str());
        out.push(' ');
        let n = decimal_string(sorted[i].1 as u64);
        push_str(&mut out, n.as_str());
        i += 1;
    }
    if top != 0 && total > top {
        out.push(',');
        out.push(' ');
        out.push('…');
        out.push(' ');
        out.push('(');
        let n = decimal_string(total as u64);
        push_str(&mut out, n.as_str());
        push_str(&mut out, " total)");
    }
    assert(out@ == dist_text(sv, top));
    out
}

pub open spec fn hub_line(h: Hub, no_color: bool) -> Seq<char> {
    seq![' ', ' '] + crate::fmt::pad_left_spec(digits(h.in_degree as nat), 3, ' ') + seq![' ', ' ']
        + crate::commands::graph::loc_on(no_color) + h.path@ + crate::commands::graph::loc_off(no_color) + seq![' ', ' ']
        + match h.title {
        Some(t) => t@,
        None => seq![],
    } + seq!['\n']
}

pub open spec fn hubs_text(hs: Seq<Hub>, no_color: bool) -> Seq<char>
    decreases hs.len(),
{
    if hs.len() == 0 {
        seq![]
    } else {
        hubs_text(hs.drop_last(), no_color) + hub_line(hs.last(), no_color)
    }
}

/// The summary: totals, health counts, the three distributions (`types`,
/// `edges`, `tags`, already in distribution order, tags capped at `top`)
/// and the hubs. `density` is the edges-per-concept figure as printed.
pub open spec fn stats_text(o: StatsOutput, density: Seq<char>, types: Seq<(Seq<char>, usize)>, edges: Seq<(Seq<char>, usize)>,
    tags: Seq<(Seq<char>, usize)>, top: usize, no_color: bool) -> Seq<char> {
    "Concepts: "@ + digits(o.concepts as nat) + "    Edges: "@ + digits(o.edges as nat) + "    Density: "@ + density
        + " edges/concept\n"@ + "Orphans: "@ + digits(o.orphans as nat) + "     Dead links: "@ + digits(o.dead_links as nat)
        + "    Parse errors: "@ + digits(o.parse_errors as nat) + "\n\n"@ + "Types:  "@ + dist_text(types, 0) + "\n"@
        + "Edges:  "@ + dist_text(edges, 0) + "\n"@ + "Tags:   "@ + dist_text(tags, top) + "\n"@ + if o.hubs@.len() > 0 {
        "\nHubs (most linked-to):\n"@ + hubs_text(o.hubs@, no_color)
    } else {
        seq![]
    }
}

fn push_num(s: &mut String, n: usize)
    ensures
        final(s)@ == old(s)@ + digits(n as nat),
{
    let t = decimal_string(n as u64);
    push_str(s, t.as_str());
}

fn hub_text(h: &Hub, loc: &(String, String), no_color: bool) -> (r: String)
    requires
        loc.0@ == crate::commands::graph::loc_on(no_color),
        loc.1@ == crate::commands::graph::loc_off(no_color),
    ensures
        r@ == hub_line(*h, no_color),
{
    let mut s = String::new();
    s.push(' ');
    s.push(' ');
    let d = decimal_string(h.in_degree as u64);
    let p = crate::fmt::pad_left(d.as_str(), 3, ' ');
    push_str(&mut s, p.as_str());
    s.push(' ');
    s.push(' ');
    push_str(&mut s, loc.0.as_str());
    push_str(&mut s, h.path.as_str());
    push_str(&mut s, loc.1.as_str());
    s.push(' ');
    s.push(' ');
    match &h.title {
        Some(t) => push_str(&mut s, t.as_str()),
        None => {},
    }
    s.push('\n');
    s
}

/// The human-readable summary; `top` caps the tags list, `density` is the
/// link density as the shell formats it.
pub fn render_human(out: &StatsOutput, density: &str, top: usize, no_color: bool) -> (r: String)
    requires
        keys_sorted(out.types@),
        keys_sorted(out.edge_types@),
        keys_sorted(out.tags@),
    ensures
        exists|a: Seq<(Seq<char>, usize)>, b: Seq<(Seq<char>, usize)>, c: Seq<(Seq<char>, usize)>|
            dist_order(out.types@, a) && dist_order(out.edge_types@, b) && dist_order(out.tags@, c)
            && #[trigger] stats_text(*out, density@, a, b, c, top, no_color) == r@,
{
    let mut s = owned("Concepts: ");
    push_num(&mut s, out.concepts);
    push_str(&mut s, "    Edges: ");
    push_num(&mut s, out.edges);
    push_str(&mut s, "    Density: ");
    push_str(&mut s, density);
    push_str(&mut s, " edges/concept\n");
    push_str(&mut s, "Orphans: ");
    push_num(&mut s, out.orphans);
    push_str(&mut s, "     Dead links: ");
    push_num(&mut s, out.dead_links);
    push_str(&mut s, "    Parse errors: ");
    push_num(&mut s, out.parse_errors);
    push_str(&mut s, "\n\n");
    push_str(&mut s, "Types:  ");
    let t = distribution(&out.types, 0);
    push_str(&mut s, t.as_str());
    push_str(&mut s, "\n");
    push_str(&mut s, "Edges:  ");
    let e = distribution(&out.edge_types, 0);
    push_str(&mut s, e.as_str());
    push_str(&mut s, "\n");
    push_str(&mut s, "Tags:   ");
    let g = distribution(&out.tags, top);
    push_str(&mut s, g.as_str());
    push_str(&mut s, "\n");
    let ghost head = s@;
    if out.hubs.len() > 0 {
        push_str(&mut s, "\nHubs (most linked-to):\n");
        let loc = crate::style::loc_style(no_color);
        let ghost start = s@;
        let mut i: usize = 0;
        while i < out.hubs.len()
            invariant
                0 <= i <= out.hubs@.len(),
                loc.0@ == crate::commands::graph::loc_on(no_color),
                loc.1@ == crate::commands::graph::loc_off(no_color),
                s@ == start + hubs_text(out.hubs@.take(i as int), no_color),
            decreases out.hubs@.len() - i,
        {
            assert(out.hubs@.take(i + 1).drop_last() =~= out.hubs@.take(i as int));
            let l = hub_text(&out.hubs[i], &loc, no_color);
            push_str(&mut s, l.as_str());
            i += 1;
        }
        assert(out.hubs@.take(out.hubs@.len() as int) =~= out.hubs@);
    }
    proof {
        let a = choose|a: Seq<(Seq<char>, usize)>| #[trigger] dist_order(out.types@, a) && t@ == dist_text(a, 0);
        let b = choose|b: Seq<(Seq<char>, usize)>| #[trigger] dist_order(out.edge_types@, b) && e@ == dist_text(b, 0);
        let c = choose|c: Seq<(Seq<char>, usize)>| #[trigger] dist_order(out.tags@, c) && g@ == dist_text(c, top);
        assert(stats_text(*out, density@, a, b, c, top, no_color) =~= s@);
    }
    s
}

} // verus!
