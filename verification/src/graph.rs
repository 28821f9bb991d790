//! The bundle's cross-link graph: typed edges between concepts, and the
//! traversals run over them (neighbors, shortest path, orphans, dead links).
//!
//! Nodes are the visible concepts, held in id order, so a node's index order
//! is its id order. Edges come from inline markdown links (kind `link`),
//! frontmatter relations (kind = the key) and `[[wikilinks]]` (kind
//! `wikilink`).

use vstd::prelude::*;
use vstd::set_lib::{lemma_int_range, lemma_len_subset, set_int_range};
use crate::concept::{ConceptId, id_lt, lemma_id_lt_asym, lemma_id_lt_irrefl, lemma_id_lt_trans};
use crate::text::{chars_lt, lemma_chars_lt_asym, str_eq, str_lowercase, string_views, unicode_lower_str};
use crate::edges::{DeadItems, EdgeItems, alias_table_views, concept_edges, concept_items, dead_views, edge_views, edges_within};
use crate::model::{Bundle, Concept, aliases_spec, concept_aliases};
use crate::order::{count_edge, edge_le, edges_sorted, raws_sorted, sort_dead, sort_edges, with_raw};

verus! {

/// Traversal direction.
#[derive(Clone, Copy, PartialEq, Eq, Structural, Debug)]
pub enum Direction {
    /// Follow inbound edges (who points at me).
    In,
    /// Follow outbound edges (who I point at).
    Out,
    /// Follow both.
    Both,
}

impl Direction {
    /// The string form used in output.
    pub fn as_str(self) -> (r: &'static str)
        ensures
            self == Direction::In ==> r@ == seq!['i', 'n'],
            self == Direction::Out ==> r@ == seq!['o', 'u', 't'],
            self == Direction::Both ==> r@ == seq!['b', 'o', 't', 'h'],
    {
        proof {
            reveal_strlit("in");
            reveal_strlit("out");
            reveal_strlit("both");
        }
        match self {
            Direction::In => "in",
            Direction::Out => "out",
            Direction::Both => "both",
        }
    }
}

/// A filter over edge kinds; empty allows all.
pub struct EdgeFilter(Vec<String>);

impl View for EdgeFilter {
    type V = Seq<Seq<char>>;

    closed spec fn view(&self) -> Seq<Seq<char>> {
        string_views(self.0@)
    }
}

pub open spec fn allows_spec(f: Seq<Seq<char>>, kind: Seq<char>) -> bool {
    f.len() == 0 || exists|i: int| 0 <= i < f.len() && f[i] == kind
}

impl EdgeFilter {
    /// Builds a filter from a list of kinds (empty allows everything).
    pub fn new(kinds: &[String]) -> (r: EdgeFilter)
        ensures
            r@ == string_views(kinds@),
    {
        let mut v: Vec<String> = Vec::new();
        let mut i: usize = 0;
        while i < kinds.len()
            invariant
                0 <= i <= kinds.len(),
                string_views(v@) == string_views(kinds@).take(i as int),
            decreases kinds.len() - i,
        {
            let k = kinds[i].clone();
            let ghost before = v@;
            v.push(k);
            assert(string_views(v@) =~= string_views(before).push(kinds@[i as int]@));
            i += 1;
            assert(string_views(v@) =~= string_views(kinds@).take(i as int));
        }
        assert(string_views(kinds@).take(i as int) =~= string_views(kinds@));
        EdgeFilter(v)
    }

    /// Whether an edge of this kind passes the filter.
    pub fn allows(&self, kind: &str) -> (r: bool)
        ensures
            r == allows_spec(self@, kind@),
    {
        if self.0.len() == 0 {
            return true;
        }
        let mut i: usize = 0;
        while i < self.0.len()
            invariant
                0 <= i <= self.0.len(),
                forall|j: int| 0 <= j < i ==> self@[j] != kind@,
            decreases self.0.len() - i,
        {
            if str_eq(self.0[i].as_str(), kind) {
                assert(self@[i as int] == kind@);
                return true;
            }
            i += 1;
        }
        false
    }
}

/// One end of an edge as stored in an adjacency list.
pub struct HalfEdge {
    /// The node at the other end.
    pub other: usize,
    /// The edge kind.
    pub kind: String,
}

/// How an unresolved link should be read.
#[derive(Clone, Copy, PartialEq, Eq, Structural, Debug)]
pub enum DeadClass {
    /// A concrete reference that should resolve but doesn't.
    Broken,
    /// A bare `[[Note]]` matching no concept and no alias.
    Phantom,
}

impl DeadClass {
    /// The string form used in output (`broken`/`phantom`).
    pub fn as_str(self) -> (r: &'static str)
        ensures
            self == DeadClass::Broken ==> r@ == seq!['b', 'r', 'o', 'k', 'e', 'n'],
            self == DeadClass::Phantom ==> r@ == seq!['p', 'h', 'a', 'n', 't', 'o', 'm'],
    {
        proof {
            reveal_strlit("broken");
            reveal_strlit("phantom");
        }
        match self {
            DeadClass::Broken => "broken",
            DeadClass::Phantom => "phantom",
        }
    }
}

/// A link pointing at a concept that does not exist in the bundle.
pub struct DeadLink {
    /// The concept that declares the link.
    pub source: ConceptId,
    /// The link target as written.
    pub raw: String,
    /// The edge kind.
    pub kind: String,
    /// Broken reference or phantom note.
    pub class: DeadClass,
}

/// A node reached during a neighbors traversal.
pub struct Reached {
    /// The reached concept.
    pub id: ConceptId,
    /// The first-hop edge kind on the path from the source.
    pub kind: String,
    /// The first-hop direction.
    pub direction: Direction,
    /// Hop distance from the source.
    pub distance: usize,
}

/// One step on a path: a node and the edge kind taken to reach it.
pub struct PathStep {
    /// The concept at this step.
    pub id: ConceptId,
    /// The edge kind taken into this node (`None` for the start).
    pub edge: Option<String>,
}

/// The typed cross-link graph of a bundle.
pub struct Graph {
    ids: Vec<ConceptId>,
    src: Vec<usize>,
    out: Vec<Vec<HalfEdge>>,
    inn: Vec<Vec<HalfEdge>>,
    dead: Vec<DeadLink>,
}

pub open spec fn has_entry(s: Seq<(usize, String, Direction)>, v: int, k: Seq<char>, d: Direction) -> bool {
    exists|m: int| 0 <= m < s.len() && s[m].0 == v && s[m].1@ == k && s[m].2 == d
}

pub proof fn lemma_has_entry_push(s: Seq<(usize, String, Direction)>, x: (usize, String, Direction))
    ensures
        forall|v: int, k: Seq<char>, d: Direction| #[trigger] has_entry(s, v, k, d) ==> has_entry(s.push(x), v, k, d),
        has_entry(s.push(x), x.0 as int, x.1@, x.2),
{
    assert forall|v: int, k: Seq<char>, d: Direction| #[trigger] has_entry(s, v, k, d) implies has_entry(s.push(x), v, k, d) by {
        let m = choose|m: int| 0 <= m < s.len() && s[m].0 == v && s[m].1@ == k && s[m].2 == d;
        assert(s.push(x)[m] == s[m]);
    }
    assert(s.push(x)[s.len() as int] == x);
}

pub proof fn lemma_contains_push<T>(s: Seq<T>, x: T)
    ensures
        forall|y: T| #[trigger] s.contains(y) ==> s.push(x).contains(y),
        s.push(x).contains(x),
{
    assert forall|y: T| #[trigger] s.contains(y) implies s.push(x).contains(y) by {
        let m = choose|m: int| 0 <= m < s.len() && s[m] == y;
        assert(s.push(x)[m] == y);
    }
    assert(s.push(x)[s.len() as int] == x);
}

pub open spec fn dir_ok(traversal: Direction, d: Direction) -> bool {
    (d == Direction::Out && traversal != Direction::In) || (d == Direction::In && traversal
        != Direction::Out)
}

impl Graph {
    pub closed spec fn n(&self) -> int {
        self.ids@.len() as int
    }

    /// The id of node `i`.
    pub closed spec fn id_of(&self, i: int) -> Seq<Seq<char>> {
        self.ids@[i]@
    }

    /// Node `u` has an edge of kind `k` to (`Out`) or from (`In`) node `v`.
    pub closed spec fn labeled(&self, u: int, v: int, k: Seq<char>, d: Direction) -> bool {
        0 <= u < self.n() && ((d == Direction::Out && exists|i: int|
            0 <= i < self.out@[u]@.len() && #[trigger] self.out@[u]@[i].other == v
                && self.out@[u]@[i].kind@ == k) || (d == Direction::In && exists|i: int|
            0 <= i < self.inn@[u]@.len() && #[trigger] self.inn@[u]@[i].other == v
                && self.inn@[u]@[i].kind@ == k))
    }

    /// One traversal step from `u` to `v` is allowed.
    pub open spec fn step(&self, u: int, v: int, t: Direction, f: Seq<Seq<char>>) -> bool {
        exists|k: Seq<char>, d: Direction|
            dir_ok(t, d) && allows_spec(f, k) && #[trigger] self.labeled(u, v, k, d)
    }

    /// `p` is a walk: a non-empty sequence of nodes, each step allowed.
    pub open spec fn is_walk(&self, p: Seq<int>, t: Direction, f: Seq<Seq<char>>) -> bool {
        &&& p.len() >= 1
        &&& forall|i: int| 0 <= i < p.len() ==> 0 <= #[trigger] p[i] < self.n()
        &&& forall|i: int| 0 <= i < p.len() - 1 ==> self.step(#[trigger] p[i], p[i + 1], t, f)
    }

    /// `v` is reachable from `s` in at most `d` steps.
    pub open spec fn within(&self, s: int, v: int, d: nat, t: Direction, f: Seq<Seq<char>>) -> bool {
        exists|p: Seq<int>|
            #[trigger] self.is_walk(p, t, f) && p[0] == s && p.last() == v && p.len() <= d + 1
    }

    /// `v` is exactly `d` steps from `s`.
    pub open spec fn at_dist(&self, s: int, v: int, d: nat, t: Direction, f: Seq<Seq<char>>) -> bool {
        self.within(s, v, d, t, f) && (d == 0 || !self.within(s, v, (d - 1) as nat, t, f))
    }

    /// Some shortest route from `s` to `v` (of length `d`) starts with an
    /// edge of kind `k` in direction `dir`.
    pub open spec fn first_hop(&self, s: int, v: int, k: Seq<char>, dir: Direction, d: nat, t: Direction, f: Seq<Seq<char>>) -> bool {
        exists|w: int|
            dir_ok(t, dir) && allows_spec(f, k) && #[trigger] self.labeled(s, w, k, dir)
                && self.within(w, v, (d - 1) as nat, t, f)
    }

    /// Well-formed: adjacency lists for every node, edges between nodes,
    /// and node ids strictly increasing.
    pub closed spec fn wf(&self) -> bool {
        &&& self.out@.len() == self.ids@.len()
        &&& self.inn@.len() == self.ids@.len()
        &&& forall|u: int, i: int|
            0 <= u < self.n() && 0 <= i < self.out@[u]@.len() ==> #[trigger] self.out@[u]@[i].other
                < self.n()
        &&& forall|u: int, i: int|
            0 <= u < self.n() && 0 <= i < self.inn@[u]@.len() ==> #[trigger] self.inn@[u]@[i].other
                < self.n()
        &&& forall|i: int, j: int| 0 <= i < j < self.n() ==> #[trigger] id_lt(self.ids@[i]@, self.ids@[j]@)
        &&& self.src@.len() == self.ids@.len()
        &&& forall|u: int| 0 <= u < self.n() ==> edges_sorted(#[trigger] half_views(self.out@[u]@))
        &&& forall|v: int| 0 <= v < self.n() ==> edges_sorted(#[trigger] half_views(self.inn@[v]@))
        &&& forall|u: int, v: int, k: Seq<char>| 0 <= u < self.n() && 0 <= v < self.n() ==>
            #[trigger] count_edge(half_views(self.inn@[v]@), (u, k)) == count_edge(half_views(self.out@[u]@), (v, k))
    }

    pub proof fn lemma_within_mono(&self, s: int, v: int, d: nat, e: nat, t: Direction, f: Seq<Seq<char>>)
        requires
            d <= e,
            self.within(s, v, d, t, f),
        ensures
            self.within(s, v, e, t, f),
    {
    }

    pub proof fn lemma_within_zero(&self, s: int, v: int, t: Direction, f: Seq<Seq<char>>)
        requires
            0 <= s < self.n(),
        ensures
            self.within(s, v, 0, t, f) <==> v == s,
    {
        if v == s {
            let p = seq![s];
            assert(self.is_walk(p, t, f));
        }
    }

    pub proof fn lemma_step_bounds(&self, u: int, v: int, t: Direction, f: Seq<Seq<char>>)
        requires
            self.wf(),
            self.step(u, v, t, f),
        ensures
            0 <= u < self.n(),
            0 <= v < self.n(),
    {
        let (k, d) = choose|k: Seq<char>, d: Direction|
            dir_ok(t, d) && allows_spec(f, k) && #[trigger] self.labeled(u, v, k, d);
        if d == Direction::Out {
            let i = choose|i: int| 0 <= i < self.out@[u]@.len() && #[trigger] self.out@[u]@[i].other == v
                && self.out@[u]@[i].kind@ == k;
        } else {
            let i = choose|i: int| 0 <= i < self.inn@[u]@.len() && #[trigger] self.inn@[u]@[i].other == v
                && self.inn@[u]@[i].kind@ == k;
        }
    }

    /// Once a level adds nothing new, nothing further is ever reached.
    pub proof fn lemma_stable(&self, s: int, l: nat, d: nat, t: Direction, f: Seq<Seq<char>>)
        requires
            self.wf(),
            l >= 1,
            l <= d,
            forall|u: int| 0 <= u < self.n() && #[trigger] self.within(s, u, l, t, f) ==> self.within(s, u, (l - 1) as nat, t, f),
        ensures
            forall|v: int| #[trigger] self.within(s, v, d, t, f) ==> self.within(s, v, l, t, f),
        decreases d - l,
    {
        if d > l {
            self.lemma_stable(s, l, (d - 1) as nat, t, f);
            assert forall|v: int| #[trigger] self.within(s, v, d, t, f) implies self.within(s, v, l, t, f) by {
                let e = (d - 1) as nat;
                self.lemma_within_split(s, v, e, t, f);
                if !self.within(s, v, e, t, f) {
                    let u = choose|u: int| 0 <= u < self.n() && #[trigger] self.within(s, u, e, t, f) && self.step(u, v, t, f);
                    assert(self.within(s, u, l, t, f));
                    assert(self.within(s, u, (l - 1) as nat, t, f));
                    self.lemma_step_bounds(u, v, t, f);
                    self.lemma_within_step(s, u, v, (l - 1) as nat, t, f);
                }
            }
        }
    }

    pub proof fn lemma_within_step(&self, s: int, u: int, v: int, d: nat, t: Direction, f: Seq<Seq<char>>)
        requires
            0 <= v < self.n(),
            self.within(s, u, d, t, f),
            self.step(u, v, t, f),
        ensures
            self.within(s, v, d + 1, t, f),
    {
        let p = choose|p: Seq<int>|
            #[trigger] self.is_walk(p, t, f) && p[0] == s && p.last() == u && p.len() <= d + 1;
        let q = p.push(v);
        assert forall|i: int| 0 <= i < q.len() - 1 implies self.step(#[trigger] q[i], q[i + 1], t, f) by {
            if i < p.len() - 1 {
                assert(q[i] == p[i] && q[i + 1] == p[i + 1]);
            } else {
                assert(q[i] == u);
            }
        }
        assert(self.is_walk(q, t, f));
    }

    /// A node within `d + 1` steps is within `d` steps or one step past a
    /// node within `d` steps.
    pub proof fn lemma_within_split(&self, s: int, v: int, d: nat, t: Direction, f: Seq<Seq<char>>)
        requires
            self.within(s, v, d + 1, t, f),
        ensures
            self.within(s, v, d, t, f) || exists|u: int|
                0 <= u < self.n() && #[trigger] self.within(s, u, d, t, f) && self.step(u, v, t, f),
    {
        let p = choose|p: Seq<int>|
            #[trigger] self.is_walk(p, t, f) && p[0] == s && p.last() == v && p.len() <= d + 2;
        if p.len() == d + 2 {
            let q = p.drop_last();
            let u = q.last();
            assert(self.step(p[p.len() - 2], p[p.len() - 1], t, f));
            assert forall|i: int| 0 <= i < q.len() - 1 implies self.step(#[trigger] q[i], q[i + 1], t, f) by {
                assert(q[i] == p[i] && q[i + 1] == p[i + 1]);
            }
            assert(self.is_walk(q, t, f));
            assert(self.within(s, u, d, t, f));
        }
    }

    /// The node index of an id, if it is a node.
    pub fn index_of(&self, id: &ConceptId) -> (r: Option<usize>)
        requires
            self.wf(),
        ensures
            match r {
                Some(i) => i < self.n() && self.id_of(i as int) == id@,
                None => forall|i: int| 0 <= i < self.n() ==> self.id_of(i) != id@,
            },
    {
        let mut i: usize = 0;
        while i < self.ids.len()
            invariant
                0 <= i <= self.ids.len(),
                forall|j: int| 0 <= j < i ==> self.ids@[j]@ != id@,
            decreases self.ids.len() - i,
        {
            if self.ids[i].same(id) {
                return Some(i);
            }
            i += 1;
        }
        None
    }

    /// The edges one traversal step can take from `node`: outbound first
    /// (for `Out`/`Both`), then inbound (for `In`/`Both`), kind-filtered.
    fn adjacent(&self, node: usize, direction: Direction, edges: &EdgeFilter) -> (r: Vec<(usize, String, Direction)>)
        requires
            self.wf(),
            node < self.n(),
        ensures
            forall|i: int| 0 <= i < r@.len() ==> {
                &&& (#[trigger] r@[i]).0 < self.n()
                &&& dir_ok(direction, r@[i].2)
                &&& allows_spec(edges@, r@[i].1@)
                &&& self.labeled(node as int, r@[i].0 as int, r@[i].1@, r@[i].2)
            },
            forall|v: int, k: Seq<char>, d: Direction|
                dir_ok(direction, d) && allows_spec(edges@, k) && #[trigger] self.labeled(node as int, v, k, d)
                ==> has_entry(r@, v, k, d),
    {
        let mut adj: Vec<(usize, String, Direction)> = Vec::new();
        let outs = &self.out[node];
        let ins = &self.inn[node];
        if direction == Direction::Out || direction == Direction::Both {
            let mut i: usize = 0;
            while i < outs.len()
                invariant
                    self.wf(),
                    node < self.n(),
                    outs == &self.out@[node as int],
                    direction == Direction::Out || direction == Direction::Both,
                    0 <= i <= outs.len(),
                    forall|j: int| 0 <= j < adj@.len() ==> {
                        &&& (#[trigger] adj@[j]).0 < self.n()
                        &&& dir_ok(direction, adj@[j].2)
                        &&& allows_spec(edges@, adj@[j].1@)
                        &&& self.labeled(node as int, adj@[j].0 as int, adj@[j].1@, adj@[j].2)
                    },
                    forall|j: int| 0 <= j < i && allows_spec(edges@, #[trigger] outs@[j].kind@) ==>
                        has_entry(adj@, outs@[j].other as int, outs@[j].kind@, Direction::Out),
                decreases outs.len() - i,
            {
                let e = &outs[i];
                if edges.allows(e.kind.as_str()) {
                    assert(self.labeled(node as int, e.other as int, e.kind@, Direction::Out));
                    let item = (e.other, e.kind.clone(), Direction::Out);
                    proof {
                        lemma_has_entry_push(adj@, item);
                    }
                    adj.push(item);
                }
                i += 1;
            }
        }
        let ghost mid = adj@.len();
        if direction == Direction::In || direction == Direction::Both {
            let mut i: usize = 0;
            while i < ins.len()
                invariant
                    self.wf(),
                    node < self.n(),
                    ins == &self.inn@[node as int],
                    outs == &self.out@[node as int],
                    direction == Direction::In || direction == Direction::Both,
                    0 <= i <= ins.len(),
                    mid <= adj@.len(),
                    forall|j: int| 0 <= j < adj@.len() ==> {
                        &&& (#[trigger] adj@[j]).0 < self.n()
                        &&& dir_ok(direction, adj@[j].2)
                        &&& allows_spec(edges@, adj@[j].1@)
                        &&& self.labeled(node as int, adj@[j].0 as int, adj@[j].1@, adj@[j].2)
                    },
                    direction == Direction::Both ==> forall|j: int| 0 <= j < outs@.len() && allows_spec(edges@, #[trigger] outs@[j].kind@) ==>
                        has_entry(adj@, outs@[j].other as int, outs@[j].kind@, Direction::Out),
                    forall|j: int| 0 <= j < i && allows_spec(edges@, #[trigger] ins@[j].kind@) ==>
                        has_entry(adj@, ins@[j].other as int, ins@[j].kind@, Direction::In),
                decreases ins.len() - i,
            {
                let e = &ins[i];
                if edges.allows(e.kind.as_str()) {
                    assert(self.labeled(node as int, e.other as int, e.kind@, Direction::In));
                    let item = (e.other, e.kind.clone(), Direction::In);
                    proof {
                        lemma_has_entry_push(adj@, item);
                    }
                    adj.push(item);
                }
                i += 1;
            }
        }
        assert forall|v: int, k: Seq<char>, d: Direction|
            dir_ok(direction, d) && allows_spec(edges@, k) && #[trigger] self.labeled(node as int, v, k, d)
            implies has_entry(adj@, v, k, d) by {
            if d == Direction::Out {
                let j = choose|j: int| 0 <= j < outs@.len() && #[trigger] outs@[j].other == v && outs@[j].kind@ == k;
                assert(allows_spec(edges@, outs@[j].kind@));
            } else {
                let j = choose|j: int| 0 <= j < ins@.len() && #[trigger] ins@[j].other == v && ins@[j].kind@ == k;
                assert(allows_spec(edges@, ins@[j].kind@));
            }
        }
        adj
    }
}


impl Graph {
    /// What a neighbors result claims of one entry: it names a node at
    /// exactly its distance from `s` (between 1 and `depth`), and its kind
    /// and direction are the first edge of some shortest route there.
    pub open spec fn reached_ok(&self, s: int, e: Reached, depth: nat, t: Direction, f: Seq<Seq<char>>) -> bool {
        exists|v: int|
            0 <= v < self.n() && #[trigger] self.id_of(v) == e.id@ && v != s && 1 <= e.distance
                <= depth && self.at_dist(s, v, e.distance as nat, t, f) && self.first_hop(
                s,
                v,
                e.kind@,
                e.direction,
                e.distance as nat,
                t,
                f,
            )
    }

    /// What `neighbors` returns: nothing for a source that is not a node;
    /// otherwise exactly the nodes within `depth` steps (the source
    /// excluded), each at its exact distance with the first edge of a
    /// shortest route there, in (distance, id) order.
    pub open spec fn neighbors_post(&self, source: Seq<Seq<char>>, depth: nat, direction: Direction, f: Seq<Seq<char>>, r: Seq<Reached>) -> bool {
        &&& (forall|i: int| 0 <= i < self.n() ==> self.id_of(i) != source) ==> r.len() == 0
        &&& forall|s: int| 0 <= s < self.n() && self.id_of(s) == source ==> {
            &&& forall|i: int| 0 <= i < r.len() ==> self.reached_ok(s, #[trigger] r[i], depth, direction, f)
            &&& forall|v: int| 0 <= v < self.n() && v != s && #[trigger] self.within(s, v, depth, direction, f)
                ==> exists|i: int| 0 <= i < r.len() && r[i].id@ == self.id_of(v)
        }
        &&& forall|i: int, j: int| 0 <= i < j < r.len() ==>
            (#[trigger] r[i]).distance < (#[trigger] r[j]).distance
            || (r[i].distance == r[j].distance && id_lt(r[i].id@, r[j].id@))
    }

    /// Concepts within `depth` hops of `source`, with the first-hop edge and
    /// the distance, in (distance, id) order. The source is excluded.
    pub fn neighbors(&self, source: &ConceptId, depth: usize, direction: Direction, edges: &EdgeFilter) -> (r: Vec<Reached>)
        requires
            self.wf(),
        ensures
            self.neighbors_post(source@, depth as nat, direction, edges@, r@),
    {
        let s = match self.index_of(source) {
            Some(s) => s,
            None => {
                return Vec::new();
            },
        };
        let n = self.ids.len();
        let ghost t = direction;
        let ghost f = edges@;
        let mut dist: Vec<Option<usize>> = Vec::new();
        let mut hop: Vec<Option<(String, Direction)>> = Vec::new();
        let mut i: usize = 0;
        while i < n
            invariant
                n == self.n(),
                0 <= i <= n,
                dist@.len() == i,
                hop@.len() == i,
                forall|j: int| 0 <= j < i ==> dist@[j] is None && hop@[j] is None,
            decreases n - i,
        {
            dist.push(None);
            hop.push(None);
            i += 1;
        }
        dist.set(s, Some(0));
        proof {
            self.lemma_within_zero(s as int, s as int, t, f);
            assert forall|v: int| 0 <= v < n && #[trigger] self.within(s as int, v, 0, t, f) implies dist@[v] is Some by {
                self.lemma_within_zero(s as int, v, t, f);
            }
        }
        let mut frontier: Vec<usize> = Vec::new();
        frontier.push(s);
        assert(frontier@[0] == s);
        assert(frontier@ == seq![s]);
        let mut level: usize = 0;
        let mut result: Vec<Reached> = Vec::new();
        let ghost mut res_idx: Seq<int> = Seq::empty();
        while level < depth && frontier.len() > 0
            invariant
                self.wf(),
                t == direction,
                f == edges@,
                n == self.n(),
                s < n,
                self.id_of(s as int) == source@,
                level <= depth,
                dist@.len() == n,
                hop@.len() == n,
                dist@[s as int] == Some(0usize),
                level == 0 ==> frontier@ == seq![s],
                forall|v: int| 0 <= v < n && (#[trigger] dist@[v]) is Some ==> dist@[v]->0 <= level
                    && self.at_dist(s as int, v, dist@[v]->0 as nat, t, f),
                forall|v: int| 0 <= v < n && #[trigger] self.within(s as int, v, level as nat, t, f) ==> dist@[v] is Some,
                forall|i: int| 0 <= i < frontier@.len() ==> #[trigger] frontier@[i] < n && dist@[frontier@[i] as int] == Some(level),
                forall|v: int| 0 <= v < n && #[trigger] dist@[v] == Some(level) ==> frontier@.contains(v as usize),
                forall|v: int| 0 <= v < n && (#[trigger] dist@[v]) is Some && dist@[v]->0 >= 1 ==> {
                    &&& hop@[v] is Some
                    &&& self.first_hop(s as int, v, hop@[v].unwrap().0@, hop@[v].unwrap().1, dist@[v]->0 as nat, t, f)
                },
                result@.len() == res_idx.len(),
                forall|i: int| 0 <= i < res_idx.len() ==> {
                    &&& 0 <= #[trigger] res_idx[i] < n
                    &&& result@[i].id@ == self.id_of(res_idx[i])
                    &&& dist@[res_idx[i]] == Some(result@[i].distance)
                    &&& result@[i].distance >= 1
                    &&& hop@[res_idx[i]] == Some((result@[i].kind, result@[i].direction))
                },
                forall|i: int, j: int| 0 <= i < j < res_idx.len() ==>
                    (#[trigger] result@[i]).distance < (#[trigger] result@[j]).distance
                    || (result@[i].distance == result@[j].distance && res_idx[i] < res_idx[j]),
                forall|v: int| 0 <= v < n && (#[trigger] dist@[v]) is Some && dist@[v]->0 >= 1 ==> res_idx.contains(v),
            decreases depth - level,
        {
            let ghost dist0 = dist@;
            let ghost hop0 = hop@;
            let mut next: Vec<usize> = Vec::new();
            let mut fi: usize = 0;
            while fi < frontier.len()
                invariant
                    self.wf(),
                    t == direction,
                    f == edges@,
                    n == self.n(),
                    s < n,
                    level < depth,
                    dist@.len() == n,
                    hop@.len() == n,
                    dist0.len() == n,
                    hop0.len() == n,
                    0 <= fi <= frontier@.len(),
                    level == 0 ==> frontier@ == seq![s],
                    forall|v: int| 0 <= v < n && (#[trigger] dist0[v]) is Some ==> dist@[v] == dist0[v],
                    forall|v: int| 0 <= v < n && (#[trigger] dist@[v]) is Some && dist0[v] is None ==> dist@[v] == Some((level + 1) as usize),
                    forall|v: int| 0 <= v < n && (#[trigger] dist0[v]) is Some ==> dist0[v]->0 <= level
                        && self.at_dist(s as int, v, dist0[v]->0 as nat, t, f),
                    forall|v: int| 0 <= v < n && (#[trigger] dist@[v]) is Some ==> self.at_dist(s as int, v, dist@[v]->0 as nat, t, f),
                    forall|v: int| 0 <= v < n && #[trigger] self.within(s as int, v, level as nat, t, f) ==> dist0[v] is Some,
                    forall|i: int| 0 <= i < frontier@.len() ==> #[trigger] frontier@[i] < n && dist0[frontier@[i] as int] == Some(level),
                    forall|i: int| 0 <= i < next@.len() ==> #[trigger] next@[i] < n && dist@[next@[i] as int] == Some((level + 1) as usize),
                    forall|v: int| 0 <= v < n && #[trigger] dist@[v] == Some((level + 1) as usize) ==> next@.contains(v as usize),
                    forall|j: int, v: int| 0 <= j < fi && #[trigger] self.step(frontier@[j] as int, v, t, f) && 0 <= v < n ==> (#[trigger] dist@[v]) is Some,
                    forall|v: int| 0 <= v < n && (#[trigger] dist@[v]) is Some && dist@[v]->0 >= 1 ==> {
                        &&& hop@[v] is Some
                        &&& self.first_hop(s as int, v, hop@[v].unwrap().0@, hop@[v].unwrap().1, dist@[v]->0 as nat, t, f)
                    },
                    forall|v: int| 0 <= v < n && (#[trigger] dist0[v]) is Some ==> hop@[v] == hop0[v],
                decreases frontier@.len() - fi,
            {
                let u = frontier[fi];
                let adj = self.adjacent(u, direction, edges);
                let mut ai: usize = 0;
                while ai < adj.len()
                    invariant
                        self.wf(),
                        t == direction,
                        f == edges@,
                        n == self.n(),
                        s < n,
                        u < n,
                        u == frontier@[fi as int],
                        fi < frontier@.len(),
                        level < depth,
                        dist@.len() == n,
                        hop@.len() == n,
                        dist0.len() == n,
                        hop0.len() == n,
                        0 <= ai <= adj@.len(),
                        level == 0 ==> u == s,
                        dist0[u as int] == Some(level),
                        forall|i: int| 0 <= i < adj@.len() ==> {
                            &&& (#[trigger] adj@[i]).0 < n
                            &&& dir_ok(direction, adj@[i].2)
                            &&& allows_spec(edges@, adj@[i].1@)
                            &&& self.labeled(u as int, adj@[i].0 as int, adj@[i].1@, adj@[i].2)
                        },
                        forall|v: int| 0 <= v < n && (#[trigger] dist0[v]) is Some ==> dist@[v] == dist0[v],
                        forall|v: int| 0 <= v < n && (#[trigger] dist@[v]) is Some && dist0[v] is None ==> dist@[v] == Some((level + 1) as usize),
                        forall|v: int| 0 <= v < n && (#[trigger] dist0[v]) is Some ==> dist0[v]->0 <= level
                            && self.at_dist(s as int, v, dist0[v]->0 as nat, t, f),
                        forall|v: int| 0 <= v < n && (#[trigger] dist@[v]) is Some ==> self.at_dist(s as int, v, dist@[v]->0 as nat, t, f),
                        forall|v: int| 0 <= v < n && #[trigger] self.within(s as int, v, level as nat, t, f) ==> dist0[v] is Some,
                        forall|i: int| 0 <= i < next@.len() ==> #[trigger] next@[i] < n && dist@[next@[i] as int] == Some((level + 1) as usize),
                        forall|v: int| 0 <= v < n && #[trigger] dist@[v] == Some((level + 1) as usize) ==> next@.contains(v as usize),
                        forall|i: int| 0 <= i < ai ==> (#[trigger] dist@[adj@[i].0 as int]) is Some,
                        forall|w: int, k: Seq<char>, d: Direction|
                            dir_ok(direction, d) && allows_spec(edges@, k) && #[trigger] self.labeled(u as int, w, k, d)
                            ==> has_entry(adj@, w, k, d),
                        forall|j: int, v: int| 0 <= j < fi && #[trigger] self.step(frontier@[j] as int, v, t, f) && 0 <= v < n ==> (#[trigger] dist@[v]) is Some,
                        forall|v: int| 0 <= v < n && (#[trigger] dist@[v]) is Some && dist@[v]->0 >= 1 ==> {
                            &&& hop@[v] is Some
                            &&& self.first_hop(s as int, v, hop@[v].unwrap().0@, hop@[v].unwrap().1, dist@[v]->0 as nat, t, f)
                        },
                        forall|v: int| 0 <= v < n && (#[trigger] dist0[v]) is Some ==> hop@[v] == hop0[v],
                    decreases adj@.len() - ai,
                {
                    let v = adj[ai].0;
                    if dist[v].is_none() {
                        let h: (String, Direction) = if level == 0 {
                            (adj[ai].1.clone(), adj[ai].2)
                        } else {
                            match &hop[u] {
                                Some(x) => (x.0.clone(), x.1),
                                None => (adj[ai].1.clone(), adj[ai].2),
                            }
                        };
                        proof {
                            let k = adj@[ai as int].1@;
                            let dd = adj@[ai as int].2;
                            assert(dir_ok(t, dd) && allows_spec(f, k) && self.labeled(u as int, v as int, k, dd));
                            assert(self.step(u as int, v as int, t, f));
                            assert(self.at_dist(s as int, u as int, level as nat, t, f));
                            self.lemma_within_step(s as int, u as int, v as int, level as nat, t, f);
                            assert(!self.within(s as int, v as int, level as nat, t, f));
                            assert(self.at_dist(s as int, v as int, (level + 1) as nat, t, f));
                            if level == 0 {
                                self.lemma_within_zero(v as int, v as int, t, f);
                                assert(self.labeled(s as int, v as int, k, dd));
                                assert(self.first_hop(s as int, v as int, h.0@, h.1, 1, t, f));
                            } else {
                                assert(dist@[u as int] == Some(level));
                                let hu = hop@[u as int].unwrap();
                                assert(self.first_hop(s as int, u as int, hu.0@, hu.1, level as nat, t, f));
                                let w = choose|w: int| dir_ok(t, hu.1) && allows_spec(f, hu.0@) && #[trigger] self.labeled(s as int, w, hu.0@, hu.1)
                                    && self.within(w, u as int, (level - 1) as nat, t, f);
                                self.lemma_within_step(w, u as int, v as int, (level - 1) as nat, t, f);
                                assert(self.first_hop(s as int, v as int, h.0@, h.1, (level + 1) as nat, t, f));
                            }
                        }
                        dist.set(v, Some(level + 1));
                        hop.set(v, Some(h));
                        proof {
                            lemma_contains_push(next@, v);
                        }
                        next.push(v);
                    }
                    ai += 1;
                }
                proof {
                    assert forall|j: int, w: int| 0 <= j < fi + 1 && #[trigger] self.step(frontier@[j] as int, w, t, f) && 0 <= w < n implies (#[trigger] dist@[w]) is Some by {
                        if j == fi {
                            let (k, d) = choose|k: Seq<char>, d: Direction| dir_ok(t, d) && allows_spec(f, k) && #[trigger] self.labeled(u as int, w, k, d);
                            assert(has_entry(adj@, w, k, d));
                            let m = choose|m: int| 0 <= m < adj@.len() && adj@[m].0 == w && adj@[m].1@ == k && adj@[m].2 == d;
                            assert(dist@[adj@[m].0 as int] is Some);
                        }
                    }
                }
                fi += 1;
            }
            // Every node within level + 1 steps now has a distance.
            proof {
                assert forall|v: int| 0 <= v < n && #[trigger] self.within(s as int, v, (level + 1) as nat, t, f) implies dist@[v] is Some by {
                    self.lemma_within_split(s as int, v, level as nat, t, f);
                    if !self.within(s as int, v, level as nat, t, f) {
                        let u = choose|u: int| 0 <= u < self.n() && #[trigger] self.within(s as int, u, level as nat, t, f) && self.step(u, v, t, f);
                        assert(dist0[u] is Some);
                        let du = dist0[u]->0;
                        if du == level {
                            assert(frontier@.contains(u as usize));
                            let j = choose|j: int| 0 <= j < frontier@.len() && frontier@[j] == u as usize;
                            assert(self.step(frontier@[j] as int, v, t, f));
                        } else {
                            assert(self.within(s as int, u, du as nat, t, f));
                            self.lemma_within_step(s as int, u, v, du as nat, t, f);
                            self.lemma_within_mono(s as int, v, (du + 1) as nat, level as nat, t, f);
                        }
                    }
                }
            }
            // Emit this level's nodes in index (= id) order.
            let ghost res_before = res_idx;
            proof {
                assert forall|i: int| 0 <= i < res_before.len() implies #[trigger] result@[i].distance <= level by {
                    assert(0 <= res_idx[i] < n);
                    assert(dist0[res_idx[i]] == Some(result@[i].distance));
                }
                assert forall|i: int| 0 <= i < res_idx.len() implies dist@[#[trigger] res_idx[i]] == Some(result@[i].distance) by {
                    assert(0 <= res_idx[i] < n);
                    assert(dist0[res_idx[i]] == Some(result@[i].distance));
                }
            }
            let mut v: usize = 0;
            while v < n
                invariant
                    self.wf(),
                    n == self.n(),
                    0 <= v <= n,
                    level < depth,
                    t == direction,
                    f == edges@,
                    forall|w: int| 0 <= w < n && #[trigger] self.within(s as int, w, (level + 1) as nat, t, f) ==> dist@[w] is Some,
                    forall|w: int| 0 <= w < n && (#[trigger] dist@[w]) is Some && dist@[w]->0 >= 1 ==> hop@[w] is Some,
                    dist@.len() == n,
                    hop@.len() == n,
                    res_before.len() <= res_idx.len(),
                    result@.len() == res_idx.len(),
                    forall|i: int| 0 <= i < res_idx.len() ==> {
                        &&& 0 <= #[trigger] res_idx[i] < n
                        &&& result@[i].id@ == self.id_of(res_idx[i])
                        &&& dist@[res_idx[i]] == Some(result@[i].distance)
                        &&& result@[i].distance >= 1
                        &&& hop@[res_idx[i]] == Some((result@[i].kind, result@[i].direction))
                    },
                    forall|i: int| 0 <= i < res_before.len() ==> result@[i].distance <= level,
                    forall|i: int| res_before.len() <= i < res_idx.len() ==> (#[trigger] result@[i]).distance == level + 1,
                    forall|i: int| res_before.len() <= i < res_idx.len() ==> #[trigger] res_idx[i] < v,
                    forall|i: int, j: int| 0 <= i < j < res_idx.len() ==>
                        (#[trigger] result@[i]).distance < (#[trigger] result@[j]).distance
                        || (result@[i].distance == result@[j].distance && res_idx[i] < res_idx[j]),
                    forall|w: int| 0 <= w < n && (#[trigger] dist@[w]) is Some && 1 <= dist@[w]->0 <= level ==> res_idx.contains(w),
                    forall|w: int| 0 <= w < v && #[trigger] dist@[w] == Some((level + 1) as usize) ==> res_idx.contains(w),
                decreases n - v,
            {
                if dist[v] == Some(level + 1) {
                    let (kind, dir) = match &hop[v] {
                        Some(x) => (x.0.clone(), x.1),
                        None => (String::new(), Direction::Out),
                    };
                    let item = Reached { id: self.ids[v].duplicate(), kind, direction: dir, distance: level + 1 };
                    let ghost old_idx = res_idx;
                    let ghost old_res = result@;
                    result.push(item);
                    proof {
                        lemma_contains_push(res_idx, v as int);
                        res_idx = res_idx.push(v as int);
                        assert forall|i: int| res_before.len() <= i < res_idx.len() implies (#[trigger] result@[i]).distance == level + 1 && res_idx[i] < v + 1 by {
                            if i < old_idx.len() {
                                assert(res_idx[i] == old_idx[i]);
                                assert(result@[i] == old_res[i]);
                            }
                        }
                        assert forall|i: int, j: int| 0 <= i < j < res_idx.len() implies
                            (#[trigger] result@[i]).distance < (#[trigger] result@[j]).distance
                            || (result@[i].distance == result@[j].distance && res_idx[i] < res_idx[j]) by {
                            assert(res_idx[i] == old_idx[i]);
                            assert(result@[i] == old_res[i]);
                            if j < old_idx.len() {
                                assert(res_idx[j] == old_idx[j]);
                                assert(result@[j] == old_res[j]);
                            } else if i >= res_before.len() {
                                assert(old_idx[i] < v);
                            } else {
                                assert(old_res[i].distance <= level);
                            }
                        }
                    }
                }
                v += 1;
            }
            frontier = next;
            let ghost lv = level;
            level += 1;
            proof {
                assert forall|w: int| 0 <= w < n && #[trigger] self.within(s as int, w, level as nat, t, f) implies dist@[w] is Some by {
                    assert((level as nat) == ((lv + 1) as nat));
                    assert(self.within(s as int, w, (lv + 1) as nat, t, f));
                }
            }
        }
        proof {
            if level < depth {
                assert(frontier@.len() == 0);
                assert forall|u: int| 0 <= u < self.n() && #[trigger] self.within(s as int, u, level as nat, t, f)
                    implies self.within(s as int, u, (level - 1) as nat, t, f) by {
                    let du = dist@[u]->0;
                    if du == level {
                        assert(frontier@.contains(u as usize));
                    }
                    self.lemma_within_mono(s as int, u, du as nat, (level - 1) as nat, t, f);
                }
                self.lemma_stable(s as int, level as nat, depth as nat, t, f);
            }
            assert forall|v: int| 0 <= v < self.n() && v != s && #[trigger] self.within(s as int, v, depth as nat, t, f)
                implies exists|i: int| 0 <= i < result@.len() && result@[i].id@ == self.id_of(v) by {
                assert(self.within(s as int, v, level as nat, t, f));
                let d = dist@[v]->0;
                if d == 0 {
                    self.lemma_within_zero(s as int, v, t, f);
                }
                assert(res_idx.contains(v));
                let i = choose|i: int| 0 <= i < res_idx.len() && res_idx[i] == v;
                assert(result@[i].id@ == self.id_of(v));
            }
            assert forall|i: int| 0 <= i < result@.len() implies self.reached_ok(s as int, #[trigger] result@[i], depth as nat, t, f) by {
                let v = res_idx[i];
                assert(self.id_of(v) == result@[i].id@);
            }
            assert forall|i: int, j: int| 0 <= i < j < result@.len() implies
                (#[trigger] result@[i]).distance < (#[trigger] result@[j]).distance
                || (result@[i].distance == result@[j].distance && id_lt(result@[i].id@, result@[j].id@)) by {
                assert(self.id_of(res_idx[i]) == result@[i].id@);
            }
            assert forall|s2: int| 0 <= s2 < self.n() && self.id_of(s2) == source@ implies s2 == s by {
                if s2 != s {
                    if s2 < s {
                        assert(id_lt(self.ids@[s2]@, self.ids@[s as int]@));
                    } else {
                        assert(id_lt(self.ids@[s as int]@, self.ids@[s2]@));
                    }
                    lemma_id_lt_irrefl(source@);
                }
            }
        }
        result
    }
}


impl Graph {
    /// One edge of kind `k` from `u` to `v` usable by a traversal.
    pub open spec fn edge_ok(&self, u: int, v: int, k: Seq<char>, t: Direction, f: Seq<Seq<char>>) -> bool {
        exists|d: Direction| dir_ok(t, d) && allows_spec(f, k) && #[trigger] self.labeled(u, v, k, d)
    }

    /// `steps` walks the nodes `nodes`: it names them in order, the first
    /// step has no edge and every later one names the edge kind taken.
    pub open spec fn route_nodes(&self, nodes: Seq<int>, steps: Seq<PathStep>, t: Direction, f: Seq<Seq<char>>) -> bool {
        &&& nodes.len() == steps.len()
        &&& steps.len() >= 1
        &&& forall|i: int| 0 <= i < nodes.len() ==> 0 <= #[trigger] nodes[i] < self.n() && steps[i].id@ == self.id_of(nodes[i])
        &&& steps[0].edge is None
        &&& forall|i: int| 1 <= i < steps.len() ==> (#[trigger] steps[i]).edge is Some && self.edge_ok(
            nodes[i - 1],
            nodes[i],
            steps[i].edge->0@,
            t,
            f,
        )
    }

    /// `steps` is a shortest route from node `a` to node `b`.
    pub open spec fn shortest_route(&self, steps: Seq<PathStep>, a: int, b: int, t: Direction, f: Seq<Seq<char>>) -> bool {
        exists|nodes: Seq<int>|
            #[trigger] self.route_nodes(nodes, steps, t, f) && nodes[0] == a && nodes.last() == b
                && self.at_dist(a, b, (steps.len() - 1) as nat, t, f)
    }

    /// `b` can be reached from `a` at all.
    pub open spec fn reachable(&self, a: int, b: int, t: Direction, f: Seq<Seq<char>>) -> bool {
        exists|d: nat| #[trigger] self.within(a, b, d, t, f)
    }

    /// Every discovered node is at exactly its recorded distance from `sa`.
    #[verifier::opaque]
    pub closed spec fn dists_ok(&self, sa: int, dist: Seq<Option<usize>>, t: Direction, f: Seq<Seq<char>>) -> bool {
        forall|v: int| 0 <= v < self.n() && (#[trigger] dist[v]) is Some ==> self.at_dist(sa, v, dist[v]->0 as nat, t, f)
    }

    /// Every discovered node past the start records a parent one step
    /// nearer, joined to it by an usable edge of the recorded kind.
    #[verifier::opaque]
    pub closed spec fn parents_ok(&self, dist: Seq<Option<usize>>, prev: Seq<Option<(usize, String, Direction)>>, t: Direction, f: Seq<Seq<char>>) -> bool {
        forall|v: int| 0 <= v < self.n() && dist[v] is Some && dist[v]->0 >= 1 ==> {
            &&& (#[trigger] prev[v]) is Some
            &&& prev[v].unwrap().0 < self.n()
            &&& dist[prev[v].unwrap().0 as int] == Some((dist[v]->0 - 1) as usize)
            &&& dir_ok(t, prev[v].unwrap().2)
            &&& allows_spec(f, prev[v].unwrap().1@)
            &&& self.labeled(prev[v].unwrap().0 as int, v, prev[v].unwrap().1@, prev[v].unwrap().2)
        }
    }

    pub open spec fn vset(dist: Seq<Option<usize>>) -> Set<int> {
        Set::new(|v: int| 0 <= v < dist.len() && dist[v] is Some)
    }

    pub proof fn lemma_vset_bound(dist: Seq<Option<usize>>)
        ensures
            Self::vset(dist).finite(),
            Self::vset(dist).len() <= dist.len(),
    {
        lemma_int_range(0, dist.len() as int);
        assert(Self::vset(dist).subset_of(set_int_range(0, dist.len() as int)));
        lemma_len_subset(Self::vset(dist), set_int_range(0, dist.len() as int));
        vstd::set_lib::lemma_set_subset_finite(set_int_range(0, dist.len() as int), Self::vset(dist));
    }

    pub proof fn lemma_vset_insert(dist: Seq<Option<usize>>, v: int, x: usize)
        requires
            0 <= v < dist.len(),
            dist[v] is None,
        ensures
            Self::vset(dist.update(v, Some(x))) == Self::vset(dist).insert(v),
            Self::vset(dist.update(v, Some(x))).len() == Self::vset(dist).len() + 1,
    {
        Self::lemma_vset_bound(dist);
        assert(Self::vset(dist.update(v, Some(x))) =~= Self::vset(dist).insert(v));
        assert(!Self::vset(dist).contains(v));
    }

    /// Scans the edges `adj` out of frontier node `u` (at distance `level`),
    /// discovering unvisited nodes at `level + 1`. Returns `true` as soon as
    /// `sb` is discovered.
    #[verifier::rlimit(40)]
    fn relax_from(
        &self,
        u: usize,
        adj: &Vec<(usize, String, Direction)>,
        level: usize,
        sa: usize,
        sb: usize,
        dist: &mut Vec<Option<usize>>,
        prev: &mut Vec<Option<(usize, String, Direction)>>,
        next: &mut Vec<usize>,
        Ghost(t): Ghost<Direction>,
        Ghost(f): Ghost<Seq<Seq<char>>>,
        Ghost(dist0): Ghost<Seq<Option<usize>>>,
    ) -> (found: bool)
        requires
            self.wf(),
            u < self.n(),
            sa < self.n(),
            sb < self.n(),
            level < self.n(),
            level + 1 <= usize::MAX,
            old(dist)@.len() == self.n(),
            old(prev)@.len() == self.n(),
            dist0.len() == self.n(),
            dist0[u as int] == Some(level),
            old(dist)@[sb as int] is None,
            old(dist)@[sa as int] == Some(0usize),
            forall|i: int| 0 <= i < adj@.len() ==> {
                &&& (#[trigger] adj@[i]).0 < self.n()
                &&& dir_ok(t, adj@[i].2)
                &&& allows_spec(f, adj@[i].1@)
                &&& self.labeled(u as int, adj@[i].0 as int, adj@[i].1@, adj@[i].2)
            },
            forall|v: int| 0 <= v < self.n() && (#[trigger] dist0[v]) is Some ==> old(dist)@[v] == dist0[v],
            forall|v: int| 0 <= v < self.n() && (#[trigger] old(dist)@[v]) is Some && dist0[v] is None ==> old(dist)@[v] == Some((level + 1) as usize),
            forall|v: int| 0 <= v < self.n() && #[trigger] self.within(sa as int, v, level as nat, t, f) ==> dist0[v] is Some,
            self.dists_ok(sa as int, old(dist)@, t, f),
            self.parents_ok(old(dist)@, old(prev)@, t, f),
            forall|i: int| 0 <= i < old(next)@.len() ==> #[trigger] old(next)@[i] < self.n() && old(dist)@[old(next)@[i] as int] == Some((level + 1) as usize),
            forall|v: int| 0 <= v < self.n() && #[trigger] old(dist)@[v] == Some((level + 1) as usize) ==> old(next)@.contains(v as usize),
        ensures
            final(dist)@.len() == self.n(),
            final(prev)@.len() == self.n(),
            final(dist)@[sa as int] == Some(0usize),
            forall|v: int| 0 <= v < self.n() && (#[trigger] old(dist)@[v]) is Some ==> final(dist)@[v] == old(dist)@[v],
            forall|v: int| 0 <= v < self.n() && (#[trigger] old(dist)@[v]) is Some ==> final(prev)@[v] == old(prev)@[v],
            forall|v: int| 0 <= v < self.n() && (#[trigger] final(dist)@[v]) is Some && dist0[v] is None ==> final(dist)@[v] == Some((level + 1) as usize),
            self.dists_ok(sa as int, final(dist)@, t, f),
            self.parents_ok(final(dist)@, final(prev)@, t, f),
            found ==> final(dist)@[sb as int] == Some((level + 1) as usize),
            !found ==> {
                &&& final(dist)@[sb as int] is None
                &&& forall|i: int| 0 <= i < final(next)@.len() ==> #[trigger] final(next)@[i] < self.n() && final(dist)@[final(next)@[i] as int] == Some((level + 1) as usize)
                &&& forall|v: int| 0 <= v < self.n() && #[trigger] final(dist)@[v] == Some((level + 1) as usize) ==> final(next)@.contains(v as usize)
                &&& forall|i: int| 0 <= i < adj@.len() ==> (#[trigger] final(dist)@[adj@[i].0 as int]) is Some
                &&& Self::vset(final(dist)@).len() == Self::vset(old(dist)@).len() + final(next)@.len() - old(next)@.len()
            },
    {
        let mut ai: usize = 0;
        while ai < adj.len()
            invariant
                self.wf(),
                u < self.n(),
                sa < self.n(),
                sb < self.n(),
                level < self.n(),
                level + 1 <= usize::MAX,
                dist@.len() == self.n(),
                prev@.len() == self.n(),
                dist0.len() == self.n(),
                dist0[u as int] == Some(level),
                forall|v: int| 0 <= v < self.n() && (#[trigger] old(dist)@[v]) is Some ==> prev@[v] == old(prev)@[v],
                dist@[sb as int] is None,
                dist@[sa as int] == Some(0usize),
                0 <= ai <= adj@.len(),
                forall|i: int| 0 <= i < adj@.len() ==> {
                    &&& (#[trigger] adj@[i]).0 < self.n()
                    &&& dir_ok(t, adj@[i].2)
                    &&& allows_spec(f, adj@[i].1@)
                    &&& self.labeled(u as int, adj@[i].0 as int, adj@[i].1@, adj@[i].2)
                },
                forall|v: int| 0 <= v < self.n() && (#[trigger] old(dist)@[v]) is Some ==> dist@[v] == old(dist)@[v],
                forall|v: int| 0 <= v < self.n() && (#[trigger] dist0[v]) is Some ==> dist@[v] == dist0[v],
                forall|v: int| 0 <= v < self.n() && (#[trigger] dist@[v]) is Some && dist0[v] is None ==> dist@[v] == Some((level + 1) as usize),
                forall|v: int| 0 <= v < self.n() && #[trigger] self.within(sa as int, v, level as nat, t, f) ==> dist0[v] is Some,
                self.dists_ok(sa as int, dist@, t, f),
                self.parents_ok(dist@, prev@, t, f),
                forall|i: int| 0 <= i < next@.len() ==> #[trigger] next@[i] < self.n() && dist@[next@[i] as int] == Some((level + 1) as usize),
                forall|v: int| 0 <= v < self.n() && #[trigger] dist@[v] == Some((level + 1) as usize) ==> next@.contains(v as usize),
                forall|i: int| 0 <= i < ai ==> (#[trigger] dist@[adj@[i].0 as int]) is Some,
                Self::vset(dist@).len() == Self::vset(old(dist)@).len() + next@.len() - old(next)@.len(),
            decreases adj@.len() - ai,
        {
            let v = adj[ai].0;
            if dist[v].is_none() {
                let k = adj[ai].1.clone();
                let dd = adj[ai].2;
                let ghost d_before = dist@;
                let ghost p_before = prev@;
                proof {
                    reveal(Graph::dists_ok);
                    assert(dir_ok(t, dd) && allows_spec(f, k@) && self.labeled(u as int, v as int, k@, dd));
                    assert(self.step(u as int, v as int, t, f));
                    assert(self.at_dist(sa as int, u as int, level as nat, t, f));
                    self.lemma_within_step(sa as int, u as int, v as int, level as nat, t, f);
                    assert(!self.within(sa as int, v as int, level as nat, t, f));
                    Self::lemma_vset_insert(dist@, v as int, (level + 1) as usize);
                }
                dist.set(v, Some(level + 1));
                prev.set(v, Some((u, k, dd)));
                proof {
                    reveal(Graph::dists_ok);
                    reveal(Graph::parents_ok);
                    assert forall|w: int| 0 <= w < self.n() && dist@[w] is Some && dist@[w]->0 >= 1 implies {
                        &&& (#[trigger] prev@[w]) is Some
                        &&& prev@[w].unwrap().0 < self.n()
                        &&& dist@[prev@[w].unwrap().0 as int] == Some((dist@[w]->0 - 1) as usize)
                        &&& dir_ok(t, prev@[w].unwrap().2)
                        &&& allows_spec(f, prev@[w].unwrap().1@)
                        &&& self.labeled(prev@[w].unwrap().0 as int, w, prev@[w].unwrap().1@, prev@[w].unwrap().2)
                    } by {
                        if w != v {
                            assert(d_before[w] is Some);
                            assert(p_before[w] == prev@[w]);
                            assert(d_before[p_before[w].unwrap().0 as int] is Some);
                        }
                    }
                    assert(self.parents_ok(dist@, prev@, t, f));
                }
                if v == sb {
                    return true;
                }
                proof {
                    lemma_contains_push(next@, v);
                }
                next.push(v);
            }
            ai += 1;
        }
        false
    }

    /// The shortest path from `a` to `b` (unweighted BFS), or `None` if there
    /// is no route. `undirected` ignores edge direction.
    #[verifier::rlimit(60)]
    /// What `shortest_path` returns: the one-step route when the ends are
    /// equal; otherwise a shortest route between the two nodes, or nothing
    /// exactly when there is no route.
    pub open spec fn path_post(&self, a: Seq<Seq<char>>, b: Seq<Seq<char>>, undirected: bool, f: Seq<Seq<char>>, r: Option<Seq<PathStep>>) -> bool {
        &&& a == b ==> (r matches Some(steps) && steps.len() == 1 && steps[0].id@ == a && steps[0].edge is None)
        &&& a != b ==> {
            let t = if undirected { Direction::Both } else { Direction::Out };
            &&& (r matches Some(steps) ==> exists|sa: int, sb: int|
                0 <= sa < self.n() && 0 <= sb < self.n() && #[trigger] self.id_of(sa) == a && #[trigger] self.id_of(sb) == b
                    && self.shortest_route(steps, sa, sb, t, f))
            &&& r is None ==> forall|sa: int, sb: int|
                0 <= sa < self.n() && 0 <= sb < self.n() && #[trigger] self.id_of(sa) == a && #[trigger] self.id_of(sb) == b
                    ==> !self.reachable(sa, sb, t, f)
        }
    }

    pub fn shortest_path(&self, a: &ConceptId, b: &ConceptId, undirected: bool, edges: &EdgeFilter) -> (r: Option<Vec<PathStep>>)
        requires
            self.wf(),
        ensures
            self.path_post(a@, b@, undirected, edges@, match r { Some(v) => Some(v@), None => None }),
    {
        if a.same(b) {
            let mut v = Vec::new();
            v.push(PathStep { id: a.duplicate(), edge: None });
            return Some(v);
        }
        let direction = if undirected { Direction::Both } else { Direction::Out };
        let ghost t = direction;
        let ghost f = edges@;
        let sa = match self.index_of(a) {
            Some(i) => i,
            None => {
                return None;
            },
        };
        let sb = match self.index_of(b) {
            Some(i) => i,
            None => {
                return None;
            },
        };
        proof {
            self.lemma_unique_index(sa as int);
            self.lemma_unique_index(sb as int);
        }
        let n = self.ids.len();
        let mut dist: Vec<Option<usize>> = Vec::new();
        let mut prev: Vec<Option<(usize, String, Direction)>> = Vec::new();
        let mut i: usize = 0;
        while i < n
            invariant
                n == self.n(),
                0 <= i <= n,
                dist@.len() == i,
                prev@.len() == i,
                forall|j: int| 0 <= j < i ==> dist@[j] is None && prev@[j] is None,
            decreases n - i,
        {
            dist.push(None);
            prev.push(None);
            i += 1;
        }
        proof {
            Self::lemma_vset_insert(dist@, sa as int, 0usize);
            assert(Self::vset(dist@) =~= Set::<int>::empty());
        }
        dist.set(sa, Some(0));
        proof {
            reveal(Graph::dists_ok);
            reveal(Graph::parents_ok);
            self.lemma_within_zero(sa as int, sa as int, t, f);
            assert forall|v: int| 0 <= v < n && #[trigger] self.within(sa as int, v, 0, t, f) implies dist@[v] is Some by {
                self.lemma_within_zero(sa as int, v, t, f);
            }
            assert(self.dists_ok(sa as int, dist@, t, f));
            assert(self.parents_ok(dist@, prev@, t, f));
            Self::lemma_vset_bound(dist@);
        }
        let mut frontier: Vec<usize> = Vec::new();
        frontier.push(sa);
        assert(frontier@[0] == sa);
        let mut level: usize = 0;
        loop
            invariant
                self.wf(),
                direction == (if undirected { Direction::Both } else { Direction::Out }),
                t == direction,
                f == edges@,
                n == self.n(),
                sa < n,
                sb < n,
                sa != sb,
                a@ != b@,
                self.id_of(sa as int) == a@,
                self.id_of(sb as int) == b@,
                forall|j: int| 0 <= j < n && #[trigger] self.id_of(j) == b@ ==> j == sb,
                forall|j: int| 0 <= j < n && #[trigger] self.id_of(j) == a@ ==> j == sa,
                dist@.len() == n,
                prev@.len() == n,
                dist@[sa as int] == Some(0usize),
                dist@[sb as int] is None,
                prev@[sa as int] is None,
                forall|v: int| 0 <= v < n && (#[trigger] dist@[v]) is Some ==> dist@[v]->0 <= level,
                self.dists_ok(sa as int, dist@, t, f),
                self.parents_ok(dist@, prev@, t, f),
                forall|v: int| 0 <= v < n && #[trigger] self.within(sa as int, v, level as nat, t, f) ==> dist@[v] is Some,
                forall|i: int| 0 <= i < frontier@.len() ==> #[trigger] frontier@[i] < n && dist@[frontier@[i] as int] == Some(level),
                forall|v: int| 0 <= v < n && #[trigger] dist@[v] == Some(level) ==> frontier@.contains(v as usize),
                level + 1 <= Self::vset(dist@).len(),
            decreases n - Self::vset(dist@).len(),
        {
            proof {
                Self::lemma_vset_bound(dist@);
            }
            let ghost dist0 = dist@;
            let ghost vlen0 = Self::vset(dist@).len();
            assert forall|v: int| 0 <= v < n implies #[trigger] dist@[v] != Some((level + 1) as usize) by {
                if dist@[v] is Some {
                    assert(dist@[v]->0 <= level);
                }
            }
            let mut next: Vec<usize> = Vec::new();
            let mut fi: usize = 0;
            while fi < frontier.len()
                invariant
                    self.wf(),
                    t == direction,
                    f == edges@,
                    n == self.n(),
                    sa < n,
                    sb < n,
                    level < n,
                    n <= usize::MAX,
                    a@ != b@,
                    self.id_of(sa as int) == a@,
                    self.id_of(sb as int) == b@,
                    direction == (if undirected { Direction::Both } else { Direction::Out }),
                    dist@.len() == n,
                    prev@.len() == n,
                    dist0.len() == n,
                    0 <= fi <= frontier@.len(),
                    dist@[sa as int] == Some(0usize),
                    dist@[sb as int] is None,
                    prev@[sa as int] is None,
                    forall|v: int| 0 <= v < n && (#[trigger] dist0[v]) is Some ==> dist@[v] == dist0[v],
                    forall|v: int| 0 <= v < n && (#[trigger] dist@[v]) is Some && dist0[v] is None ==> dist@[v] == Some((level + 1) as usize),
                    forall|v: int| 0 <= v < n && (#[trigger] dist0[v]) is Some ==> dist0[v]->0 <= level,
                    forall|v: int| 0 <= v < n && #[trigger] self.within(sa as int, v, level as nat, t, f) ==> dist0[v] is Some,
                    self.dists_ok(sa as int, dist@, t, f),
                    self.parents_ok(dist@, prev@, t, f),
                    forall|i: int| 0 <= i < frontier@.len() ==> #[trigger] frontier@[i] < n && dist0[frontier@[i] as int] == Some(level),
                    forall|i: int| 0 <= i < next@.len() ==> #[trigger] next@[i] < n && dist@[next@[i] as int] == Some((level + 1) as usize),
                    forall|v: int| 0 <= v < n && #[trigger] dist@[v] == Some((level + 1) as usize) ==> next@.contains(v as usize),
                    forall|j: int, v: int| 0 <= j < fi && #[trigger] self.step(frontier@[j] as int, v, t, f) && 0 <= v < n ==> (#[trigger] dist@[v]) is Some,
                    Self::vset(dist@).len() == vlen0 + next@.len(),
                decreases frontier@.len() - fi,
            {
                let u = frontier[fi];
                let adj = self.adjacent(u, direction, edges);
                let ghost d_before = dist@;
                let found = self.relax_from(u, &adj, level, sa, sb, &mut dist, &mut prev, &mut next, Ghost(t), Ghost(f), Ghost(dist0));
                if found {
                    proof {
                        reveal(Graph::dists_ok);
                        reveal(Graph::parents_ok);
                        assert(self.at_dist(sa as int, sb as int, (level + 1) as nat, t, f));
                        assert forall|v: int| 0 <= v < self.n() && (#[trigger] dist@[v]) is Some && dist@[v]->0 == 0 implies v == sa by {
                            self.lemma_within_zero(sa as int, v, t, f);
                        }
                    }
                    return Some(self.reconstruct(sa, sb, &dist, &prev, Ghost(t), Ghost(f)));
                }
                proof {
                    assert forall|j: int, w: int| 0 <= j < fi + 1 && #[trigger] self.step(frontier@[j] as int, w, t, f) && 0 <= w < n implies (#[trigger] dist@[w]) is Some by {
                        if j == fi {
                            let (k, d) = choose|k: Seq<char>, d: Direction| dir_ok(t, d) && allows_spec(f, k) && #[trigger] self.labeled(u as int, w, k, d);
                            assert(has_entry(adj@, w, k, d));
                            let m = choose|m: int| 0 <= m < adj@.len() && adj@[m].0 == w && adj@[m].1@ == k && adj@[m].2 == d;
                            assert(dist@[adj@[m].0 as int] is Some);
                        } else {
                            assert(d_before[w] is Some);
                        }
                    }
                }
                fi += 1;
            }
            proof {
                reveal(Graph::dists_ok);
                assert forall|v: int| 0 <= v < n && #[trigger] self.within(sa as int, v, (level + 1) as nat, t, f) implies dist@[v] is Some by {
                    self.lemma_within_split(sa as int, v, level as nat, t, f);
                    if !self.within(sa as int, v, level as nat, t, f) {
                        let u = choose|u: int| 0 <= u < self.n() && #[trigger] self.within(sa as int, u, level as nat, t, f) && self.step(u, v, t, f);
                        assert(dist0[u] is Some);
                        let du = dist0[u]->0;
                        if du == level {
                            assert(frontier@.contains(u as usize));
                            let j = choose|j: int| 0 <= j < frontier@.len() && frontier@[j] == u as usize;
                            assert(self.step(frontier@[j] as int, v, t, f));
                        } else {
                            assert(self.within(sa as int, u, du as nat, t, f));
                            self.lemma_within_step(sa as int, u, v, du as nat, t, f);
                            self.lemma_within_mono(sa as int, v, (du + 1) as nat, level as nat, t, f);
                        }
                    }
                }
                Self::lemma_vset_bound(dist@);
            }
            if next.len() == 0 {
                proof {
                    reveal(Graph::dists_ok);
                    let l1 = (level + 1) as nat;
                    assert forall|u: int| 0 <= u < self.n() && #[trigger] self.within(sa as int, u, l1, t, f)
                        implies self.within(sa as int, u, (l1 - 1) as nat, t, f) by {
                        let du = dist@[u]->0;
                        if du == level + 1 {
                            assert(next@.contains(u as usize));
                        }
                        self.lemma_within_mono(sa as int, u, du as nat, level as nat, t, f);
                    }
                    assert forall|d: nat| !#[trigger] self.within(sa as int, sb as int, d, t, f) by {
                        if self.within(sa as int, sb as int, d, t, f) {
                            if d >= l1 {
                                self.lemma_stable(sa as int, l1, d, t, f);
                            } else {
                                self.lemma_within_mono(sa as int, sb as int, d, l1, t, f);
                            }
                        }
                    }
                }
                return None;
            }
            frontier = next;
            let ghost lv = level;
            level += 1;
            proof {
                assert forall|w: int| 0 <= w < n && #[trigger] self.within(sa as int, w, level as nat, t, f) implies dist@[w] is Some by {
                    assert((level as nat) == ((lv + 1) as nat));
                    assert(self.within(sa as int, w, (lv + 1) as nat, t, f));
                }
            }
        }
    }

    /// Distinct indices name distinct ids.
    pub proof fn lemma_unique_index(&self, s: int)
        requires
            self.wf(),
            0 <= s < self.n(),
        ensures
            forall|j: int| 0 <= j < self.n() && #[trigger] self.id_of(j) == self.id_of(s) ==> j == s,
    {
        assert forall|j: int| 0 <= j < self.n() && #[trigger] self.id_of(j) == self.id_of(s) implies j == s by {
            if j < s {
                assert(id_lt(self.ids@[j]@, self.ids@[s]@));
                lemma_id_lt_irrefl(self.id_of(s));
            } else if j > s {
                assert(id_lt(self.ids@[s]@, self.ids@[j]@));
                lemma_id_lt_irrefl(self.id_of(s));
            }
        }
    }

    /// Follows `prev` back from `b` to `a` and returns the route a → b.
    #[verifier::rlimit(60)]
    fn reconstruct(
        &self,
        sa: usize,
        sb: usize,
        dist: &Vec<Option<usize>>,
        prev: &Vec<Option<(usize, String, Direction)>>,
        Ghost(t): Ghost<Direction>,
        Ghost(f): Ghost<Seq<Seq<char>>>,
    ) -> (r: Vec<PathStep>)
        requires
            self.wf(),
            sa < self.n(),
            sb < self.n(),
            dist@.len() == self.n(),
            prev@.len() == self.n(),
            dist@[sa as int] == Some(0usize),
            prev@[sa as int] is None,
            dist@[sb as int] is Some,
            self.at_dist(sa as int, sb as int, dist@[sb as int]->0 as nat, t, f),
            forall|v: int| 0 <= v < self.n() && (#[trigger] dist@[v]) is Some && dist@[v]->0 == 0 ==> v == sa,
            self.parents_ok(dist@, prev@, t, f),
        ensures
            self.shortest_route(r@, sa as int, sb as int, t, f),
    {
        proof {
            reveal(Graph::parents_ok);
        }
        let back = self.walk_back(sa, sb, dist, prev);
        let len = back.len();
        let ghost total = (len - 1) as int;
        let mut steps: Vec<PathStep> = Vec::new();
        let ghost mut nodes: Seq<int> = Seq::empty();
        let mut j: usize = 0;
        while j < len
            invariant
                self.wf(),
                len == back@.len(),
                len >= 1,
                0 <= j <= len,
                steps@.len() == j,
                nodes.len() == j,
                dist@.len() == self.n(),
                prev@.len() == self.n(),
                back@.last() == sa,
                prev@[sa as int] is None,
                forall|i: int| 0 <= i < len ==> #[trigger] back@[i] < self.n(),
                forall|i: int| 0 <= i < j ==> #[trigger] nodes[i] == back@[len - 1 - i],
                forall|i: int| 0 <= i < j ==> #[trigger] steps@[i].id@ == self.id_of(nodes[i]),
                forall|i: int| 0 <= i < j ==> (#[trigger] steps@[i]).edge == match prev@[nodes[i]] {
                    Some(x) => Some(x.1),
                    None => None,
                },
            decreases len - j,
        {
            let node = back[len - 1 - j];
            let edge = match &prev[node] {
                Some(x) => Some(x.1.clone()),
                None => None,
            };
            steps.push(PathStep { id: self.ids[node].duplicate(), edge });
            proof {
                nodes = nodes.push(node as int);
            }
            j += 1;
        }
        proof {
            reveal(Graph::parents_ok);
            assert forall|i: int| 1 <= i < steps@.len() implies (#[trigger] steps@[i]).edge is Some && self.edge_ok(
                nodes[i - 1],
                nodes[i],
                steps@[i].edge->0@,
                t,
                f,
            ) by {
                let bi = len - 1 - i;
                assert(nodes[i] == back@[bi]);
                assert(nodes[i - 1] == back@[bi + 1]);
                let v = back@[bi] as int;
                assert(dist@[v] is Some && dist@[v]->0 == total - bi);
                assert(prev@[v] is Some);
                assert(self.labeled(prev@[v].unwrap().0 as int, v, prev@[v].unwrap().1@, prev@[v].unwrap().2));
            }
            assert(nodes[0] == sa);
            assert(steps@[0].edge is None);
            assert(nodes.last() == back@[0]);
            assert(self.route_nodes(nodes, steps@, t, f));
        }
        steps
    }

    /// The node indices b, parent of b, ..., a.
    #[verifier::rlimit(100)]
    fn walk_back(
        &self,
        sa: usize,
        sb: usize,
        dist: &Vec<Option<usize>>,
        prev: &Vec<Option<(usize, String, Direction)>>,
    ) -> (back: Vec<usize>)
        requires
            self.wf(),
            sa < self.n(),
            sb < self.n(),
            dist@.len() == self.n(),
            prev@.len() == self.n(),
            dist@[sb as int] is Some,
            dist@[sa as int] == Some(0usize),
            forall|v: int| 0 <= v < self.n() && (#[trigger] dist@[v]) is Some && dist@[v]->0 == 0 ==> v == sa,
            forall|v: int| 0 <= v < self.n() && dist@[v] is Some && dist@[v]->0 >= 1 ==> {
                &&& (#[trigger] prev@[v]) is Some
                &&& prev@[v].unwrap().0 < self.n()
                &&& dist@[prev@[v].unwrap().0 as int] == Some((dist@[v]->0 - 1) as usize)
            },
        ensures
            back@.len() == dist@[sb as int]->0 + 1,
            back@[0] == sb,
            back@.last() == sa,
            forall|i: int| 0 <= i < back@.len() ==> #[trigger] back@[i] < self.n() && dist@[back@[i] as int] is Some
                && dist@[back@[i] as int]->0 == back@.len() - 1 - i,
            forall|i: int| 0 <= i < back@.len() - 1 ==> #[trigger] prev@[back@[i] as int] is Some
                && prev@[back@[i] as int].unwrap().0 == back@[i + 1],
    {
        let mut back: Vec<usize> = Vec::new();
        let mut cur = sb;
        back.push(sb);
        let total = match dist[sb] {
            Some(d) => d,
            None => 0,
        };
        while cur != sa
            invariant
                sa < self.n(),
                cur < self.n(),
                dist@.len() == self.n(),
                prev@.len() == self.n(),
                dist@[cur as int] is Some,
                dist@[sa as int] == Some(0usize),
                back@.len() >= 1,
                back@[0] == sb,
                back@.last() == cur,
                back@.len() + dist@[cur as int]->0 == total + 1,
                total == dist@[sb as int]->0,
                forall|i: int| 0 <= i < back@.len() ==> #[trigger] back@[i] < self.n() && dist@[back@[i] as int] is Some
                    && dist@[back@[i] as int]->0 == total - i,
                forall|i: int| 0 <= i < back@.len() - 1 ==> #[trigger] prev@[back@[i] as int] is Some
                    && prev@[back@[i] as int].unwrap().0 == back@[i + 1],
                forall|v: int| 0 <= v < self.n() && (#[trigger] dist@[v]) is Some && dist@[v]->0 == 0 ==> v == sa,
                forall|v: int| 0 <= v < self.n() && dist@[v] is Some && dist@[v]->0 >= 1 ==> {
                    &&& (#[trigger] prev@[v]) is Some
                    &&& prev@[v].unwrap().0 < self.n()
                    &&& dist@[prev@[v].unwrap().0 as int] == Some((dist@[v]->0 - 1) as usize)
                },
            decreases dist@[cur as int]->0,
        {
            let p = match &prev[cur] {
                Some(x) => x.0,
                None => sa,
            };
            let ghost before = back@;
            back.push(p);
            cur = p;
            proof {
                assert(back@[back@.len() - 2] == before.last());
                assert forall|i: int| 0 <= i < back@.len() - 1 implies #[trigger] prev@[back@[i] as int] is Some
                    && prev@[back@[i] as int].unwrap().0 == back@[i + 1] by {
                    if i < before.len() - 1 {
                        assert(back@[i] == before[i] && back@[i + 1] == before[i + 1]);
                    }
                }
                assert forall|i: int| 0 <= i < back@.len() implies #[trigger] back@[i] < self.n() && dist@[back@[i] as int] is Some
                    && dist@[back@[i] as int]->0 == total - i by {
                    if i < before.len() {
                        assert(back@[i] == before[i]);
                    }
                }
            }
        }
        back
    }
}


// ---------------------------------------------------------------------------
// Building the graph from a bundle.

/// Adjacency entries as (node, kind).
pub open spec fn half_views(s: Seq<HalfEdge>) -> Seq<(int, Seq<char>)> {
    s.map_values(|h: HalfEdge| (h.other as int, h.kind@))
}

/// A concept's name: its id's last segment.
pub open spec fn id_name(id: Seq<Seq<char>>) -> Seq<char> {
    if id.len() > 0 {
        id.last()
    } else {
        seq![]
    }
}

pub open spec fn lower_all(s: Seq<Seq<char>>) -> Seq<Seq<char>> {
    s.map_values(|a: Seq<char>| unicode_lower_str(a))
}

/// Dead links as reported: (source, target as written, kind, class).
pub open spec fn dead_link_views(s: Seq<DeadLink>) -> Seq<(Seq<Seq<char>>, Seq<char>, Seq<char>, DeadClass)> {
    s.map_values(|d: DeadLink| (d.source@, d.raw@, d.kind@, d.class))
}

/// Ordered by source, then target as written.
pub open spec fn dead_le(a: (Seq<Seq<char>>, Seq<char>, Seq<char>, DeadClass), b: (Seq<Seq<char>>, Seq<char>, Seq<char>, DeadClass)) -> bool {
    id_lt(a.0, b.0) || (a.0 == b.0 && !chars_lt(b.1, a.1))
}

pub open spec fn dead_sorted(s: Seq<(Seq<Seq<char>>, Seq<char>, Seq<char>, DeadClass)>) -> bool {
    forall|i: int, j: int| 0 <= i < j < s.len() ==> dead_le(#[trigger] s[i], #[trigger] s[j])
}

/// One source's dead links, with the source attached.
pub open spec fn attach(src: Seq<Seq<char>>, d: DeadItems) -> Seq<(Seq<Seq<char>>, Seq<char>, Seq<char>, DeadClass)> {
    d.map_values(|x: (Seq<char>, Seq<char>, DeadClass)| (src, x.0, x.1, x.2))
}

/// The entries with this source and this target, in order.
pub open spec fn with_src_raw(s: Seq<(Seq<Seq<char>>, Seq<char>, Seq<char>, DeadClass)>, src: Seq<Seq<char>>, r: Seq<char>) -> Seq<(Seq<Seq<char>>, Seq<char>, Seq<char>, DeadClass)>
    decreases s.len(),
{
    if s.len() == 0 {
        seq![]
    } else if s.last().0 == src && s.last().1 == r {
        with_src_raw(s.drop_last(), src, r).push(s.last())
    } else {
        with_src_raw(s.drop_last(), src, r)
    }
}

proof fn lemma_with_src_raw_concat(a: Seq<(Seq<Seq<char>>, Seq<char>, Seq<char>, DeadClass)>, b: Seq<(Seq<Seq<char>>, Seq<char>, Seq<char>, DeadClass)>, src: Seq<Seq<char>>, r: Seq<char>)
    ensures
        with_src_raw(a + b, src, r) == with_src_raw(a, src, r) + with_src_raw(b, src, r),
    decreases b.len(),
{
    if b.len() == 0 {
        assert(a + b =~= a);
        assert(with_src_raw(a, src, r) + with_src_raw(b, src, r) =~= with_src_raw(a, src, r));
    } else {
        lemma_with_src_raw_concat(a, b.drop_last(), src, r);
        assert((a + b).drop_last() =~= a + b.drop_last());
        assert((a + b).last() == b.last());
        assert(with_src_raw(a, src, r) + with_src_raw(b.drop_last(), src, r).push(b.last())
            =~= (with_src_raw(a, src, r) + with_src_raw(b.drop_last(), src, r)).push(b.last()));
    }
}

proof fn lemma_with_src_raw_attach(id: Seq<Seq<char>>, d: DeadItems, src: Seq<Seq<char>>, r: Seq<char>)
    ensures
        with_src_raw(attach(id, d), src, r) == if src == id { attach(id, with_raw(d, r)) } else { seq![] },
    decreases d.len(),
{
    if d.len() > 0 {
        lemma_with_src_raw_attach(id, d.drop_last(), src, r);
        assert(attach(id, d).drop_last() =~= attach(id, d.drop_last()));
        assert(attach(id, d).last() == (id, d.last().0, d.last().1, d.last().2));
        if src == id && d.last().0 == r {
            assert(attach(id, with_raw(d.drop_last(), r).push(d.last())) =~= attach(id, with_raw(d.drop_last(), r)).push(
                (id, d.last().0, d.last().1, d.last().2)));
        }
    } else {
        assert(attach(id, d) =~= Seq::<(Seq<Seq<char>>, Seq<char>, Seq<char>, DeadClass)>::empty());
        assert(attach(id, with_raw(d, r)) =~= Seq::<(Seq<Seq<char>>, Seq<char>, Seq<char>, DeadClass)>::empty());
    }
}

/// The entries of `s` that point at `v`, re-pointed at `u`.
pub open spec fn col(s: Seq<(int, Seq<char>)>, v: int, u: int) -> Seq<(int, Seq<char>)>
    decreases s.len(),
{
    if s.len() == 0 {
        seq![]
    } else if s.last().0 == v {
        col(s.drop_last(), v, u).push((u, s.last().1))
    } else {
        col(s.drop_last(), v, u)
    }
}

fn is_hidden(hidden: &Vec<ConceptId>, id: &ConceptId) -> (r: bool)
    ensures
        r == crate::concept::id_views(hidden@).contains(id@),
{
    let ghost hv = crate::concept::id_views(hidden@);
    let mut i: usize = 0;
    while i < hidden.len()
        invariant
            0 <= i <= hidden.len(),
            hv == crate::concept::id_views(hidden@),
            forall|k: int| 0 <= k < i ==> hv[k] != id@,
        decreases hidden.len() - i,
    {
        if hidden[i].same(id) {
            assert(hv[i as int] == id@);
            return true;
        }
        i += 1;
    }
    false
}

/// The visible concepts (indices into the bundle), in id order.
fn visible_order(bundle: &Bundle, hidden: &Vec<ConceptId>) -> (r: Vec<usize>)
    requires
        bundle.wf(),
    ensures
        forall|i: int| 0 <= i < r@.len() ==> (#[trigger] r@[i]) < bundle.concepts_view().len()
            && !crate::concept::id_views(hidden@).contains(bundle.concepts_view()[r@[i] as int].id@),
        forall|i: int, j: int| 0 <= i < j < r@.len() ==> id_lt(
            bundle.concepts_view()[(#[trigger] r@[i]) as int].id@, bundle.concepts_view()[(#[trigger] r@[j]) as int].id@),
        forall|j: int| 0 <= j < bundle.concepts_view().len() && !crate::concept::id_views(hidden@).contains(
            #[trigger] bundle.concepts_view()[j].id@) ==> exists|i: int| 0 <= i < r@.len() && r@[i] == j,
{
    let b = bundle.concepts();
    let ghost bv = bundle.concepts_view();
    let ghost hv = crate::concept::id_views(hidden@);
    let mut r: Vec<usize> = Vec::new();
    let mut j: usize = 0;
    while j < b.len()
        invariant
            b@ == bv,
            bv == bundle.concepts_view(),
            bundle.wf(),
            hv == crate::concept::id_views(hidden@),
            0 <= j <= b.len(),
            forall|i: int| 0 <= i < r@.len() ==> (#[trigger] r@[i]) < j && !hv.contains(bv[r@[i] as int].id@),
            forall|i: int, k: int| 0 <= i < k < r@.len() ==> id_lt(bv[(#[trigger] r@[i]) as int].id@, bv[(#[trigger] r@[k]) as int].id@),
            forall|j2: int| 0 <= j2 < j && !hv.contains(#[trigger] bv[j2].id@) ==> exists|i: int| 0 <= i < r@.len() && r@[i] == j2,
        decreases b.len() - j,
    {
        if !is_hidden(hidden, &b[j].id) {
            let ghost idj = bv[j as int].id@;
            let mut p: usize = 0;
            while p < r.len() && !b[j].id.less(&b[r[p]].id)
                invariant
                    b@ == bv,
                    bv == bundle.concepts_view(),
                    idj == bv[j as int].id@,
                    j < b.len(),
                    0 <= p <= r.len(),
                    forall|i: int| 0 <= i < r@.len() ==> (#[trigger] r@[i]) < j,
                    forall|q: int| 0 <= q < p ==> !id_lt(idj, bv[(#[trigger] r@[q]) as int].id@),
                decreases r.len() - p,
            {
                p += 1;
            }
            let ghost old_r = r@;
            proof {
                assert forall|q: int| 0 <= q < p implies id_lt(bv[(#[trigger] old_r[q]) as int].id@, idj) by {
                    crate::concept::lemma_id_lt_total(bv[old_r[q] as int].id@, idj);
                    assert(bv[old_r[q] as int].id@ != idj) by {
                        assert(Bundle::distinct_ids(bv));
                        assert(bv[old_r[q] as int].id@ != bv[j as int].id@);
                    }
                }
                assert forall|q: int| p <= q < old_r.len() implies id_lt(idj, bv[(#[trigger] old_r[q]) as int].id@) by {
                    if q > p {
                        lemma_id_lt_trans(idj, bv[old_r[p as int] as int].id@, bv[old_r[q] as int].id@);
                    }
                }
            }
            r.insert(p, j);
            proof {
                assert(r@ =~= old_r.insert(p as int, j));
                assert forall|i: int, k: int| 0 <= i < k < r@.len() implies id_lt(bv[(#[trigger] r@[i]) as int].id@, bv[(#[trigger] r@[k]) as int].id@) by {
                    if i < p && k == p {
                    } else if i == p && k > p {
                        assert(r@[k] == old_r[k - 1]);
                    } else if i < p && k > p {
                        assert(r@[k] == old_r[k - 1]);
                        lemma_id_lt_trans(bv[old_r[i] as int].id@, idj, bv[old_r[k - 1] as int].id@);
                    } else if k < p {
                    } else {
                        assert(r@[i] == old_r[i - 1] && r@[k] == old_r[k - 1]);
                    }
                }
                assert forall|j2: int| 0 <= j2 < j + 1 && !hv.contains(#[trigger] bv[j2].id@) implies exists|i: int| 0 <= i < r@.len() && r@[i] == j2 by {
                    if j2 == j {
                        assert(r@[p as int] == j2);
                    } else {
                        let i = choose|i: int| 0 <= i < old_r.len() && old_r[i] == j2;
                        if i < p {
                            assert(r@[i] == j2);
                        } else {
                            assert(r@[i + 1] == j2);
                        }
                    }
                }
            }
        } else {
            proof {
                assert forall|j2: int| 0 <= j2 < j + 1 && !hv.contains(#[trigger] bv[j2].id@) implies exists|i: int| 0 <= i < r@.len() && r@[i] == j2 by {
                }
            }
        }
        j += 1;
    }
    r
}

/// A node's lowercased name.
fn node_name(id: &ConceptId) -> (r: String)
    ensures
        r@ == unicode_lower_str(id_name(id@)),
{
    let segs = id.segments();
    if segs.len() > 0 {
        assert(string_views(segs@).last() == segs@[segs.len() - 1]@);
        str_lowercase(segs[segs.len() - 1].as_str())
    } else {
        proof {
            reveal_strlit("");
        }
        assert(""@ =~= Seq::<char>::empty());
        str_lowercase("")
    }
}

/// A concept's aliases, lowercased.
fn lowered_aliases(c: &Concept) -> (r: Vec<String>)
    ensures
        string_views(r@) == lower_all(aliases_spec(*c)),
{
    let a = concept_aliases(c);
    let mut r: Vec<String> = Vec::new();
    let mut i: usize = 0;
    while i < a.len()
        invariant
            0 <= i <= a.len(),
            string_views(a@) == aliases_spec(*c),
            string_views(r@) == lower_all(string_views(a@)).take(i as int),
        decreases a.len() - i,
    {
        let l = str_lowercase(a[i].as_str());
        let ghost before = r@;
        r.push(l);
        assert(string_views(r@) =~= lower_all(string_views(a@)).take(i + 1)) by {
            assert(string_views(r@) =~= string_views(before).push(l@));
        }
        i += 1;
    }
    assert(lower_all(string_views(a@)).take(a.len() as int) =~= lower_all(string_views(a@)));
    r
}

fn to_half(v: &Vec<(usize, String)>) -> (r: Vec<HalfEdge>)
    ensures
        half_views(r@) == edge_views(v@),
{
    let mut r: Vec<HalfEdge> = Vec::new();
    let mut i: usize = 0;
    while i < v.len()
        invariant
            0 <= i <= v.len(),
            half_views(r@) == edge_views(v@).take(i as int),
        decreases v.len() - i,
    {
        let h = HalfEdge { other: v[i].0, kind: v[i].1.clone() };
        let ghost before = r@;
        r.push(h);
        assert(half_views(r@) =~= edge_views(v@).take(i + 1)) by {
            assert(half_views(r@) =~= half_views(before).push((h.other as int, h.kind@)));
        }
        i += 1;
    }
    assert(edge_views(v@).take(v.len() as int) =~= edge_views(v@));
    r
}

fn append_dead(dead: &mut Vec<DeadLink>, src: &ConceptId, items: &Vec<(String, String, DeadClass)>)
    ensures
        dead_link_views(final(dead)@) == dead_link_views(old(dead)@) + attach(src@, dead_views(items@)),
{
    let ghost d0 = dead_link_views(dead@);
    let mut i: usize = 0;
    assert(d0 + attach(src@, dead_views(items@)).take(0) =~= d0);
    while i < items.len()
        invariant
            0 <= i <= items.len(),
            dead_link_views(dead@) == d0 + attach(src@, dead_views(items@)).take(i as int),
        decreases items.len() - i,
    {
        let d = DeadLink {
            source: src.duplicate(),
            raw: items[i].0.clone(),
            kind: items[i].1.clone(),
            class: items[i].2,
        };
        let ghost before = dead@;
        dead.push(d);
        assert(dead_link_views(dead@) =~= d0 + attach(src@, dead_views(items@)).take(i + 1)) by {
            assert(dead_link_views(dead@) =~= dead_link_views(before).push((d.source@, d.raw@, d.kind@, d.class)));
        }
        i += 1;
    }
    assert(attach(src@, dead_views(items@)).take(items.len() as int) =~= attach(src@, dead_views(items@)));
}

proof fn lemma_count_push(s: Seq<(int, Seq<char>)>, x: (int, Seq<char>), e: (int, Seq<char>))
    ensures
        count_edge(s.push(x), e) == count_edge(s, e) + if x == e { 1nat } else { 0nat },
{
    assert(s.push(x).drop_last() =~= s);
}

/// The inbound list of node `v`: every edge into `v`, by source then kind.
fn in_row(out: &Vec<Vec<HalfEdge>>, v: usize) -> (row: Vec<HalfEdge>)
    requires
        forall|u: int| 0 <= u < out@.len() ==> edges_sorted(#[trigger] half_views(out@[u]@)),
    ensures
        edges_sorted(half_views(row@)),
        forall|m: int| 0 <= m < row@.len() ==> (#[trigger] row@[m]).other < out@.len(),
        forall|u: int, k: Seq<char>| #[trigger] count_edge(half_views(row@), (u, k))
            == if 0 <= u < out@.len() { count_edge(half_views(out@[u]@), (v as int, k)) } else { 0 },
{
    let mut row: Vec<HalfEdge> = Vec::new();
    let mut u: usize = 0;
    while u < out.len()
        invariant
            0 <= u <= out.len(),
            forall|w: int| 0 <= w < out@.len() ==> edges_sorted(#[trigger] half_views(out@[w]@)),
            edges_sorted(half_views(row@)),
            forall|m: int| 0 <= m < row@.len() ==> (#[trigger] row@[m]).other < u,
            forall|w: int, k: Seq<char>| #[trigger] count_edge(half_views(row@), (w, k))
                == if 0 <= w < u { count_edge(half_views(out@[w]@), (v as int, k)) } else { 0 },
        decreases out.len() - u,
    {
        let es = &out[u];
        let ghost ev = half_views(es@);
        let mut i: usize = 0;
        assert(ev.take(0) =~= Seq::<(int, Seq<char>)>::empty());
        while i < es.len()
            invariant
                0 <= u < out.len(),
                es == &out@[u as int],
                ev == half_views(es@),
                edges_sorted(ev),
                0 <= i <= es.len(),
                edges_sorted(half_views(row@)),
                forall|m: int| 0 <= m < row@.len() ==> (#[trigger] row@[m]).other <= u,
                forall|m: int, j: int| 0 <= m < row@.len() && i <= j < ev.len() && ev[j].0 == v ==>
                    edge_le(#[trigger] half_views(row@)[m], (u as int, (#[trigger] ev[j]).1)),
                forall|w: int, k: Seq<char>| #[trigger] count_edge(half_views(row@), (w, k))
                    == if 0 <= w < u { count_edge(half_views(out@[w]@), (v as int, k)) } else if w == u {
                        count_edge(ev.take(i as int), (v as int, k))
                    } else { 0 },
            decreases es.len() - i,
        {
            assert(ev.take(i + 1).drop_last() =~= ev.take(i as int));
            assert(ev.take(i + 1).last() == ev[i as int]);
            if es[i].other == v {
                let h = HalfEdge { other: u, kind: es[i].kind.clone() };
                let ghost rv = half_views(row@);
                let ghost hv = (u as int, h.kind@);
                row.push(h);
                proof {
                    let nv = half_views(row@);
                    assert(nv =~= rv.push(hv));
                    assert forall|a: int, b: int| 0 <= a < b < nv.len() implies edge_le(#[trigger] nv[a], #[trigger] nv[b]) by {
                        if b == rv.len() {
                            assert(edge_le(half_views(row@)[a], (u as int, ev[i as int].1)));
                        }
                    }
                    assert forall|m: int, j: int| 0 <= m < nv.len() && i + 1 <= j < ev.len() && ev[j].0 == v implies
                        edge_le(#[trigger] half_views(row@)[m], (u as int, (#[trigger] ev[j]).1)) by {
                        if m == rv.len() {
                            assert(edge_le(ev[i as int], ev[j]));
                        }
                    }
                    assert forall|w: int, k: Seq<char>| #[trigger] count_edge(half_views(row@), (w, k))
                        == if 0 <= w < u { count_edge(half_views(out@[w]@), (v as int, k)) } else if w == u {
                            count_edge(ev.take(i + 1), (v as int, k))
                        } else { 0 } by {
                        lemma_count_push(rv, hv, (w, k));
                    }
                }
            } else {
                proof {
                    assert forall|w: int, k: Seq<char>| #[trigger] count_edge(half_views(row@), (w, k))
                        == if 0 <= w < u { count_edge(half_views(out@[w]@), (v as int, k)) } else if w == u {
                            count_edge(ev.take(i + 1), (v as int, k))
                        } else { 0 } by {
                    }
                }
            }
            i += 1;
        }
        assert(ev.take(es.len() as int) =~= ev);
        u += 1;
    }
    row
}

impl Graph {
    /// The bundle index of node `i`'s concept.
    pub closed spec fn node_concept(&self, i: int) -> int {
        self.src@[i] as int
    }

    /// Node `u`'s outbound edges as (node, kind), in order.
    pub closed spec fn out_view(&self, u: int) -> Seq<(int, Seq<char>)> {
        half_views(self.out@[u]@)
    }

    /// Node `v`'s inbound edges as (node, kind), in order.
    pub closed spec fn in_view(&self, v: int) -> Seq<(int, Seq<char>)> {
        half_views(self.inn@[v]@)
    }

    /// The dead links, in order.
    pub closed spec fn dead_view(&self) -> Seq<(Seq<Seq<char>>, Seq<char>, Seq<char>, DeadClass)> {
        dead_link_views(self.dead@)
    }

    pub open spec fn node_ids(&self) -> Seq<Seq<Seq<char>>> {
        Seq::new(self.n() as nat, |i: int| self.id_of(i))
    }

    pub open spec fn node_names(&self) -> Seq<Seq<char>> {
        Seq::new(self.n() as nat, |i: int| unicode_lower_str(id_name(self.id_of(i))))
    }

    pub open spec fn node_aliases(&self, b: Seq<Concept>) -> Seq<Seq<Seq<char>>> {
        Seq::new(self.n() as nat, |i: int| lower_all(aliases_spec(b[self.node_concept(i)])))
    }

    /// What node `u`'s concept contributes, resolved against the nodes.
    pub open spec fn items(&self, b: Seq<Concept>, u: int) -> (EdgeItems, DeadItems) {
        concept_items(self.node_ids(), self.node_names(), self.node_aliases(b), b[self.node_concept(u)])
    }

    /// What `build` produces from a bundle's concepts `b` with the ids in
    /// `hid` hidden.
    pub open spec fn built_from(&self, b: Seq<Concept>, hid: Seq<Seq<Seq<char>>>) -> bool {
        &&& self.wf()
        &&& forall|i: int| 0 <= i < self.n() ==> {
                    &&& 0 <= #[trigger] self.node_concept(i) < b.len()
                    &&& !hid.contains(b[self.node_concept(i)].id@)
                    &&& self.id_of(i) == b[self.node_concept(i)].id@
                }
        &&& forall|j: int| 0 <= j < b.len() && !hid.contains(
                    #[trigger] b[j].id@) ==> exists|i: int| 0 <= i < self.n() && self.node_concept(i) == j
        &&& forall|u: int| 0 <= u < self.n() ==> edges_sorted(#[trigger] self.out_view(u))
        &&& forall|u: int, e: (int, Seq<char>)| 0 <= u < self.n() ==>
                    #[trigger] count_edge(self.out_view(u), e) == count_edge(self.items(b, u).0, e)
        &&& forall|v: int| 0 <= v < self.n() ==> edges_sorted(#[trigger] self.in_view(v))
        &&& forall|u: int, v: int, k: Seq<char>| 0 <= u < self.n() && 0 <= v < self.n() ==>
                    #[trigger] count_edge(self.in_view(v), (u, k)) == count_edge(self.out_view(u), (v, k))
        &&& dead_sorted(self.dead_view())
        &&& forall|u: int, r: Seq<char>| 0 <= u < self.n() ==> #[trigger] with_src_raw(self.dead_view(), self.id_of(u), r)
                    == attach(self.id_of(u), with_raw(self.items(b, u).1, r))
        &&& forall|m: int| 0 <= m < self.dead_view().len() ==> self.node_ids().contains(#[trigger] self.dead_view()[m].0)
    }

    /// Builds the graph of a bundle's concepts, leaving out the `hidden` ones:
    /// hidden concepts contribute no edges, and a link into one is dead.
    ///
    /// Nodes are the visible concepts in id order. Each node's outbound list
    /// holds exactly the edges its concept contributes, sorted by (node,
    /// kind); each inbound list holds the transposed edges, sorted likewise.
    /// Dead links are sorted by (source, target), those with the same source
    /// and target kept in the order they were found.
    pub fn build(bundle: &Bundle, hidden: &Vec<ConceptId>) -> (g: Graph)
        requires
            bundle.wf(),
        ensures
            g.built_from(bundle.concepts_view(), crate::concept::id_views(hidden@)),
    {
        let b = bundle.concepts();
        let ghost bv = bundle.concepts_view();
        let order = visible_order(bundle, hidden);
        let n = order.len();

        let mut ids: Vec<ConceptId> = Vec::new();
        let mut names: Vec<String> = Vec::new();
        let mut aliases: Vec<Vec<String>> = Vec::new();
        let mut i: usize = 0;
        while i < n
            invariant
                b@ == bv,
                n == order@.len(),
                forall|k: int| 0 <= k < n ==> (#[trigger] order@[k]) < bv.len(),
                0 <= i <= n,
                ids@.len() == i,
                names@.len() == i,
                aliases@.len() == i,
                forall|k: int| 0 <= k < i ==> (#[trigger] ids@[k])@ == bv[order@[k] as int].id@,
                forall|k: int| 0 <= k < i ==> (#[trigger] names@[k])@ == unicode_lower_str(id_name(ids@[k]@)),
                forall|k: int| 0 <= k < i ==> #[trigger] alias_table_views(aliases@)[k] == lower_all(aliases_spec(bv[order@[k] as int])),
            decreases n - i,
        {
            let c = &b[order[i]];
            let id = c.id.duplicate();
            let name = node_name(&id);
            let al = lowered_aliases(c);
            ids.push(id);
            names.push(name);
            let ghost before = aliases@;
            aliases.push(al);
            assert(alias_table_views(aliases@) =~= alias_table_views(before).push(string_views(al@)));
            i += 1;
        }
        let ghost iv = crate::concept::id_views(ids@);
        let ghost nv = string_views(names@);
        let ghost av = alias_table_views(aliases@);
        proof {
            assert forall|a: int, c: int| 0 <= a < c < n implies id_lt(#[trigger] iv[a], #[trigger] iv[c]) by {
                assert(iv[a] == bv[order@[a] as int].id@);
                assert(iv[c] == bv[order@[c] as int].id@);
            }
        }

        let mut out: Vec<Vec<HalfEdge>> = Vec::new();
        let mut dead: Vec<DeadLink> = Vec::new();
        let ghost mut owner: Seq<int> = seq![];
        let mut k: usize = 0;
        while k < n
            invariant
                b@ == bv,
                n == order@.len(),
                forall|q: int| 0 <= q < n ==> (#[trigger] order@[q]) < bv.len(),
                ids@.len() == n,
                names@.len() == n,
                aliases@.len() == n,
                iv == crate::concept::id_views(ids@),
                nv == string_views(names@),
                av == alias_table_views(aliases@),
                forall|a: int, c: int| 0 <= a < c < n ==> id_lt(#[trigger] iv[a], #[trigger] iv[c]),
                0 <= k <= n,
                out@.len() == k,
                forall|u: int| 0 <= u < k ==> edges_sorted(#[trigger] half_views(out@[u]@)),
                forall|u: int| 0 <= u < k ==> edges_within(#[trigger] half_views(out@[u]@), n as int),
                forall|u: int, e: (int, Seq<char>)| 0 <= u < k ==>
                    #[trigger] count_edge(half_views(out@[u]@), e) == count_edge(concept_items(iv, nv, av, bv[order@[u] as int]).0, e),
                owner.len() == dead@.len(),
                forall|m: int| 0 <= m < owner.len() ==> 0 <= #[trigger] owner[m] < k && dead_link_views(dead@)[m].0 == iv[owner[m]],
                dead_sorted(dead_link_views(dead@)),
                forall|u: int, r: Seq<char>| 0 <= u < k ==> #[trigger] with_src_raw(dead_link_views(dead@), iv[u], r)
                    == attach(iv[u], with_raw(concept_items(iv, nv, av, bv[order@[u] as int]).1, r)),
                forall|u: int, r: Seq<char>| k <= u < n ==> #[trigger] with_src_raw(dead_link_views(dead@), iv[u], r)
                    == Seq::<(Seq<Seq<char>>, Seq<char>, Seq<char>, DeadClass)>::empty(),
            decreases n - k,
        {
            let c = &b[order[k]];
            let (es, ds) = concept_edges(&ids, &names, &aliases, c);
            let sorted = sort_edges(&es);
            let row = to_half(&sorted);
            out.push(row);
            proof {
                assert(half_views(out@[k as int]@) == edge_views(sorted@));
                assert forall|m: int| 0 <= m < edge_views(sorted@).len() implies 0 <= (#[trigger] edge_views(sorted@)[m]).0 < n by {
                    let e = edge_views(sorted@)[m];
                    if !(0 <= e.0 < n) {
                        crate::order::lemma_count_member(edge_views(sorted@), m);
                        crate::order::lemma_count_zero_outside(edge_views(es@), n as int, e);
                    }
                }
            }
            let sd = sort_dead(&ds);
            let ghost dv0 = dead_link_views(dead@);
            let ghost part = attach(iv[k as int], dead_views(sd@));
            append_dead(&mut dead, &ids[k], &sd);
            proof {
                let dv = dead_link_views(dead@);
                assert(dv == dv0 + part);
                let new_owner = owner + Seq::new(sd@.len(), |x: int| k as int);
                assert forall|m: int| 0 <= m < new_owner.len() implies 0 <= #[trigger] new_owner[m] < k + 1 && dv[m].0 == iv[new_owner[m]] by {
                    if m >= owner.len() {
                        assert(dv[m] == part[m - owner.len()]);
                    } else {
                        assert(dv[m] == dv0[m]);
                    }
                }
                assert forall|a: int, c: int| 0 <= a < c < dv.len() implies dead_le(#[trigger] dv[a], #[trigger] dv[c]) by {
                    if c < dv0.len() {
                        assert(dv[a] == dv0[a] && dv[c] == dv0[c]);
                    } else if a < dv0.len() {
                        assert(dv[a] == dv0[a]);
                        assert(dv[c] == part[c - dv0.len()]);
                        assert(dv[a].0 == iv[owner[a]]);
                    } else {
                        assert(dv[a] == part[a - dv0.len()]);
                        assert(dv[c] == part[c - dv0.len()]);
                        assert(raws_sorted(dead_views(sd@)));
                        assert(dead_views(sd@)[a - dv0.len()].0 == dv[a].1);
                        assert(dead_views(sd@)[c - dv0.len()].0 == dv[c].1);
                    }
                }
                assert forall|u: int, r: Seq<char>| 0 <= u < k + 1 implies #[trigger] with_src_raw(dv, iv[u], r)
                    == attach(iv[u], with_raw(concept_items(iv, nv, av, bv[order@[u] as int]).1, r)) by {
                    lemma_with_src_raw_concat(dv0, part, iv[u], r);
                    lemma_with_src_raw_attach(iv[k as int], dead_views(sd@), iv[u], r);
                    if u < k {
                        lemma_id_lt_asym(iv[u], iv[k as int]);
                        assert(dv0 + Seq::<(Seq<Seq<char>>, Seq<char>, Seq<char>, DeadClass)>::empty() =~= dv0);
                        assert(with_src_raw(dv0, iv[u], r) + Seq::<(Seq<Seq<char>>, Seq<char>, Seq<char>, DeadClass)>::empty() =~= with_src_raw(dv0, iv[u], r));
                    } else {
                        assert(Seq::<(Seq<Seq<char>>, Seq<char>, Seq<char>, DeadClass)>::empty() + attach(iv[k as int], with_raw(dead_views(sd@), r))
                            =~= attach(iv[k as int], with_raw(dead_views(sd@), r)));
                    }
                }
                assert forall|u: int, r: Seq<char>| k + 1 <= u < n implies #[trigger] with_src_raw(dv, iv[u], r)
                    == Seq::<(Seq<Seq<char>>, Seq<char>, Seq<char>, DeadClass)>::empty() by {
                    lemma_with_src_raw_concat(dv0, part, iv[u], r);
                    lemma_with_src_raw_attach(iv[k as int], dead_views(sd@), iv[u], r);
                    lemma_id_lt_asym(iv[k as int], iv[u]);
                    assert(Seq::<(Seq<Seq<char>>, Seq<char>, Seq<char>, DeadClass)>::empty() + Seq::<(Seq<Seq<char>>, Seq<char>, Seq<char>, DeadClass)>::empty()
                        =~= Seq::<(Seq<Seq<char>>, Seq<char>, Seq<char>, DeadClass)>::empty());
                }
                owner = new_owner;
            }
            k += 1;
        }

        let mut inn: Vec<Vec<HalfEdge>> = Vec::new();
        let mut v: usize = 0;
        while v < n
            invariant
                out@.len() == n,
                forall|u: int| 0 <= u < n ==> edges_sorted(#[trigger] half_views(out@[u]@)),
                0 <= v <= n,
                inn@.len() == v,
                forall|w: int| 0 <= w < v ==> edges_sorted(#[trigger] half_views(inn@[w]@)),
                forall|w: int, m: int| 0 <= w < v && 0 <= m < inn@[w]@.len() ==> (#[trigger] inn@[w]@[m]).other < n,
                forall|u: int, w: int, kk: Seq<char>| 0 <= u < n && 0 <= w < v ==>
                    #[trigger] count_edge(half_views(inn@[w]@), (u, kk)) == count_edge(half_views(out@[u]@), (w, kk)),
            decreases n - v,
        {
            let row = in_row(&out, v);
            inn.push(row);
            v += 1;
        }

        let g = Graph { ids, src: order, out, inn, dead };
        proof {
            assert(g.node_ids() =~= iv);
            assert(g.node_names() =~= nv);
            assert(g.node_aliases(bv) =~= av) by {
                assert forall|q: int| 0 <= q < n implies #[trigger] g.node_aliases(bv)[q] == av[q] by {
                }
            }
            assert forall|u: int, m: int| 0 <= u < g.n() && 0 <= m < g.out@[u]@.len() implies #[trigger] g.out@[u]@[m].other < g.n() by {
                assert(edges_within(half_views(g.out@[u]@), n as int));
                assert(half_views(g.out@[u]@)[m].0 == g.out@[u]@[m].other);
            }
            assert forall|u: int| 0 <= u < g.n() implies #[trigger] g.items(bv, u) == concept_items(iv, nv, av, bv[order@[u] as int]) && g.id_of(u) == iv[u] by {
            }
            assert forall|j: int| 0 <= j < bv.len() && !crate::concept::id_views(hidden@).contains(
                #[trigger] bv[j].id@) implies exists|i: int| 0 <= i < g.n() && g.node_concept(i) == j by {
                let i = choose|i: int| 0 <= i < order@.len() && order@[i] == j;
                assert(g.node_concept(i) == j);
            }
            assert forall|m: int| 0 <= m < g.dead_view().len() implies g.node_ids().contains(#[trigger] g.dead_view()[m].0) by {
                let u = owner[m];
                assert(0 <= u < n);
                assert(g.dead_view()[m] == dead_link_views(dead@)[m]);
                assert(g.node_ids()[u] == g.dead_view()[m].0);
            }
        }
        g
    }
}


// ---------------------------------------------------------------------------
// Queries over a built graph.

/// How many edges of `s` have kind `k`.
pub open spec fn kind_in(s: Seq<(int, Seq<char>)>, k: Seq<char>) -> nat
    decreases s.len(),
{
    if s.len() == 0 {
        0
    } else {
        kind_in(s.drop_last(), k) + if s.last().1 == k { 1nat } else { 0nat }
    }
}

/// How many dead links have class `c`.
pub open spec fn class_count(s: Seq<(Seq<Seq<char>>, Seq<char>, Seq<char>, DeadClass)>, c: DeadClass) -> nat
    decreases s.len(),
{
    if s.len() == 0 {
        0
    } else {
        class_count(s.drop_last(), c) + if s.last().3 == c { 1nat } else { 0nat }
    }
}

pub open spec fn min_usize(x: nat) -> usize {
    if x <= usize::MAX { x as usize } else { usize::MAX }
}

impl Graph {
    /// Edges of the first `u` nodes' outbound lists.
    pub open spec fn edges_upto(&self, u: int) -> nat
        decreases u,
    {
        if u <= 0 {
            0
        } else {
            self.edges_upto(u - 1) + self.out_view(u - 1).len()
        }
    }

    /// All resolved edges, each directed edge once.
    pub open spec fn edge_total(&self) -> nat {
        self.edges_upto(self.n())
    }

    /// Edges of kind `k` in the first `u` nodes' outbound lists.
    pub open spec fn kind_upto(&self, k: Seq<char>, u: int) -> nat
        decreases u,
    {
        if u <= 0 {
            0
        } else {
            self.kind_upto(k, u - 1) + kind_in(self.out_view(u - 1), k)
        }
    }

    pub open spec fn kind_total(&self, k: Seq<char>) -> nat {
        self.kind_upto(k, self.n())
    }

    /// The node holding `id`, or -1.
    pub open spec fn node_of(&self, id: Seq<Seq<char>>) -> int {
        crate::edges::idx_from(self.node_ids(), id, 0)
    }

    /// The dead links (broken and phantom), sorted by (source, target).
    pub fn dead_links(&self) -> (r: &Vec<DeadLink>)
        ensures
            dead_link_views(r@) == self.dead_view(),
    {
        &self.dead
    }

    fn count_class(&self, c: DeadClass) -> (r: usize)
        ensures
            r == class_count(self.dead_view(), c),
    {
        let ghost dv = self.dead_view();
        let mut n: usize = 0;
        let mut i: usize = 0;
        assert(dv.take(0) =~= Seq::<(Seq<Seq<char>>, Seq<char>, Seq<char>, DeadClass)>::empty());
        while i < self.dead.len()
            invariant
                dv == self.dead_view(),
                dv == dead_link_views(self.dead@),
                0 <= i <= self.dead.len(),
                n == class_count(dv.take(i as int), c),
                n <= i,
            decreases self.dead.len() - i,
        {
            assert(dv.take(i + 1).drop_last() =~= dv.take(i as int));
            if self.dead[i].class == c {
                n += 1;
            }
            i += 1;
        }
        assert(dv.take(self.dead.len() as int) =~= dv);
        n
    }

    /// How many dead links are genuinely broken (phantoms excluded).
    pub fn broken_count(&self) -> (r: usize)
        ensures
            r == class_count(self.dead_view(), DeadClass::Broken),
    {
        self.count_class(DeadClass::Broken)
    }

    /// How many dead links are phantoms (bare names of notes not yet written).
    pub fn phantom_count(&self) -> (r: usize)
        ensures
            r == class_count(self.dead_view(), DeadClass::Phantom),
    {
        self.count_class(DeadClass::Phantom)
    }

    /// The number of resolved edges, each directed edge counted once
    /// (saturating; no graph held in memory reaches the bound).
    pub fn total_edges(&self) -> (r: usize)
        requires
            self.wf(),
        ensures
            r == min_usize(self.edge_total()),
    {
        let mut t: usize = 0;
        let mut u: usize = 0;
        while u < self.out.len()
            invariant
                self.wf(),
                0 <= u <= self.out.len(),
                t == min_usize(self.edges_upto(u as int)),
            decreases self.out.len() - u,
        {
            t = t.saturating_add(self.out[u].len());
            u += 1;
        }
        t
    }

    /// Number of inbound edges of a concept (0 for one that is not a node).
    pub fn in_degree(&self, id: &ConceptId) -> (r: usize)
        requires
            self.wf(),
        ensures
            r == if self.node_of(id@) >= 0 { self.in_view(self.node_of(id@)).len() } else { 0 },
    {
        proof {
            assert(crate::concept::id_views(self.ids@) =~= self.node_ids());
        }
        match crate::edges::node_index(&self.ids, id) {
            Some(i) => self.inn[i].len(),
            None => 0,
        }
    }

    /// Number of outbound edges of a concept (0 for one that is not a node).
    pub fn out_degree(&self, id: &ConceptId) -> (r: usize)
        requires
            self.wf(),
        ensures
            r == if self.node_of(id@) >= 0 { self.out_view(self.node_of(id@)).len() } else { 0 },
    {
        proof {
            assert(crate::concept::id_views(self.ids@) =~= self.node_ids());
        }
        match crate::edges::node_index(&self.ids, id) {
            Some(i) => self.out[i].len(),
            None => 0,
        }
    }
}


impl Graph {
    /// A visible concept of `b` with no inbound edge: not a node of this
    /// graph, or a node whose inbound list is empty.
    pub open spec fn is_orphan(&self, b: Seq<Concept>, hid: Seq<Seq<Seq<char>>>, x: Seq<Seq<char>>) -> bool {
        exists|j: int| 0 <= j < b.len() && !hid.contains(#[trigger] b[j].id@) && b[j].id@ == x
            && (self.node_of(x) < 0 || self.in_view(self.node_of(x)).len() == 0)
    }

    /// Concepts with no inbound edges, in id order. Hidden concepts are not
    /// candidates.
    pub fn orphans(&self, bundle: &Bundle, hidden: &Vec<ConceptId>) -> (r: Vec<ConceptId>)
        requires
            self.wf(),
            bundle.wf(),
        ensures
            forall|i: int, j: int| 0 <= i < j < r@.len() ==> id_lt((#[trigger] r@[i])@, (#[trigger] r@[j])@),
            forall|x: Seq<Seq<char>>| crate::concept::id_views(r@).contains(x)
                <==> #[trigger] self.is_orphan(bundle.concepts_view(), crate::concept::id_views(hidden@), x),
    {
        let b = bundle.concepts();
        let ghost bv = bundle.concepts_view();
        let ghost hv = crate::concept::id_views(hidden@);
        let order = visible_order(bundle, hidden);
        proof {
            assert(crate::concept::id_views(self.ids@) =~= self.node_ids());
        }
        let mut r: Vec<ConceptId> = Vec::new();
        let ghost mut pos: Seq<int> = seq![];
        let mut i: usize = 0;
        while i < order.len()
            invariant
                self.wf(),
                b@ == bv,
                crate::concept::id_views(self.ids@) == self.node_ids(),
                forall|q: int| 0 <= q < order@.len() ==> (#[trigger] order@[q]) < bv.len()
                    && !hv.contains(bv[order@[q] as int].id@),
                forall|q: int, w: int| 0 <= q < w < order@.len() ==> id_lt(
                    bv[(#[trigger] order@[q]) as int].id@, bv[(#[trigger] order@[w]) as int].id@),
                0 <= i <= order@.len(),
                pos.len() == r@.len(),
                forall|m: int| 0 <= m < r@.len() ==> 0 <= #[trigger] pos[m] < i && r@[m]@ == bv[order@[pos[m]] as int].id@,
                forall|m: int, w: int| 0 <= m < w < r@.len() ==> #[trigger] pos[m] < #[trigger] pos[w],
                forall|m: int| 0 <= m < r@.len() ==> (self.node_of(#[trigger] r@[m]@) < 0 || self.in_view(self.node_of(r@[m]@)).len() == 0),
                forall|q: int| 0 <= q < i && (self.node_of(bv[#[trigger] order@[q] as int].id@) < 0
                    || self.in_view(self.node_of(bv[order@[q] as int].id@)).len() == 0)
                    ==> exists|m: int| 0 <= m < r@.len() && pos[m] == q,
            decreases order@.len() - i,
        {
            let id = &b[order[i]].id;
            let ghost cond = self.node_of(id@) < 0 || self.in_view(self.node_of(id@)).len() == 0;
            let keep = match crate::edges::node_index(&self.ids, id) {
                Some(n) => self.inn[n].len() == 0,
                None => true,
            };
            assert(keep == cond);
            let ghost old_pos = pos;
            if keep {
                let ghost before = r@;
                r.push(id.duplicate());
                proof {
                    pos = pos.push(i as int);
                    assert(r@[before.len() as int] == r@.last());
                }
            }
            proof {
                assert forall|q: int| 0 <= q < i + 1 && (self.node_of(bv[#[trigger] order@[q] as int].id@) < 0
                    || self.in_view(self.node_of(bv[order@[q] as int].id@)).len() == 0)
                    implies exists|m: int| 0 <= m < r@.len() && pos[m] == q by {
                    if q == i {
                        assert(pos[pos.len() - 1] == q);
                    } else {
                        let m = choose|m: int| 0 <= m < old_pos.len() && old_pos[m] == q;
                        assert(pos[m] == q);
                    }
                }
            }
            i += 1;
        }
        proof {
            let rv = crate::concept::id_views(r@);
            assert forall|a: int, c: int| 0 <= a < c < r@.len() implies id_lt((#[trigger] r@[a])@, (#[trigger] r@[c])@) by {
                assert(pos[a] < pos[c]);
            }
            assert forall|x: Seq<Seq<char>>| rv.contains(x) <==> #[trigger] self.is_orphan(bv, hv, x) by {
                if rv.contains(x) {
                    let m = choose|m: int| 0 <= m < rv.len() && rv[m] == x;
                    assert(r@[m]@ == x);
                    let j = order@[pos[m]] as int;
                    assert(bv[j].id@ == x);
                }
                if self.is_orphan(bv, hv, x) {
                    let j = choose|j: int| 0 <= j < bv.len() && !hv.contains(#[trigger] bv[j].id@) && bv[j].id@ == x
                        && (self.node_of(x) < 0 || self.in_view(self.node_of(x)).len() == 0);
                    let q = choose|q: int| 0 <= q < order@.len() && order@[q] == j;
                    assert(bv[order@[q] as int].id@ == x);
                    let m = choose|m: int| 0 <= m < r@.len() && pos[m] == q;
                    assert(rv[m] == x);
                }
            }
        }
        r
    }

    /// Edge counts by kind, ordered by kind; only kinds that occur appear
    /// (counts saturate; no graph held in memory reaches the bound).
    pub fn edge_kind_counts(&self) -> (r: Vec<(String, usize)>)
        requires
            self.wf(),
        ensures
            forall|i: int, j: int| 0 <= i < j < r@.len() ==> chars_lt((#[trigger] r@[i]).0@, (#[trigger] r@[j]).0@),
            forall|m: int| 0 <= m < r@.len() ==> self.kind_total((#[trigger] r@[m]).0@) > 0
                && r@[m].1 == min_usize(self.kind_total(r@[m].0@)),
            forall|k: Seq<char>| #[trigger] self.kind_total(k) > 0 ==> exists|m: int| 0 <= m < r@.len() && r@[m].0@ == k,
    {
        let keys = self.kinds();
        let mut r: Vec<(String, usize)> = Vec::new();
        let mut m: usize = 0;
        while m < keys.len()
            invariant
                self.wf(),
                0 <= m <= keys.len(),
                forall|i: int, j: int| 0 <= i < j < keys@.len() ==> chars_lt((#[trigger] keys@[i])@, (#[trigger] keys@[j])@),
                forall|q: int| 0 <= q < keys@.len() ==> self.kind_total((#[trigger] keys@[q])@) > 0,
                r@.len() == m,
                forall|q: int| 0 <= q < m ==> (#[trigger] r@[q]).0@ == keys@[q]@ && r@[q].1 == min_usize(self.kind_total(keys@[q]@)),
            decreases keys.len() - m,
        {
            let c = self.count_kind(keys[m].as_str());
            r.push((keys[m].clone(), c));
            m += 1;
        }
        proof {
            assert forall|k: Seq<char>| #[trigger] self.kind_total(k) > 0 implies exists|q: int| 0 <= q < r@.len() && r@[q].0@ == k by {
                let q = choose|q: int| 0 <= q < keys@.len() && keys@[q]@ == k;
                assert(r@[q].0@ == k);
            }
        }
        r
    }

    /// The distinct edge kinds, in order.
    fn kinds(&self) -> (keys: Vec<String>)
        requires
            self.wf(),
        ensures
            forall|i: int, j: int| 0 <= i < j < keys@.len() ==> chars_lt((#[trigger] keys@[i])@, (#[trigger] keys@[j])@),
            forall|q: int| 0 <= q < keys@.len() ==> self.kind_total((#[trigger] keys@[q])@) > 0,
            forall|k: Seq<char>| #[trigger] self.kind_total(k) > 0 ==> exists|q: int| 0 <= q < keys@.len() && keys@[q]@ == k,
    {
        let mut keys: Vec<String> = Vec::new();
        let mut u: usize = 0;
        while u < self.out.len()
            invariant
                self.wf(),
                0 <= u <= self.out.len(),
                forall|i: int, j: int| 0 <= i < j < keys@.len() ==> chars_lt((#[trigger] keys@[i])@, (#[trigger] keys@[j])@),
                forall|k: Seq<char>| string_views(keys@).contains(k) <==> #[trigger] self.kind_upto(k, u as int) > 0,
            decreases self.out.len() - u,
        {
            let es = &self.out[u];
            let ghost ev = self.out_view(u as int);
            let mut i: usize = 0;
            assert(ev.take(0) =~= Seq::<(int, Seq<char>)>::empty());
            while i < es.len()
                invariant
                    self.wf(),
                    0 <= u < self.out.len(),
                    es == &self.out@[u as int],
                    ev == half_views(es@),
                    ev == self.out_view(u as int),
                    0 <= i <= es.len(),
                    forall|a: int, c: int| 0 <= a < c < keys@.len() ==> chars_lt((#[trigger] keys@[a])@, (#[trigger] keys@[c])@),
                    forall|k: Seq<char>| string_views(keys@).contains(k)
                        <==> #[trigger] self.kind_upto(k, u as int) + kind_in(ev.take(i as int), k) > 0,
                decreases es.len() - i,
            {
                let kind = &es[i].kind;
                let ghost kv = kind@;
                let ghost old_keys = keys@;
                let mut p: usize = 0;
                while p < keys.len() && crate::text::str_less(keys[p].as_str(), kind.as_str())
                    invariant
                        0 <= p <= keys.len(),
                        keys@ == old_keys,
                        kv == kind@,
                        forall|q: int| 0 <= q < p ==> chars_lt((#[trigger] old_keys[q])@, kv),
                    decreases keys.len() - p,
                {
                    p += 1;
                }
                let present = p < keys.len() && str_eq(keys[p].as_str(), kind.as_str());
                assert(ev.take(i + 1).drop_last() =~= ev.take(i as int));
                assert(ev.take(i + 1).last() == ev[i as int]);
                if !present {
                    proof {
                        assert forall|q: int| p <= q < old_keys.len() implies chars_lt(kv, (#[trigger] old_keys[q])@) by {
                            crate::text::lemma_chars_lt_total(old_keys[p as int]@, kv);
                            if q > p {
                                crate::text::lemma_chars_lt_trans(kv, old_keys[p as int]@, old_keys[q]@);
                            }
                        }
                    }
                    keys.insert(p, kind.clone());
                    proof {
                        assert(keys@ =~= old_keys.insert(p as int, keys@[p as int]));
                        assert forall|a: int, c: int| 0 <= a < c < keys@.len() implies chars_lt((#[trigger] keys@[a])@, (#[trigger] keys@[c])@) by {
                            if a < p && c == p {
                            } else if a == p && c > p {
                                assert(keys@[c] == old_keys[c - 1]);
                            } else if a < p && c > p {
                                assert(keys@[c] == old_keys[c - 1]);
                                crate::text::lemma_chars_lt_trans(old_keys[a]@, kv, old_keys[c - 1]@);
                            } else if c < p {
                            } else {
                                assert(keys@[a] == old_keys[a - 1] && keys@[c] == old_keys[c - 1]);
                            }
                        }
                        assert forall|k: Seq<char>| string_views(keys@).contains(k)
                            <==> #[trigger] self.kind_upto(k, u as int) + kind_in(ev.take(i + 1), k) > 0 by {
                            if string_views(keys@).contains(k) {
                                let m = choose|m: int| 0 <= m < keys@.len() && string_views(keys@)[m] == k;
                                if m < p {
                                    assert(string_views(old_keys)[m] == k);
                                } else if m > p {
                                    assert(string_views(old_keys)[m - 1] == k);
                                }
                            }
                            if self.kind_upto(k, u as int) + kind_in(ev.take(i + 1), k) > 0 {
                                if k == kv {
                                    assert(string_views(keys@)[p as int] == k);
                                } else {
                                    let m = choose|m: int| 0 <= m < old_keys.len() && string_views(old_keys)[m] == k;
                                    if m < p {
                                        assert(string_views(keys@)[m] == k);
                                    } else {
                                        assert(string_views(keys@)[m + 1] == k);
                                    }
                                }
                            }
                        }
                    }
                } else {
                    proof {
                        assert forall|k: Seq<char>| string_views(keys@).contains(k)
                            <==> #[trigger] self.kind_upto(k, u as int) + kind_in(ev.take(i + 1), k) > 0 by {
                            if k == kv {
                                assert(string_views(keys@)[p as int] == k);
                            }
                        }
                    }
                }
                i += 1;
            }
            assert(ev.take(es.len() as int) =~= ev);
            assert forall|k: Seq<char>| string_views(keys@).contains(k) <==> #[trigger] self.kind_upto(k, u + 1) > 0 by {
                assert(self.kind_upto(k, u + 1) == self.kind_upto(k, u as int) + kind_in(ev, k));
            }
            u += 1;
        }
        proof {
            assert forall|q: int| 0 <= q < keys@.len() implies self.kind_total((#[trigger] keys@[q])@) > 0 by {
                assert(string_views(keys@)[q] == keys@[q]@);
            }
            assert forall|k: Seq<char>| #[trigger] self.kind_total(k) > 0 implies exists|q: int| 0 <= q < keys@.len() && keys@[q]@ == k by {
                let q = choose|q: int| 0 <= q < keys@.len() && string_views(keys@)[q] == k;
            }
        }
        keys
    }

    /// Edges of kind `k` (saturating).
    fn count_kind(&self, k: &str) -> (c: usize)
        requires
            self.wf(),
        ensures
            c == min_usize(self.kind_total(k@)),
    {
        let mut c: usize = 0;
        let mut u: usize = 0;
        while u < self.out.len()
            invariant
                self.wf(),
                0 <= u <= self.out.len(),
                c == min_usize(self.kind_upto(k@, u as int)),
            decreases self.out.len() - u,
        {
            let es = &self.out[u];
            let ghost ev = self.out_view(u as int);
            let mut i: usize = 0;
            let mut here: usize = 0;
            assert(ev.take(0) =~= Seq::<(int, Seq<char>)>::empty());
            while i < es.len()
                invariant
                    self.wf(),
                    0 <= u < self.out.len(),
                    es == &self.out@[u as int],
                    ev == half_views(es@),
                    0 <= i <= es.len(),
                    here == kind_in(ev.take(i as int), k@),
                    here <= i,
                decreases es.len() - i,
            {
                assert(ev.take(i + 1).drop_last() =~= ev.take(i as int));
                if str_eq(es[i].kind.as_str(), k) {
                    here += 1;
                }
                i += 1;
            }
            assert(ev.take(es.len() as int) =~= ev);
            c = c.saturating_add(here);
            u += 1;
        }
        c
    }
}


// ---------------------------------------------------------------------------
// Laws.

proof fn lemma_count_pos(s: Seq<(int, Seq<char>)>, e: (int, Seq<char>))
    requires
        count_edge(s, e) > 0,
    ensures
        exists|m: int| 0 <= m < s.len() && s[m] == e,
    decreases s.len(),
{
    if s.last() == e {
        assert(s[s.len() - 1] == e);
    } else {
        lemma_count_pos(s.drop_last(), e);
        let m = choose|m: int| 0 <= m < s.drop_last().len() && s.drop_last()[m] == e;
        assert(s[m] == e);
    }
}

impl Graph {
    /// Every edge is seen from both ends: node `v`'s inbound list holds
    /// `(u, k)` exactly as many times as node `u`'s outbound list holds
    /// `(v, k)`.
    pub proof fn lemma_in_out_counts(&self, u: int, v: int, k: Seq<char>)
        requires
            self.wf(),
            0 <= u < self.n(),
            0 <= v < self.n(),
        ensures
            count_edge(self.in_view(v), (u, k)) == count_edge(self.out_view(u), (v, k)),
    {
    }

    /// Backlinks are the edges read backwards: `u` links to `v` with kind
    /// `k` exactly when `v` has a backlink from `u` with kind `k`.
    pub proof fn lemma_backlink_transpose(&self, u: int, v: int, k: Seq<char>)
        requires
            self.wf(),
            0 <= u < self.n(),
            0 <= v < self.n(),
        ensures
            self.labeled(u, v, k, Direction::Out) <==> self.labeled(v, u, k, Direction::In),
    {
        let ov = half_views(self.out@[u]@);
        let iv = half_views(self.inn@[v]@);
        if self.labeled(u, v, k, Direction::Out) {
            let i = choose|i: int| 0 <= i < self.out@[u]@.len() && #[trigger] self.out@[u]@[i].other == v
                && self.out@[u]@[i].kind@ == k;
            assert(ov[i] == (v, k));
            crate::order::lemma_count_member(ov, i);
            lemma_count_pos(iv, (u, k));
            let m = choose|m: int| 0 <= m < iv.len() && iv[m] == (u, k);
            assert(self.inn@[v]@[m].other == u);
        }
        if self.labeled(v, u, k, Direction::In) {
            let i = choose|i: int| 0 <= i < self.inn@[v]@.len() && #[trigger] self.inn@[v]@[i].other == u
                && self.inn@[v]@[i].kind@ == k;
            assert(iv[i] == (u, k));
            crate::order::lemma_count_member(iv, i);
            lemma_count_pos(ov, (v, k));
            let m = choose|m: int| 0 <= m < ov.len() && ov[m] == (v, k);
            assert(self.out@[u]@[m].other == v);
        }
    }

    proof fn lemma_step_both_symmetric(&self, u: int, v: int, f: Seq<Seq<char>>)
        requires
            self.wf(),
            self.step(u, v, Direction::Both, f),
        ensures
            self.step(v, u, Direction::Both, f),
    {
        self.lemma_step_bounds(u, v, Direction::Both, f);
        let (k, d) = choose|k: Seq<char>, d: Direction|
            dir_ok(Direction::Both, d) && allows_spec(f, k) && #[trigger] self.labeled(u, v, k, d);
        self.lemma_backlink_transpose(u, v, k);
        self.lemma_backlink_transpose(v, u, k);
        if d == Direction::Out {
            assert(self.labeled(v, u, k, Direction::In));
        } else {
            assert(self.labeled(v, u, k, Direction::Out));
        }
    }

    /// Ignoring direction, reachability within `d` steps is symmetric: so an
    /// undirected path from `a` to `b` exists exactly when one from `b` to
    /// `a` does, and the two have the same length.
    pub proof fn lemma_undirected_symmetric(&self, a: int, b: int, d: nat, f: Seq<Seq<char>>)
        requires
            self.wf(),
        ensures
            self.within(a, b, d, Direction::Both, f) <==> self.within(b, a, d, Direction::Both, f),
    {
        if self.within(a, b, d, Direction::Both, f) {
            self.lemma_within_reverse(a, b, d, f);
        }
        if self.within(b, a, d, Direction::Both, f) {
            self.lemma_within_reverse(b, a, d, f);
        }
    }

    proof fn lemma_within_reverse(&self, a: int, b: int, d: nat, f: Seq<Seq<char>>)
        requires
            self.wf(),
            self.within(a, b, d, Direction::Both, f),
        ensures
            self.within(b, a, d, Direction::Both, f),
    {
        let t = Direction::Both;
        let p = choose|p: Seq<int>| #[trigger] self.is_walk(p, t, f) && p[0] == a && p.last() == b && p.len() <= d + 1;
        let q = p.reverse();
        assert forall|i: int| 0 <= i < q.len() implies 0 <= #[trigger] q[i] < self.n() by {
            assert(q[i] == p[p.len() - 1 - i]);
        }
        assert forall|i: int| 0 <= i < q.len() - 1 implies self.step(#[trigger] q[i], q[i + 1], t, f) by {
            let j = p.len() - 2 - i;
            assert(q[i] == p[j + 1]);
            assert(q[i + 1] == p[j]);
            assert(self.step(p[j], p[j + 1], t, f));
            self.lemma_step_both_symmetric(p[j], p[j + 1], f);
        }
        assert(self.is_walk(q, t, f));
        assert(q[0] == b);
        assert(q.last() == a);
    }
}

// ---------------------------------------------------------------------------
// Counting edges from both ends.

/// How many times `x` occurs in `s`.
pub open spec fn occurrences<A>(s: Seq<A>, x: A) -> nat
    decreases s.len(),
{
    if s.len() == 0 {
        0
    } else {
        occurrences(s.drop_last(), x) + if s.last() == x { 1nat } else { 0nat }
    }
}

proof fn lemma_occurrences_multiset<A>(s: Seq<A>, x: A)
    ensures
        s.to_multiset().count(x) == occurrences(s, x),
    decreases s.len(),
{
    broadcast use vstd::seq_lib::group_to_multiset_ensures;
    broadcast use vstd::multiset::group_multiset_axioms;
    if s.len() == 0 {
        assert(s.to_multiset().len() == 0);
        assert(s.to_multiset() =~= vstd::multiset::Multiset::empty());
    } else {
        lemma_occurrences_multiset(s.drop_last(), x);
        assert(s.drop_last().push(s.last()) =~= s);
    }
}

/// Two sequences holding every value equally often are equally long.
proof fn lemma_same_counts_same_len<A>(a: Seq<A>, b: Seq<A>)
    requires
        forall|x: A| #[trigger] occurrences(a, x) == occurrences(b, x),
    ensures
        a.len() == b.len(),
{
    broadcast use vstd::seq_lib::group_to_multiset_ensures;
    assert forall|x: A| #[trigger] a.to_multiset().count(x) == b.to_multiset().count(x) by {
        lemma_occurrences_multiset(a, x);
        lemma_occurrences_multiset(b, x);
        assert(occurrences(a, x) == occurrences(b, x));
    }
    assert(a.to_multiset() =~= b.to_multiset());
    assert(a.len() == a.to_multiset().len());
    assert(b.len() == b.to_multiset().len());
}

proof fn lemma_occurrences_concat<A>(a: Seq<A>, b: Seq<A>, x: A)
    ensures
        occurrences(a + b, x) == occurrences(a, x) + occurrences(b, x),
    decreases b.len(),
{
    if b.len() == 0 {
        assert(a + b =~= a);
    } else {
        lemma_occurrences_concat(a, b.drop_last(), x);
        assert((a + b).drop_last() =~= a + b.drop_last());
        assert((a + b).last() == b.last());
    }
}

proof fn lemma_count_edge_absent(s: Seq<(int, Seq<char>)>, e: (int, Seq<char>))
    requires
        forall|i: int| 0 <= i < s.len() ==> #[trigger] s[i] != e,
    ensures
        count_edge(s, e) == 0,
    decreases s.len(),
{
    if s.len() > 0 {
        assert(s.last() == s[s.len() - 1]);
        lemma_count_edge_absent(s.drop_last(), e);
    }
}

/// An outbound list of node `u` as (from, to, kind) triples.
pub open spec fn from_node(u: int, s: Seq<(int, Seq<char>)>) -> Seq<(int, int, Seq<char>)> {
    s.map_values(|e: (int, Seq<char>)| (u, e.0, e.1))
}

/// An inbound list of node `v` as (from, to, kind) triples.
pub open spec fn to_node(v: int, s: Seq<(int, Seq<char>)>) -> Seq<(int, int, Seq<char>)> {
    s.map_values(|e: (int, Seq<char>)| (e.0, v, e.1))
}

proof fn lemma_from_node_count(u: int, s: Seq<(int, Seq<char>)>, t: (int, int, Seq<char>))
    ensures
        occurrences(from_node(u, s), t) == if t.0 == u { count_edge(s, (t.1, t.2)) } else { 0 },
    decreases s.len(),
{
    if s.len() > 0 {
        lemma_from_node_count(u, s.drop_last(), t);
        assert(from_node(u, s).drop_last() =~= from_node(u, s.drop_last()));
    }
}

proof fn lemma_to_node_count(v: int, s: Seq<(int, Seq<char>)>, t: (int, int, Seq<char>))
    ensures
        occurrences(to_node(v, s), t) == if t.1 == v { count_edge(s, (t.0, t.2)) } else { 0 },
    decreases s.len(),
{
    if s.len() > 0 {
        lemma_to_node_count(v, s.drop_last(), t);
        assert(to_node(v, s).drop_last() =~= to_node(v, s.drop_last()));
    }
}

impl Graph {
    /// Inbound edges of the first `v` nodes' inbound lists.
    pub open spec fn in_edges_upto(&self, v: int) -> nat
        decreases v,
    {
        if v <= 0 {
            0
        } else {
            self.in_edges_upto(v - 1) + self.in_view(v - 1).len()
        }
    }

    /// The sum of every node's in-degree.
    pub open spec fn in_edge_total(&self) -> nat {
        self.in_edges_upto(self.n())
    }

    spec fn outs_upto(&self, m: int) -> Seq<(int, int, Seq<char>)>
        decreases m,
    {
        if m <= 0 {
            seq![]
        } else {
            self.outs_upto(m - 1) + from_node(m - 1, self.out_view(m - 1))
        }
    }

    spec fn ins_upto(&self, m: int) -> Seq<(int, int, Seq<char>)>
        decreases m,
    {
        if m <= 0 {
            seq![]
        } else {
            self.ins_upto(m - 1) + to_node(m - 1, self.in_view(m - 1))
        }
    }

    proof fn lemma_outs_upto(&self, m: int)
        requires
            0 <= m,
        ensures
            self.outs_upto(m).len() == self.edges_upto(m),
            forall|t: (int, int, Seq<char>)| #[trigger] occurrences(self.outs_upto(m), t)
                == if 0 <= t.0 < m { count_edge(self.out_view(t.0), (t.1, t.2)) } else { 0 },
        decreases m,
    {
        if m > 0 {
            self.lemma_outs_upto(m - 1);
            assert forall|t: (int, int, Seq<char>)| #[trigger] occurrences(self.outs_upto(m), t)
                == if 0 <= t.0 < m { count_edge(self.out_view(t.0), (t.1, t.2)) } else { 0 } by {
                lemma_occurrences_concat(self.outs_upto(m - 1), from_node(m - 1, self.out_view(m - 1)), t);
                lemma_from_node_count(m - 1, self.out_view(m - 1), t);
            }
        }
    }

    proof fn lemma_ins_upto(&self, m: int)
        requires
            0 <= m,
        ensures
            self.ins_upto(m).len() == self.in_edges_upto(m),
            forall|t: (int, int, Seq<char>)| #[trigger] occurrences(self.ins_upto(m), t)
                == if 0 <= t.1 < m { count_edge(self.in_view(t.1), (t.0, t.2)) } else { 0 },
        decreases m,
    {
        if m > 0 {
            self.lemma_ins_upto(m - 1);
            assert forall|t: (int, int, Seq<char>)| #[trigger] occurrences(self.ins_upto(m), t)
                == if 0 <= t.1 < m { count_edge(self.in_view(t.1), (t.0, t.2)) } else { 0 } by {
                lemma_occurrences_concat(self.ins_upto(m - 1), to_node(m - 1, self.in_view(m - 1)), t);
                lemma_to_node_count(m - 1, self.in_view(m - 1), t);
            }
        }
    }

    /// Every edge is counted once from each end: the in-degrees add up to
    /// the total number of edges, as the out-degrees do by definition.
    pub proof fn lemma_degree_sums(&self)
        requires
            self.wf(),
        ensures
            self.in_edge_total() == self.edge_total(),
    {
        let n = self.n();
        self.lemma_outs_upto(n);
        self.lemma_ins_upto(n);
        let o = self.outs_upto(n);
        let i = self.ins_upto(n);
        assert forall|t: (int, int, Seq<char>)| #[trigger] occurrences(o, t) == occurrences(i, t) by {
            let a = t.0;
            let b = t.1;
            if 0 <= a < n && 0 <= b < n {
                assert(count_edge(half_views(self.inn@[b]@), (a, t.2)) == count_edge(half_views(self.out@[a]@), (b, t.2)));
            } else if 0 <= a < n {
                let s = self.out_view(a);
                assert forall|q: int| 0 <= q < s.len() implies #[trigger] s[q] != (b, t.2) by {
                    assert(s[q].0 == self.out@[a]@[q].other as int);
                    assert(self.out@[a]@[q].other < n);
                }
                lemma_count_edge_absent(s, (b, t.2));
            } else if 0 <= b < n {
                let s = self.in_view(b);
                assert forall|q: int| 0 <= q < s.len() implies #[trigger] s[q] != (a, t.2) by {
                    assert(s[q].0 == self.inn@[b]@[q].other as int);
                    assert(self.inn@[b]@[q].other < n);
                }
                lemma_count_edge_absent(s, (a, t.2));
            }
        }
        lemma_same_counts_same_len(o, i);
    }
}

/// How many elements of `s` the values `l` account for, value by value.
pub open spec fn counts_of<A>(s: Seq<A>, l: Seq<A>) -> nat
    decreases l.len(),
{
    if l.len() == 0 {
        0
    } else {
        counts_of(s, l.drop_last()) + occurrences(s, l.last())
    }
}

proof fn lemma_counts_of_push<A>(s: Seq<A>, x: A, l: Seq<A>)
    ensures
        counts_of(s.push(x), l) == counts_of(s, l) + occurrences(l, x),
    decreases l.len(),
{
    if l.len() > 0 {
        lemma_counts_of_push(s, x, l.drop_last());
        assert(s.push(x).drop_last() =~= s);
    }
}

proof fn lemma_occurrences_distinct<A>(l: Seq<A>, x: A)
    requires
        forall|i: int, j: int| 0 <= i < j < l.len() ==> #[trigger] l[i] != #[trigger] l[j],
    ensures
        occurrences(l, x) == if l.contains(x) { 1nat } else { 0nat },
    decreases l.len(),
{
    if l.len() > 0 {
        let p = l.drop_last();
        assert forall|i: int, j: int| 0 <= i < j < p.len() implies #[trigger] p[i] != #[trigger] p[j] by {
            assert(p[i] == l[i] && p[j] == l[j]);
        }
        lemma_occurrences_distinct(p, x);
        if l.last() == x {
            if p.contains(x) {
                let i = choose|i: int| 0 <= i < p.len() && p[i] == x;
                assert(l[i] == l[l.len() - 1]);
            }
            assert(l[l.len() - 1] == x);
        } else {
            if l.contains(x) {
                let i = choose|i: int| 0 <= i < l.len() && l[i] == x;
                assert(i < l.len() - 1);
                assert(p[i] == x);
            }
            if p.contains(x) {
                let i = choose|i: int| 0 <= i < p.len() && p[i] == x;
                assert(l[i] == x);
            }
        }
    }
}

/// A list of distinct values holding every value of `s` accounts for all of `s`.
proof fn lemma_counts_of_cover<A>(s: Seq<A>, l: Seq<A>)
    requires
        forall|i: int, j: int| 0 <= i < j < l.len() ==> #[trigger] l[i] != #[trigger] l[j],
        forall|x: A| #[trigger] occurrences(s, x) > 0 ==> l.contains(x),
    ensures
        counts_of(s, l) == s.len(),
    decreases s.len(),
{
    if s.len() == 0 {
        assert forall|k: int| 0 <= k <= l.len() implies #[trigger] counts_of(s, l.take(k)) == 0 by {
            lemma_counts_of_zero(s, l, k);
        }
        assert(l.take(l.len() as int) =~= l);
    } else {
        let p = s.drop_last();
        let x = s.last();
        assert forall|y: A| #[trigger] occurrences(p, y) > 0 implies l.contains(y) by {
            assert(occurrences(s, y) >= occurrences(p, y));
        }
        lemma_counts_of_cover(p, l);
        assert(p.push(x) =~= s);
        lemma_counts_of_push(p, x, l);
        assert(occurrences(s, x) > 0);
        lemma_occurrences_distinct(l, x);
    }
}

proof fn lemma_counts_of_zero<A>(s: Seq<A>, l: Seq<A>, k: int)
    requires
        s.len() == 0,
        0 <= k <= l.len(),
    ensures
        counts_of(s, l.take(k)) == 0,
    decreases k,
{
    if k > 0 {
        lemma_counts_of_zero(s, l, k - 1);
        assert(l.take(k).drop_last() =~= l.take(k - 1));
    }
}

/// The kinds of an outbound list, in order.
pub open spec fn kinds_of(s: Seq<(int, Seq<char>)>) -> Seq<Seq<char>> {
    s.map_values(|e: (int, Seq<char>)| e.1)
}

proof fn lemma_kinds_of_count(s: Seq<(int, Seq<char>)>, k: Seq<char>)
    ensures
        occurrences(kinds_of(s), k) == kind_in(s, k),
    decreases s.len(),
{
    if s.len() > 0 {
        lemma_kinds_of_count(s.drop_last(), k);
        assert(kinds_of(s).drop_last() =~= kinds_of(s.drop_last()));
    }
}

impl Graph {
    spec fn kinds_upto(&self, m: int) -> Seq<Seq<char>>
        decreases m,
    {
        if m <= 0 {
            seq![]
        } else {
            self.kinds_upto(m - 1) + kinds_of(self.out_view(m - 1))
        }
    }

    proof fn lemma_kinds_upto(&self, m: int)
        requires
            0 <= m,
        ensures
            self.kinds_upto(m).len() == self.edges_upto(m),
            forall|k: Seq<char>| #[trigger] occurrences(self.kinds_upto(m), k) == self.kind_upto(k, m),
        decreases m,
    {
        if m > 0 {
            self.lemma_kinds_upto(m - 1);
            assert forall|k: Seq<char>| #[trigger] occurrences(self.kinds_upto(m), k) == self.kind_upto(k, m) by {
                lemma_occurrences_concat(self.kinds_upto(m - 1), kinds_of(self.out_view(m - 1)), k);
                lemma_kinds_of_count(self.out_view(m - 1), k);
            }
        }
    }

    /// The edge totals of the kinds `ks`, added up.
    pub open spec fn kind_totals(&self, ks: Seq<Seq<char>>) -> nat
        decreases ks.len(),
    {
        if ks.len() == 0 {
            0
        } else {
            self.kind_totals(ks.drop_last()) + self.kind_total(ks.last())
        }
    }

    /// The per-kind edge counts add up to the total number of edges, over
    /// any list of distinct kinds that holds every kind in use (as
    /// `edge_kind_counts` lists them).
    pub proof fn lemma_kind_sums(&self, ks: Seq<Seq<char>>)
        requires
            self.wf(),
            forall|i: int, j: int| 0 <= i < j < ks.len() ==> #[trigger] ks[i] != #[trigger] ks[j],
            forall|k: Seq<char>| #[trigger] self.kind_total(k) > 0 ==> ks.contains(k),
        ensures
            self.kind_totals(ks) == self.edge_total(),
    {
        let n = self.n();
        self.lemma_kinds_upto(n);
        let all = self.kinds_upto(n);
        assert forall|k: Seq<char>| #[trigger] occurrences(all, k) > 0 implies ks.contains(k) by {
            assert(self.kind_total(k) == occurrences(all, k));
        }
        lemma_counts_of_cover(all, ks);
        self.lemma_kind_totals_counts(all, ks);
    }

    proof fn lemma_kind_totals_counts(&self, all: Seq<Seq<char>>, ks: Seq<Seq<char>>)
        requires
            forall|k: Seq<char>| #[trigger] occurrences(all, k) == self.kind_total(k),
        ensures
            self.kind_totals(ks) == counts_of(all, ks),
        decreases ks.len(),
    {
        if ks.len() > 0 {
            self.lemma_kind_totals_counts(all, ks.drop_last());
            assert(occurrences(all, ks.last()) == self.kind_total(ks.last()));
        }
    }
}

} // verus!
