//! The graph commands: `neighbors`, `backlinks`, `path`, `orphans` and
//! `deadlinks`. Each resolves its concept arguments, builds the typed-edge
//! graph of the visible concepts, runs its query and wraps the answer in the
//! shared concept envelope.

use vstd::prelude::*;
use crate::cli::{BacklinksArgs, DeadlinksArgs, DirectionArg, NeighborsArgs, OrphansArgs, PathArgs};
use crate::concept::{ConceptId, id_lt, id_views, join_slash};
use crate::error::AppError;
use crate::fmt::{decimal_string, digits, push_str};
use crate::graph::{DeadClass, DeadLink, Direction, EdgeFilter, Graph, PathStep, Reached, dead_link_views, id_name};
use crate::model::{Bundle, Concept, ConceptRecord, resolution, resolve_concept};
use crate::style::{esc, loc_style, reset_code};
use crate::text::{contains, contains_spec, lines, lines_spec, owned, str_to_chars, string_views, views};
use crate::trust::{ConceptTrust, opt_view};
use crate::view::Corpus;

verus! {

/// A reached concept: the shared envelope plus the edge that reached it.
pub struct GraphNode {
    /// The reached concept.
    pub concept: ConceptRecord,
    /// The first-hop edge kind on the path from the source.
    pub edge: String,
    /// The first-hop direction (`in`/`out`).
    pub direction: String,
    /// Hop distance from the source.
    pub distance: usize,
}

/// The `neighbors`/`backlinks` envelope.
pub struct GraphListOutput {
    /// `okq.neighbors/v1` or `okq.backlinks/v1`.
    pub schema: String,
    /// The concept the traversal started from.
    pub concept: String,
    /// Number of reached concepts.
    pub count: usize,
    /// The reached concepts, in (distance, id) order.
    pub results: Vec<GraphNode>,
}

/// A node on a path, with the edge taken to reach it (`None` for the start).
pub struct PathNode {
    /// The concept at this step.
    pub concept: ConceptRecord,
    /// The edge kind taken into it.
    pub edge: Option<String>,
}

/// The `okq.path/v1` envelope.
pub struct PathOutput {
    /// `okq.path/v1`.
    pub schema: String,
    /// Start concept id.
    pub from: String,
    /// End concept id.
    pub to: String,
    /// Whether a path was found.
    pub found: bool,
    /// Number of edges on the path (0 if not found).
    pub length: usize,
    /// The ordered nodes from `from` to `to`.
    pub path: Vec<PathNode>,
}

/// The `okq.orphans/v1` envelope.
pub struct OrphansOutput {
    /// `okq.orphans/v1`.
    pub schema: String,
    /// Number of orphaned concepts.
    pub count: usize,
    /// Concepts with no inbound links, in id order.
    pub results: Vec<ConceptRecord>,
}

/// One dead link: where it is declared and what it points at.
pub struct DeadLinkRecord {
    /// The concept that declares the link.
    pub source_id: String,
    /// That concept's path relative to the bundle root.
    pub source_path: String,
    /// 1-based line where the dead target appears.
    pub line: usize,
    /// The link target as written.
    pub raw: String,
    /// The edge kind (`link`, `wikilink` or a relation key).
    pub edge: String,
    /// `broken` or `phantom`.
    pub kind: String,
}

/// The `okq.deadlinks/v1` envelope.
pub struct DeadlinksOutput {
    /// `okq.deadlinks/v1`.
    pub schema: String,
    /// Number of dead links listed.
    pub count: usize,
    /// The dead links, by source then raw target.
    pub results: Vec<DeadLinkRecord>,
}

pub open spec fn direction_of(a: DirectionArg) -> Direction {
    match a {
        DirectionArg::In => Direction::In,
        DirectionArg::Out => Direction::Out,
        DirectionArg::Both => Direction::Both,
    }
}

/// The traversal direction a command-line direction names.
pub fn direction(arg: DirectionArg) -> (r: Direction)
    ensures
        r == direction_of(arg),
{
    match arg {
        DirectionArg::In => Direction::In,
        DirectionArg::Out => Direction::Out,
        DirectionArg::Both => Direction::Both,
    }
}

pub open spec fn dir_text(d: Direction) -> Seq<char> {
    match d {
        Direction::In => seq!['i', 'n'],
        Direction::Out => seq!['o', 'u', 't'],
        Direction::Both => seq!['b', 'o', 't', 'h'],
    }
}

pub open spec fn class_text(c: DeadClass) -> Seq<char> {
    match c {
        DeadClass::Broken => seq!['b', 'r', 'o', 'k', 'e', 'n'],
        DeadClass::Phantom => seq!['p', 'h', 'a', 'n', 't', 'o', 'm'],
    }
}

/// The record of an id no loaded concept has: its text as id and path,
/// its last segment as title, nothing else.
pub open spec fn bare_record(id: Seq<Seq<char>>, r: ConceptRecord) -> bool {
    &&& r.id@ == join_slash(id)
    &&& r.type_ is None
    &&& r.title@ == id_name(id)
    &&& r.path@ == join_slash(id)
    &&& r.line == 1
    &&& r.tags@.len() == 0
    &&& r.trust.view_tuple() == (None::<Seq<char>>, None::<Seq<char>>, None::<bool>)
}

/// `r` is the envelope of the concept of `b` with this id, or the bare
/// record when there is none.
pub open spec fn record_for(b: Seq<Concept>, id: Seq<Seq<char>>, r: ConceptRecord) -> bool {
    ||| exists|j: int| 0 <= j < b.len() && #[trigger] b[j].id@ == id && r.describes(b[j])
    ||| (forall|j: int| 0 <= j < b.len() ==> #[trigger] b[j].id@ != id) && bare_record(id, r)
}

/// The index of the concept with this id.
pub(crate) fn find_concept(b: &Vec<Concept>, id: &ConceptId) -> (r: Option<usize>)
    ensures
        match r {
            Some(j) => j < b@.len() && b@[j as int].id@ == id@,
            None => forall|j: int| 0 <= j < b@.len() ==> #[trigger] b@[j].id@ != id@,
        },
{
    let mut j: usize = 0;
    while j < b.len()
        invariant
            0 <= j <= b.len(),
            forall|k: int| 0 <= k < j ==> #[trigger] b@[k].id@ != id@,
        decreases b.len() - j,
    {
        if b[j].id.same(id) {
            return Some(j);
        }
        j += 1;
    }
    None
}

/// The envelope of the concept with this id.
fn record(bundle: &Bundle, id: &ConceptId) -> (r: ConceptRecord)
    ensures
        record_for(bundle.concepts_view(), id@, r),
{
    let b = bundle.concepts();
    match find_concept(b, id) {
        Some(j) => {
            let r = ConceptRecord::from_concept(&b[j]);
            assert(b@[j as int].id@ == id@ && r.describes(b@[j as int]));
            r
        },
        None => {
            let segs = id.segments();
            let title = if segs.len() > 0 {
                assert(string_views(segs@).last() == segs@[segs.len() - 1]@);
                owned(segs[segs.len() - 1].as_str())
            } else {
                proof {
                    reveal_strlit("");
                }
                assert(""@ =~= Seq::<char>::empty());
                owned("")
            };
            assert(title@ == id_name(id@));
            let r = ConceptRecord {
                id: id.to_text(),
                type_: None,
                title,
                path: id.to_text(),
                line: 1,
                tags: Vec::new(),
                trust: ConceptTrust { status: None, trust: None, stale: None },
            };
            assert(bare_record(id@, r));
            r
        },
    }
}

// ---------------------------------------------------------------------------
// neighbors / backlinks

pub open spec fn node_for(b: Seq<Concept>, e: Reached, n: GraphNode) -> bool {
    &&& record_for(b, e.id@, n.concept)
    &&& n.edge@ == e.kind@
    &&& n.direction@ == dir_text(e.direction)
    &&& n.distance == e.distance
}

pub open spec fn nodes_for(b: Seq<Concept>, r: Seq<Reached>, ns: Seq<GraphNode>) -> bool {
    &&& ns.len() == r.len()
    &&& forall|i: int| 0 <= i < r.len() ==> node_for(b, #[trigger] r[i], ns[i])
}

/// `ns` lists, as envelopes, what `neighbors` returns on the graph of the
/// corpus's visible concepts.
pub open spec fn traversal(g: Graph, r: Seq<Reached>, c: Corpus, source: Seq<Seq<char>>, depth: nat, d: Direction, f: Seq<Seq<char>>, ns: Seq<GraphNode>) -> bool {
    &&& g.built_from(c.bundle_view(), c.hidden_view())
    &&& g.neighbors_post(source, depth, d, f, r)
    &&& nodes_for(c.bundle_view(), r, ns)
}

pub open spec fn reached_from(c: Corpus, source: Seq<Seq<char>>, depth: nat, d: Direction, f: Seq<Seq<char>>, ns: Seq<GraphNode>) -> bool {
    exists|g: Graph, r: Seq<Reached>| #[trigger] traversal(g, r, c, source, depth, d, f, ns)
}

fn node(bundle: &Bundle, r: &Reached) -> (n: GraphNode)
    ensures
        node_for(bundle.concepts_view(), *r, n),
{
    let d = r.direction.as_str();
    let n = GraphNode { concept: record(bundle, &r.id), edge: r.kind.clone(), direction: owned(d), distance: r.distance };
    assert(n.direction@ == dir_text(r.direction)) by {
        match r.direction {
            Direction::In => {},
            Direction::Out => {},
            Direction::Both => {},
        }
    }
    n
}

fn nodes(bundle: &Bundle, reached: &Vec<Reached>) -> (ns: Vec<GraphNode>)
    ensures
        nodes_for(bundle.concepts_view(), reached@, ns@),
{
    let mut ns: Vec<GraphNode> = Vec::new();
    let mut i: usize = 0;
    while i < reached.len()
        invariant
            0 <= i <= reached.len(),
            ns@.len() == i,
            forall|k: int| 0 <= k < i ==> node_for(bundle.concepts_view(), #[trigger] reached@[k], ns@[k]),
        decreases reached.len() - i,
    {
        ns.push(node(bundle, &reached[i]));
        i += 1;
    }
    ns
}

/// Runs a traversal from a resolved concept.
fn traverse(corpus: &Corpus, id: &ConceptId, depth: usize, d: Direction, f: &EdgeFilter) -> (ns: Vec<GraphNode>)
    requires
        corpus.wf(),
    ensures
        reached_from(*corpus, id@, depth as nat, d, f@, ns@),
{
    let g = Graph::build(corpus.bundle(), corpus.hidden());
    let reached = g.neighbors(id, depth, d, f);
    let ns = nodes(corpus.bundle(), &reached);
    assert(traversal(g, reached@, *corpus, id@, depth as nat, d, f@, ns@));
    ns
}

/// `okq neighbors`: the concepts within `depth` hops of the resolved
/// concept, following the chosen direction and edge kinds.
pub fn neighbors(corpus: &Corpus, args: &NeighborsArgs) -> (r: Result<GraphListOutput, AppError>)
    requires
        corpus.wf(),
    ensures
        match r {
            Ok(out) => exists|id: ConceptId| #[trigger] resolution(*corpus, args.concept@, Ok(id))
                && out.schema@ == "okq.neighbors/v1"@
                && out.concept@ == join_slash(id@)
                && out.count == out.results@.len()
                && reached_from(*corpus, id@, args.depth as nat, direction_of(args.direction), string_views(args.edge@), out.results@),
            Err(e) => resolution(*corpus, args.concept@, Err(e)),
        },
{
    let id = match resolve_concept(corpus, args.concept.as_str()) {
        Ok(id) => id,
        Err(e) => return Err(e),
    };
    let f = EdgeFilter::new(args.edge.as_slice());
    let results = traverse(corpus, &id, args.depth, direction(args.direction), &f);
    Ok(GraphListOutput { schema: owned("okq.neighbors/v1"), concept: id.to_text(), count: results.len(), results })
}

/// `okq backlinks`: the concepts with an edge into the resolved concept
/// (`neighbors --direction in --depth 1`).
pub fn backlinks(corpus: &Corpus, args: &BacklinksArgs) -> (r: Result<GraphListOutput, AppError>)
    requires
        corpus.wf(),
    ensures
        match r {
            Ok(out) => exists|id: ConceptId| #[trigger] resolution(*corpus, args.concept@, Ok(id))
                && out.schema@ == "okq.backlinks/v1"@
                && out.concept@ == join_slash(id@)
                && out.count == out.results@.len()
                && reached_from(*corpus, id@, 1, Direction::In, string_views(args.edge@), out.results@),
            Err(e) => resolution(*corpus, args.concept@, Err(e)),
        },
{
    let id = match resolve_concept(corpus, args.concept.as_str()) {
        Ok(id) => id,
        Err(e) => return Err(e),
    };
    let f = EdgeFilter::new(args.edge.as_slice());
    let results = traverse(corpus, &id, 1, Direction::In, &f);
    Ok(GraphListOutput { schema: owned("okq.backlinks/v1"), concept: id.to_text(), count: results.len(), results })
}

// ---------------------------------------------------------------------------
// path

pub open spec fn step_for(b: Seq<Concept>, st: PathStep, n: PathNode) -> bool {
    record_for(b, st.id@, n.concept) && opt_view(n.edge) == opt_view(st.edge)
}

pub open spec fn steps_for(b: Seq<Concept>, st: Seq<PathStep>, ns: Seq<PathNode>) -> bool {
    &&& ns.len() == st.len()
    &&& forall|i: int| 0 <= i < st.len() ==> step_for(b, #[trigger] st[i], ns[i])
}

/// `ns` lists, as envelopes, what `shortest_path` returns on the graph of
/// the corpus's visible concepts; `found` says whether it found a route.
pub open spec fn route(g: Graph, r: Option<Seq<PathStep>>, c: Corpus, a: Seq<Seq<char>>, b: Seq<Seq<char>>, undirected: bool, f: Seq<Seq<char>>, found: bool, ns: Seq<PathNode>) -> bool {
    &&& g.built_from(c.bundle_view(), c.hidden_view())
    &&& g.path_post(a, b, undirected, f, r)
    &&& match r {
        Some(st) => found && steps_for(c.bundle_view(), st, ns),
        None => !found && ns.len() == 0,
    }
}

pub open spec fn routed(c: Corpus, a: Seq<Seq<char>>, b: Seq<Seq<char>>, undirected: bool, f: Seq<Seq<char>>, found: bool, ns: Seq<PathNode>) -> bool {
    exists|g: Graph, r: Option<Seq<PathStep>>| #[trigger] route(g, r, c, a, b, undirected, f, found, ns)
}

fn path_nodes(bundle: &Bundle, steps: &Vec<PathStep>) -> (ns: Vec<PathNode>)
    ensures
        steps_for(bundle.concepts_view(), steps@, ns@),
{
    let mut ns: Vec<PathNode> = Vec::new();
    let mut i: usize = 0;
    while i < steps.len()
        invariant
            0 <= i <= steps.len(),
            ns@.len() == i,
            forall|k: int| 0 <= k < i ==> step_for(bundle.concepts_view(), #[trigger] steps@[k], ns@[k]),
        decreases steps.len() - i,
    {
        let st = &steps[i];
        let edge = match &st.edge {
            Some(e) => Some(owned(e.as_str())),
            None => None,
        };
        ns.push(PathNode { concept: record(bundle, &st.id), edge });
        i += 1;
    }
    ns
}

/// `okq path`: a shortest route between two resolved concepts, along
/// outbound edges (or either way with `undirected`).
pub fn path(corpus: &Corpus, args: &PathArgs) -> (r: Result<PathOutput, AppError>)
    requires
        corpus.wf(),
    ensures
        match r {
            Ok(out) => exists|a: ConceptId, b: ConceptId|
                #[trigger] resolution(*corpus, args.from@, Ok(a)) && #[trigger] resolution(*corpus, args.to@, Ok(b))
                && out.schema@ == "okq.path/v1"@
                && out.from@ == join_slash(a@)
                && out.to@ == join_slash(b@)
                && out.length == (if out.path@.len() == 0 { 0 } else { out.path@.len() - 1 })
                && routed(*corpus, a@, b@, args.undirected, string_views(args.edge@), out.found, out.path@),
            Err(e) => resolution(*corpus, args.from@, Err(e))
                || exists|a: ConceptId| #[trigger] resolution(*corpus, args.from@, Ok(a)) && resolution(*corpus, args.to@, Err(e)),
        },
{
    let from = match resolve_concept(corpus, args.from.as_str()) {
        Ok(id) => id,
        Err(e) => return Err(e),
    };
    let to = match resolve_concept(corpus, args.to.as_str()) {
        Ok(id) => id,
        Err(e) => {
            assert(resolution(*corpus, args.from@, Ok(from)));
            return Err(e);
        },
    };
    let f = EdgeFilter::new(args.edge.as_slice());
    let g = Graph::build(corpus.bundle(), corpus.hidden());
    let found = g.shortest_path(&from, &to, args.undirected, &f);
    let ghost rv = match &found {
        Some(v) => Some(v@),
        None => None::<Seq<PathStep>>,
    };
    let (flag, path) = match found {
        Some(steps) => (true, path_nodes(corpus.bundle(), &steps)),
        None => (false, Vec::new()),
    };
    assert(route(g, rv, *corpus, from@, to@, args.undirected, f@, flag, path@));
    let length = if path.len() == 0 { 0 } else { path.len() - 1 };
    Ok(PathOutput { schema: owned("okq.path/v1"), from: from.to_text(), to: to.to_text(), found: flag, length, path })
}

// ---------------------------------------------------------------------------
// orphans

pub open spec fn records_for(b: Seq<Concept>, ids: Seq<Seq<Seq<char>>>, rs: Seq<ConceptRecord>) -> bool {
    &&& rs.len() == ids.len()
    &&& forall|i: int| 0 <= i < ids.len() ==> record_for(b, #[trigger] ids[i], rs[i])
}

/// `rs` lists, as envelopes, what `orphans` returns on the graph of the
/// corpus's visible concepts.
pub open spec fn orphan_list(g: Graph, ids: Seq<Seq<Seq<char>>>, c: Corpus, rs: Seq<ConceptRecord>) -> bool {
    &&& g.built_from(c.bundle_view(), c.hidden_view())
    &&& forall|i: int, j: int| 0 <= i < j < ids.len() ==> id_lt(#[trigger] ids[i], #[trigger] ids[j])
    &&& forall|x: Seq<Seq<char>>| ids.contains(x) <==> #[trigger] g.is_orphan(c.bundle_view(), c.hidden_view(), x)
    &&& records_for(c.bundle_view(), ids, rs)
}

fn records(bundle: &Bundle, ids: &Vec<ConceptId>) -> (rs: Vec<ConceptRecord>)
    ensures
        records_for(bundle.concepts_view(), id_views(ids@), rs@),
{
    let mut rs: Vec<ConceptRecord> = Vec::new();
    let mut i: usize = 0;
    while i < ids.len()
        invariant
            0 <= i <= ids.len(),
            rs@.len() == i,
            forall|k: int| 0 <= k < i ==> record_for(bundle.concepts_view(), #[trigger] id_views(ids@)[k], rs@[k]),
        decreases ids.len() - i,
    {
        rs.push(record(bundle, &ids[i]));
        i += 1;
    }
    rs
}

/// `okq orphans`: the visible concepts nothing links to, in id order.
pub fn orphans(corpus: &Corpus, args: &OrphansArgs) -> (out: OrphansOutput)
    requires
        corpus.wf(),
    ensures
        out.schema@ == "okq.orphans/v1"@,
        out.count == out.results@.len(),
        exists|g: Graph, ids: Seq<Seq<Seq<char>>>| #[trigger] orphan_list(g, ids, *corpus, out.results@),
{
    let g = Graph::build(corpus.bundle(), corpus.hidden());
    let ids = g.orphans(corpus.bundle(), corpus.hidden());
    let results = records(corpus.bundle(), &ids);
    let out = OrphansOutput { schema: owned("okq.orphans/v1"), count: results.len(), results };
    assert(orphan_list(g, id_views(ids@), *corpus, out.results@));
    out
}

// ---------------------------------------------------------------------------
// deadlinks

/// Which dead links a listing keeps: phantoms only, everything, or (by
/// default) the broken ones.
pub open spec fn keep_class(c: DeadClass, phantoms: bool, only: bool) -> bool {
    if only {
        c == DeadClass::Phantom
    } else {
        phantoms || c == DeadClass::Broken
    }
}

pub open spec fn kept_dead(s: Seq<(Seq<Seq<char>>, Seq<char>, Seq<char>, DeadClass)>, phantoms: bool, only: bool) -> Seq<(Seq<Seq<char>>, Seq<char>, Seq<char>, DeadClass)>
    decreases s.len(),
{
    if s.len() == 0 {
        seq![]
    } else {
        let p = kept_dead(s.drop_last(), phantoms, only);
        if keep_class(s.last().3, phantoms, only) {
            p.push(s.last())
        } else {
            p
        }
    }
}

/// The default listing holds exactly the broken links, `phantoms_only`
/// exactly the phantoms, and `phantoms` both, so its length is the sum of
/// the other two.
pub proof fn lemma_dead_listings_partition(s: Seq<(Seq<Seq<char>>, Seq<char>, Seq<char>, DeadClass)>)
    ensures
        kept_dead(s, false, false).len() == crate::graph::class_count(s, DeadClass::Broken),
        kept_dead(s, false, true).len() == crate::graph::class_count(s, DeadClass::Phantom),
        kept_dead(s, true, false).len() == kept_dead(s, false, false).len() + kept_dead(s, false, true).len(),
        kept_dead(s, true, false) == s,
    decreases s.len(),
{
    if s.len() > 0 {
        lemma_dead_listings_partition(s.drop_last());
        assert(s.drop_last().push(s.last()) =~= s);
    }
}

/// The first line index of `ls` at or after `k` that contains `raw`, or -1.
pub open spec fn first_with(ls: Seq<Seq<char>>, raw: Seq<char>, k: int) -> int
    decreases ls.len() - k,
{
    if k < 0 || k >= ls.len() {
        -1
    } else if contains_spec(ls[k], raw) {
        k
    } else {
        first_with(ls, raw, k + 1)
    }
}

/// The 1-based line of `text` where `raw` first appears, or 1.
pub open spec fn line_in(text: Seq<char>, raw: Seq<char>) -> int {
    let k = first_with(lines_spec(text), raw, 0);
    if k < 0 {
        1
    } else {
        k + 1
    }
}

/// The 1-based line of `text` where `raw` first appears; 1 when it does
/// not appear.
pub fn line_of(text: &str, raw: &str) -> (r: usize)
    ensures
        r == line_in(text@, raw@),
{
    let t = str_to_chars(text);
    let p = str_to_chars(raw);
    let ls = lines(&t);
    let ghost lv = views(ls@);
    let mut k: usize = 0;
    while k < ls.len()
        invariant
            lv == views(ls@),
            lv == lines_spec(text@),
            p@ == raw@,
            0 <= k <= ls.len(),
            first_with(lv, raw@, 0) == first_with(lv, raw@, k as int),
        decreases ls.len() - k,
    {
        if contains(&ls[k], &p) {
            assert(lv[k as int] == ls@[k as int]@);
            return k + 1;
        }
        assert(lv[k as int] == ls@[k as int]@);
        k += 1;
    }
    1
}

/// The index of the concept of `b` with this id, or -1.
pub open spec fn concept_index(b: Seq<Concept>, id: Seq<Seq<char>>) -> int {
    if exists|j: int| 0 <= j < b.len() && #[trigger] b[j].id@ == id {
        choose|j: int| 0 <= j < b.len() && #[trigger] b[j].id@ == id
    } else {
        -1
    }
}

/// Where a dead link's source lives: the concept's path, or the id's text.
pub open spec fn source_path_of(b: Seq<Concept>, src: Seq<Seq<char>>) -> Seq<char> {
    let j = concept_index(b, src);
    if j < 0 {
        join_slash(src)
    } else {
        b[j].path@
    }
}

/// The line of the source file where `raw` appears, 1 when the source or
/// its text is missing.
pub open spec fn source_line_of(b: Seq<Concept>, texts: Seq<Option<String>>, src: Seq<Seq<char>>, raw: Seq<char>) -> int {
    let j = concept_index(b, src);
    if 0 <= j < texts.len() && texts[j] is Some {
        line_in(texts[j]->0@, raw)
    } else {
        1
    }
}

pub open spec fn dead_record_for(b: Seq<Concept>, texts: Seq<Option<String>>, d: (Seq<Seq<char>>, Seq<char>, Seq<char>, DeadClass), r: DeadLinkRecord) -> bool {
    &&& r.source_id@ == join_slash(d.0)
    &&& r.source_path@ == source_path_of(b, d.0)
    &&& r.line == source_line_of(b, texts, d.0, d.1)
    &&& r.raw@ == d.1
    &&& r.edge@ == d.2
    &&& r.kind@ == class_text(d.3)
}

pub open spec fn dead_records_for(b: Seq<Concept>, texts: Seq<Option<String>>, ds: Seq<(Seq<Seq<char>>, Seq<char>, Seq<char>, DeadClass)>, rs: Seq<DeadLinkRecord>) -> bool {
    &&& rs.len() == ds.len()
    &&& forall|i: int| 0 <= i < ds.len() ==> dead_record_for(b, texts, #[trigger] ds[i], rs[i])
}

fn dead_record(bundle: &Bundle, texts: &Vec<Option<String>>, d: &DeadLink) -> (r: DeadLinkRecord)
    requires
        bundle.wf(),
    ensures
        dead_record_for(bundle.concepts_view(), texts@, (d.source@, d.raw@, d.kind@, d.class), r),
{
    let b = bundle.concepts();
    let ghost bv = bundle.concepts_view();
    let (source_path, line) = match find_concept(b, &d.source) {
        Some(j) => {
            assert(concept_index(bv, d.source@) == j) by {
                let c = choose|c: int| 0 <= c < bv.len() && #[trigger] bv[c].id@ == d.source@;
                if c != j {
                    assert(bv[c].id@ == bv[j as int].id@);
                }
            }
            let line = if j < texts.len() {
                match &texts[j] {
                    Some(t) => line_of(t.as_str(), d.raw.as_str()),
                    None => 1,
                }
            } else {
                1
            };
            (owned(b[j].path.as_str()), line)
        },
        None => {
            (d.source.to_text(), 1)
        },
    };
    let kind = owned(d.class.as_str());
    assert(kind@ == class_text(d.class)) by {
        match d.class {
            DeadClass::Broken => {},
            DeadClass::Phantom => {},
        }
    }
    DeadLinkRecord {
        source_id: d.source.to_text(),
        source_path,
        line,
        raw: owned(d.raw.as_str()),
        edge: owned(d.kind.as_str()),
        kind,
    }
}

/// `rs` lists, as records, the dead links of the graph of the corpus's
/// visible concepts that the flags keep, in the graph's order.
pub open spec fn dead_listing(g: Graph, c: Corpus, texts: Seq<Option<String>>, phantoms: bool, only: bool, rs: Seq<DeadLinkRecord>) -> bool {
    &&& g.built_from(c.bundle_view(), c.hidden_view())
    &&& dead_records_for(c.bundle_view(), texts, kept_dead(g.dead_view(), phantoms, only), rs)
}

/// `okq deadlinks`: links that resolve to no visible concept. Broken links
/// by default; `phantoms` adds the bare-name phantoms, `phantoms_only`
/// lists just those. `texts[j]` is the file text of the bundle's `j`th
/// concept, where it could be read; it locates each link's line.
pub fn deadlinks(corpus: &Corpus, args: &DeadlinksArgs, texts: &Vec<Option<String>>) -> (out: DeadlinksOutput)
    requires
        corpus.wf(),
    ensures
        out.schema@ == "okq.deadlinks/v1"@,
        out.count == out.results@.len(),
        exists|g: Graph| #[trigger] dead_listing(g, *corpus, texts@, args.phantoms, args.phantoms_only, out.results@),
{
    let bundle = corpus.bundle();
    let g = Graph::build(bundle, corpus.hidden());
    let dead = g.dead_links();
    let ghost dv = dead_link_views(dead@);
    let mut results: Vec<DeadLinkRecord> = Vec::new();
    let ghost mut kept: Seq<(Seq<Seq<char>>, Seq<char>, Seq<char>, DeadClass)> = seq![];
    let mut i: usize = 0;
    while i < dead.len()
        invariant
            bundle.wf(),
            dv == dead_link_views(dead@),
            0 <= i <= dead.len(),
            kept == kept_dead(dv.take(i as int), args.phantoms, args.phantoms_only),
            dead_records_for(bundle.concepts_view(), texts@, kept, results@),
        decreases dead.len() - i,
    {
        let d = &dead[i];
        assert(dv.take(i + 1).drop_last() =~= dv.take(i as int));
        assert(dv.take(i + 1).last() == (d.source@, d.raw@, d.kind@, d.class));
        let keep = if args.phantoms_only {
            d.class == DeadClass::Phantom
        } else {
            args.phantoms || d.class == DeadClass::Broken
        };
        if keep {
            let rec = dead_record(bundle, texts, d);
            results.push(rec);
            proof {
                kept = kept.push((d.source@, d.raw@, d.kind@, d.class));
            }
        }
        i += 1;
    }
    assert(dv.take(dead.len() as int) =~= dv);
    let out = DeadlinksOutput { schema: owned("okq.deadlinks/v1"), count: results.len(), results };
    assert(dead_listing(g, *corpus, texts@, args.phantoms, args.phantoms_only, out.results@));
    out
}

// ---------------------------------------------------------------------------
// Human output

pub open spec fn loc_on(no_color: bool) -> Seq<char> {
    if no_color {
        seq![]
    } else {
        esc(seq!['1'])
    }
}

pub open spec fn loc_off(no_color: bool) -> Seq<char> {
    if no_color {
        seq![]
    } else {
        reset_code()
    }
}

/// `path:line`, in the location style.
pub open spec fn at(path: Seq<char>, line: nat, no_color: bool) -> Seq<char> {
    loc_on(no_color) + path + seq![':'] + digits(line) + loc_off(no_color)
}

fn push_at(s: &mut String, st: &(String, String), path: &str, line: usize)
    ensures
        final(s)@ == old(s)@ + st.0@ + path@ + seq![':'] + digits(line as nat) + st.1@,
{
    push_str(s, st.0.as_str());
    push_str(s, path);
    s.push(':');
    let n = decimal_string(line as u64);
    push_str(s, n.as_str());
    push_str(s, st.1.as_str());
}

fn push_two_spaces(s: &mut String)
    ensures
        final(s)@ == old(s)@ + seq![' ', ' '],
{
    s.push(' ');
    s.push(' ');
}

pub open spec fn node_line(n: GraphNode, no_color: bool) -> Seq<char> {
    at(n.concept.path@, n.concept.line as nat, no_color) + seq![' ', ' '] + n.edge@ + seq![' ', '('] + n.direction@ + seq![')', ' ', ' ']
        + n.concept.title@ + seq!['\n']
}

pub open spec fn nodes_text(ns: Seq<GraphNode>, no_color: bool) -> Seq<char>
    decreases ns.len(),
{
    if ns.len() == 0 {
        seq![]
    } else {
        nodes_text(ns.drop_last(), no_color) + node_line(ns.last(), no_color)
    }
}

/// Human listing for `neighbors`/`backlinks`: one reached concept per line,
/// its location, the first-hop edge and direction, and its title.
pub fn render_nodes(out: &GraphListOutput, no_color: bool) -> (r: String)
    ensures
        r@ == nodes_text(out.results@, no_color),
{
    let ghost v = out.results@;
    let st = loc_style(no_color);
    let mut s = String::new();
    let mut i: usize = 0;
    while i < out.results.len()
        invariant
            v == out.results@,
            st.0@ == loc_on(no_color),
            st.1@ == loc_off(no_color),
            0 <= i <= v.len(),
            s@ == nodes_text(v.take(i as int), no_color),
        decreases v.len() - i,
    {
        let n = &out.results[i];
        assert(v.take(i + 1).drop_last() =~= v.take(i as int));
        let ghost before = s@;
        push_at(&mut s, &st, n.concept.path.as_str(), n.concept.line);
        push_two_spaces(&mut s);
        push_str(&mut s, n.edge.as_str());
        s.push(' ');
        s.push('(');
        push_str(&mut s, n.direction.as_str());
        s.push(')');
        push_two_spaces(&mut s);
        push_str(&mut s, n.concept.title.as_str());
        s.push('\n');
        assert(s@ =~= before + node_line(*n, no_color));
        i += 1;
    }
    assert(v.take(v.len() as int) =~= v);
    s
}

pub open spec fn orphan_line(c: ConceptRecord, no_color: bool) -> Seq<char> {
    at(c.path@, c.line as nat, no_color) + seq![' ', ' '] + c.title@ + seq!['\n']
}

pub open spec fn orphans_text(cs: Seq<ConceptRecord>, no_color: bool) -> Seq<char>
    decreases cs.len(),
{
    if cs.len() == 0 {
        seq![]
    } else {
        orphans_text(cs.drop_last(), no_color) + orphan_line(cs.last(), no_color)
    }
}

/// Human listing for `orphans`: location and title, one per line.
pub fn render_orphans(out: &OrphansOutput, no_color: bool) -> (r: String)
    ensures
        r@ == orphans_text(out.results@, no_color),
{
    let ghost v = out.results@;
    let st = loc_style(no_color);
    let mut s = String::new();
    let mut i: usize = 0;
    while i < out.results.len()
        invariant
            v == out.results@,
            st.0@ == loc_on(no_color),
            st.1@ == loc_off(no_color),
            0 <= i <= v.len(),
            s@ == orphans_text(v.take(i as int), no_color),
        decreases v.len() - i,
    {
        let c = &out.results[i];
        assert(v.take(i + 1).drop_last() =~= v.take(i as int));
        let ghost before = s@;
        push_at(&mut s, &st, c.path.as_str(), c.line);
        push_two_spaces(&mut s);
        push_str(&mut s, c.title.as_str());
        s.push('\n');
        assert(s@ =~= before + orphan_line(*c, no_color));
        i += 1;
    }
    assert(v.take(v.len() as int) =~= v);
    s
}

pub open spec fn dead_line(d: DeadLinkRecord, no_color: bool) -> Seq<char> {
    at(d.source_path@, d.line as nat, no_color) + seq![' ', ' ', '-', '['] + d.edge@ + seq![']', '-', '>', ' ', ' '] + d.raw@
        + seq!['\n']
}

pub open spec fn dead_text(ds: Seq<DeadLinkRecord>, no_color: bool) -> Seq<char>
    decreases ds.len(),
{
    if ds.len() == 0 {
        seq![]
    } else {
        dead_text(ds.drop_last(), no_color) + dead_line(ds.last(), no_color)
    }
}

/// Human listing for `deadlinks`: where each link is declared, its kind of
/// edge and its target.
pub fn render_deadlinks(out: &DeadlinksOutput, no_color: bool) -> (r: String)
    ensures
        r@ == dead_text(out.results@, no_color),
{
    let ghost v = out.results@;
    let st = loc_style(no_color);
    let mut s = String::new();
    let mut i: usize = 0;
    while i < out.results.len()
        invariant
            v == out.results@,
            st.0@ == loc_on(no_color),
            st.1@ == loc_off(no_color),
            0 <= i <= v.len(),
            s@ == dead_text(v.take(i as int), no_color),
        decreases v.len() - i,
    {
        let d = &out.results[i];
        assert(v.take(i + 1).drop_last() =~= v.take(i as int));
        let ghost before = s@;
        push_at(&mut s, &st, d.source_path.as_str(), d.line);
        push_two_spaces(&mut s);
        s.push('-');
        s.push('[');
        push_str(&mut s, d.edge.as_str());
        s.push(']');
        s.push('-');
        s.push('>');
        push_two_spaces(&mut s);
        push_str(&mut s, d.raw.as_str());
        s.push('\n');
        assert(s@ =~= before + dead_line(*d, no_color));
        i += 1;
    }
    assert(v.take(v.len() as int) =~= v);
    s
}

/// The edge shown on a path step: its kind, or `link` when none is known.
pub open spec fn step_edge(e: Option<String>) -> Seq<char> {
    match e {
        Some(k) => k@,
        None => seq!['l', 'i', 'n', 'k'],
    }
}

pub open spec fn path_line(n: PathNode, first: bool, no_color: bool) -> Seq<char> {
    let tail = at(n.concept.path@, n.concept.line as nat, no_color) + seq![' ', ' '] + n.concept.title@ + seq!['\n'];
    if first {
        tail
    } else {
        seq![' ', ' ', '-', '['] + step_edge(n.edge) + seq![']', '-', '>', ' ', ' '] + tail
    }
}

pub open spec fn path_text(ns: Seq<PathNode>, no_color: bool) -> Seq<char>
    decreases ns.len(),
{
    if ns.len() == 0 {
        seq![]
    } else {
        path_text(ns.drop_last(), no_color) + path_line(ns.last(), ns.len() == 1, no_color)
    }
}

fn path_step_text(n: &PathNode, first: bool, st: &(String, String), no_color: bool) -> (r: String)
    requires
        st.0@ == loc_on(no_color),
        st.1@ == loc_off(no_color),
    ensures
        r@ == path_line(*n, first, no_color),
{
    let mut s = String::new();
    if !first {
        push_two_spaces(&mut s);
        s.push('-');
        s.push('[');
        match &n.edge {
            Some(k) => push_str(&mut s, k.as_str()),
            None => {
                s.push('l');
                s.push('i');
                s.push('n');
                s.push('k');
            },
        }
        s.push(']');
        s.push('-');
        s.push('>');
        push_two_spaces(&mut s);
    }
    let ghost before = s@;
    push_at(&mut s, st, n.concept.path.as_str(), n.concept.line);
    push_two_spaces(&mut s);
    push_str(&mut s, n.concept.title.as_str());
    s.push('\n');
    assert(s@ =~= path_line(*n, first, no_color)) by {
        assert(s@ =~= before + at(n.concept.path@, n.concept.line as nat, no_color) + seq![' ', ' '] + n.concept.title@ + seq!['\n']);
    }
    s
}

/// Human rendering for `path`: the start, then each step with the edge
/// taken into it.
pub fn render_path(out: &PathOutput, no_color: bool) -> (r: String)
    ensures
        r@ == path_text(out.path@, no_color),
{
    let ghost v = out.path@;
    let st = loc_style(no_color);
    let mut s = String::new();
    let mut i: usize = 0;
    while i < out.path.len()
        invariant
            v == out.path@,
            st.0@ == loc_on(no_color),
            st.1@ == loc_off(no_color),
            0 <= i <= v.len(),
            s@ == path_text(v.take(i as int), no_color),
        decreases v.len() - i,
    {
        let n = &out.path[i];
        assert(v.take(i + 1).drop_last() =~= v.take(i as int));
        assert(v.take(i + 1).len() == i + 1);
        let ghost before = s@;
        let line = path_step_text(n, i == 0, &st, no_color);
        push_str(&mut s, line.as_str());
        assert(s@ =~= before + path_line(*n, i == 0, no_color));
        i += 1;
    }
    assert(v.take(v.len() as int) =~= v);
    s
}

} // verus!
