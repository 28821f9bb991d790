//! What one concept contributes to the link graph: its edges (to node
//! indices) and its dead links, from inline links, frontmatter relations and
//! `[[wikilinks]]`, and how a wikilink target is resolved.
//!
//! Resolution reads a node table: the visible concepts' ids in id order,
//! each node's lowercased name (its id's last segment) and each node's
//! lowercased aliases.

use vstd::prelude::*;
use crate::concept::{ConceptId, id_views};
use crate::graph::DeadClass;
use crate::model::{Concept, Link, field_values, field_values_spec};
use crate::resolve::{resolve_from_root, resolve_from_root_spec, resolve_relative, resolve_relative_spec};
use crate::text::{owned, str_eq, str_lowercase, str_to_chars, string_views, unicode_lower_str};
use crate::wikilinks::{extract, extract_spec, targets};

verus! {

broadcast use vstd::string::group_string_axioms;

pub open spec fn link_kind() -> Seq<char> {
    seq!['l', 'i', 'n', 'k']
}

pub open spec fn wikilink_kind() -> Seq<char> {
    seq!['w', 'i', 'k', 'i', 'l', 'i', 'n', 'k']
}

pub open spec fn related_key() -> Seq<char> {
    seq!['r', 'e', 'l', 'a', 't', 'e', 'd']
}

pub open spec fn supersedes_key() -> Seq<char> {
    seq!['s', 'u', 'p', 'e', 'r', 's', 'e', 'd', 'e', 's']
}

pub open spec fn superseded_by_key() -> Seq<char> {
    seq!['s', 'u', 'p', 'e', 'r', 's', 'e', 'd', 'e', 'd', '-', 'b', 'y']
}

pub open spec fn depends_on_key() -> Seq<char> {
    seq!['d', 'e', 'p', 'e', 'n', 'd', 's', '-', 'o', 'n']
}

/// An edge as the graph reads it: target node and kind.
pub open spec fn edge_views(v: Seq<(usize, String)>) -> Seq<(int, Seq<char>)> {
    v.map_values(|e: (usize, String)| (e.0 as int, e.1@))
}

/// A dead link of one source: the target as written, the kind, the class.
pub open spec fn dead_views(v: Seq<(String, String, DeadClass)>) -> Seq<(Seq<char>, Seq<char>, DeadClass)> {
    v.map_values(|d: (String, String, DeadClass)| (d.0@, d.1@, d.2))
}

pub open spec fn alias_table_views(v: Seq<Vec<String>>) -> Seq<Seq<Seq<char>>> {
    v.map_values(|a: Vec<String>| string_views(a@))
}

// ---------------------------------------------------------------------------
// Lookups in the node table.

/// The first index at or after `i` holding `id` (-1 if none).
pub open spec fn idx_from(ids: Seq<Seq<Seq<char>>>, id: Seq<Seq<char>>, i: int) -> int
    decreases ids.len() - i,
{
    if i < 0 || i >= ids.len() {
        -1
    } else if ids[i] == id {
        i
    } else {
        idx_from(ids, id, i + 1)
    }
}

/// The first node at or after `i` whose lowercased name is `key` (-1 if none).
pub open spec fn name_from(names: Seq<Seq<char>>, key: Seq<char>, i: int) -> int
    decreases names.len() - i,
{
    if i < 0 || i >= names.len() {
        -1
    } else if names[i] == key {
        i
    } else {
        name_from(names, key, i + 1)
    }
}

/// The first node at or after `i` with `key` among its lowercased aliases.
pub open spec fn alias_from(aliases: Seq<Seq<Seq<char>>>, key: Seq<char>, i: int) -> int
    decreases aliases.len() - i,
{
    if i < 0 || i >= aliases.len() {
        -1
    } else if aliases[i].contains(key) {
        i
    } else {
        alias_from(aliases, key, i + 1)
    }
}

pub proof fn lemma_idx_from(ids: Seq<Seq<Seq<char>>>, id: Seq<Seq<char>>, i: int)
    requires
        0 <= i,
    ensures
        idx_from(ids, id, i) == -1 || (i <= idx_from(ids, id, i) < ids.len() && ids[idx_from(ids, id, i)] == id),
        idx_from(ids, id, i) == -1 ==> forall|j: int| i <= j < ids.len() ==> ids[j] != id,
    decreases ids.len() - i,
{
    if i < ids.len() && ids[i] != id {
        lemma_idx_from(ids, id, i + 1);
    }
}

/// Where `node_index` says a node was found, it is there.
pub fn node_index(ids: &Vec<ConceptId>, id: &ConceptId) -> (r: Option<usize>)
    ensures
        match r {
            Some(i) => i as int == idx_from(id_views(ids@), id@, 0) && i < ids.len(),
            None => idx_from(id_views(ids@), id@, 0) == -1,
        },
{
    let ghost v = id_views(ids@);
    let mut i: usize = 0;
    while i < ids.len()
        invariant
            0 <= i <= ids.len(),
            v == id_views(ids@),
            idx_from(v, id@, i as int) == idx_from(v, id@, 0),
        decreases ids.len() - i,
    {
        if ids[i].same(id) {
            return Some(i);
        }
        i += 1;
    }
    None
}

fn name_index(names: &Vec<String>, key: &str) -> (r: Option<usize>)
    ensures
        match r {
            Some(i) => i as int == name_from(string_views(names@), key@, 0) && i < names.len(),
            None => name_from(string_views(names@), key@, 0) == -1,
        },
{
    let ghost v = string_views(names@);
    let mut i: usize = 0;
    while i < names.len()
        invariant
            0 <= i <= names.len(),
            v == string_views(names@),
            name_from(v, key@, i as int) == name_from(v, key@, 0),
        decreases names.len() - i,
    {
        if str_eq(names[i].as_str(), key) {
            return Some(i);
        }
        i += 1;
    }
    None
}

fn list_has(list: &Vec<String>, key: &str) -> (r: bool)
    ensures
        r == string_views(list@).contains(key@),
{
    let mut j: usize = 0;
    while j < list.len()
        invariant
            0 <= j <= list.len(),
            forall|k: int| 0 <= k < j ==> string_views(list@)[k] != key@,
        decreases list.len() - j,
    {
        if str_eq(list[j].as_str(), key) {
            assert(string_views(list@)[j as int] == key@);
            return true;
        }
        j += 1;
    }
    false
}

fn alias_index(aliases: &Vec<Vec<String>>, key: &str) -> (r: Option<usize>)
    ensures
        match r {
            Some(i) => i as int == alias_from(alias_table_views(aliases@), key@, 0) && i < aliases.len(),
            None => alias_from(alias_table_views(aliases@), key@, 0) == -1,
        },
{
    let ghost v = alias_table_views(aliases@);
    let mut i: usize = 0;
    while i < aliases.len()
        invariant
            0 <= i <= aliases.len(),
            v == alias_table_views(aliases@),
            alias_from(v, key@, i as int) == alias_from(v, key@, 0),
        decreases aliases.len() - i,
    {
        if list_has(&aliases[i], key) {
            return Some(i);
        }
        i += 1;
    }
    None
}

// ---------------------------------------------------------------------------
// Wikilink resolution.

/// The outcome of resolving a wikilink target.
#[derive(PartialEq, Eq, Structural, Debug)]
pub enum WikiResolution {
    /// Points at this visible node.
    Resolved(usize),
    /// A path reference inside the bundle that resolves to nothing.
    Broken,
    /// A bare name matching no concept name and no alias.
    Phantom,
    /// Not a bundle edge (a path escaping the bundle).
    Skip,
}

/// A target with a `/` is a path: read from the bundle root first, then
/// relative to the source; a path that forms an id but names no visible
/// concept is broken, one that escapes the bundle is skipped. A bare name
/// matches, case-insensitively, the first node (in id order) with that
/// name, else the first with that alias, else it is a phantom.
pub open spec fn resolve_wikilink_spec(
    ids: Seq<Seq<Seq<char>>>,
    names: Seq<Seq<char>>,
    aliases: Seq<Seq<Seq<char>>>,
    source: Seq<Seq<char>>,
    target: Seq<char>,
) -> WikiResolution {
    if target.contains('/') {
        let r1 = resolve_from_root_spec(target);
        let r2 = resolve_relative_spec(source, target);
        let i1 = match r1 {
            Some(t) => idx_from(ids, t, 0),
            None => -1,
        };
        let i2 = match r2 {
            Some(t) => idx_from(ids, t, 0),
            None => -1,
        };
        if i1 >= 0 {
            WikiResolution::Resolved(i1 as usize)
        } else if i2 >= 0 {
            WikiResolution::Resolved(i2 as usize)
        } else if r1 is Some {
            WikiResolution::Broken
        } else {
            WikiResolution::Skip
        }
    } else {
        let key = unicode_lower_str(target);
        let n = name_from(names, key, 0);
        let a = alias_from(aliases, key, 0);
        if n >= 0 {
            WikiResolution::Resolved(n as usize)
        } else if a >= 0 {
            WikiResolution::Resolved(a as usize)
        } else {
            WikiResolution::Phantom
        }
    }
}

fn has_slash(s: &str) -> (r: bool)
    ensures
        r == s@.contains('/'),
{
    let v = str_to_chars(s);
    let mut i: usize = 0;
    while i < v.len()
        invariant
            0 <= i <= v.len(),
            v@ == s@,
            forall|k: int| 0 <= k < i ==> v@[k] != '/',
        decreases v.len() - i,
    {
        if v[i] == '/' {
            assert(s@[i as int] == '/');
            return true;
        }
        i += 1;
    }
    false
}

fn lookup(ids: &Vec<ConceptId>, r: &Option<ConceptId>) -> (k: Option<usize>)
    ensures
        match *r {
            Some(t) => match k {
                Some(i) => i as int == idx_from(id_views(ids@), t@, 0) && i < ids.len(),
                None => idx_from(id_views(ids@), t@, 0) == -1,
            },
            None => k is None,
        },
{
    match r {
        Some(t) => node_index(ids, t),
        None => None,
    }
}

/// Resolves a wikilink target against the node table.
pub fn resolve_wikilink(
    ids: &Vec<ConceptId>,
    names: &Vec<String>,
    aliases: &Vec<Vec<String>>,
    source: &ConceptId,
    target: &str,
) -> (r: WikiResolution)
    requires
        names.len() == ids.len(),
        aliases.len() == ids.len(),
    ensures
        r == resolve_wikilink_spec(id_views(ids@), string_views(names@), alias_table_views(aliases@), source@, target@),
        r matches WikiResolution::Resolved(n) ==> n < ids.len(),
{
    let ghost iv = id_views(ids@);
    if has_slash(target) {
        let r1 = resolve_from_root(target);
        let r2 = resolve_relative(source, target);
        let i1 = lookup(ids, &r1);
        let i2 = lookup(ids, &r2);
        proof {
            lemma_idx_from(iv, r1->0@, 0);
            lemma_idx_from(iv, r2->0@, 0);
        }
        match i1 {
            Some(i) => WikiResolution::Resolved(i),
            None => match i2 {
                Some(i) => WikiResolution::Resolved(i),
                None => if r1.is_some() {
                    WikiResolution::Broken
                } else {
                    WikiResolution::Skip
                },
            },
        }
    } else {
        let key = str_lowercase(target);
        match name_index(names, key.as_str()) {
            Some(n) => WikiResolution::Resolved(n),
            None => match alias_index(aliases, key.as_str()) {
                Some(a) => WikiResolution::Resolved(a),
                None => WikiResolution::Phantom,
            },
        }
    }
}

// ---------------------------------------------------------------------------
// Per-concept items.

pub type EdgeItems = Seq<(int, Seq<char>)>;

pub type DeadItems = Seq<(Seq<char>, Seq<char>, DeadClass)>;

/// Inline links: an edge where the target is a visible node, else a broken
/// dead link where the target reads as an in-bundle path.
pub open spec fn link_items(ids: Seq<Seq<Seq<char>>>, source: Seq<Seq<char>>, links: Seq<Link>) -> (EdgeItems, DeadItems)
    decreases links.len(),
{
    if links.len() == 0 {
        (seq![], seq![])
    } else {
        let (e, d) = link_items(ids, source, links.drop_last());
        let l = links.last();
        let t = idx_from(ids, l.target@, 0);
        if t >= 0 {
            (e.push((t, link_kind())), d)
        } else if resolve_relative_spec(source, l.raw@) is Some {
            (e, d.push((l.raw@, link_kind(), DeadClass::Broken)))
        } else {
            (e, d)
        }
    }
}

/// Frontmatter relation values under `key`: an edge to a visible node, a
/// broken dead link for an in-bundle path naming nothing visible.
pub open spec fn relation_items(ids: Seq<Seq<Seq<char>>>, source: Seq<Seq<char>>, key: Seq<char>, values: Seq<Seq<char>>) -> (EdgeItems, DeadItems)
    decreases values.len(),
{
    if values.len() == 0 {
        (seq![], seq![])
    } else {
        let (e, d) = relation_items(ids, source, key, values.drop_last());
        let v = values.last();
        match resolve_relative_spec(source, v) {
            Some(t) => {
                let i = idx_from(ids, t, 0);
                if i >= 0 {
                    (e.push((i, key)), d)
                } else {
                    (e, d.push((v, key, DeadClass::Broken)))
                }
            },
            None => (e, d),
        }
    }
}

/// The first occurrence of each value, in order.
pub open spec fn dedup_first(s: Seq<Seq<char>>) -> Seq<Seq<char>>
    decreases s.len(),
{
    if s.len() == 0 {
        seq![]
    } else if s.drop_last().contains(s.last()) {
        dedup_first(s.drop_last())
    } else {
        dedup_first(s.drop_last()).push(s.last())
    }
}

/// Wikilink targets, each resolved.
pub open spec fn wiki_items(
    ids: Seq<Seq<Seq<char>>>,
    names: Seq<Seq<char>>,
    aliases: Seq<Seq<Seq<char>>>,
    source: Seq<Seq<char>>,
    ts: Seq<Seq<char>>,
) -> (EdgeItems, DeadItems)
    decreases ts.len(),
{
    if ts.len() == 0 {
        (seq![], seq![])
    } else {
        let (e, d) = wiki_items(ids, names, aliases, source, ts.drop_last());
        let t = ts.last();
        match resolve_wikilink_spec(ids, names, aliases, source, t) {
            WikiResolution::Resolved(n) => (e.push((n as int, wikilink_kind())), d),
            WikiResolution::Broken => (e, d.push((t, wikilink_kind(), DeadClass::Broken))),
            WikiResolution::Phantom => (e, d.push((t, wikilink_kind(), DeadClass::Phantom))),
            WikiResolution::Skip => (e, d),
        }
    }
}

/// Everything one concept contributes, in the order it is scanned: inline
/// links, then the relations `related`, `supersedes`, `superseded-by`,
/// `depends-on`, then each distinct wikilink target.
pub open spec fn concept_items(
    ids: Seq<Seq<Seq<char>>>,
    names: Seq<Seq<char>>,
    aliases: Seq<Seq<Seq<char>>>,
    c: Concept,
) -> (EdgeItems, DeadItems) {
    let s = c.id@;
    let l = link_items(ids, s, c.links@);
    let r1 = relation_items(ids, s, related_key(), field_values_spec(c.fields@, related_key()));
    let r2 = relation_items(ids, s, supersedes_key(), field_values_spec(c.fields@, supersedes_key()));
    let r3 = relation_items(ids, s, superseded_by_key(), field_values_spec(c.fields@, superseded_by_key()));
    let r4 = relation_items(ids, s, depends_on_key(), field_values_spec(c.fields@, depends_on_key()));
    let w = wiki_items(ids, names, aliases, s, dedup_first(extract_spec(c.body@)));
    (
        l.0 + r1.0 + r2.0 + r3.0 + r4.0 + w.0,
        l.1 + r1.1 + r2.1 + r3.1 + r4.1 + w.1,
    )
}

/// Every edge points at a node of the table.
pub open spec fn edges_within(e: Seq<(int, Seq<char>)>, n: int) -> bool {
    forall|m: int| 0 <= m < e.len() ==> 0 <= (#[trigger] e[m]).0 < n
}

proof fn lemma_push_views(e: Seq<(usize, String)>, x: (usize, String))
    ensures
        edge_views(e.push(x)) == edge_views(e).push((x.0 as int, x.1@)),
{
    assert(edge_views(e.push(x)) =~= edge_views(e).push((x.0 as int, x.1@)));
}

proof fn lemma_push_dead(d: Seq<(String, String, DeadClass)>, x: (String, String, DeadClass))
    ensures
        dead_views(d.push(x)) == dead_views(d).push((x.0@, x.1@, x.2)),
{
    assert(dead_views(d.push(x)) =~= dead_views(d).push((x.0@, x.1@, x.2)));
}

fn push_link_items(ids: &Vec<ConceptId>, c: &Concept, edges: &mut Vec<(usize, String)>, dead: &mut Vec<(String, String, DeadClass)>)
    requires
        edges_within(edge_views(old(edges)@), ids.len() as int),
    ensures
        edges_within(edge_views(final(edges)@), ids.len() as int),
        edge_views(final(edges)@) == edge_views(old(edges)@) + link_items(id_views(ids@), c.id@, c.links@).0,
        dead_views(final(dead)@) == dead_views(old(dead)@) + link_items(id_views(ids@), c.id@, c.links@).1,
{
    proof {
        reveal_strlit("link");
    }
    assert("link"@ == link_kind());
    let ghost iv = id_views(ids@);
    let ghost e0 = edge_views(edges@);
    let ghost d0 = dead_views(dead@);
    let mut i: usize = 0;
    assert(c.links@.take(0) =~= Seq::<Link>::empty());
    assert(e0 + Seq::<(int, Seq<char>)>::empty() =~= e0);
    assert(d0 + Seq::<(Seq<char>, Seq<char>, DeadClass)>::empty() =~= d0);
    while i < c.links.len()
        invariant
            0 <= i <= c.links.len(),
            "link"@ == link_kind(),
            iv == id_views(ids@),
            edges_within(edge_views(edges@), ids.len() as int),
            edge_views(edges@) == e0 + link_items(iv, c.id@, c.links@.take(i as int)).0,
            dead_views(dead@) == d0 + link_items(iv, c.id@, c.links@.take(i as int)).1,
        decreases c.links.len() - i,
    {
        let l = &c.links[i];
        assert(c.links@.take(i + 1).drop_last() =~= c.links@.take(i as int));
        assert(c.links@.take(i + 1).last() == c.links@[i as int]);
        let ghost pe = link_items(iv, c.id@, c.links@.take(i as int)).0;
        let ghost pd = link_items(iv, c.id@, c.links@.take(i as int)).1;
        match node_index(ids, &l.target) {
            Some(t) => {
                let x = (t, owned("link"));
                proof { lemma_push_views(edges@, x); }
                edges.push(x);
                assert(e0 + pe.push((t as int, link_kind())) =~= (e0 + pe).push((t as int, link_kind())));
            },
            None => {
                if resolve_relative(&c.id, l.raw.as_str()).is_some() {
                    let x = (l.raw.clone(), owned("link"), DeadClass::Broken);
                    proof { lemma_push_dead(dead@, x); }
                    dead.push(x);
                    assert(d0 + pd.push((l.raw@, link_kind(), DeadClass::Broken)) =~= (d0 + pd).push((l.raw@, link_kind(), DeadClass::Broken)));
                }
            },
        }
        i += 1;
    }
    assert(c.links@.take(c.links.len() as int) =~= c.links@);
}

fn push_relation_items(
    ids: &Vec<ConceptId>,
    c: &Concept,
    key: &str,
    edges: &mut Vec<(usize, String)>,
    dead: &mut Vec<(String, String, DeadClass)>,
)
    requires
        edges_within(edge_views(old(edges)@), ids.len() as int),
    ensures
        edges_within(edge_views(final(edges)@), ids.len() as int),
        edge_views(final(edges)@) == edge_views(old(edges)@) + relation_items(id_views(ids@), c.id@, key@, field_values_spec(c.fields@, key@)).0,
        dead_views(final(dead)@) == dead_views(old(dead)@) + relation_items(id_views(ids@), c.id@, key@, field_values_spec(c.fields@, key@)).1,
{
    let values = field_values(c, key);
    let ghost vs = string_views(values@);
    let ghost iv = id_views(ids@);
    let ghost e0 = edge_views(edges@);
    let ghost d0 = dead_views(dead@);
    let mut i: usize = 0;
    assert(vs.take(0) =~= Seq::<Seq<char>>::empty());
    assert(e0 + Seq::<(int, Seq<char>)>::empty() =~= e0);
    assert(d0 + Seq::<(Seq<char>, Seq<char>, DeadClass)>::empty() =~= d0);
    while i < values.len()
        invariant
            0 <= i <= values.len(),
            iv == id_views(ids@),
            vs == string_views(values@),
            edges_within(edge_views(edges@), ids.len() as int),
            edge_views(edges@) == e0 + relation_items(iv, c.id@, key@, vs.take(i as int)).0,
            dead_views(dead@) == d0 + relation_items(iv, c.id@, key@, vs.take(i as int)).1,
        decreases values.len() - i,
    {
        assert(vs.take(i + 1).drop_last() =~= vs.take(i as int));
        assert(vs.take(i + 1).last() == values@[i as int]@);
        let ghost pe = relation_items(iv, c.id@, key@, vs.take(i as int)).0;
        let ghost pd = relation_items(iv, c.id@, key@, vs.take(i as int)).1;
        match resolve_relative(&c.id, values[i].as_str()) {
            Some(t) => {
                match node_index(ids, &t) {
                    Some(n) => {
                        let x = (n, owned(key));
                        proof { lemma_push_views(edges@, x); }
                        edges.push(x);
                        assert(e0 + pe.push((n as int, key@)) =~= (e0 + pe).push((n as int, key@)));
                    },
                    None => {
                        let x = (values[i].clone(), owned(key), DeadClass::Broken);
                        proof { lemma_push_dead(dead@, x); }
                        dead.push(x);
                        assert(d0 + pd.push((vs[i as int], key@, DeadClass::Broken)) =~= (d0 + pd).push((vs[i as int], key@, DeadClass::Broken)));
                    },
                }
            },
            None => {},
        }
        i += 1;
    }
    assert(vs.take(values.len() as int) =~= vs);
}

fn seen_has(seen: &Vec<String>, t: &str) -> (r: bool)
    ensures
        r == string_views(seen@).contains(t@),
{
    list_has(seen, t)
}

fn push_wiki_items(
    ids: &Vec<ConceptId>,
    names: &Vec<String>,
    aliases: &Vec<Vec<String>>,
    c: &Concept,
    edges: &mut Vec<(usize, String)>,
    dead: &mut Vec<(String, String, DeadClass)>,
)
    requires
        edges_within(edge_views(old(edges)@), ids.len() as int),
        names.len() == ids.len(),
        aliases.len() == ids.len(),
    ensures
        edges_within(edge_views(final(edges)@), ids.len() as int),
        edge_views(final(edges)@) == edge_views(old(edges)@) + wiki_items(id_views(ids@), string_views(names@), alias_table_views(aliases@), c.id@, dedup_first(extract_spec(c.body@))).0,
        dead_views(final(dead)@) == dead_views(old(dead)@) + wiki_items(id_views(ids@), string_views(names@), alias_table_views(aliases@), c.id@, dedup_first(extract_spec(c.body@))).1,
{
    proof {
        reveal_strlit("wikilink");
    }
    assert("wikilink"@ == wikilink_kind());
    let wls = extract(c.body.as_str());
    let ghost all = targets(wls@);
    let ghost iv = id_views(ids@);
    let ghost nv = string_views(names@);
    let ghost av = alias_table_views(aliases@);
    let ghost e0 = edge_views(edges@);
    let ghost d0 = dead_views(dead@);
    let mut seen: Vec<String> = Vec::new();
    let mut i: usize = 0;
    assert(all.take(0) =~= Seq::<Seq<char>>::empty());
    assert(e0 + Seq::<(int, Seq<char>)>::empty() =~= e0);
    assert(d0 + Seq::<(Seq<char>, Seq<char>, DeadClass)>::empty() =~= d0);
    while i < wls.len()
        invariant
            0 <= i <= wls.len(),
            all == targets(wls@),
            "wikilink"@ == wikilink_kind(),
            edges_within(edge_views(edges@), ids.len() as int),
            names.len() == ids.len(),
            aliases.len() == ids.len(),
            iv == id_views(ids@),
            nv == string_views(names@),
            av == alias_table_views(aliases@),
            string_views(seen@) == all.take(i as int),
            edge_views(edges@) == e0 + wiki_items(iv, nv, av, c.id@, dedup_first(all.take(i as int))).0,
            dead_views(dead@) == d0 + wiki_items(iv, nv, av, c.id@, dedup_first(all.take(i as int))).1,
        decreases wls.len() - i,
    {
        let t = &wls[i].target;
        let ghost pre = all.take(i as int);
        assert(all.take(i + 1).drop_last() =~= pre);
        assert(all.take(i + 1).last() == t@);
        if !seen_has(&seen, t.as_str()) {
            let ghost ded = dedup_first(pre);
            assert(dedup_first(all.take(i + 1)) == ded.push(t@));
            assert(ded.push(t@).drop_last() =~= ded);
            let ghost pe = wiki_items(iv, nv, av, c.id@, ded).0;
            let ghost pd = wiki_items(iv, nv, av, c.id@, ded).1;
            match resolve_wikilink(ids, names, aliases, &c.id, t.as_str()) {
                WikiResolution::Resolved(n) => {
                    let x = (n, owned("wikilink"));
                    proof { lemma_push_views(edges@, x); }
                    edges.push(x);
                    assert(e0 + pe.push((n as int, wikilink_kind())) =~= (e0 + pe).push((n as int, wikilink_kind())));
                },
                WikiResolution::Broken => {
                    let x = (t.clone(), owned("wikilink"), DeadClass::Broken);
                    proof { lemma_push_dead(dead@, x); }
                    dead.push(x);
                    assert(d0 + pd.push((t@, wikilink_kind(), DeadClass::Broken)) =~= (d0 + pd).push((t@, wikilink_kind(), DeadClass::Broken)));
                },
                WikiResolution::Phantom => {
                    let x = (t.clone(), owned("wikilink"), DeadClass::Phantom);
                    proof { lemma_push_dead(dead@, x); }
                    dead.push(x);
                    assert(d0 + pd.push((t@, wikilink_kind(), DeadClass::Phantom)) =~= (d0 + pd).push((t@, wikilink_kind(), DeadClass::Phantom)));
                },
                WikiResolution::Skip => {},
            }
        } else {
            assert(dedup_first(all.take(i + 1)) == dedup_first(pre));
        }
        let ghost before = seen@;
        seen.push(t.clone());
        assert(string_views(seen@) =~= string_views(before).push(t@));
        i += 1;
    }
    assert(all.take(wls.len() as int) =~= all);
}

/// The edges and dead links concept `c` contributes, against the node table.
pub fn concept_edges(ids: &Vec<ConceptId>, names: &Vec<String>, aliases: &Vec<Vec<String>>, c: &Concept)
    -> (r: (Vec<(usize, String)>, Vec<(String, String, DeadClass)>))
    requires
        names.len() == ids.len(),
        aliases.len() == ids.len(),
    ensures
        edges_within(edge_views(r.0@), ids.len() as int),
        edge_views(r.0@) == concept_items(id_views(ids@), string_views(names@), alias_table_views(aliases@), *c).0,
        dead_views(r.1@) == concept_items(id_views(ids@), string_views(names@), alias_table_views(aliases@), *c).1,
{
    proof {
        reveal_strlit("related");
        reveal_strlit("supersedes");
        reveal_strlit("superseded-by");
        reveal_strlit("depends-on");
    }
    let mut edges: Vec<(usize, String)> = Vec::new();
    let mut dead: Vec<(String, String, DeadClass)> = Vec::new();
    assert(edge_views(edges@) =~= Seq::<(int, Seq<char>)>::empty());
    assert(dead_views(dead@) =~= Seq::<(Seq<char>, Seq<char>, DeadClass)>::empty());
    push_link_items(ids, c, &mut edges, &mut dead);
    assert("related"@ == related_key());
    push_relation_items(ids, c, "related", &mut edges, &mut dead);
    assert("supersedes"@ == supersedes_key());
    push_relation_items(ids, c, "supersedes", &mut edges, &mut dead);
    assert("superseded-by"@ == superseded_by_key());
    push_relation_items(ids, c, "superseded-by", &mut edges, &mut dead);
    assert("depends-on"@ == depends_on_key());
    push_relation_items(ids, c, "depends-on", &mut edges, &mut dead);
    push_wiki_items(ids, names, aliases, c, &mut edges, &mut dead);
    let ghost items = concept_items(id_views(ids@), string_views(names@), alias_table_views(aliases@), *c);
    assert(edge_views(edges@) =~= items.0);
    assert(dead_views(dead@) =~= items.1);
    (edges, dead)
}

/// How a dead link reads, by where it came from: only a bare wikilink name
/// (no `/`) is a phantom; an inline link is dead only where it reads as an
/// in-bundle path; a dead wikilink target is never empty, an alias, an
/// anchor or an external `://` reference, and a broken one is a path that
/// reads from the bundle root.
pub open spec fn dead_item_ok(source: Seq<Seq<char>>, x: (Seq<char>, Seq<char>, DeadClass)) -> bool {
    &&& x.2 == DeadClass::Phantom ==> x.1 == wikilink_kind() && !x.0.contains('/')
    &&& x.1 == link_kind() ==> resolve_relative_spec(source, x.0) is Some
    &&& x.1 == wikilink_kind() ==> crate::wikilinks::target_shape(x.0)
        && (x.2 == DeadClass::Broken ==> x.0.contains('/') && resolve_from_root_spec(x.0) is Some)
}

pub open spec fn all_dead_ok(source: Seq<Seq<char>>, d: DeadItems) -> bool {
    forall|m: int| 0 <= m < d.len() ==> dead_item_ok(source, #[trigger] d[m])
}

proof fn lemma_all_dead_concat(source: Seq<Seq<char>>, a: DeadItems, b: DeadItems)
    requires
        all_dead_ok(source, a),
        all_dead_ok(source, b),
    ensures
        all_dead_ok(source, a + b),
{
    assert forall|m: int| 0 <= m < (a + b).len() implies dead_item_ok(source, #[trigger] (a + b)[m]) by {
        if m < a.len() {
            assert((a + b)[m] == a[m]);
        } else {
            assert((a + b)[m] == b[m - a.len()]);
        }
    }
}

proof fn lemma_link_dead(ids: Seq<Seq<Seq<char>>>, source: Seq<Seq<char>>, links: Seq<Link>)
    ensures
        all_dead_ok(source, link_items(ids, source, links).1),
    decreases links.len(),
{
    if links.len() > 0 {
        lemma_link_dead(ids, source, links.drop_last());
        let d = link_items(ids, source, links.drop_last()).1;
        let l = links.last();
        assert(link_kind() != wikilink_kind()) by {
            assert(link_kind().len() != wikilink_kind().len());
        }
        let dn = link_items(ids, source, links).1;
        assert forall|m: int| 0 <= m < dn.len() implies dead_item_ok(source, #[trigger] dn[m]) by {
            if m < d.len() {
                assert(dn[m] == d[m]);
            }
        }
    }
}

proof fn lemma_relation_dead(ids: Seq<Seq<Seq<char>>>, source: Seq<Seq<char>>, key: Seq<char>, values: Seq<Seq<char>>)
    requires
        key.len() != link_kind().len(),
        key.len() != wikilink_kind().len(),
    ensures
        all_dead_ok(source, relation_items(ids, source, key, values).1),
    decreases values.len(),
{
    if values.len() > 0 {
        lemma_relation_dead(ids, source, key, values.drop_last());
        let d = relation_items(ids, source, key, values.drop_last()).1;
        let v = values.last();
        let dn = relation_items(ids, source, key, values).1;
        assert forall|m: int| 0 <= m < dn.len() implies dead_item_ok(source, #[trigger] dn[m]) by {
            if m < d.len() {
                assert(dn[m] == d[m]);
            }
        }
    }
}

proof fn lemma_wiki_dead(
    ids: Seq<Seq<Seq<char>>>,
    names: Seq<Seq<char>>,
    aliases: Seq<Seq<Seq<char>>>,
    source: Seq<Seq<char>>,
    ts: Seq<Seq<char>>,
)
    requires
        forall|q: int| 0 <= q < ts.len() ==> crate::wikilinks::target_shape(#[trigger] ts[q]),
    ensures
        all_dead_ok(source, wiki_items(ids, names, aliases, source, ts).1),
    decreases ts.len(),
{
    if ts.len() > 0 {
        assert(forall|q: int| 0 <= q < ts.drop_last().len() ==> #[trigger] ts.drop_last()[q] == ts[q]);
        lemma_wiki_dead(ids, names, aliases, source, ts.drop_last());
        let d = wiki_items(ids, names, aliases, source, ts.drop_last()).1;
        let t = ts.last();
        assert(crate::wikilinks::target_shape(t)) by {
            assert(t == ts[ts.len() - 1]);
        }
        assert(link_kind() != wikilink_kind()) by {
            assert(link_kind().len() != wikilink_kind().len());
        }
        let dn = wiki_items(ids, names, aliases, source, ts).1;
        assert forall|m: int| 0 <= m < dn.len() implies dead_item_ok(source, #[trigger] dn[m]) by {
            if m < d.len() {
                assert(dn[m] == d[m]);
            }
        }
    }
}

/// Every dead link a concept contributes is classified by where it came
/// from (see `dead_item_ok`): phantoms are bare wikilink names, inline
/// links are dead only as in-bundle paths, and no external reference is
/// ever a dead link.
pub proof fn lemma_dead_link_classes(ids: Seq<Seq<Seq<char>>>, names: Seq<Seq<char>>, aliases: Seq<Seq<Seq<char>>>, c: Concept)
    ensures
        all_dead_ok(c.id@, concept_items(ids, names, aliases, c).1),
{
    let s = c.id@;
    lemma_link_dead(ids, s, c.links@);
    lemma_relation_dead(ids, s, related_key(), field_values_spec(c.fields@, related_key()));
    lemma_relation_dead(ids, s, supersedes_key(), field_values_spec(c.fields@, supersedes_key()));
    lemma_relation_dead(ids, s, superseded_by_key(), field_values_spec(c.fields@, superseded_by_key()));
    lemma_relation_dead(ids, s, depends_on_key(), field_values_spec(c.fields@, depends_on_key()));
    let ts = dedup_first(extract_spec(c.body@));
    crate::wikilinks::lemma_extract_target_shape(c.body@);
    lemma_dedup_first(extract_spec(c.body@));
    assert forall|q: int| 0 <= q < ts.len() implies crate::wikilinks::target_shape(#[trigger] ts[q]) by {
        let e = extract_spec(c.body@);
        assert(ts.contains(ts[q]));
        assert(e.contains(ts[q]));
        let k = choose|k: int| 0 <= k < e.len() && e[k] == ts[q];
        assert(crate::wikilinks::target_shape(e[k]));
    }
    lemma_wiki_dead(ids, names, aliases, s, ts);
    let l = link_items(ids, s, c.links@).1;
    let r1 = relation_items(ids, s, related_key(), field_values_spec(c.fields@, related_key())).1;
    let r2 = relation_items(ids, s, supersedes_key(), field_values_spec(c.fields@, supersedes_key())).1;
    let r3 = relation_items(ids, s, superseded_by_key(), field_values_spec(c.fields@, superseded_by_key())).1;
    let r4 = relation_items(ids, s, depends_on_key(), field_values_spec(c.fields@, depends_on_key())).1;
    let w = wiki_items(ids, names, aliases, s, ts).1;
    lemma_all_dead_concat(s, l, r1);
    lemma_all_dead_concat(s, l + r1, r2);
    lemma_all_dead_concat(s, l + r1 + r2, r3);
    lemma_all_dead_concat(s, l + r1 + r2 + r3, r4);
    lemma_all_dead_concat(s, l + r1 + r2 + r3 + r4, w);
}

/// A wikilink target written several times in one concept is resolved
/// once: the targets kept are pairwise distinct, and every target written
/// is among them.
pub proof fn lemma_dedup_first(s: Seq<Seq<char>>)
    ensures
        forall|i: int, j: int| 0 <= i < j < dedup_first(s).len() ==> #[trigger] dedup_first(s)[i] != #[trigger] dedup_first(s)[j],
        forall|x: Seq<char>| #[trigger] s.contains(x) <==> dedup_first(s).contains(x),
    decreases s.len(),
{
    if s.len() > 0 {
        lemma_dedup_first(s.drop_last());
        let prev = dedup_first(s.drop_last());
        let l = s.last();
        assert forall|x: Seq<char>| #[trigger] s.contains(x) <==> dedup_first(s).contains(x) by {
            let sdl = s.drop_last();
            assert(sdl.contains(x) == prev.contains(x));
            if s.contains(x) {
                let k = choose|k: int| 0 <= k < s.len() && s[k] == x;
                if k < s.len() - 1 {
                    assert(sdl[k] == x);
                    assert(sdl.contains(x));
                    let q = choose|q: int| 0 <= q < prev.len() && prev[q] == x;
                    if !sdl.contains(l) {
                        assert(dedup_first(s)[q] == x);
                    } else {
                        assert(dedup_first(s) == prev);
                    }
                } else if sdl.contains(l) {
                    assert(prev.contains(l));
                    assert(dedup_first(s) == prev);
                } else {
                    assert(dedup_first(s)[prev.len() as int] == x);
                }
            }
            if dedup_first(s).contains(x) {
                let q = choose|q: int| 0 <= q < dedup_first(s).len() && dedup_first(s)[q] == x;
                if q < prev.len() {
                    assert(prev[q] == x);
                    assert(prev.contains(x));
                    assert(sdl.contains(x));
                    let k = choose|k: int| 0 <= k < sdl.len() && sdl[k] == x;
                    assert(s[k] == x);
                } else {
                    assert(s[s.len() - 1] == x);
                }
            }
        }
    }
}

} // verus!
