//! Which `index.md` files `okq index` manages and what each lists: the
//! directories (the root and every ancestor of a concept's directory), each
//! one's child directories, and the concepts directly in it, in path order.

use vstd::prelude::*;
use crate::commands::index::{
    ancestors, ancestors_spec, block_spec, build_block_at, inject, inject_spec, lemma_inject_idempotent, parent_dir, parent_dir_spec,
    pick, scaffold, scaffold_spec, IndexFile,
};
use crate::splice::{
    lemma_first_occ_at, lemma_no_lt, lemma_no_marker_in_head, lemma_window_block, lemma_window_newline, markers_sound, no_lt_upto,
};
use crate::templates::{INDEX_BEGIN, INDEX_END};
use crate::model::ConceptRecord;
use crate::trust::opt_view;
use crate::fmt::push_str;
use crate::text::{
    contains_spec, first_occ, occurs_at, chars_less, chars_lt, lemma_chars_lt_asym, lemma_chars_lt_irrefl, lemma_chars_lt_total, lemma_chars_lt_trans, owned,
    str_eq, str_to_chars, string_views,
};

verus! {

/// Strictly increasing, hence without repeats.
pub open spec fn dirs_sorted(s: Seq<Seq<char>>) -> bool {
    forall|i: int, j: int| 0 <= i < j < s.len() ==> chars_lt(#[trigger] s[i], #[trigger] s[j])
}

/// A directory that gets an `index.md`: the root, or an ancestor (itself
/// included) of the directory of one of the concept paths.
pub open spec fn listed_dir(paths: Seq<Seq<char>>, d: Seq<char>) -> bool {
    d.len() == 0 || exists|k: int| 0 <= k < paths.len() && #[trigger] ancestors_spec(parent_dir_spec(paths[k])).contains(d)
}

/// The same, counting only the first `n` paths.
pub open spec fn listed_upto(paths: Seq<Seq<char>>, n: int, d: Seq<char>) -> bool {
    d.len() == 0 || exists|k: int| 0 <= k < n && #[trigger] ancestors_spec(parent_dir_spec(paths[k])).contains(d)
}

/// A child directory of `dir` among the listed ones.
pub open spec fn child_of(d: Seq<char>, dir: Seq<char>) -> bool {
    d.len() > 0 && parent_dir_spec(d) == dir
}

/// Concept `a` sorts before concept `b`: by path, then by position.
pub open spec fn path_before(paths: Seq<Seq<char>>, a: int, b: int) -> bool {
    chars_lt(paths[a], paths[b]) || (paths[a] == paths[b] && a < b)
}

/// Strictly increasing concept positions in path order.
pub open spec fn by_path(paths: Seq<Seq<char>>, s: Seq<usize>) -> bool {
    forall|i: int, j: int| 0 <= i < j < s.len() ==> path_before(paths, #[trigger] s[i] as int, #[trigger] s[j] as int)
}

fn str_less(a: &str, b: &str) -> (r: bool)
    ensures
        r == chars_lt(a@, b@),
{
    let av = str_to_chars(a);
    let bv = str_to_chars(b);
    chars_less(&av, &bv)
}

/// Puts `x` into the sorted list `v` unless it is already there.
fn insert_dir(v: &mut Vec<String>, x: &str)
    requires
        dirs_sorted(string_views(old(v)@)),
    ensures
        dirs_sorted(string_views(final(v)@)),
        forall|d: Seq<char>| #[trigger] string_views(final(v)@).contains(d) <==> (string_views(old(v)@).contains(d) || d == x@),
{
    let ghost ov = string_views(v@);
    let mut p: usize = 0;
    while p < v.len() && str_less(v[p].as_str(), x)
        invariant
            0 <= p <= v.len(),
            ov == string_views(v@),
            forall|k: int| 0 <= k < p ==> chars_lt(#[trigger] ov[k], x@),
        decreases v.len() - p,
    {
        assert(ov[p as int] == v@[p as int]@);
        p += 1;
    }
    if p < v.len() && str_eq(v[p].as_str(), x) {
        assert(ov[p as int] == x@);
        assert(ov.contains(x@));
        return;
    }
    proof {
        assert forall|k: int| p <= k < ov.len() implies chars_lt(x@, #[trigger] ov[k]) by {
            assert(ov[p as int] == v@[p as int]@);
            lemma_chars_lt_total(x@, ov[p as int]);
            if k > p {
                lemma_chars_lt_trans(x@, ov[p as int], ov[k]);
            }
        }
    }
    v.insert(p, owned(x));
    proof {
        let nv = string_views(v@);
        assert(nv =~= ov.insert(p as int, x@));
        assert forall|a: int, b: int| 0 <= a < b < nv.len() implies chars_lt(#[trigger] nv[a], #[trigger] nv[b]) by {
            if a < p && b == p {
            } else if a == p && b > p {
                assert(nv[b] == ov[b - 1]);
            } else if a < p && b > p {
                assert(nv[b] == ov[b - 1]);
            } else if b < p {
            } else {
                assert(nv[a] == ov[a - 1] && nv[b] == ov[b - 1]);
            }
        }
        assert forall|d: Seq<char>| #[trigger] nv.contains(d) <==> (ov.contains(d) || d == x@) by {
            if nv.contains(d) {
                let i = choose|i: int| 0 <= i < nv.len() && #[trigger] nv[i] == d;
                if i < p {
                    assert(ov[i] == d);
                } else if i > p {
                    assert(ov[i - 1] == d);
                }
            }
            if ov.contains(d) {
                let i = choose|i: int| 0 <= i < ov.len() && #[trigger] ov[i] == d;
                if i < p {
                    assert(nv[i] == d);
                } else {
                    assert(nv[i + 1] == d);
                }
            }
            if d == x@ {
                assert(nv[p as int] == d);
            }
        }
    }
}

/// The directories that get an `index.md`, in order: the root and every
/// ancestor of the directory of each concept path.
pub fn index_dirs(paths: &Vec<String>) -> (r: Vec<String>)
    ensures
        dirs_sorted(string_views(r@)),
        forall|d: Seq<char>| #[trigger] string_views(r@).contains(d) <==> listed_dir(string_views(paths@), d),
{
    let ghost ps = string_views(paths@);
    let mut out: Vec<String> = Vec::new();
    insert_dir(&mut out, "");
    proof {
        reveal_strlit("");
        assert forall|d: Seq<char>| #[trigger] string_views(out@).contains(d) <==> listed_upto(ps, 0, d) by {
            if d.len() == 0 {
                assert(d =~= ""@);
            }
        }
    }
    let mut i: usize = 0;
    while i < paths.len()
        invariant
            0 <= i <= paths.len(),
            ps == string_views(paths@),
            dirs_sorted(string_views(out@)),
            forall|d: Seq<char>| #[trigger] string_views(out@).contains(d) <==> listed_upto(ps, i as int, d),
        decreases paths.len() - i,
    {
        let dir = parent_dir(paths[i].as_str());
        assert(ps[i as int] == paths@[i as int]@);
        let anc = ancestors(dir.as_str());
        let ghost av = string_views(anc@);
        let mut j: usize = 0;
        while j < anc.len()
            invariant
                0 <= i < paths.len(),
                0 <= j <= anc.len(),
                ps == string_views(paths@),
                av == string_views(anc@),
                av == ancestors_spec(parent_dir_spec(ps[i as int])),
                dirs_sorted(string_views(out@)),
                forall|d: Seq<char>| #[trigger] string_views(out@).contains(d) <==> (listed_upto(ps, i as int, d) || av.take(j as int).contains(d)),
            decreases anc.len() - j,
        {
            let ghost before = string_views(out@);
            insert_dir(&mut out, anc[j].as_str());
            proof {
                assert(av[j as int] == anc@[j as int]@);
                assert forall|d: Seq<char>| #[trigger] string_views(out@).contains(d) <==> (listed_upto(ps, i as int, d) || av.take(j + 1).contains(d)) by {
                    if av.take(j as int).contains(d) {
                        let k = choose|k: int| 0 <= k < j && #[trigger] av.take(j as int)[k] == d;
                        assert(av.take(j + 1)[k] == d);
                    }
                    if av.take(j + 1).contains(d) {
                        let k = choose|k: int| 0 <= k < j + 1 && #[trigger] av.take(j + 1)[k] == d;
                        if k < j {
                            assert(av.take(j as int)[k] == d);
                        }
                    }
                    if d == av[j as int] {
                        assert(av.take(j + 1)[j as int] == d);
                    }
                }
            }
            j += 1;
        }
        proof {
            assert(av.take(anc.len() as int) =~= av);
            assert forall|d: Seq<char>| #[trigger] string_views(out@).contains(d) <==> listed_upto(ps, i + 1, d) by {
                if av.contains(d) {
                    assert(ancestors_spec(parent_dir_spec(ps[i as int])).contains(d));
                }
                if listed_upto(ps, i + 1, d) && d.len() > 0 {
                    let k = choose|k: int| 0 <= k < i + 1 && #[trigger] ancestors_spec(parent_dir_spec(ps[k])).contains(d);
                    if k < i {
                        assert(listed_upto(ps, i as int, d));
                    }
                }
            }
        }
        i += 1;
    }
    out
}

/// The listed directories whose parent is `dir`, in order.
pub fn child_dirs(dirs: &Vec<String>, dir: &str) -> (r: Vec<String>)
    requires
        dirs_sorted(string_views(dirs@)),
    ensures
        dirs_sorted(string_views(r@)),
        forall|d: Seq<char>| #[trigger] string_views(r@).contains(d) <==> (string_views(dirs@).contains(d) && child_of(d, dir@)),
{
    let ghost ds = string_views(dirs@);
    let mut out: Vec<String> = Vec::new();
    let mut i: usize = 0;
    while i < dirs.len()
        invariant
            0 <= i <= dirs.len(),
            ds == string_views(dirs@),
            dirs_sorted(ds),
            dirs_sorted(string_views(out@)),
            forall|a: int, k: int| 0 <= a < out@.len() && i <= k < ds.len() ==> chars_lt(#[trigger] string_views(out@)[a], #[trigger] ds[k]),
            forall|d: Seq<char>| #[trigger] string_views(out@).contains(d) <==> (ds.take(i as int).contains(d) && child_of(d, dir@)),
        decreases dirs.len() - i,
    {
        let d = &dirs[i];
        assert(ds[i as int] == d@);
        let p = parent_dir(d.as_str());
        let ghost before = string_views(out@);
        let dl = str_to_chars(d.as_str()).len();
        if dl > 0 && str_eq(p.as_str(), dir) {
            out.push(owned(d.as_str()));
            proof {
                let nv = string_views(out@);
                assert(nv =~= before.push(ds[i as int]));
            }
        }
        proof {
            let nv = string_views(out@);
            assert forall|a: int, b: int| 0 <= a < b < nv.len() implies chars_lt(#[trigger] nv[a], #[trigger] nv[b]) by {
                if b == before.len() && nv.len() > before.len() {
                    assert(chars_lt(before[a], ds[i as int]));
                } else {
                    assert(nv[a] == before[a] && nv[b] == before[b]);
                }
            }
            assert forall|a: int, k: int| 0 <= a < nv.len() && i + 1 <= k < ds.len() implies chars_lt(#[trigger] nv[a], #[trigger] ds[k]) by {
                if a == before.len() {
                } else {
                    assert(nv[a] == before[a]);
                }
            }
            assert forall|x: Seq<char>| #[trigger] nv.contains(x) <==> (ds.take(i + 1).contains(x) && child_of(x, dir@)) by {
                if nv.contains(x) {
                    let q = choose|q: int| 0 <= q < nv.len() && #[trigger] nv[q] == x;
                    if q < before.len() {
                        assert(before[q] == x);
                        assert(before.contains(x));
                        assert(ds.take(i as int).contains(x));
                        let k = choose|k: int| 0 <= k < i && #[trigger] ds.take(i as int)[k] == x;
                        assert(ds.take(i + 1)[k] == x);
                    } else {
                        assert(ds.take(i + 1)[i as int] == x);
                    }
                }
                if ds.take(i + 1).contains(x) && child_of(x, dir@) {
                    let k = choose|k: int| 0 <= k < i + 1 && #[trigger] ds.take(i + 1)[k] == x;
                    if k < i {
                        assert(ds.take(i as int)[k] == x);
                        assert(before.contains(x));
                        let q = choose|q: int| 0 <= q < before.len() && #[trigger] before[q] == x;
                        assert(nv[q] == x);
                    } else {
                        assert(nv[before.len() as int] == x);
                    }
                }
            }
        }
        i += 1;
    }
    assert(ds.take(dirs.len() as int) =~= ds);
    out
}

/// The positions of the concepts directly in `dir`, ordered by path (and by
/// position among equal paths).
pub fn direct_concepts(paths: &Vec<String>, dir: &str) -> (r: Vec<usize>)
    ensures
        by_path(string_views(paths@), r@),
        forall|k: usize| #[trigger] r@.contains(k) <==> (k < paths.len() && parent_dir_spec(paths@[k as int]@) == dir@),
{
    let ghost ps = string_views(paths@);
    let mut out: Vec<usize> = Vec::new();
    let mut k: usize = 0;
    while k < paths.len()
        invariant
            0 <= k <= paths.len(),
            ps == string_views(paths@),
            by_path(ps, out@),
            forall|a: int| 0 <= a < out@.len() ==> #[trigger] out@[a] < k,
            forall|x: usize| #[trigger] out@.contains(x) <==> (x < k && parent_dir_spec(paths@[x as int]@) == dir@),
        decreases paths.len() - k,
    {
        let p = parent_dir(paths[k].as_str());
        if str_eq(p.as_str(), dir) {
            let ghost ov = out@;
            let mut q: usize = 0;
            while q < out.len() && !str_less(paths[k].as_str(), paths[out[q]].as_str())
                invariant
                    0 <= q <= out.len(),
                    k < paths.len(),
                    ov == out@,
                    ps == string_views(paths@),
                    forall|a: int| 0 <= a < ov.len() ==> #[trigger] ov[a] < k,
                    forall|a: int| 0 <= a < q ==> !chars_lt(ps[k as int], ps[#[trigger] ov[a] as int]),
                decreases out.len() - q,
            {
                assert(ps[out@[q as int] as int] == paths@[out@[q as int] as int]@);
                assert(ps[k as int] == paths@[k as int]@);
                q += 1;
            }
            proof {
                assert forall|a: int| 0 <= a < q implies path_before(ps, #[trigger] ov[a] as int, k as int) by {
                    lemma_chars_lt_total(ps[k as int], ps[ov[a] as int]);
                }
                assert forall|a: int| q <= a < ov.len() implies path_before(ps, k as int, #[trigger] ov[a] as int) by {
                    if q < ov.len() {
                        assert(ps[ov[q as int] as int] == paths@[ov[q as int] as int]@);
                        assert(ps[k as int] == paths@[k as int]@);
                    }
                    if a > q {
                        assert(path_before(ps, ov[q as int] as int, ov[a] as int));
                        if chars_lt(ps[ov[q as int] as int], ps[ov[a] as int]) {
                            lemma_chars_lt_trans(ps[k as int], ps[ov[q as int] as int], ps[ov[a] as int]);
                        }
                    }
                }
            }
            out.insert(q, k);
            proof {
                let nv = out@;
                assert(nv =~= ov.insert(q as int, k));
                assert forall|a: int, b: int| 0 <= a < b < nv.len() implies path_before(ps, #[trigger] nv[a] as int, #[trigger] nv[b] as int) by {
                    if a < q && b == q {
                    } else if a == q && b > q {
                        assert(nv[b] == ov[b - 1]);
                    } else if a < q && b > q {
                        assert(nv[b] == ov[b - 1]);
                        let x = ov[a] as int;
                        let y = ov[b - 1] as int;
                        assert(path_before(ps, x, k as int));
                        assert(path_before(ps, k as int, y));
                        if chars_lt(ps[x], ps[k as int]) && chars_lt(ps[k as int], ps[y]) {
                            lemma_chars_lt_trans(ps[x], ps[k as int], ps[y]);
                        }
                    } else if b < q {
                    } else {
                        assert(nv[a] == ov[a - 1] && nv[b] == ov[b - 1]);
                    }
                }
                assert forall|x: usize| #[trigger] nv.contains(x) <==> (x < k + 1 && parent_dir_spec(paths@[x as int]@) == dir@) by {
                    if nv.contains(x) {
                        let i = choose|i: int| 0 <= i < nv.len() && #[trigger] nv[i] == x;
                        if i < q {
                            assert(ov[i] == x);
                            assert(ov.contains(x));
                        } else if i > q {
                            assert(ov[i - 1] == x);
                            assert(ov.contains(x));
                        }
                    }
                    if x < k + 1 && parent_dir_spec(paths@[x as int]@) == dir@ {
                        if x < k {
                            assert(ov.contains(x));
                            let i = choose|i: int| 0 <= i < ov.len() && #[trigger] ov[i] == x;
                            if i < q {
                                assert(nv[i] == x);
                            } else {
                                assert(nv[i + 1] == x);
                            }
                        } else {
                            assert(nv[q as int] == x);
                        }
                    }
                }
            }
        }
        k += 1;
    }
    out
}

/// All positions of `paths`, ordered by path (and by position among equal
/// paths).
pub fn path_order(paths: &Vec<String>) -> (r: Vec<usize>)
    ensures
        by_path(string_views(paths@), r@),
        forall|k: usize| #[trigger] r@.contains(k) <==> k < paths.len(),
{
    let ghost ps = string_views(paths@);
    let mut out: Vec<usize> = Vec::new();
    let mut k: usize = 0;
    while k < paths.len()
        invariant
            0 <= k <= paths.len(),
            ps == string_views(paths@),
            by_path(ps, out@),
            forall|a: int| 0 <= a < out@.len() ==> #[trigger] out@[a] < k,
            forall|x: usize| #[trigger] out@.contains(x) <==> x < k,
        decreases paths.len() - k,
    {
        {
            let ghost ov = out@;
            let mut q: usize = 0;
            while q < out.len() && !str_less(paths[k].as_str(), paths[out[q]].as_str())
                invariant
                    0 <= q <= out.len(),
                    k < paths.len(),
                    ov == out@,
                    ps == string_views(paths@),
                    forall|a: int| 0 <= a < ov.len() ==> #[trigger] ov[a] < k,
                    forall|a: int| 0 <= a < q ==> !chars_lt(ps[k as int], ps[#[trigger] ov[a] as int]),
                decreases out.len() - q,
            {
                assert(ps[out@[q as int] as int] == paths@[out@[q as int] as int]@);
                assert(ps[k as int] == paths@[k as int]@);
                q += 1;
            }
            proof {
                assert forall|a: int| 0 <= a < q implies path_before(ps, #[trigger] ov[a] as int, k as int) by {
                    lemma_chars_lt_total(ps[k as int], ps[ov[a] as int]);
                }
                assert forall|a: int| q <= a < ov.len() implies path_before(ps, k as int, #[trigger] ov[a] as int) by {
                    if q < ov.len() {
                        assert(ps[ov[q as int] as int] == paths@[ov[q as int] as int]@);
                        assert(ps[k as int] == paths@[k as int]@);
                    }
                    if a > q {
                        assert(path_before(ps, ov[q as int] as int, ov[a] as int));
                        if chars_lt(ps[ov[q as int] as int], ps[ov[a] as int]) {
                            lemma_chars_lt_trans(ps[k as int], ps[ov[q as int] as int], ps[ov[a] as int]);
                        }
                    }
                }
            }
            out.insert(q, k);
            proof {
                let nv = out@;
                assert(nv =~= ov.insert(q as int, k));
                assert forall|a: int, b: int| 0 <= a < b < nv.len() implies path_before(ps, #[trigger] nv[a] as int, #[trigger] nv[b] as int) by {
                    if a < q && b == q {
                    } else if a == q && b > q {
                        assert(nv[b] == ov[b - 1]);
                    } else if a < q && b > q {
                        assert(nv[b] == ov[b - 1]);
                        let x = ov[a] as int;
                        let y = ov[b - 1] as int;
                        assert(path_before(ps, x, k as int));
                        assert(path_before(ps, k as int, y));
                        if chars_lt(ps[x], ps[k as int]) && chars_lt(ps[k as int], ps[y]) {
                            lemma_chars_lt_trans(ps[x], ps[k as int], ps[y]);
                        }
                    } else if b < q {
                    } else {
                        assert(nv[a] == ov[a - 1] && nv[b] == ov[b - 1]);
                    }
                }
                assert forall|x: usize| #[trigger] nv.contains(x) <==> x < k + 1 by {
                    if nv.contains(x) {
                        let i = choose|i: int| 0 <= i < nv.len() && #[trigger] nv[i] == x;
                        if i < q {
                            assert(ov[i] == x);
                            assert(ov.contains(x));
                        } else if i > q {
                            assert(ov[i - 1] == x);
                            assert(ov.contains(x));
                        }
                    }
                    if x < k + 1 {
                        if x < k {
                            assert(ov.contains(x));
                            let i = choose|i: int| 0 <= i < ov.len() && #[trigger] ov[i] == x;
                            if i < q {
                                assert(nv[i] == x);
                            } else {
                                assert(nv[i + 1] == x);
                            }
                        } else {
                            assert(nv[q as int] == x);
                        }
                    }
                }
            }
        }
        k += 1;
    }
    out
}

/// Where a directory's `index.md` lives, relative to the bundle root.
pub open spec fn index_path_spec(dir: Seq<char>) -> Seq<char> {
    if dir.len() == 0 { "index.md"@ } else { dir + "/index.md"@ }
}

/// What `okq index` does to one directory's `index.md`: with none, create
/// it from the scaffold; else inject the block and report `updated` when
/// that changed anything, `unchanged` otherwise. The text to write comes
/// back only when something changes.
pub fn index_update(dir: &str, existing: Option<&str>, root_name: &str, block: &str, concepts: usize) -> (r: (IndexFile, Option<String>))
    ensures
        r.0.path@ == index_path_spec(dir@),
        r.0.concepts == concepts,
        match existing {
            None => r.0.verb@ == "created"@ && (r.1 matches Some(c) && c@ == scaffold_spec(dir@, root_name@, block@)),
            Some(cur) => {
                let up = inject_spec(cur@, block@);
                if up == cur@ {
                    r.0.verb@ == "unchanged"@ && r.1 is None
                } else {
                    r.0.verb@ == "updated"@ && (r.1 matches Some(c) && c@ == up)
                }
            },
        },
{
    let mut path = owned(dir);
    if str_to_chars(dir).len() == 0 {
        path = owned("index.md");
    } else {
        push_str(&mut path, "/index.md");
    }
    match existing {
        None => (IndexFile { path, verb: owned("created"), concepts }, Some(scaffold(dir, root_name, block))),
        Some(cur) => {
            let up = inject(cur, block);
            if str_eq(up.as_str(), cur) {
                (IndexFile { path, verb: owned("unchanged"), concepts }, None)
            } else {
                (IndexFile { path, verb: owned("updated"), concepts }, Some(up))
            }
        },
    }
}

/// What `okq index` does to one `index.md` holding `existing` (none when
/// absent): the verb, and the text to write when it changes.
pub open spec fn update_spec(dir: Seq<char>, existing: Option<Seq<char>>, root_name: Seq<char>, block: Seq<char>) -> (Seq<char>, Option<Seq<char>>) {
    match existing {
        None => ("created"@, Some(scaffold_spec(dir, root_name, block))),
        Some(cur) => {
            let up = inject_spec(cur, block);
            if up == cur { ("unchanged"@, None) } else { ("updated"@, Some(up)) }
        },
    }
}

pub open spec fn record_paths(rs: Seq<ConceptRecord>) -> Seq<Seq<char>> {
    rs.map_values(|r: ConceptRecord| r.path@)
}

/// `block` is the listing of directory `dir` among `dirs` for the concepts
/// `records`: its child directories in order, then the concepts directly in
/// it in path order; `count` of them.
pub open spec fn listing_of(records: Seq<ConceptRecord>, dirs: Seq<Seq<char>>, dir: Seq<char>, block: Seq<char>, count: nat) -> bool {
    exists|ch: Seq<Seq<char>>, ord: Seq<usize>| {
        &&& dirs_sorted(ch)
        &&& (forall|d: Seq<char>| #[trigger] ch.contains(d) <==> (dirs.contains(d) && child_of(d, dir)))
        &&& by_path(record_paths(records), ord)
        &&& (forall|k: usize| #[trigger] ord.contains(k) <==> (k < records.len() && parent_dir_spec(records[k as int].path@) == dir))
        &&& (forall|j: int| 0 <= j < ord.len() ==> (#[trigger] ord[j]) < records.len())
        &&& block == #[trigger] block_spec(ch, pick(records, ord))
        &&& count == ord.len()
    }
}

/// The files a run writes: each changed `index.md`, with its new text, in
/// directory order.
pub open spec fn writes_spec(dirs: Seq<Seq<char>>, existing: Seq<Option<Seq<char>>>, root_name: Seq<char>, blocks: Seq<Seq<char>>, n: int) -> Seq<(Seq<char>, Seq<char>)>
    decreases n,
{
    if n <= 0 {
        seq![]
    } else {
        let i = n - 1;
        writes_spec(dirs, existing, root_name, blocks, i) + match update_spec(dirs[i], existing[i], root_name, blocks[i]).1 {
            Some(c) => seq![(index_path_spec(dirs[i]), c)],
            None => seq![],
        }
    }
}

/// File `f` is what the run plans for directory `dir`: the listing of its
/// concepts and subdirectories, and the verb the update gives.
pub open spec fn planned_file(
    records: Seq<ConceptRecord>,
    dirs: Seq<Seq<char>>,
    dir: Seq<char>,
    existing: Option<Seq<char>>,
    root_name: Seq<char>,
    f: IndexFile,
    block: Seq<char>,
    count: nat,
) -> bool {
    &&& listing_of(records, dirs, dir, block, count)
    &&& f.path@ == index_path_spec(dir)
    &&& f.verb@ == update_spec(dir, existing, root_name, block).0
    &&& f.concepts == count
}

/// One `okq index` run planned: what happens to each `index.md`, and what
/// is written.
pub struct IndexPlan {
    /// Per listed directory, in order.
    pub files: Vec<IndexFile>,
    /// `(path, text)` of each file to write, relative to the bundle root.
    pub writes: Vec<(String, String)>,
}

pub open spec fn pair_views(v: Seq<(String, String)>) -> Seq<(Seq<char>, Seq<char>)> {
    v.map_values(|p: (String, String)| (p.0@, p.1@))
}

pub open spec fn existing_views(v: Seq<(String, Option<String>)>) -> Seq<Option<Seq<char>>> {
    v.map_values(|p: (String, Option<String>)| opt_view(p.1))
}

pub open spec fn dir_views(v: Seq<(String, Option<String>)>) -> Seq<Seq<char>> {
    v.map_values(|p: (String, Option<String>)| p.0@)
}

/// Plans an `okq index` run over the visible concepts `records`: `current`
/// pairs each listed directory (as `index_dirs` gives them, in order) with
/// its `index.md` text, if any. Each file gets its listing; with `check`,
/// nothing is written.
#[verifier::spinoff_prover]
pub fn plan_indexes(records: &Vec<ConceptRecord>, current: &Vec<(String, Option<String>)>, root_name: &str, check: bool) -> (r: IndexPlan)
    requires
        dirs_sorted(dir_views(current@)),
        forall|d: Seq<char>| #[trigger] dir_views(current@).contains(d) <==> listed_dir(record_paths(records@), d),
    ensures
        r.files@.len() == current@.len(),
        exists|blocks: Seq<Seq<char>>, counts: Seq<nat>| #![trigger blocks.len(), counts.len()] {
            &&& blocks.len() == current@.len()
            &&& counts.len() == current@.len()
            &&& forall|i: int| 0 <= i < current@.len() ==> {
                &&& #[trigger] listing_of(records@, dir_views(current@), dir_views(current@)[i], blocks[i], counts[i])
                &&& r.files@[i].path@ == index_path_spec(dir_views(current@)[i])
                &&& r.files@[i].verb@ == update_spec(dir_views(current@)[i], existing_views(current@)[i], root_name@, blocks[i]).0
                &&& r.files@[i].concepts == counts[i]
            }
            &&& pair_views(r.writes@) == if check { seq![] } else {
                writes_spec(dir_views(current@), existing_views(current@), root_name@, blocks, current@.len() as int)
            }
        },
{
    let ghost dv = dir_views(current@);
    let ghost ev = existing_views(current@);
    let mut paths: Vec<String> = Vec::new();
    let mut j: usize = 0;
    while j < records.len()
        invariant
            0 <= j <= records.len(),
            string_views(paths@) == record_paths(records@).take(j as int),
        decreases records.len() - j,
    {
        let ghost pv = string_views(paths@);
        paths.push(owned(records[j].path.as_str()));
        assert(string_views(paths@) =~= pv.push(records@[j as int].path@));
        assert(record_paths(records@).take(j + 1) =~= record_paths(records@).take(j as int).push(records@[j as int].path@));
        j += 1;
    }
    assert(record_paths(records@).take(records.len() as int) =~= record_paths(records@));
    assert(string_views(paths@).len() == paths@.len());
    let mut dirs: Vec<String> = Vec::new();
    let mut j: usize = 0;
    while j < current.len()
        invariant
            0 <= j <= current.len(),
            dv == dir_views(current@),
            string_views(dirs@) == dv.take(j as int),
        decreases current.len() - j,
    {
        let ghost pv = string_views(dirs@);
        dirs.push(owned(current[j].0.as_str()));
        assert(string_views(dirs@) =~= pv.push(dv[j as int]));
        assert(dv.take(j + 1) =~= dv.take(j as int).push(dv[j as int]));
        j += 1;
    }
    assert(dv.take(current.len() as int) =~= dv);
    let mut files: Vec<IndexFile> = Vec::new();
    let mut writes: Vec<(String, String)> = Vec::new();
    let ghost mut blocks: Seq<Seq<char>> = Seq::empty();
    let ghost mut counts: Seq<nat> = Seq::empty();
    let mut i: usize = 0;
    while i < current.len()
        invariant
            0 <= i <= current.len(),
            dv == dir_views(current@),
            ev == existing_views(current@),
            string_views(dirs@) == dv,
            string_views(paths@) == record_paths(records@),
            paths@.len() == records@.len(),
            dirs_sorted(dv),
            files@.len() == i,
            blocks.len() == i,
            counts.len() == i,
            forall|q: int| 0 <= q < i ==> #[trigger] planned_file(records@, dv, dv[q], ev[q], root_name@, files@[q], blocks[q], counts[q]),
            pair_views(writes@) == if check { seq![] } else { writes_spec(dv, ev, root_name@, blocks, i as int) },
        decreases current.len() - i,
    {
        let dir = &current[i].0;
        assert(dir@ == dv[i as int]);
        let ch = child_dirs(&dirs, dir.as_str());
        let idx = direct_concepts(&paths, dir.as_str());
        proof {
            assert forall|q: int| 0 <= q < idx@.len() implies (#[trigger] idx@[q]) < records@.len() by {
                assert(idx@.contains(idx@[q]));
            }
            assert forall|k: usize| #[trigger] idx@.contains(k) <==> (k < records.len() && parent_dir_spec(records@[k as int].path@) == dir@) by {
                if k < records.len() {
                    assert(string_views(paths@)[k as int] == paths@[k as int]@);
                    assert(paths@[k as int]@ == record_paths(records@)[k as int]);
                }
            }
        }
        let block = build_block_at(&ch, records, &idx);
        let existing: Option<&str> = match &current[i].1 {
            Some(t) => Some(t.as_str()),
            None => None,
        };
        assert(opt_view(current@[i as int].1) == ev[i as int]);
        let (file, content) = index_update(dir.as_str(), existing, root_name, block.as_str(), idx.len());
        let ghost bl = block@;
        let ghost cnt = idx@.len() as nat;
        proof {
            assert(listing_of(records@, dv, dv[i as int], bl, cnt));
        }
        let ghost wb = pair_views(writes@);
        if !check {
            match content {
                Some(c) => {
                    writes.push((owned(file.path.as_str()), c));
                    assert(pair_views(writes@) =~= wb.push((index_path_spec(dv[i as int]), update_spec(dv[i as int], ev[i as int], root_name@, bl).1->0)));
                },
                None => {},
            }
        }
        let ghost fb = files@;
        files.push(file);
        proof {
            let ob = blocks;
            let oc = counts;
            blocks = blocks.push(bl);
            counts = counts.push(cnt);
            lemma_writes_prefix(dv, ev, root_name@, blocks, i as int);
            assert(blocks.take(i as int) =~= ob);
            assert(planned_file(records@, dv, dv[i as int], ev[i as int], root_name@, files@[i as int], bl, cnt));
            assert forall|q: int| 0 <= q < i + 1 implies #[trigger] planned_file(records@, dv, dv[q], ev[q], root_name@, files@[q], blocks[q], counts[q]) by {
                if q < i {
                    assert(blocks[q] == ob[q] && counts[q] == oc[q] && files@[q] == fb[q]);
                } else {
                    assert(blocks[q] == bl && counts[q] == cnt && files@[q] == files@[i as int]);
                }
            }
        }
        i += 1;
    }
    proof {
        assert forall|q: int| 0 <= q < current@.len() implies {
            &&& #[trigger] listing_of(records@, dir_views(current@), dir_views(current@)[q], blocks[q], counts[q])
            &&& files@[q].path@ == index_path_spec(dir_views(current@)[q])
            &&& files@[q].verb@ == update_spec(dir_views(current@)[q], existing_views(current@)[q], root_name@, blocks[q]).0
            &&& files@[q].concepts == counts[q]
        } by {
            assert(planned_file(records@, dv, dv[q], ev[q], root_name@, files@[q], blocks[q], counts[q]));
        }
    }
    IndexPlan { files, writes }
}

proof fn lemma_writes_prefix(dirs: Seq<Seq<char>>, existing: Seq<Option<Seq<char>>>, root_name: Seq<char>, blocks: Seq<Seq<char>>, n: int)
    requires
        0 <= n < blocks.len(),
    ensures
        writes_spec(dirs, existing, root_name, blocks, n) == writes_spec(dirs, existing, root_name, blocks.take(n), n),
    decreases n,
{
    if n > 0 {
        lemma_writes_prefix(dirs, existing, root_name, blocks, n - 1);
        lemma_writes_prefix(dirs, existing, root_name, blocks.take(n), n - 1);
        assert(blocks.take(n).take(n - 1) =~= blocks.take(n - 1));
    }
}

/// Running `okq index` again over an `index.md` the first run left in place
/// (rewritten or not) reports it `unchanged` and writes nothing: the file's
/// markers were both present and in order, or both absent, and the listing
/// block ends at its only end marker.
pub proof fn lemma_second_pass_unchanged(
    dir: Seq<char>,
    cur: Seq<char>,
    root_name: Seq<char>,
    children: Seq<Seq<char>>,
    direct: Seq<ConceptRecord>,
)
    requires
        markers_sound(cur, INDEX_BEGIN@, INDEX_END@),
        first_occ(block_spec(children, direct), INDEX_END@) == block_spec(children, direct).len() - INDEX_END@.len(),
    ensures
        ({
            let block = block_spec(children, direct);
            let after = match update_spec(dir, Some(cur), root_name, block).1 {
                Some(t) => t,
                None => cur,
            };
            update_spec(dir, Some(after), root_name, block) == ("unchanged"@, None::<Seq<char>>)
        }),
{
    lemma_inject_idempotent(cur, children, direct);
}

/// The heading a fresh `index.md` carries: the bundle's name (or
/// `Knowledge base`) at the root, else the directory's last segment.
pub open spec fn index_title(dir: Seq<char>, root_name: Seq<char>) -> Seq<char> {
    if dir.len() == 0 {
        if root_name.len() > 0 { root_name } else { "Knowledge base"@ }
    } else {
        crate::commands::index::last_seg_spec(dir)
    }
}

/// Running `okq index` again over an `index.md` the first run created
/// reports it `unchanged` and writes nothing, when the directory's heading
/// holds neither listing marker and the listing block ends at its only end
/// marker.
pub proof fn lemma_created_then_unchanged(
    dir: Seq<char>,
    root_name: Seq<char>,
    children: Seq<Seq<char>>,
    direct: Seq<ConceptRecord>,
)
    requires
        !contains_spec(index_title(dir, root_name), INDEX_BEGIN@),
        !contains_spec(index_title(dir, root_name), INDEX_END@),
        first_occ(block_spec(children, direct), INDEX_END@) == block_spec(children, direct).len() - INDEX_END@.len(),
    ensures
        ({
            let block = block_spec(children, direct);
            &&& update_spec(dir, None, root_name, block) == ("created"@, Some(scaffold_spec(dir, root_name, block)))
            &&& update_spec(dir, Some(scaffold_spec(dir, root_name, block)), root_name, block) == ("unchanged"@, None::<Seq<char>>)
        }),
{
    crate::commands::index::lemma_index_markers();
    reveal_strlit("<!-- okq:index:begin -->");
    reveal_strlit("<!-- okq:index:end -->");
    reveal_strlit("---\nokf_version: \"0.1\"\n---\n\n# ");
    reveal_strlit("# ");
    reveal_strlit("\n\n");
    reveal_strlit("\n");
    reveal_strlit("Knowledge base");
    let block = block_spec(children, direct);
    let bm = INDEX_BEGIN@;
    let em = INDEX_END@;
    assert(block.take(bm.len() as int) =~= bm);
    let title = index_title(dir, root_name);
    let pre = if dir.len() == 0 { "---\nokf_version: \"0.1\"\n---\n\n# "@ } else { "# "@ };
    if dir.len() == 0 {
        let l = "---\nokf_version: \"0.1\"\n---\n\n# "@;
        assert(no_lt_upto(l, l.len())) by {
            reveal_with_fuel(no_lt_upto, 40);
        }
        lemma_no_lt(l, l.len());
    }
    assert(forall|k: int| 0 <= k < pre.len() ==> #[trigger] pre[k] != '<');
    let sc = scaffold_spec(dir, root_name, block);
    assert(sc =~= pre + title + seq!['\n'] + seq!['\n'] + block + seq!['\n']);
    let hl: int = (pre.len() + title.len() + 2) as int;
    assert(sc.take((pre.len() + title.len() + 1) as int) =~= pre + title + seq!['\n']);
    assert(bm[0] == '<' && em[0] == '<');
    lemma_no_marker_in_head(sc, pre, title, bm);
    lemma_no_marker_in_head(sc, pre, title, em);
    assert(sc[hl - 1] == '\n');
    lemma_window_newline(sc, bm, hl - 1, hl - 1);
    lemma_window_newline(sc, em, hl - 1, hl - 1);
    assert(sc.subrange(hl, hl + bm.len()) =~= block.take(bm.len() as int));
    lemma_first_occ_at(sc, bm, hl);
    crate::splice::lemma_first_occ(block, em);
    let fe = block.len() - em.len();
    assert(sc.subrange(hl, hl + block.len()) =~= block);
    assert(sc.subrange(hl + fe, hl + fe + em.len()) =~= block.subrange(fe, fe + em.len()));
    assert forall|j: int| 0 <= j < hl + fe implies !occurs_at(sc, em, j) by {
        if j >= hl && occurs_at(sc, em, j) {
            lemma_window_block(sc, block, em, hl, j);
        }
    }
    lemma_first_occ_at(sc, em, hl + fe);
    assert(sc.take(hl) + block + sc.skip(hl + fe + em.len()) =~= sc);
    assert(inject_spec(sc, block) == sc);
}

} // verus!
