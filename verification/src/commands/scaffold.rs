//! `okq init` and `okq new`: what scaffolding a bundle and authoring a
//! concept write. The shell lists the `adrs/` folder, checks which files
//! exist and performs the writes.

use vstd::prelude::*;
use crate::commands::listing::{
    dir_views, dirs_sorted, existing_views, index_path_spec, listed_dir, listing_of, pair_views, plan_indexes, record_paths,
    update_spec, writes_spec, IndexPlan,
};
use crate::error::AppError;
use crate::model::ConceptRecord;
use crate::fmt::{decimal_string, digits, pad_left, pad_left_spec, push_str};
use crate::sections::{slugify, slugify_spec};
use crate::templates::{
    adr, adr_spec, adrs_index, adrs_index_spec, base_readme, base_readme_spec, ensure_type_readme, ensure_type_spec,
    feature, feature_spec, features_index, features_index_spec, inject_okq_block, inject_spec, okq_block_spec,
    root_index, root_index_spec, seed_adr, seed_adr_spec,
};
use crate::text::{
    debug_quoted, debug_str, ends_with, ends_with_spec, first_index_of, first_pos, owned, parse_u32, parse_u32_spec,
    slice_chars, str_eq, str_to_chars,
};

verus! {

/// One scaffolding action, for the `init` report.
pub struct Action {
    /// Path relative to the bundle.
    pub path: String,
    /// What happened: `created`, `exists`, or `updated`.
    pub verb: String,
}

/// A file to write, relative to the bundle.
pub struct Planned {
    /// Path relative to the bundle.
    pub path: String,
    /// Its content.
    pub content: String,
}

/// The number an ADR file name starts with: the part before the first `-`
/// of a `.md` name, read as a `u32`.
pub open spec fn adr_number(name: Seq<char>) -> Option<u32> {
    if !ends_with_spec(name, ".md"@) {
        None
    } else {
        parse_u32_spec(name.take(first_pos(name, '-')))
    }
}

fn adr_number_of(name: &str) -> (r: Option<u32>)
    ensures
        r == adr_number(name@),
{
    let v = str_to_chars(name);
    let md = str_to_chars(".md");
    if !ends_with(&v, &md) {
        return None;
    }
    let k = first_index_of(&v, '-');
    let head = slice_chars(&v, 0, k);
    assert(head@ =~= v@.take(k as int));
    parse_u32(&head)
}

/// The highest ADR number among the first `n` names (0 if none).
pub open spec fn max_adr(names: Seq<Seq<char>>, n: int) -> u32
    decreases n,
{
    if n <= 0 {
        0
    } else {
        let m = max_adr(names, n - 1);
        match adr_number(names[n - 1]) {
            Some(x) => if x > m { x } else { m },
            None => m,
        }
    }
}

pub open spec fn any_adr(names: Seq<Seq<char>>) -> bool {
    exists|i: int| 0 <= i < names.len() && #[trigger] adr_number(names[i]) is Some
}

/// The next ADR number: the highest numeric prefix among the `adrs/` file
/// names plus one (1 when there is none), wrapping past `u32::MAX`.
pub fn next_adr_number(names: &Vec<String>) -> (r: u32)
    ensures
        r == (if max_adr(crate::text::string_views(names@), names@.len() as int) == u32::MAX { 0 } else {
            max_adr(crate::text::string_views(names@), names@.len() as int) + 1
        }),
{
    let ghost nv = crate::text::string_views(names@);
    let mut max: u32 = 0;
    let mut i: usize = 0;
    while i < names.len()
        invariant
            nv == crate::text::string_views(names@),
            0 <= i <= names.len(),
            max == max_adr(nv, i as int),
        decreases names.len() - i,
    {
        assert(nv[i as int] == names@[i as int]@);
        match adr_number_of(names[i].as_str()) {
            Some(x) => {
                if x > max {
                    max = x;
                }
            },
            None => {},
        }
        i += 1;
    }
    max.wrapping_add(1)
}

/// Whether the `adrs/` folder already holds a numbered ADR.
pub fn has_adrs(names: &Vec<String>) -> (r: bool)
    ensures
        r == any_adr(crate::text::string_views(names@)),
{
    let ghost nv = crate::text::string_views(names@);
    let mut i: usize = 0;
    while i < names.len()
        invariant
            nv == crate::text::string_views(names@),
            0 <= i <= names.len(),
            forall|k: int| 0 <= k < i ==> #[trigger] adr_number(nv[k]) is None,
        decreases names.len() - i,
    {
        assert(nv[i as int] == names@[i as int]@);
        if adr_number_of(names[i].as_str()).is_some() {
            return true;
        }
        i += 1;
    }
    false
}

/// Where `okq new` writes a concept of type `t` titled `title`, and what:
/// ADRs go to `adrs/NNNN-slug.md` numbered after the existing ones,
/// features to `features/slug.md`; any other type is a usage error.
pub open spec fn new_outcome(t: Seq<char>, title: Seq<char>, date: Seq<char>, adr_names: Seq<Seq<char>>, number: u32,
    r: Result<(String, String, String), AppError>) -> bool {
    if t == "adr"@ {
        (r matches Ok(p) && p.0@ == "adrs"@ && p.1@ == pad_left_spec(digits(number as nat), 4, '0') + seq!['-']
            + slugify_spec(title) + ".md"@ && p.2@ == adr_spec(title, date))
    } else if t == "feature"@ {
        (r matches Ok(p) && p.0@ == "features"@ && p.1@ == slugify_spec(title) + ".md"@ && p.2@ == feature_spec(title, date))
    } else {
        (r matches Err(AppError::Usage(m)) && m@ == "unknown type "@ + debug_str(t) + "; known types: adr, feature"@)
    }
}

/// `okq new`: the folder, file name and content of a new concept of type
/// `type_` titled `title`, dated `date`; `adr_names` are the file names
/// already in `adrs/`.
pub fn new(type_: &str, title: &str, date: &str, adr_names: &Vec<String>) -> (r: Result<(String, String, String), AppError>)
    ensures
        exists|number: u32| #[trigger] new_outcome(type_@, title@, date@, crate::text::string_views(adr_names@), number, r)
            && (type_@ == "adr"@ ==> number == (if max_adr(crate::text::string_views(adr_names@), adr_names@.len() as int) == u32::MAX { 0 } else {
            max_adr(crate::text::string_views(adr_names@), adr_names@.len() as int) + 1
        })),
{
    if str_eq(type_, "adr") {
        let number = next_adr_number(adr_names);
        let n = decimal_string(number as u64);
        let mut name = pad_left(n.as_str(), 4, '0');
        name.push('-');
        let slug = slugify(title);
        push_str(&mut name, slug.as_str());
        push_str(&mut name, ".md");
        assert(name@ =~= pad_left_spec(digits(number as nat), 4, '0') + seq!['-'] + slugify_spec(title@) + ".md"@);
        let folder = owned("adrs");
        let content = adr(title, date);
        assert(type_@ == "adr"@);
        let r = Ok((folder, name, content));
        assert(new_outcome(type_@, title@, date@, crate::text::string_views(adr_names@), number, r));
        r
    } else if str_eq(type_, "feature") {
        let mut name = slugify(title);
        push_str(&mut name, ".md");
        let r = Ok((owned("features"), name, feature(title, date)));
        assert(new_outcome(type_@, title@, date@, crate::text::string_views(adr_names@), 0, r));
        r
    } else {
        let mut m = owned("unknown type ");
        let q = debug_quoted(type_);
        push_str(&mut m, q.as_str());
        push_str(&mut m, "; known types: adr, feature");
        let r = Err(AppError::Usage(m));
        assert(new_outcome(type_@, title@, date@, crate::text::string_views(adr_names@), 0, r));
        r
    }
}

pub open spec fn planned_view(p: Planned) -> (Seq<char>, Seq<char>) {
    (p.path@, p.content@)
}

/// The files `okq init` ensures, in order: the root, ADR and feature
/// indexes, and the seed ADR when the bundle has no ADR yet.
pub open spec fn init_files_spec(name: Seq<char>, date: Seq<char>, has_adr: bool) -> Seq<(Seq<char>, Seq<char>)> {
    seq![("index.md"@, root_index_spec(name)), ("adrs/index.md"@, adrs_index_spec()), ("features/index.md"@, features_index_spec())]
        + if has_adr { seq![] } else { seq![("adrs/0001-record-architecture-decisions.md"@, seed_adr_spec(date))] }
}

/// `okq init`: the files to create where absent, in order, for a bundle
/// named `name`, dated `date`, whose `adrs/` folder holds `adr_names`.
pub fn init(name: &str, date: &str, adr_names: &Vec<String>) -> (r: Vec<Planned>)
    ensures
        r@.map_values(|p: Planned| planned_view(p)) == init_files_spec(name@, date@, any_adr(crate::text::string_views(adr_names@))),
{
    let mut r: Vec<Planned> = Vec::new();
    r.push(Planned { path: owned("index.md"), content: root_index(name) });
    r.push(Planned { path: owned("adrs/index.md"), content: adrs_index() });
    r.push(Planned { path: owned("features/index.md"), content: features_index() });
    if !has_adrs(adr_names) {
        r.push(Planned { path: owned("adrs/0001-record-architecture-decisions.md"), content: seed_adr(date) });
    }
    assert(r@.map_values(|p: Planned| planned_view(p)) =~= init_files_spec(name@, date@, any_adr(crate::text::string_views(adr_names@))));
    r
}

/// What `init` does to the README: with none, write the base README
/// (`created`); else inject the okq block after ensuring a `type:` line, and
/// write it only if that changed anything (`updated` either way).
pub fn readme_update(existing: Option<&str>, name: &str) -> (r: (Action, Option<String>))
    ensures
        r.0.path@ == "README.md"@,
        match existing {
            None => r.0.verb@ == "created"@ && (r.1 matches Some(c) && c@ == base_readme_spec(name@)),
            Some(orig) => r.0.verb@ == "updated"@ && {
                let up = inject_spec(ensure_type_spec(orig@), okq_block_spec());
                if up == orig@ { r.1 is None } else { r.1 matches Some(c) && c@ == up }
            },
        },
{
    match existing {
        None => (Action { path: owned("README.md"), verb: owned("created") }, Some(base_readme(name))),
        Some(orig) => {
            let typed = ensure_type_readme(orig);
            let updated = inject_okq_block(typed.as_str());
            let changed = !str_eq(updated.as_str(), orig);
            (Action { path: owned("README.md"), verb: owned("updated") }, if changed { Some(updated) } else { None })
        },
    }
}

/// A human name for the bundle: its directory's name, or `Knowledge base`
/// when there is none.
pub fn bundle_name(dir_name: Option<&str>) -> (r: String)
    ensures
        match dir_name {
            Some(n) => n@.len() > 0 ==> r@ == n@,
            None => true,
        },
        (dir_name is None || dir_name->0@.len() == 0) ==> r@ == "Knowledge base"@,
{
    match dir_name {
        Some(n) => {
            if str_to_chars(n).len() > 0 {
                return owned(n);
            }
            owned("Knowledge base")
        },
        None => owned("Knowledge base"),
    }
}

pub open spec fn action_views(v: Seq<Action>) -> Seq<(Seq<char>, Seq<char>)> {
    v.map_values(|a: Action| (a.path@, a.verb@))
}

pub open spec fn index_file_views(v: Seq<crate::commands::index::IndexFile>) -> Seq<(Seq<char>, Seq<char>)> {
    v.map_values(|f: crate::commands::index::IndexFile| (f.path@, f.verb@))
}

/// `path` is already in the report.
pub open spec fn reports(r: Seq<(Seq<char>, Seq<char>)>, path: Seq<char>) -> bool {
    exists|j: int| 0 <= j < r.len() && (#[trigger] r[j]).0 == path
}

/// The report `okq init` prints: the template actions, then each `index.md`
/// the listing pass changed that is not reported already (a file is listed
/// once).
pub open spec fn report_spec(base: Seq<(Seq<char>, Seq<char>)>, fs: Seq<(Seq<char>, Seq<char>)>, n: int) -> Seq<(Seq<char>, Seq<char>)>
    decreases n,
{
    if n <= 0 {
        base
    } else {
        let prev = report_spec(base, fs, n - 1);
        let f = fs[n - 1];
        if f.1 != "unchanged"@ && !reports(prev, f.0) { prev.push(f) } else { prev }
    }
}

/// The paths of a report are distinct.
pub open spec fn paths_distinct(r: Seq<(Seq<char>, Seq<char>)>) -> bool {
    forall|i: int, j: int| 0 <= i < j < r.len() ==> (#[trigger] r[i]).0 != (#[trigger] r[j]).0
}

/// Adding the listing pass to a report with distinct paths keeps them
/// distinct: `init` reports each path once.
pub proof fn lemma_report_paths_once(base: Seq<(Seq<char>, Seq<char>)>, fs: Seq<(Seq<char>, Seq<char>)>, n: int)
    requires
        paths_distinct(base),
        n <= fs.len(),
    ensures
        paths_distinct(report_spec(base, fs, n)),
    decreases n,
{
    if n > 0 {
        lemma_report_paths_once(base, fs, n - 1);
        let prev = report_spec(base, fs, n - 1);
        let f = fs[n - 1];
        if f.1 != "unchanged"@ && !reports(prev, f.0) {
            let r = prev.push(f);
            assert forall|i: int, j: int| 0 <= i < j < r.len() implies (#[trigger] r[i]).0 != (#[trigger] r[j]).0 by {
                if j == prev.len() {
                    assert(r[i] == prev[i]);
                    if r[i].0 == f.0 {
                        assert(reports(prev, f.0));
                    }
                } else {
                    assert(r[i] == prev[i] && r[j] == prev[j]);
                }
            }
        }
    }
}

/// The report of `okq init`: `actions` (the templates and the README), then
/// each index file the listing pass created or updated, once per path.
pub fn init_report(actions: Vec<Action>, files: &Vec<crate::commands::index::IndexFile>) -> (r: Vec<Action>)
    ensures
        action_views(r@) == report_spec(action_views(actions@), index_file_views(files@), files@.len() as int),
{
    let ghost fv = index_file_views(files@);
    let mut out = actions;
    let ghost base = action_views(out@);
    let mut i: usize = 0;
    while i < files.len()
        invariant
            0 <= i <= files.len(),
            fv == index_file_views(files@),
            action_views(out@) == report_spec(base, fv, i as int),
        decreases files.len() - i,
    {
        let f = &files[i];
        assert(fv[i as int] == (f.path@, f.verb@));
        let ghost prev = action_views(out@);
        let mut seen = false;
        let mut j: usize = 0;
        while j < out.len()
            invariant
                0 <= j <= out@.len(),
                prev == action_views(out@),
                seen <==> exists|q: int| 0 <= q < j && (#[trigger] prev[q]).0 == f.path@,
            decreases out.len() - j,
        {
            assert(prev[j as int] == (out@[j as int].path@, out@[j as int].verb@));
            if str_eq(out[j].path.as_str(), f.path.as_str()) {
                seen = true;
            }
            j += 1;
        }
        proof {
            reveal_strlit("unchanged");
        }
        if !str_eq(f.verb.as_str(), "unchanged") && !seen {
            out.push(Action { path: owned(f.path.as_str()), verb: owned(f.verb.as_str()) });
            assert(action_views(out@) =~= prev.push(fv[i as int]));
        }
        i += 1;
    }
    out
}

/// The listing pass of `okq init`, run over the bundle's visible concepts
/// `records` once the templates are written (`current` pairs each listed
/// directory with its `index.md` text): every index file gets the listing
/// `okq index` gives it, and the report is `actions` followed by each
/// listing that changed a file not reported yet.
pub fn init_listings(actions: Vec<Action>, records: &Vec<ConceptRecord>, current: &Vec<(String, Option<String>)>, root_name: &str) -> (r: (Vec<Action>, IndexPlan))
    requires
        dirs_sorted(dir_views(current@)),
        forall|d: Seq<char>| #[trigger] dir_views(current@).contains(d) <==> listed_dir(record_paths(records@), d),
    ensures
        r.1.files@.len() == current@.len(),
        exists|blocks: Seq<Seq<char>>, counts: Seq<nat>| #![trigger blocks.len(), counts.len()] {
            &&& blocks.len() == current@.len()
            &&& counts.len() == current@.len()
            &&& forall|i: int| 0 <= i < current@.len() ==> {
                &&& #[trigger] listing_of(records@, dir_views(current@), dir_views(current@)[i], blocks[i], counts[i])
                &&& r.1.files@[i].path@ == index_path_spec(dir_views(current@)[i])
                &&& r.1.files@[i].verb@ == update_spec(dir_views(current@)[i], existing_views(current@)[i], root_name@, blocks[i]).0
                &&& r.1.files@[i].concepts == counts[i]
            }
            &&& pair_views(r.1.writes@) == writes_spec(dir_views(current@), existing_views(current@), root_name@, blocks, current@.len() as int)
        },
        action_views(r.0@) == report_spec(action_views(actions@), index_file_views(r.1.files@), current@.len() as int),
        paths_distinct(action_views(actions@)) ==> paths_distinct(action_views(r.0@)),
{
    let plan = plan_indexes(records, current, root_name, false);
    let report = init_report(actions, &plan.files);
    proof {
        if paths_distinct(action_views(actions@)) {
            lemma_report_paths_once(action_views(actions@), index_file_views(plan.files@), plan.files@.len() as int);
        }
    }
    (report, plan)
}

} // verus!
