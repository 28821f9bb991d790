//! `.okqignore` support: the rule files of a bundle tree, compiled with the
//! `ignore` crate's gitignore matchers, and the question they answer,
//! whether a path is excluded.
//!
//! Each rule file governs its directory and below. Matchers are consulted
//! deepest directory first, and the first decisive verdict (ignore or
//! whitelist) wins, so a nested file overrides a shallower one. The shell
//! finds and reads the files; `--no-ignore` gives a disabled set. Paths are
//! relative to the bundle root, with `/` separators.

use vstd::prelude::*;
use crate::commands::index::{parent_dir, parent_dir_spec};
use crate::commands::listing::{by_path, path_order};
use crate::concept::{id_views, ConceptId};
use crate::model::Concept;
use crate::resolve::{split_chars, split_spec};
use crate::text::{chars_to_string, ends_with_spec, owned, str_to_chars, string_views, trim_end_spec, views};

verus! {

/// A compiled `.gitignore`-style matcher.
#[verifier::external_type_specification]
#[verifier::external_body]
pub struct ExGitignore(ignore::gitignore::Gitignore);

/// A matcher being built from rule lines.
#[verifier::external_type_specification]
#[verifier::external_body]
pub struct ExGitignoreBuilder(ignore::gitignore::GitignoreBuilder);

/// The directory a matcher matches relative to (`Gitignore::path`).
pub uninterp spec fn gitignore_root(gi: ignore::gitignore::Gitignore) -> Seq<char>;

/// The globs a matcher holds, as written in their rule lines, in order.
pub uninterp spec fn gitignore_globs(gi: ignore::gitignore::Gitignore) -> Seq<Seq<char>>;

/// Whether the matcher's globs were compiled case-insensitively.
pub uninterp spec fn gitignore_case_insensitive(gi: ignore::gitignore::Gitignore) -> bool;

/// The root directory a builder was made for.
pub uninterp spec fn builder_root(b: ignore::gitignore::GitignoreBuilder) -> Seq<char>;

/// The globs added to a builder so far, as written, in order.
pub uninterp spec fn builder_globs(b: ignore::gitignore::GitignoreBuilder) -> Seq<Seq<char>>;

/// Whether a builder compiles the globs it is given case-insensitively.
pub uninterp spec fn builder_case_insensitive(b: ignore::gitignore::GitignoreBuilder) -> bool;

/// What a matcher with this root, these globs and this case setting says of
/// a path (a directory when `is_dir`) or, failing that, of its nearest
/// parent directory below the root that a glob decides.
pub uninterp spec fn glob_verdict(root: Seq<char>, globs: Seq<Seq<char>>, case_insensitive: bool, path: Seq<char>, is_dir: bool) -> Verdict;

/// One matcher's verdict on one path.
#[derive(Clone, Copy, PartialEq, Eq, Structural, Debug)]
pub enum Verdict {
    /// The highest-precedence matching glob excludes the path.
    Ignore,
    /// The highest-precedence matching glob re-includes it (`!pattern`).
    Whitelist,
    /// No glob matches.
    NoMatch,
}

/// `s` without one leading `./`.
pub open spec fn strip_one_dot_slash(s: Seq<char>) -> Seq<char> {
    if s.len() >= 2 && s[0] == '.' && s[1] == '/' { s.skip(2) } else { s }
}

/// `GitignoreBuilder::new(dir)`. Claimed: the builder's root is `dir` with
/// one leading `./` removed, it holds no globs and is case-sensitive.
#[verifier::external_body]
fn builder_new(dir: &str) -> (r: ignore::gitignore::GitignoreBuilder)
    ensures
        builder_root(r) == strip_one_dot_slash(dir@),
        builder_globs(r) == Seq::<Seq<char>>::empty(),
        !builder_case_insensitive(r),
{
    ignore::gitignore::GitignoreBuilder::new(dir)
}

/// The glob a rule line adds: nothing for a `#` comment or a line blank
/// after trimming; else the line, trailing whitespace trimmed unless it
/// ends in an escaped space (`\ `).
pub open spec fn rule_of(line: Seq<char>) -> Seq<Seq<char>> {
    if line.len() > 0 && line[0] == '#' {
        seq![]
    } else {
        let l = if ends_with_spec(line, seq!['\\', ' ']) { line } else { trim_end_spec(line) };
        if l.len() == 0 { seq![] } else { seq![l] }
    }
}

/// `GitignoreBuilder::add_line(None, line)`. Claimed: the root and the case
/// setting stay; on success the line's glob (if any) is appended; on an
/// error (a glob that does not parse) nothing is added, and the line was a
/// glob line. The error's text is not described.
#[verifier::external_body]
fn builder_add_line(b: &mut ignore::gitignore::GitignoreBuilder, line: &str) -> (r: Option<String>)
    ensures
        builder_root(*final(b)) == builder_root(*old(b)),
        builder_case_insensitive(*final(b)) == builder_case_insensitive(*old(b)),
        r is None ==> builder_globs(*final(b)) == builder_globs(*old(b)) + rule_of(line@),
        r is Some ==> builder_globs(*final(b)) == builder_globs(*old(b)) && rule_of(line@).len() == 1,
{
    match b.add_line(None, line) {
        Ok(_) => None,
        Err(e) => Some(e.to_string()),
    }
}

/// `GitignoreBuilder::build`. Claimed: a builder without globs always
/// gives a matcher without globs; a built matcher holds the builder's globs
/// and, when it has any, its root and case setting. Whether compiling the
/// glob set fails, and the error's text, are not described.
#[verifier::external_body]
fn builder_build(b: &ignore::gitignore::GitignoreBuilder) -> (r: Result<ignore::gitignore::Gitignore, String>)
    ensures
        builder_globs(*b).len() == 0 ==> r is Ok,
        r matches Ok(gi) ==> gitignore_globs(gi) == builder_globs(*b),
        r matches Ok(gi) ==> (builder_globs(*b).len() > 0 ==> gitignore_root(gi) == builder_root(*b)
            && gitignore_case_insensitive(gi) == builder_case_insensitive(*b)),
{
    b.build().map_err(|e| e.to_string())
}

/// `path` lies strictly below the matcher root `root` in the way
/// `Gitignore::matched_path_or_any_parents` needs (it panics on a path it
/// cannot place under its root): no leading `./`, a root other than `.`,
/// and, under a non-empty root, `root/rest` with `rest` not starting with
/// `/`; under the empty root, a relative path.
pub open spec fn governed(root: Seq<char>, p: Seq<char>) -> bool {
    &&& !(p.len() >= 2 && p[0] == '.' && p[1] == '/')
    &&& root != seq!['.']
    &&& if root.len() == 0 {
        p.len() == 0 || p[0] != '/'
    } else {
        &&& p.len() > root.len() + 1
        &&& p.take(root.len() as int) == root
        &&& p[root.len() as int] == '/'
        &&& p[root.len() as int + 1] != '/'
    }
}

/// `Gitignore::matched_path_or_any_parents(path, is_dir)`. Claimed: the
/// verdict is the named function of the matcher's root, globs and case
/// setting, the path and `is_dir`; a matcher without globs matches nothing.
#[verifier::external_body]
fn matched_any(gi: &ignore::gitignore::Gitignore, path: &str, is_dir: bool) -> (r: Verdict)
    requires
        gitignore_globs(*gi).len() > 0 ==> governed(gitignore_root(*gi), path@),
    ensures
        r == glob_verdict(gitignore_root(*gi), gitignore_globs(*gi), gitignore_case_insensitive(*gi), path@, is_dir),
        gitignore_globs(*gi).len() == 0 ==> r == Verdict::NoMatch,
{
    match gi.matched_path_or_any_parents(path, is_dir) {
        ignore::Match::Ignore(_) => Verdict::Ignore,
        ignore::Match::Whitelist(_) => Verdict::Whitelist,
        ignore::Match::None => Verdict::NoMatch,
    }
}

// ---------------------------------------------------------------------------
// Rule files as text.

/// Leading byte-order marks removed.
pub open spec fn bom_trim(l: Seq<char>) -> Seq<char>
    decreases l.len(),
{
    if l.len() > 0 && l[0] == '\u{feff}' { bom_trim(l.drop_first()) } else { l }
}

/// Line `i` of a file split on `\n`, as a buffered reader yields it: a
/// `\r` before the newline removed, and on the first line leading
/// byte-order marks removed.
pub open spec fn file_line(parts: Seq<Seq<char>>, i: int) -> Seq<char> {
    let l = if i + 1 < parts.len() && parts[i].len() > 0 && parts[i].last() == '\r' { parts[i].drop_last() } else { parts[i] };
    if i == 0 { bom_trim(l) } else { l }
}

/// How many lines the parts make (a trailing newline ends the last line).
pub open spec fn line_count(parts: Seq<Seq<char>>) -> int {
    if parts.len() > 0 && parts.last().len() == 0 { parts.len() - 1 } else { parts.len() as int }
}

pub open spec fn rules_upto(parts: Seq<Seq<char>>, k: int) -> Seq<Seq<char>>
    decreases k,
{
    if k <= 0 { seq![] } else { rules_upto(parts, k - 1) + rule_of(file_line(parts, k - 1)) }
}

/// The globs a rule file's text holds, in order.
pub open spec fn rule_lines(text: Seq<char>) -> Seq<Seq<char>> {
    let parts = split_spec(text, '\n');
    rules_upto(parts, line_count(parts))
}

/// Compiles one rule file's text into a matcher rooted at `dir`. An error
/// in any line (or in compiling the set) fails the whole file, with the
/// matcher's message.
pub fn compile_ignore(dir: &str, text: &str) -> (r: Result<ignore::gitignore::Gitignore, String>)
    ensures
        rule_lines(text@).len() == 0 ==> r is Ok,
        r matches Ok(gi) ==> gitignore_globs(gi) == rule_lines(text@),
        r matches Ok(gi) ==> (rule_lines(text@).len() > 0 ==> gitignore_root(gi) == strip_one_dot_slash(dir@)
            && !gitignore_case_insensitive(gi)),
{
    let mut b = builder_new(dir);
    let v = str_to_chars(text);
    let parts = split_chars(&v, '\n');
    let ghost ps = views(parts@);
    let n: usize = if parts.len() > 0 && parts[parts.len() - 1].len() == 0 { parts.len() - 1 } else { parts.len() };
    assert(n == line_count(ps));
    let mut i: usize = 0;
    while i < n
        invariant
            ps == views(parts@),
            ps == split_spec(text@, '\n'),
            n == line_count(ps),
            n <= parts.len(),
            0 <= i <= n,
            builder_root(b) == strip_one_dot_slash(dir@),
            !builder_case_insensitive(b),
            builder_globs(b) == rules_upto(ps, i as int),
            rules_upto(ps, i as int).len() <= rules_upto(ps, n as int).len(),
        decreases n - i,
    {
        let part = &parts[i];
        assert(part@ == ps[i as int]);
        let mut line = crate::text::slice_chars(part, 0, part.len());
        assert(line@ =~= ps[i as int]);
        if i + 1 < parts.len() && line.len() > 0 && line[line.len() - 1] == '\r' {
            line.pop();
        }
        if i == 0 {
            while line.len() > 0 && line[0] == '\u{feff}'
                invariant
                    bom_trim(line@) == bom_trim(if 1 < parts.len() && ps[0].len() > 0 && ps[0].last() == '\r' { ps[0].drop_last() } else { ps[0] }),
                decreases line.len(),
            {
                assert(line@.drop_first() =~= line@.subrange(1, line@.len() as int));
                line.remove(0);
            }
        }
        assert(line@ == file_line(ps, i as int));
        let s = chars_to_string(&line);
        let ghost before = builder_globs(b);
        match builder_add_line(&mut b, s.as_str()) {
            Some(e) => {
                proof {
                    assert(rules_upto(ps, i as int + 1) == rules_upto(ps, i as int) + rule_of(file_line(ps, i as int)));
                    lemma_rules_upto_mono(ps, i as int + 1, n as int);
                }
                return Err(e);
            },
            None => {},
        }
        proof {
            lemma_rules_upto_mono(ps, i as int + 1, n as int);
        }
        i += 1;
    }
    builder_build(&b)
}

proof fn lemma_rules_upto_mono(ps: Seq<Seq<char>>, a: int, b: int)
    requires
        a <= b,
    ensures
        rules_upto(ps, a).len() <= rules_upto(ps, b).len(),
    decreases b - a,
{
    if a < b {
        lemma_rules_upto_mono(ps, a, b - 1);
    }
}

/// How many components a directory path has (the root counts as one).
pub open spec fn depth_from(d: Seq<char>, i: int, in_part: bool) -> nat
    decreases d.len() - i,
{
    if i < 0 || i >= d.len() {
        0
    } else if d[i] == '/' {
        depth_from(d, i + 1, false)
    } else {
        depth_from(d, i + 1, true) + if in_part { 0nat } else { 1nat }
    }
}

pub open spec fn depth(d: Seq<char>) -> nat {
    depth_from(d, 0, false) + if d.len() > 0 && d[0] == '/' { 1nat } else { 0nat }
}


/// A matcher as the contracts see it: the directory it governs (its root),
/// its globs, and whether they match case-insensitively.
pub type MatcherView = (Seq<char>, Seq<Seq<char>>, bool);

pub open spec fn matcher_view(m: (String, ignore::gitignore::Gitignore)) -> MatcherView {
    (m.0@, gitignore_globs(m.1), gitignore_globs(m.1).len() > 0 && gitignore_case_insensitive(m.1))
}

pub open spec fn matcher_views(s: Seq<(String, ignore::gitignore::Gitignore)>) -> Seq<MatcherView> {
    s.map_values(|m: (String, ignore::gitignore::Gitignore)| matcher_view(m))
}

/// The first position of `s` holding a shallower directory than depth `k`.
pub open spec fn first_shallower(s: Seq<MatcherView>, k: nat, i: int) -> int
    decreases s.len() - i,
{
    if i < 0 || i >= s.len() {
        s.len() as int
    } else if depth(s[i].0) < k {
        i
    } else {
        first_shallower(s, k, i + 1)
    }
}

/// Matchers ordered deepest directory first, equal depths kept in order.
pub open spec fn deepest_first(s: Seq<MatcherView>) -> Seq<MatcherView>
    decreases s.len(),
{
    if s.len() == 0 {
        seq![]
    } else {
        let p = deepest_first(s.drop_last());
        p.insert(first_shallower(p, depth(s.last().0), 0), s.last())
    }
}

/// The first decisive verdict, in order, of the matchers with globs that
/// govern `p`; `false` when none decides.
pub open spec fn decide(ms: Seq<MatcherView>, p: Seq<char>) -> bool
    decreases ms.len(),
{
    if ms.len() == 0 {
        false
    } else if ms[0].1.len() == 0 || !governed(ms[0].0, p) {
        decide(ms.drop_first(), p)
    } else {
        match glob_verdict(ms[0].0, ms[0].1, ms[0].2, p, false) {
            Verdict::Ignore => true,
            Verdict::Whitelist => false,
            Verdict::NoMatch => decide(ms.drop_first(), p),
        }
    }
}

/// The directory whose rules a rule file at `path` states: its parent,
/// without a leading `./`.
pub open spec fn rule_dir(path: Seq<char>) -> Seq<char> {
    strip_one_dot_slash(parent_dir_spec(path))
}

/// The rule files in path order: `ord` lists every position once, ordered
/// by (path, position).
pub open spec fn is_path_order(paths: Seq<Seq<char>>, ord: Seq<usize>) -> bool {
    &&& by_path(paths, ord)
    &&& forall|k: usize| #[trigger] ord.contains(k) <==> k < paths.len()
}

/// The matchers compiled from the files `ord` lists, kept where `ok` says
/// compilation succeeded.
pub open spec fn compiled_views(paths: Seq<Seq<char>>, texts: Seq<Seq<char>>, ord: Seq<usize>, ok: Seq<bool>, n: int) -> Seq<MatcherView>
    decreases n,
{
    if n <= 0 {
        seq![]
    } else {
        let k = ord[n - 1] as int;
        compiled_views(paths, texts, ord, ok, n - 1) + if ok[n - 1] { seq![(rule_dir(paths[k]), rule_lines(texts[k]), false)] } else { seq![] }
    }
}

pub open spec fn failed_count(ok: Seq<bool>, n: int) -> nat
    decreases n,
{
    if n <= 0 { 0 } else { failed_count(ok, n - 1) + if ok[n - 1] { 0nat } else { 1nat } }
}

pub open spec fn file_paths(files: Seq<(String, String)>) -> Seq<Seq<char>> {
    files.map_values(|f: (String, String)| f.0@)
}

pub open spec fn file_texts(files: Seq<(String, String)>) -> Seq<Seq<char>> {
    files.map_values(|f: (String, String)| f.1@)
}

/// The `.okqignore` rules of a bundle tree, ready to test paths.
pub struct IgnoreSet {
    /// `(directory, matcher)` pairs, deepest directory first.
    matchers: Vec<(String, ignore::gitignore::Gitignore)>,
    /// The rule files found, in path order.
    files: Vec<String>,
    /// `false` when `--no-ignore` disabled the feature.
    enabled: bool,
}

proof fn lemma_first_shallower_bounds(s: Seq<MatcherView>, k: nat, i: int)
    requires
        0 <= i <= s.len(),
    ensures
        i <= first_shallower(s, k, i) <= s.len(),
    decreases s.len() - i,
{
    if i < s.len() && depth(s[i].0) >= k {
        lemma_first_shallower_bounds(s, k, i + 1);
    }
}

proof fn lemma_depth_from_bound(d: Seq<char>, i: int, in_part: bool)
    requires
        0 <= i <= d.len(),
    ensures
        depth_from(d, i, in_part) <= d.len() - i,
    decreases d.len() - i,
{
    if i < d.len() {
        if d[i] == '/' {
            lemma_depth_from_bound(d, i + 1, false);
        } else {
            lemma_depth_from_bound(d, i + 1, true);
        }
    }
}

fn dir_depth(d: &str) -> (r: usize)
    ensures
        r == depth(d@),
{
    let v = str_to_chars(d);
    let mut i: usize = 0;
    let mut n: usize = 0;
    let mut in_part = false;
    while i < v.len()
        invariant
            0 <= i <= v.len(),
            v@ == d@,
            n <= i,
            n + depth_from(v@, i as int, in_part) == depth_from(v@, 0, false),
        decreases v.len() - i,
    {
        if v[i] == '/' {
            in_part = false;
        } else {
            if !in_part {
                n += 1;
            }
            in_part = true;
        }
        i += 1;
    }
    proof {
        lemma_depth_from_bound(v@, 0, false);
        if v@.len() > 0 && v@[0] == '/' {
            lemma_depth_from_bound(v@, 1, false);
        }
    }
    if v.len() > 0 && v[0] == '/' {
        n + 1
    } else {
        n
    }
}


impl IgnoreSet {
    /// Each matcher with globs is rooted at the directory stored with it.
    #[verifier::type_invariant]
    spec fn rooted(&self) -> bool {
        forall|i: int| 0 <= i < self.matchers@.len() ==> #[trigger] gitignore_globs(self.matchers@[i].1).len() > 0
            ==> gitignore_root(self.matchers@[i].1) == self.matchers@[i].0@
    }

    /// The matchers, as (directory, globs, case setting), in the order consulted.
    pub closed spec fn matchers_view(&self) -> Seq<MatcherView> {
        matcher_views(self.matchers@)
    }

    pub closed spec fn files_view(&self) -> Seq<Seq<char>> {
        string_views(self.files@)
    }

    pub closed spec fn enabled_view(&self) -> bool {
        self.enabled
    }

    /// The set `--no-ignore` gives: it excludes nothing and lists no files.
    pub fn disabled() -> (r: IgnoreSet)
        ensures
            !r.enabled_view(),
            r.matchers_view().len() == 0,
            r.files_view().len() == 0,
    {
        IgnoreSet { matchers: Vec::new(), files: Vec::new(), enabled: false }
    }

    /// The set of the rule files `files` (`(path, text)`, paths relative to
    /// the bundle root): the files in path order, each compiled for its
    /// directory; a file that fails to compile is left out and reported as
    /// `(path, message)`. Matchers are put deepest directory first.
    pub fn load(files: &Vec<(String, String)>) -> (r: (IgnoreSet, Vec<(String, String)>))
        ensures
            r.0.enabled_view(),
            exists|ord: Seq<usize>, ok: Seq<bool>| {
                &&& #[trigger] is_path_order(file_paths(files@), ord)
                &&& ok.len() == ord.len()
                &&& r.0.files_view() == ord.map_values(|k: usize| file_paths(files@)[k as int])
                &&& r.0.matchers_view() == deepest_first(#[trigger] compiled_views(file_paths(files@), file_texts(files@), ord, ok, ord.len() as int))
                &&& forall|i: int| 0 <= i < ord.len() && rule_lines(file_texts(files@)[ord[i] as int]).len() == 0 ==> ok[i]
                &&& r.1@.len() == failed_count(ok, ord.len() as int)
            },
    {
        let ghost fp = file_paths(files@);
        let ghost ft = file_texts(files@);
        let mut paths: Vec<String> = Vec::new();
        let mut j: usize = 0;
        while j < files.len()
            invariant
                0 <= j <= files.len(),
                fp == file_paths(files@),
                string_views(paths@) == fp.take(j as int),
            decreases files.len() - j,
        {
            assert(fp[j as int] == files@[j as int].0@);
            let ghost pv = string_views(paths@);
            paths.push(owned(files[j].0.as_str()));
            assert(string_views(paths@) =~= pv.push(fp[j as int]));
            assert(fp.take(j + 1) =~= fp.take(j as int).push(fp[j as int]));
            j += 1;
        }
        assert(fp.take(files.len() as int) =~= fp);
        let ord = path_order(&paths);
        let ghost mut ok: Seq<bool> = Seq::empty();
        let mut listed: Vec<String> = Vec::new();
        let mut compiled: Vec<(String, ignore::gitignore::Gitignore)> = Vec::new();
        let mut failed: Vec<(String, String)> = Vec::new();
        let mut i: usize = 0;
        while i < ord.len()
            invariant
                0 <= i <= ord.len(),
                fp == file_paths(files@),
                ft == file_texts(files@),
                string_views(paths@) == fp,
                is_path_order(fp, ord@),
                ok.len() == i,
                string_views(listed@) == ord@.take(i as int).map_values(|k: usize| fp[k as int]),
                matcher_views(compiled@) == compiled_views(fp, ft, ord@, ok, i as int),
                forall|q: int| 0 <= q < compiled@.len() ==> #[trigger] gitignore_globs(compiled@[q].1).len() > 0
                    ==> gitignore_root(compiled@[q].1) == compiled@[q].0@,
                forall|q: int| 0 <= q < i && rule_lines(ft[ord@[q] as int]).len() == 0 ==> ok[q],
                failed@.len() == failed_count(ok, i as int),
            decreases ord.len() - i,
        {
            let k = ord[i];
            assert(ord@.contains(k));
            assert(k < paths.len());
            assert(fp[k as int] == paths@[k as int]@);
            let ghost lv = string_views(listed@);
            listed.push(owned(paths[k].as_str()));
            assert(string_views(listed@) =~= lv.push(fp[k as int]));
            assert(ord@.take(i + 1).map_values(|k: usize| fp[k as int]) =~= ord@.take(i as int).map_values(|k: usize| fp[k as int]).push(fp[k as int]));
            let dir = parent_dir(paths[k].as_str());
            let dv = str_to_chars(dir.as_str());
            let root = if dv.len() >= 2 && dv[0] == '.' && dv[1] == '/' {
                chars_to_string(&crate::text::slice_chars(&dv, 2, dv.len()))
            } else {
                dir.clone()
            };
            assert(root@ =~= rule_dir(fp[k as int]));
            assert(ft[k as int] == files@[k as int].1@);
            let ghost before = matcher_views(compiled@);
            let ghost old_ok = ok;
            match compile_ignore(dir.as_str(), files[k].1.as_str()) {
                Ok(gi) => {
                    compiled.push((root, gi));
                    proof {
                        ok = ok.push(true);
                        assert(ok.take(i as int) =~= old_ok);
                        lemma_compiled_prefix(fp, ft, ord@, ok, i as int);
                        lemma_failed_prefix(ok, i as int);
                        assert(matcher_views(compiled@) =~= before.push((rule_dir(fp[k as int]), rule_lines(ft[k as int]), false)));
                        assert(compiled_views(fp, ft, ord@, ok, i as int + 1) == compiled_views(fp, ft, ord@, ok, i as int)
                            + seq![(rule_dir(fp[k as int]), rule_lines(ft[k as int]), false)]);
                        assert forall|q: int| 0 <= q < i + 1 && rule_lines(ft[ord@[q] as int]).len() == 0 implies ok[q] by {
                            if q < i { assert(ok[q] == old_ok[q]); }
                        }
                    }
                },
                Err(e) => {
                    failed.push((owned(paths[k].as_str()), e));
                    proof {
                        ok = ok.push(false);
                        assert(ok.take(i as int) =~= old_ok);
                        lemma_compiled_prefix(fp, ft, ord@, ok, i as int);
                        lemma_failed_prefix(ok, i as int);
                        assert(matcher_views(compiled@) =~= before);
                        assert(compiled_views(fp, ft, ord@, ok, i as int + 1) == compiled_views(fp, ft, ord@, ok, i as int));
                        assert forall|q: int| 0 <= q < i + 1 && rule_lines(ft[ord@[q] as int]).len() == 0 implies ok[q] by {
                            if q < i { assert(ok[q] == old_ok[q]); }
                        }
                    }
                },
            }
            i += 1;
        }
        assert(ord@.take(ord.len() as int) =~= ord@);
        let ghost input = matcher_views(compiled@);
        let mut rest = compiled;
        let mut out: Vec<(String, ignore::gitignore::Gitignore)> = Vec::new();
        let ghost mut taken: int = 0;
        while rest.len() > 0
            invariant
                0 <= taken <= input.len(),
                matcher_views(rest@) == input.skip(taken),
                matcher_views(out@) == deepest_first(input.take(taken)),
                forall|q: int| 0 <= q < rest@.len() ==> #[trigger] gitignore_globs(rest@[q].1).len() > 0
                    ==> gitignore_root(rest@[q].1) == rest@[q].0@,
                forall|q: int| 0 <= q < out@.len() ==> #[trigger] gitignore_globs(out@[q].1).len() > 0
                    ==> gitignore_root(out@[q].1) == out@[q].0@,
            decreases rest.len(),
        {
            let ghost before = matcher_views(out@);
            let ghost old_rest = rest@;
            let ghost old_out = out@;
            assert(matcher_views(old_rest).len() == old_rest.len());
            assert(matcher_views(old_rest)[0] == matcher_view(old_rest[0]));
            let m = rest.remove(0);
            assert(m == old_rest[0]);
            assert(matcher_view(m) == input[taken]);
            assert(matcher_views(rest@) =~= input.skip(taken + 1)) by {
                assert(rest@ =~= old_rest.drop_first());
                assert forall|q: int| 0 <= q < rest@.len() implies #[trigger] matcher_views(rest@)[q] == input.skip(taken + 1)[q] by {
                    assert(matcher_views(old_rest)[q + 1] == matcher_view(old_rest[q + 1]));
                }
            }
            assert forall|q: int| 0 <= q < rest@.len() implies (#[trigger] gitignore_globs(rest@[q].1).len() > 0
                ==> gitignore_root(rest@[q].1) == rest@[q].0@) by {
                assert(rest@[q] == old_rest[q + 1]);
            }
            let k = dir_depth(m.0.as_str());
            let mut p: usize = 0;
            while p < out.len() && dir_depth(out[p].0.as_str()) >= k
                invariant
                    0 <= p <= out@.len(),
                    before == matcher_views(out@),
                    first_shallower(before, k as nat, 0) == first_shallower(before, k as nat, p as int),
                decreases out@.len() - p,
            {
                assert(before[p as int].0 == out@[p as int].0@);
                p += 1;
            }
            proof {
                if p < out@.len() {
                    assert(before[p as int].0 == out@[p as int].0@);
                }
                assert(input.take(taken + 1).drop_last() =~= input.take(taken));
                assert(input.take(taken + 1).last() == matcher_view(m));
            }
            out.insert(p, m);
            proof {
                assert(matcher_views(out@) =~= before.insert(p as int, matcher_view(m)));
                assert(out@ =~= old_out.insert(p as int, m));
                assert forall|q: int| 0 <= q < out@.len() implies (#[trigger] gitignore_globs(out@[q].1).len() > 0
                    ==> gitignore_root(out@[q].1) == out@[q].0@) by {
                    if q < p {
                        assert(out@[q] == old_out[q]);
                    } else if q > p {
                        assert(out@[q] == old_out[q - 1]);
                    }
                }
                taken = taken + 1;
            }
        }
        assert(input.take(taken) =~= input);
        let set = IgnoreSet { matchers: out, files: listed, enabled: true };
        (set, failed)
    }

    /// Whether `path` (relative to the bundle root) is excluded: the first
    /// decisive verdict of the matchers governing it, deepest first; never
    /// when ignore processing is disabled.
    pub fn is_ignored(&self, path: &str) -> (r: bool)
        ensures
            r == (self.enabled_view() && decide(self.matchers_view(), path@)),
    {
        proof {
            use_type_invariant(self);
        }
        if !self.enabled {
            return false;
        }
        let ghost ms = self.matchers_view();
        let mut i: usize = 0;
        assert(ms.skip(0) =~= ms);
        while i < self.matchers.len()
            invariant
                ms == self.matchers_view(),
                self.rooted(),
                self.enabled,
                0 <= i <= self.matchers@.len(),
                decide(ms, path@) == decide(ms.skip(i as int), path@),
            decreases self.matchers@.len() - i,
        {
            let (dir, gi) = (&self.matchers[i].0, &self.matchers[i].1);
            assert(ms.skip(i as int)[0] == matcher_view(self.matchers@[i as int]));
            assert(ms.skip(i as int).drop_first() =~= ms.skip(i + 1));
            if governs(dir.as_str(), path) {
                assert(gitignore_globs(self.matchers@[i as int].1).len() > 0 ==> gitignore_root(self.matchers@[i as int].1) == dir@);
                match matched_any(gi, path, false) {
                    Verdict::Ignore => return true,
                    Verdict::Whitelist => return false,
                    Verdict::NoMatch => {},
                }
            }
            i += 1;
        }
        false
    }

    /// The rule files found, in path order.
    pub fn files(&self) -> (r: &Vec<String>)
        ensures
            string_views(r@) == self.files_view(),
    {
        &self.files
    }

    /// `true` if ignore processing is on and at least one rule file was
    /// compiled.
    pub fn is_active(&self) -> (r: bool)
        ensures
            r == (self.enabled_view() && self.matchers_view().len() > 0),
    {
        self.enabled && self.matchers.len() > 0
    }

    /// `true` unless `--no-ignore` disabled processing.
    pub fn is_enabled(&self) -> (r: bool)
        ensures
            r == self.enabled_view(),
    {
        self.enabled
    }
}

proof fn lemma_compiled_prefix(fp: Seq<Seq<char>>, ft: Seq<Seq<char>>, ord: Seq<usize>, ok: Seq<bool>, i: int)
    requires
        0 <= i < ok.len(),
    ensures
        compiled_views(fp, ft, ord, ok, i) == compiled_views(fp, ft, ord, ok.take(i), i),
    decreases i,
{
    if i > 0 {
        lemma_compiled_prefix(fp, ft, ord, ok, i - 1);
        lemma_compiled_prefix(fp, ft, ord, ok.take(i), i - 1);
        assert(ok.take(i).take(i - 1) =~= ok.take(i - 1));
    }
}

proof fn lemma_failed_prefix(ok: Seq<bool>, i: int)
    requires
        0 <= i < ok.len(),
    ensures
        failed_count(ok, i) == failed_count(ok.take(i), i),
    decreases i,
{
    if i > 0 {
        lemma_failed_prefix(ok, i - 1);
        lemma_failed_prefix(ok.take(i), i - 1);
        assert(ok.take(i).take(i - 1) =~= ok.take(i - 1));
    }
}

/// Whether the matcher for directory `root` governs `path`.
fn governs(root: &str, path: &str) -> (r: bool)
    ensures
        r == governed(root@, path@),
{
    let d = str_to_chars(root);
    let p = str_to_chars(path);
    if p.len() >= 2 && p[0] == '.' && p[1] == '/' {
        return false;
    }
    if d.len() == 1 && d[0] == '.' {
        assert(d@ =~= seq!['.']);
        return false;
    }
    assert(d@ != seq!['.']);
    if d.len() == 0 {
        return p.len() == 0 || p[0] != '/';
    }
    if p.len() <= d.len() || p.len() - d.len() < 2 {
        return false;
    }
    let head = crate::text::slice_chars(&p, 0, d.len());
    if !crate::text::str_eq(chars_to_string(&head).as_str(), root) {
        return false;
    }
    p[d.len()] == '/' && p[d.len() + 1] != '/'
}

/// The ids of the concepts whose paths `set` excludes, in bundle order.
pub open spec fn hidden_spec(set: IgnoreSet, cs: Seq<Concept>) -> Seq<Seq<Seq<char>>>
    decreases cs.len(),
{
    if cs.len() == 0 {
        seq![]
    } else {
        hidden_spec(set, cs.drop_last()) + if set.enabled_view() && decide(set.matchers_view(), cs.last().path@) {
            seq![cs.last().id@]
        } else {
            seq![]
        }
    }
}

/// The ids of the concepts `set` excludes, in bundle order.
pub fn hidden_concepts(set: &IgnoreSet, cs: &Vec<Concept>) -> (r: Vec<ConceptId>)
    ensures
        id_views(r@) == hidden_spec(*set, cs@),
{
    let mut out: Vec<ConceptId> = Vec::new();
    let mut i: usize = 0;
    assert(cs@.take(0) =~= Seq::<Concept>::empty());
    while i < cs.len()
        invariant
            0 <= i <= cs.len(),
            id_views(out@) == hidden_spec(*set, cs@.take(i as int)),
        decreases cs.len() - i,
    {
        assert(cs@.take(i + 1).drop_last() =~= cs@.take(i as int));
        assert(cs@.take(i + 1).last() == cs@[i as int]);
        if set.is_ignored(cs[i].path.as_str()) {
            out.push(cs[i].id.duplicate());
            assert(id_views(out@) =~= hidden_spec(*set, cs@.take(i as int)).push(cs@[i as int].id@));
        }
        i += 1;
    }
    assert(cs@.take(cs.len() as int) =~= cs@);
    out
}

} // verus!
