//! `okq skills`: the agent skills the binary carries, and what installing
//! them reports. Writing the files, linking them and fetching from the
//! repository is the shell's part; naming, describing and choosing them is
//! here.

use vstd::prelude::*;
use crate::error::AppError;
use crate::text::{
    chars_to_string, first_index_of, first_pos, lines, lines_spec, owned, slice_chars, starts_with, starts_with_spec,
    str_to_chars, string_views, trim_chars, trim_spec, views, chars_lt, lemma_chars_lt_asym, lemma_chars_lt_total,
    lemma_chars_lt_trans, str_eq, str_less,
};

verus! {

/// One skill the binary carries.
pub struct EmbeddedSkill {
    /// Skill (directory) name, e.g. `okq-explore`.
    pub name: String,
    /// One-line `description` from the SKILL.md frontmatter.
    pub description: String,
}

/// What happened to one skill during install.
pub struct InstalledSkill {
    /// Skill name.
    pub name: String,
    /// `created` or `updated` (the canonical copy).
    pub verb: String,
    /// Whether a symlink was made.
    pub linked: bool,
    /// A note when linking was skipped, else empty.
    pub note: String,
}

/// The outcome of an install.
pub struct InstallReport {
    /// `project` or `global`.
    pub scope: String,
    /// `embedded` or `repo`.
    pub source: String,
    /// Canonical skills directory written to.
    pub base_dir: String,
    /// Directory the skills are linked into.
    pub link_dir: String,
    /// Per-skill results.
    pub skills: Vec<InstalledSkill>,
}

pub open spec fn description_key() -> Seq<char> {
    "description:"@
}

pub open spec fn fence() -> Seq<char> {
    "---"@
}

/// Scanning lines from `k`: the first `description:` value, trimmed; the
/// scan stops at a `---` line unless the document opens with `---`.
pub open spec fn description_from(ls: Seq<Seq<char>>, k: int, opens_fenced: bool) -> Seq<char>
    decreases ls.len() - k,
{
    if k < 0 || k >= ls.len() {
        seq![]
    } else if starts_with_spec(ls[k], description_key()) {
        trim_spec(ls[k].skip(description_key().len() as int))
    } else if trim_spec(ls[k]) == fence() && !opens_fenced {
        seq![]
    } else {
        description_from(ls, k + 1, opens_fenced)
    }
}

pub open spec fn description_spec(content: Seq<char>) -> Seq<char> {
    description_from(lines_spec(content), 0, starts_with_spec(content, fence()))
}

/// Pulls the one-line `description:` out of SKILL.md frontmatter (best
/// effort; empty when there is none).
pub fn parse_description(content: &str) -> (r: String)
    ensures
        r@ == description_spec(content@),
{
    proof {
        reveal_strlit("description:");
        reveal_strlit("---");
    }
    let cv = str_to_chars(content);
    let key = str_to_chars("description:");
    let f = str_to_chars("---");
    let fenced = starts_with(&cv, &f);
    let ls = lines(&cv);
    let ghost lv = views(ls@);
    let mut k: usize = 0;
    while k < ls.len()
        invariant
            lv == views(ls@),
            lv == lines_spec(content@),
            key@ == description_key(),
            f@ == fence(),
            fenced == starts_with_spec(content@, fence()),
            0 <= k <= ls.len(),
            description_from(lv, 0, fenced) == description_from(lv, k as int, fenced),
        decreases ls.len() - k,
    {
        let line = &ls[k];
        assert(lv[k as int] == line@);
        if starts_with(line, &key) {
            let rest = slice_chars(line, key.len(), line.len());
            assert(rest@ =~= line@.skip(key@.len() as int));
            let t = trim_chars(&rest);
            return chars_to_string(&t);
        }
        let t = trim_chars(line);
        if t.len() == f.len() && starts_with(&t, &f) && !fenced {
            assert(t@ =~= f@);
            proof {
                reveal_strlit("");
            }
            return chars_to_string(&Vec::new());
        }
        proof {
            if trim_spec(line@) == fence() {
                assert(t@.len() == f@.len());
                assert(t@.take(f@.len() as int) =~= t@);
            }
        }
        k += 1;
    }
    chars_to_string(&Vec::new())
}

pub open spec fn skills_prefix() -> Seq<char> {
    "skills/"@
}

pub open spec fn skill_file() -> Seq<char> {
    "SKILL.md"@
}

/// `<name>` of a `skills/<name>/SKILL.md` tree path.
pub open spec fn skill_name_spec(path: Seq<char>) -> Option<Seq<char>> {
    if !starts_with_spec(path, skills_prefix()) {
        None
    } else {
        let rest = path.skip(skills_prefix().len() as int);
        let k = first_pos(rest, '/');
        if k >= rest.len() {
            None
        } else if rest.skip(k + 1) == skill_file() && k > 0 {
            Some(rest.take(k))
        } else {
            None
        }
    }
}

/// Extracts `<name>` from a `skills/<name>/SKILL.md` tree path.
pub fn skill_name_from_path(path: &str) -> (r: Option<String>)
    ensures
        match r {
            Some(n) => skill_name_spec(path@) == Some(n@),
            None => skill_name_spec(path@) is None,
        },
{
    proof {
        reveal_strlit("skills/");
        reveal_strlit("SKILL.md");
    }
    let v = str_to_chars(path);
    let pre = str_to_chars("skills/");
    if !starts_with(&v, &pre) {
        return None;
    }
    let rest = slice_chars(&v, pre.len(), v.len());
    assert(rest@ =~= path@.skip(skills_prefix().len() as int));
    let k = first_index_of(&rest, '/');
    if k >= rest.len() {
        return None;
    }
    let file = slice_chars(&rest, k + 1, rest.len());
    assert(file@ =~= rest@.skip(k + 1));
    let name = slice_chars(&rest, 0, k);
    assert(name@ =~= rest@.take(k as int));
    let sk = str_to_chars("SKILL.md");
    if file.len() == sk.len() && starts_with(&file, &sk) && k > 0 {
        assert(file@ =~= sk@);
        Some(chars_to_string(&name))
    } else {
        proof {
            if file@ == skill_file() {
                assert(file@.take(sk@.len() as int) =~= file@);
            }
        }
        None
    }
}

/// The embedded skills, with their descriptions parsed from frontmatter.
pub fn list(embedded: &Vec<(String, String)>) -> (r: Vec<EmbeddedSkill>)
    ensures
        r@.len() == embedded@.len(),
        forall|i: int| 0 <= i < r@.len() ==> (#[trigger] r@[i]).name@ == embedded@[i].0@
            && r@[i].description@ == description_spec(embedded@[i].1@),
{
    let mut r: Vec<EmbeddedSkill> = Vec::new();
    let mut i: usize = 0;
    while i < embedded.len()
        invariant
            0 <= i <= embedded.len(),
            r@.len() == i,
            forall|k: int| 0 <= k < i ==> (#[trigger] r@[k]).name@ == embedded@[k].0@
                && r@[k].description@ == description_spec(embedded@[k].1@),
        decreases embedded.len() - i,
    {
        let (n, c) = (&embedded[i].0, &embedded[i].1);
        r.push(EmbeddedSkill { name: owned(n.as_str()), description: parse_description(c.as_str()) });
        i += 1;
    }
    r
}

/// The skill names a repository tree lists: each `skills/<name>/SKILL.md`
/// path's name, sorted, each once; an I/O error when there are none.
pub fn repo_skill_names(paths: &Vec<String>) -> (r: Result<Vec<String>, AppError>)
    ensures
        match r {
            Ok(names) => {
                &&& names@.len() > 0
                &&& forall|i: int, j: int| 0 <= i < j < names@.len() ==> chars_lt((#[trigger] names@[i])@, (#[trigger] names@[j])@)
                &&& forall|x: Seq<char>| string_views(names@).contains(x) <==> exists|k: int| 0 <= k < paths@.len()
                    && #[trigger] skill_name_spec(paths@[k]@) == Some(x)
            },
            Err(e) => (forall|k: int| 0 <= k < paths@.len() ==> #[trigger] skill_name_spec(paths@[k]@) is None)
                && (e matches AppError::Io(m) && m@ == "no skills found under skills/ in mikevalstar/okq@main"@),
        },
{
    let mut names: Vec<String> = Vec::new();
    let mut k: usize = 0;
    while k < paths.len()
        invariant
            0 <= k <= paths.len(),
            forall|i: int, j: int| 0 <= i < j < names@.len() ==> chars_lt((#[trigger] names@[i])@, (#[trigger] names@[j])@),
            forall|x: Seq<char>| string_views(names@).contains(x) <==> exists|q: int| 0 <= q < k
                && #[trigger] skill_name_spec(paths@[q]@) == Some(x),
        decreases paths.len() - k,
    {
        match skill_name_from_path(paths[k].as_str()) {
            Some(n) => {
                let mut p: usize = 0;
                while p < names.len() && str_less(names[p].as_str(), n.as_str())
                    invariant
                        0 <= p <= names@.len(),
                        forall|q: int| 0 <= q < p ==> chars_lt((#[trigger] names@[q])@, n@),
                    decreases names@.len() - p,
                {
                    p += 1;
                }
                let ghost old_names = names@;
                if p < names.len() && str_eq(names[p].as_str(), n.as_str()) {
                    proof {
                        assert forall|x: Seq<char>| string_views(names@).contains(x) <==> exists|q: int| 0 <= q < k + 1
                            && #[trigger] skill_name_spec(paths@[q]@) == Some(x) by {
                            if x == n@ {
                                assert(string_views(names@)[p as int] == x);
                            }
                            if exists|q: int| 0 <= q < k + 1 && #[trigger] skill_name_spec(paths@[q]@) == Some(x) {
                                let q = choose|q: int| 0 <= q < k + 1 && #[trigger] skill_name_spec(paths@[q]@) == Some(x);
                                if q == k {
                                    assert(string_views(names@)[p as int] == x);
                                }
                            }
                        }
                    }
                } else {
                    proof {
                        if p < names@.len() {
                            lemma_chars_lt_total(names@[p as int]@, n@);
                        }
                    }
                    names.insert(p, n);
                    proof {
                        assert forall|i: int, j: int| 0 <= i < j < names@.len() implies chars_lt((#[trigger] names@[i])@, (#[trigger] names@[j])@) by {
                            if j < p {
                                assert(names@[i] == old_names[i] && names@[j] == old_names[j]);
                            } else if j == p {
                                assert(names@[i] == old_names[i]);
                            } else if i < p {
                                assert(names@[i] == old_names[i] && names@[j] == old_names[j - 1]);
                                if j - 1 > p {
                                    lemma_chars_lt_trans(names@[p as int]@, old_names[p as int]@, old_names[j - 1]@);
                                }
                                lemma_chars_lt_trans(old_names[i]@, names@[p as int]@, old_names[j - 1]@);
                            } else if i == p {
                                assert(names@[j] == old_names[j - 1]);
                                if j - 1 > p {
                                    lemma_chars_lt_trans(names@[p as int]@, old_names[p as int]@, old_names[j - 1]@);
                                }
                            } else {
                                assert(names@[i] == old_names[i - 1] && names@[j] == old_names[j - 1]);
                            }
                        }
                        assert forall|x: Seq<char>| string_views(names@).contains(x) <==> exists|q: int| 0 <= q < k + 1
                            && #[trigger] skill_name_spec(paths@[q]@) == Some(x) by {
                            if string_views(names@).contains(x) {
                                let i = choose|i: int| 0 <= i < names@.len() && string_views(names@)[i] == x;
                                if i < p {
                                    assert(names@[i] == old_names[i]);
                                    assert(string_views(old_names)[i] == x);
                                    assert(string_views(old_names).contains(x));
                                } else if i > p {
                                    assert(names@[i] == old_names[i - 1]);
                                    assert(string_views(old_names)[i - 1] == x);
                                    assert(string_views(old_names).contains(x));
                                } else {
                                    assert(names@[i]@ == n@);
                                    assert(skill_name_spec(paths@[k as int]@) == Some(x));
                                }
                            }
                            if exists|q: int| 0 <= q < k + 1 && #[trigger] skill_name_spec(paths@[q]@) == Some(x) {
                                let q = choose|q: int| 0 <= q < k + 1 && #[trigger] skill_name_spec(paths@[q]@) == Some(x);
                                if q == k {
                                    assert(string_views(names@)[p as int] == x);
                                } else {
                                    assert(string_views(old_names).contains(x));
                                    let i = choose|i: int| 0 <= i < old_names.len() && string_views(old_names)[i] == x;
                                    if i < p {
                                        assert(names@[i] == old_names[i]);
                                        assert(string_views(names@)[i] == x);
                                    } else {
                                        assert(names@[i + 1] == old_names[i]);
                                        assert(string_views(names@)[i + 1] == x);
                                    }
                                }
                            }
                        }
                    }
                }
            },
            None => {
                proof {
                    assert forall|x: Seq<char>| string_views(names@).contains(x) <==> exists|q: int| 0 <= q < k + 1
                        && #[trigger] skill_name_spec(paths@[q]@) == Some(x) by {
                        if exists|q: int| 0 <= q < k + 1 && #[trigger] skill_name_spec(paths@[q]@) == Some(x) {
                            let q = choose|q: int| 0 <= q < k + 1 && #[trigger] skill_name_spec(paths@[q]@) == Some(x);
                            assert(q != k);
                        }
                    }
                }
            },
        }
        k += 1;
    }
    if names.len() == 0 {
        proof {
            assert forall|q: int| 0 <= q < paths@.len() implies #[trigger] skill_name_spec(paths@[q]@) is None by {
                if skill_name_spec(paths@[q]@) is Some {
                    let x = skill_name_spec(paths@[q]@)->0;
                    assert(string_views(names@).contains(x));
                }
            }
        }
        return Err(AppError::Io(owned("no skills found under skills/ in mikevalstar/okq@main")));
    }
    Ok(names)
}

} // verus!
