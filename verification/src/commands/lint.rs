//! `okq lint`: opinionated bundle hygiene beside conformance. The findings
//! come from okf's linter; this lifts the `[Lnn]` code out of each message,
//! filters by severity and rule, orders the findings deterministically and
//! renders them. Lint never reports an error severity.

use vstd::prelude::*;
use crate::cli::{LintArgs, SeverityArg};
use crate::error::AppError;
use crate::fmt::{digits, pad_left, pad_left_spec, pad_right, pad_right_spec, push_str};
use crate::style::{dimmed_style, esc, plain_style, reset_code, yellow_style};
use crate::text::{
    all_digits, chars_lt, chars_to_string, debug_quoted, debug_str, first_pos, lemma_chars_lt_asym,
    lemma_chars_lt_irrefl, lemma_chars_lt_total, lemma_chars_lt_trans, lemma_first_pos_bounds, owned, parse_u32,
    parse_u32_spec, slice_chars, str_eq, str_to_chars, str_uppercase, string_views, trim_chars, trim_spec,
    trim_start_chars, trim_start_spec, unicode_upper_str,
};
use crate::trust::opt_view;

verus! {

/// One lint finding.
pub struct Finding {
    /// `warning` or `info`.
    pub severity: String,
    /// The okf rule code (`L1`–`L16`), if the message carried one.
    pub rule: Option<String>,
    /// Bundle-relative path the finding relates to, if any.
    pub path: Option<String>,
    /// The description, with the `[Lnn] ` prefix removed.
    pub message: String,
}

/// The `okq.lint/v1` envelope.
pub struct LintOutput {
    /// Findings that survived every filter.
    pub findings: usize,
    /// Warning-severity findings among them.
    pub warnings: usize,
    /// Info-severity findings among them.
    pub infos: usize,
    /// The findings, ordered by severity (descending), rule, path, message.
    pub diagnostics: Vec<Finding>,
}

/// A diagnostic as the linter reports it: severity, relative path, message.
pub struct RawDiagnostic {
    /// `error`, `warning` or `info`.
    pub severity: String,
    /// Bundle-relative path, if any.
    pub path: Option<String>,
    /// The message, possibly starting with `[Lnn] `.
    pub message: String,
}

// ---------------------------------------------------------------------------
// Rule codes.

/// `L1` … `L16`, the codes okf emits.
pub open spec fn known_rule(code: Seq<char>) -> bool {
    exists|n: nat| 1 <= n <= 16 && code == seq!['L'] + #[trigger] digits(n)
}

/// `[Lnn]` shape: `L` then at least one ASCII digit, nothing else.
pub open spec fn rule_shape(code: Seq<char>) -> bool {
    code.len() >= 2 && code[0] == 'L' && all_digits(code.drop_first())
}

/// The code and the message proper of `[Lnn] message`; a message without
/// such a prefix is left whole, with no code.
pub open spec fn split_rule_spec(m: Seq<char>) -> (Option<Seq<char>>, Seq<char>) {
    if m.len() > 0 && m[0] == '[' {
        let rest = m.drop_first();
        let k = first_pos(rest, ']');
        if k < rest.len() && rule_shape(rest.take(k)) {
            (Some(rest.take(k)), trim_start_spec(rest.skip(k + 1)))
        } else {
            (None, m)
        }
    } else {
        (None, m)
    }
}

/// Splits okf's `[Lnn] message` into its code and the message proper.
pub fn split_rule(message: &str) -> (r: (Option<String>, String))
    ensures
        opt_view(r.0) == split_rule_spec(message@).0,
        r.1@ == split_rule_spec(message@).1,
{
    let v = str_to_chars(message);
    if v.len() > 0 && v[0] == '[' {
        let rest = slice_chars(&v, 1, v.len());
        assert(rest@ =~= message@.drop_first());
        let k = crate::text::first_index_of(&rest, ']');
        proof {
            lemma_first_pos_bounds(rest@, ']');
        }
        if k < rest.len() {
            let code = slice_chars(&rest, 0, k);
            let mut shape = code.len() >= 2 && code[0] == 'L';
            if shape {
                let mut i: usize = 1;
                while i < code.len()
                    invariant
                        1 <= i <= code.len(),
                        shape == forall|j: int| 1 <= j < i ==> crate::text::is_ascii_digit(#[trigger] code@[j]),
                    decreases code.len() - i,
                {
                    let cu = code[i] as u32;
                    if !(48 <= cu && cu <= 57) {
                        shape = false;
                    }
                    i += 1;
                }
                assert(shape == all_digits(code@.drop_first())) by {
                    if shape {
                        assert forall|j: int| 0 <= j < code@.drop_first().len() implies crate::text::is_ascii_digit(#[trigger] code@.drop_first()[j]) by {
                            assert(code@.drop_first()[j] == code@[j + 1]);
                        }
                    } else {
                        let j = choose|j: int| 1 <= j < code@.len() && !crate::text::is_ascii_digit(#[trigger] code@[j]);
                        assert(code@.drop_first()[j - 1] == code@[j]);
                    }
                }
            }
            assert(code@ == rest@.take(k as int));
            if shape {
                let tail = slice_chars(&rest, k + 1, rest.len());
                let t = trim_start_chars(&tail);
                return (Some(chars_to_string(&code)), chars_to_string(&t));
            }
        }
    }
    (None, owned(message))
}

pub open spec fn rule_list() -> Seq<char> {
    "L1, L2, L3, L4, L5, L6, L7, L8, L9, L10, L11, L12, L13, L14, L15, L16"@
}

fn is_known_rule(code: &str) -> (r: bool)
    ensures
        r == known_rule(code@),
{
    let mut n: u64 = 1;
    while n <= 16
        invariant
            1 <= n <= 17,
            forall|m: nat| 1 <= m < n ==> code@ != seq!['L'] + #[trigger] digits(m),
        decreases 17 - n,
    {
        let mut c = owned("L");
        proof {
            reveal_strlit("L");
        }
        assert("L"@ =~= seq!['L']);
        let d = crate::fmt::decimal_string(n);
        push_str(&mut c, d.as_str());
        if str_eq(c.as_str(), code) {
            assert(code@ == seq!['L'] + digits(n as nat));
            return true;
        }
        n += 1;
    }
    false
}

/// A `--rule`/`--ignore` value normalized (trimmed, uppercased) when it
/// names a known rule; otherwise a usage error naming the known rules.
pub open spec fn unknown_rule_message(raw: Seq<char>) -> Seq<char> {
    "unknown lint rule "@ + debug_str(raw) + "; known: "@ + rule_list()
}

/// Normalizes a `--rule`/`--ignore` value and checks it names a real rule.
pub fn parse_rule(raw: &str) -> (r: Result<String, AppError>)
    ensures
        known_rule(unicode_upper_str(trim_spec(raw@))) ==> (r matches Ok(c) && c@ == unicode_upper_str(trim_spec(raw@))),
        !known_rule(unicode_upper_str(trim_spec(raw@))) ==> (r matches Err(AppError::Usage(m)) && m@ == unknown_rule_message(raw@)),
{
    let t = trim_chars(&str_to_chars(raw));
    let code = str_uppercase(chars_to_string(&t).as_str());
    if is_known_rule(code.as_str()) {
        Ok(code)
    } else {
        let mut m = owned("unknown lint rule ");
        let q = debug_quoted(raw);
        push_str(&mut m, q.as_str());
        push_str(&mut m, "; known: ");
        push_str(&mut m, "L1, L2, L3, L4, L5, L6, L7, L8, L9, L10, L11, L12, L13, L14, L15, L16");
        Err(AppError::Usage(m))
    }
}

pub open spec fn error_word() -> Seq<char> {
    seq!['e', 'r', 'r', 'o', 'r']
}

pub open spec fn warning_word() -> Seq<char> {
    seq!['w', 'a', 'r', 'n', 'i', 'n', 'g']
}

pub open spec fn info_word() -> Seq<char> {
    seq!['i', 'n', 'f', 'o']
}

/// Severity rank: error 2, warning 1, anything else 0.
pub open spec fn rank_spec(s: Seq<char>) -> u8 {
    if s == error_word() { 2 } else if s == warning_word() { 1 } else { 0 }
}

/// Rank of a stringified severity, for the floor and the ordering.
pub fn rank_str(severity: &str) -> (r: u8)
    ensures
        r == rank_spec(severity@),
{
    proof {
        reveal_strlit("error");
        reveal_strlit("warning");
    }
    assert("error"@ =~= error_word());
    assert("warning"@ =~= warning_word());
    if str_eq(severity, "error") {
        2
    } else if str_eq(severity, "warning") {
        1
    } else {
        0
    }
}

/// Orders `L2` before `L10`; findings with no parseable code sort last.
pub open spec fn rule_key_spec(rule: Option<Seq<char>>) -> (u8, u32) {
    match rule {
        Some(r) => if r.len() > 0 && r[0] == 'L' && parse_u32_spec(r.drop_first()) is Some {
            (0u8, parse_u32_spec(r.drop_first())->0)
        } else {
            (1u8, 0u32)
        },
        None => (1u8, 0u32),
    }
}

/// The numeric sort key of a rule code.
pub fn rule_key(rule: Option<&str>) -> (r: (u8, u32))
    ensures
        r == rule_key_spec(match rule { Some(s) => Some(s@), None => None }),
{
    match rule {
        Some(s) => {
            let v = str_to_chars(s);
            if v.len() > 0 && v[0] == 'L' {
                let rest = slice_chars(&v, 1, v.len());
                assert(rest@ =~= s@.drop_first());
                match parse_u32(&rest) {
                    Some(n) => (0, n),
                    None => (1, 0),
                }
            } else {
                (1, 0)
            }
        },
        None => (1, 0),
    }
}

/// The severity floor a `--severity` value sets.
pub open spec fn floor_spec(s: SeverityArg) -> u8 {
    match s {
        SeverityArg::Error => 2,
        SeverityArg::Warning => 1,
        SeverityArg::Info => 0,
    }
}

/// `--severity` keeps exactly the severities at or above the one it names:
/// `error` keeps errors only, `warning` keeps warnings and errors, `info`
/// keeps everything.
pub proof fn lemma_floor_keeps(w: Seq<char>)
    ensures
        rank_spec(w) >= floor_spec(SeverityArg::Error) <==> w == error_word(),
        rank_spec(w) >= floor_spec(SeverityArg::Warning) <==> (w == error_word() || w == warning_word()),
        rank_spec(w) >= floor_spec(SeverityArg::Info),
        floor_spec(SeverityArg::Error) == rank_spec(error_word()),
        floor_spec(SeverityArg::Warning) == rank_spec(warning_word()),
        floor_spec(SeverityArg::Info) == rank_spec(info_word()),
{
    assert(error_word() != warning_word()) by {
        assert(error_word().len() != warning_word().len());
    }
    assert(info_word() != warning_word() && info_word() != error_word()) by {
        assert(info_word().len() != warning_word().len());
        assert(info_word().len() != error_word().len());
    }
}

pub fn floor(s: SeverityArg) -> (r: u8)
    ensures
        r == floor_spec(s),
{
    match s {
        SeverityArg::Error => 2,
        SeverityArg::Warning => 1,
        SeverityArg::Info => 0,
    }
}

// ---------------------------------------------------------------------------
// Filters from the arguments.

pub open spec fn exclusive_message() -> Seq<char> {
    "--rule and --ignore are mutually exclusive; pass one or the other"@
}

/// The normalized `--rule` list then `--ignore` list, or the first error:
/// both given together, or the first unknown rule (`--rule` values first).
pub fn parse_filters(args: &LintArgs) -> (r: Result<(Vec<String>, Vec<String>), AppError>)
    ensures
        args.rule@.len() > 0 && args.ignore@.len() > 0 ==> (r matches Err(AppError::Usage(m)) && m@ == exclusive_message()),
        r matches Ok((only, ignore)) ==> {
            &&& only@.len() == args.rule@.len()
            &&& ignore@.len() == args.ignore@.len()
            &&& forall|i: int| 0 <= i < only@.len() ==> #[trigger] only@[i]@ == unicode_upper_str(trim_spec(args.rule@[i]@))
                && known_rule(only@[i]@)
            &&& forall|i: int| 0 <= i < ignore@.len() ==> #[trigger] ignore@[i]@ == unicode_upper_str(trim_spec(args.ignore@[i]@))
                && known_rule(ignore@[i]@)
        },
        (forall|i: int| 0 <= i < args.rule@.len() ==> known_rule(unicode_upper_str(trim_spec(#[trigger] args.rule@[i]@))))
            && (forall|i: int| 0 <= i < args.ignore@.len() ==> known_rule(unicode_upper_str(trim_spec(#[trigger] args.ignore@[i]@))))
            && !(args.rule@.len() > 0 && args.ignore@.len() > 0) ==> r is Ok,
        r matches Err(AppError::Usage(m)) ==> (m@ == exclusive_message()
            || (exists|i: int| 0 <= i < args.rule@.len() && m@ == unknown_rule_message(#[trigger] args.rule@[i]@))
            || (exists|i: int| 0 <= i < args.ignore@.len() && m@ == unknown_rule_message(#[trigger] args.ignore@[i]@))),
        r is Err ==> r matches Err(AppError::Usage(_)),
{
    if args.rule.len() > 0 && args.ignore.len() > 0 {
        return Err(AppError::Usage(owned("--rule and --ignore are mutually exclusive; pass one or the other")));
    }
    let only = match parse_all(&args.rule) {
        Ok(v) => v,
        Err(e) => return Err(e),
    };
    let ignore = match parse_all(&args.ignore) {
        Ok(v) => v,
        Err(e) => return Err(e),
    };
    Ok((only, ignore))
}

fn parse_all(raws: &Vec<String>) -> (r: Result<Vec<String>, AppError>)
    ensures
        r matches Ok(v) ==> v@.len() == raws@.len() && forall|i: int| 0 <= i < v@.len() ==>
            #[trigger] v@[i]@ == unicode_upper_str(trim_spec(raws@[i]@)) && known_rule(v@[i]@),
        (forall|i: int| 0 <= i < raws@.len() ==> known_rule(unicode_upper_str(trim_spec(#[trigger] raws@[i]@)))) ==> r is Ok,
        r matches Err(e) ==> (e matches AppError::Usage(m) && exists|i: int| 0 <= i < raws@.len() && m@ == unknown_rule_message(#[trigger] raws@[i]@)),
{
    let mut out: Vec<String> = Vec::new();
    let mut i: usize = 0;
    while i < raws.len()
        invariant
            0 <= i <= raws.len(),
            out@.len() == i,
            forall|k: int| 0 <= k < i ==> #[trigger] out@[k]@ == unicode_upper_str(trim_spec(raws@[k]@)) && known_rule(out@[k]@),
        decreases raws.len() - i,
    {
        match parse_rule(raws[i].as_str()) {
            Ok(c) => out.push(c),
            Err(e) => return Err(e),
        }
        i += 1;
    }
    Ok(out)
}

// ---------------------------------------------------------------------------
// Findings: conversion, filtering, ordering.

pub open spec fn finding_view(f: Finding) -> (Seq<char>, Option<Seq<char>>, Option<Seq<char>>, Seq<char>) {
    (f.severity@, opt_view(f.rule), opt_view(f.path), f.message@)
}

pub open spec fn finding_views(v: Seq<Finding>) -> Seq<(Seq<char>, Option<Seq<char>>, Option<Seq<char>>, Seq<char>)> {
    v.map_values(|f: Finding| finding_view(f))
}

/// A raw diagnostic as a finding: the rule lifted out of the message.
pub open spec fn lift(d: RawDiagnostic) -> (Seq<char>, Option<Seq<char>>, Option<Seq<char>>, Seq<char>) {
    (d.severity@, split_rule_spec(d.message@).0, opt_view(d.path), split_rule_spec(d.message@).1)
}

/// Kept by the filters: at or above the floor, in the `--rule` list when
/// one is given, and not in the `--ignore` list.
pub open spec fn kept(f: (Seq<char>, Option<Seq<char>>, Option<Seq<char>>, Seq<char>), only: Seq<Seq<char>>, ignore: Seq<Seq<char>>, floor: u8) -> bool {
    &&& rank_spec(f.0) >= floor
    &&& (only.len() == 0 || (f.1 is Some && only.contains(f.1->0)))
    &&& !(f.1 is Some && ignore.contains(f.1->0))
}

/// The lifted, kept findings, in the linter's order.
pub open spec fn kept_findings(ds: Seq<RawDiagnostic>, only: Seq<Seq<char>>, ignore: Seq<Seq<char>>, floor: u8)
    -> Seq<(Seq<char>, Option<Seq<char>>, Option<Seq<char>>, Seq<char>)>
    decreases ds.len(),
{
    if ds.len() == 0 {
        seq![]
    } else {
        let prev = kept_findings(ds.drop_last(), only, ignore, floor);
        let f = lift(ds.last());
        if kept(f, only, ignore, floor) { prev.push(f) } else { prev }
    }
}

/// The ordering key: severity rank (descending), rule, path, message.
pub open spec fn fkey(f: (Seq<char>, Option<Seq<char>>, Option<Seq<char>>, Seq<char>)) -> (int, int, int, Option<Seq<char>>, Seq<char>) {
    (-(rank_spec(f.0) as int), rule_key_spec(f.1).0 as int, rule_key_spec(f.1).1 as int, f.2, f.3)
}

pub open spec fn opt_lt(a: Option<Seq<char>>, b: Option<Seq<char>>) -> bool {
    match (a, b) {
        (None, Some(_)) => true,
        (Some(x), Some(y)) => chars_lt(x, y),
        _ => false,
    }
}

pub open spec fn key_lt(a: (int, int, int, Option<Seq<char>>, Seq<char>), b: (int, int, int, Option<Seq<char>>, Seq<char>)) -> bool {
    a.0 < b.0 || (a.0 == b.0 && (a.1 < b.1 || (a.1 == b.1 && (a.2 < b.2 || (a.2 == b.2 && (opt_lt(a.3, b.3)
        || (a.3 == b.3 && chars_lt(a.4, b.4))))))))
}

proof fn lemma_opt_lt(a: Option<Seq<char>>, b: Option<Seq<char>>, c: Option<Seq<char>>)
    ensures
        !opt_lt(a, a),
        opt_lt(a, b) && opt_lt(b, c) ==> opt_lt(a, c),
        a == b || opt_lt(a, b) || opt_lt(b, a),
        opt_lt(a, b) ==> !opt_lt(b, a),
{
    match (a, b, c) {
        (Some(x), Some(y), Some(z)) => {
            lemma_chars_lt_irrefl(x);
            lemma_chars_lt_total(x, y);
            if chars_lt(x, y) && chars_lt(y, z) {
                lemma_chars_lt_trans(x, y, z);
            }
            if chars_lt(x, y) {
                lemma_chars_lt_asym(x, y);
            }
        },
        (Some(x), Some(y), None) => {
            lemma_chars_lt_irrefl(x);
            lemma_chars_lt_total(x, y);
            if chars_lt(x, y) {
                lemma_chars_lt_asym(x, y);
            }
        },
        (Some(x), None, _) => {
            lemma_chars_lt_irrefl(x);
        },
        _ => {},
    }
}

proof fn lemma_key_lt(a: (int, int, int, Option<Seq<char>>, Seq<char>), b: (int, int, int, Option<Seq<char>>, Seq<char>), c: (int, int, int, Option<Seq<char>>, Seq<char>))
    ensures
        !key_lt(a, a),
        key_lt(a, b) && key_lt(b, c) ==> key_lt(a, c),
        a == b || key_lt(a, b) || key_lt(b, a),
{
    lemma_opt_lt(a.3, b.3, c.3);
    lemma_opt_lt(a.3, a.3, a.3);
    lemma_chars_lt_irrefl(a.4);
    lemma_chars_lt_total(a.4, b.4);
    if chars_lt(a.4, b.4) && chars_lt(b.4, c.4) {
        lemma_chars_lt_trans(a.4, b.4, c.4);
    }
    if key_lt(a, b) && key_lt(b, c) {
        if a.0 == b.0 && b.0 == c.0 && a.1 == b.1 && b.1 == c.1 && a.2 == b.2 && b.2 == c.2 {
            if a.3 == b.3 && b.3 == c.3 {
            } else if a.3 == b.3 {
            } else if b.3 == c.3 {
            } else {
            }
        }
    }
}

pub open spec fn findings_sorted(s: Seq<(Seq<char>, Option<Seq<char>>, Option<Seq<char>>, Seq<char>)>) -> bool {
    forall|i: int, j: int| 0 <= i < j < s.len() ==> !key_lt(fkey(#[trigger] s[j]), fkey(#[trigger] s[i]))
}

/// The entries whose key is `k`, in order.
pub open spec fn with_key(s: Seq<(Seq<char>, Option<Seq<char>>, Option<Seq<char>>, Seq<char>)>, k: (int, int, int, Option<Seq<char>>, Seq<char>))
    -> Seq<(Seq<char>, Option<Seq<char>>, Option<Seq<char>>, Seq<char>)>
    decreases s.len(),
{
    if s.len() == 0 {
        seq![]
    } else if fkey(s.last()) == k {
        with_key(s.drop_last(), k).push(s.last())
    } else {
        with_key(s.drop_last(), k)
    }
}

proof fn lemma_with_key_insert(s: Seq<(Seq<char>, Option<Seq<char>>, Option<Seq<char>>, Seq<char>)>, p: int, x: (Seq<char>, Option<Seq<char>>, Option<Seq<char>>, Seq<char>), k: (int, int, int, Option<Seq<char>>, Seq<char>))
    requires
        0 <= p <= s.len(),
        forall|q: int| p <= q < s.len() ==> fkey(#[trigger] s[q]) != fkey(x),
    ensures
        with_key(s.insert(p, x), k) == if fkey(x) == k { with_key(s, k).push(x) } else { with_key(s, k) },
    decreases s.len(),
{
    if p == s.len() {
        assert(s.insert(p, x) =~= s.push(x));
        assert(s.push(x).drop_last() =~= s);
    } else {
        let t = s.drop_last();
        assert forall|q: int| p <= q < t.len() implies fkey(#[trigger] t[q]) != fkey(x) by {
            assert(t[q] == s[q]);
        }
        lemma_with_key_insert(t, p, x, k);
        assert(s.insert(p, x).drop_last() =~= t.insert(p, x));
        assert(s.insert(p, x).last() == s.last());
        assert(s.last() == s[s.len() - 1]);
    }
}

fn key_less(a: &Finding, b: &Finding) -> (r: bool)
    ensures
        r == key_lt(fkey(finding_view(*a)), fkey(finding_view(*b))),
{
    let ra = rank_str(a.severity.as_str());
    let rb = rank_str(b.severity.as_str());
    if ra != rb {
        return rb < ra;
    }
    let ao: Option<&str> = match &a.rule {
        Some(s) => Some(s.as_str()),
        None => None,
    };
    let bo: Option<&str> = match &b.rule {
        Some(s) => Some(s.as_str()),
        None => None,
    };
    assert((match ao { Some(s) => Some(s@), None => None }) == opt_view(a.rule));
    assert((match bo { Some(s) => Some(s@), None => None }) == opt_view(b.rule));
    let ka = rule_key(ao);
    let kb = rule_key(bo);
    if ka.0 != kb.0 {
        return ka.0 < kb.0;
    }
    if ka.1 != kb.1 {
        return ka.1 < kb.1;
    }
    let same_path = match (&a.path, &b.path) {
        (None, None) => true,
        (Some(x), Some(y)) => str_eq(x.as_str(), y.as_str()),
        _ => false,
    };
    if !same_path {
        return match (&a.path, &b.path) {
            (None, Some(_)) => true,
            (Some(x), Some(y)) => crate::text::str_less(x.as_str(), y.as_str()),
            _ => false,
        };
    }
    proof {
        lemma_opt_lt(opt_view(a.path), opt_view(a.path), opt_view(a.path));
    }
    assert(opt_view(a.path) == opt_view(b.path));
    crate::text::str_less(a.message.as_str(), b.message.as_str())
}

/// How many findings have severity `w`.
pub open spec fn sev_count(fs: Seq<(Seq<char>, Option<Seq<char>>, Option<Seq<char>>, Seq<char>)>, w: Seq<char>) -> nat
    decreases fs.len(),
{
    if fs.len() == 0 {
        0
    } else {
        sev_count(fs.drop_last(), w) + if fs.last().0 == w { 1nat } else { 0nat }
    }
}

/// Every diagnostic is a warning or an info, as the linter reports them.
pub open spec fn lint_severities(ds: Seq<RawDiagnostic>) -> bool {
    forall|j: int| 0 <= j < ds.len() ==> #[trigger] ds[j].severity@ == warning_word() || ds[j].severity@ == info_word()
}

/// In a list of warnings and infos, the two counts add up to the length.
pub proof fn lemma_counts_cover(fs: Seq<(Seq<char>, Option<Seq<char>>, Option<Seq<char>>, Seq<char>)>)
    requires
        forall|q: int| 0 <= q < fs.len() ==> #[trigger] fs[q].0 == warning_word() || fs[q].0 == info_word(),
    ensures
        fs.len() == sev_count(fs, warning_word()) + sev_count(fs, info_word()),
    decreases fs.len(),
{
    if fs.len() > 0 {
        let rest = fs.drop_last();
        assert forall|q: int| 0 <= q < rest.len() implies #[trigger] rest[q].0 == warning_word() || rest[q].0 == info_word() by {
            assert(rest[q] == fs[q]);
        }
        lemma_counts_cover(rest);
        assert(fs[fs.len() - 1] == fs.last());
        assert(warning_word() != info_word()) by {
            assert(warning_word().len() != info_word().len());
        }
    }
}

/// Applies the filters and the deterministic ordering to the linter's
/// diagnostics (already restricted to the files okq sees).
pub fn findings(ds: &Vec<RawDiagnostic>, only: &Vec<String>, ignore: &Vec<String>, floor: u8) -> (r: LintOutput)
    ensures
        findings_sorted(finding_views(r.diagnostics@)),
        forall|k: (int, int, int, Option<Seq<char>>, Seq<char>)| #[trigger] with_key(finding_views(r.diagnostics@), k)
            == with_key(kept_findings(ds@, string_views(only@), string_views(ignore@), floor), k),
        r.findings == r.diagnostics@.len(),
        r.warnings == sev_count(finding_views(r.diagnostics@), warning_word()),
        r.infos == sev_count(finding_views(r.diagnostics@), info_word()),
        lint_severities(ds@) ==> r.findings == r.warnings + r.infos,
        lint_severities(ds@) ==> forall|q: int| 0 <= q < r.diagnostics@.len()
            ==> #[trigger] r.diagnostics@[q].severity@ == warning_word() || r.diagnostics@[q].severity@ == info_word(),
{
    let ghost ov = string_views(only@);
    let ghost iv = string_views(ignore@);
    let mut out: Vec<Finding> = Vec::new();
    let mut i: usize = 0;
    assert(ds@.take(0) =~= Seq::<RawDiagnostic>::empty());
    while i < ds.len()
        invariant
            ov == string_views(only@),
            iv == string_views(ignore@),
            0 <= i <= ds.len(),
            findings_sorted(finding_views(out@)),
            forall|k: (int, int, int, Option<Seq<char>>, Seq<char>)| #[trigger] with_key(finding_views(out@), k)
                == with_key(kept_findings(ds@.take(i as int), ov, iv, floor), k),
            lint_severities(ds@) ==> forall|q: int| 0 <= q < out@.len()
                ==> #[trigger] out@[q].severity@ == warning_word() || out@[q].severity@ == info_word(),
        decreases ds.len() - i,
    {
        let d = &ds[i];
        assert(ds@.take(i + 1).drop_last() =~= ds@.take(i as int));
        assert(ds@.take(i + 1).last() == ds@[i as int]);
        let (rule, message) = split_rule(d.message.as_str());
        let path = match &d.path {
            Some(p) => Some(p.clone()),
            None => None,
        };
        let f = Finding { severity: d.severity.clone(), rule, path, message };
        assert(finding_view(f) == lift(ds@[i as int]));
        let ghost prev = kept_findings(ds@.take(i as int), ov, iv, floor);
        if keep(&f, only, ignore, floor) {
            assert(kept_findings(ds@.take(i + 1), ov, iv, floor) == prev.push(lift(ds@[i as int])));
            assert(prev.push(lift(ds@[i as int])).drop_last() =~= prev);
            let ghost before = out@;
            let ghost fs = f.severity@;
            insert_finding(&mut out, f);
            proof {
                if lint_severities(ds@) {
                    assert(fs == ds@[i as int].severity@);
                    let p = choose|p: int| 0 <= p <= before.len() && out@ == before.insert(p, f);
                    assert forall|q: int| 0 <= q < out@.len() implies #[trigger] out@[q].severity@ == warning_word()
                        || out@[q].severity@ == info_word() by {
                        if q < p {
                            assert(out@[q] == before[q]);
                        } else if q > p {
                            assert(out@[q] == before[q - 1]);
                        }
                    }
                }
                let nv = finding_views(out@);
                assert forall|k: (int, int, int, Option<Seq<char>>, Seq<char>)| #[trigger] with_key(nv, k)
                    == with_key(kept_findings(ds@.take(i + 1), ov, iv, floor), k) by {
                }
            }
        }
        i += 1;
    }
    assert(ds@.take(ds.len() as int) =~= ds@);
    let n = out.len();
    proof {
        reveal_strlit("warning");
        reveal_strlit("info");
    }
    assert("warning"@ =~= warning_word());
    assert("info"@ =~= info_word());
    let w = count_sev(&out, "warning");
    let inf = count_sev(&out, "info");
    proof {
        if lint_severities(ds@) {
            let fv = finding_views(out@);
            assert forall|q: int| 0 <= q < fv.len() implies #[trigger] fv[q].0 == warning_word() || fv[q].0 == info_word() by {
                assert(fv[q].0 == out@[q].severity@);
            }
            lemma_counts_cover(fv);
        }
    }
    LintOutput { findings: n, warnings: w, infos: inf, diagnostics: out }
}

fn count_sev(out: &Vec<Finding>, word: &str) -> (c: usize)
    ensures
        c == sev_count(finding_views(out@), word@),
{
    let ghost fv = finding_views(out@);
    let mut c: usize = 0;
    let mut j: usize = 0;
    assert(fv.take(0) =~= Seq::<(Seq<char>, Option<Seq<char>>, Option<Seq<char>>, Seq<char>)>::empty());
    while j < out.len()
        invariant
            fv == finding_views(out@),
            0 <= j <= out.len(),
            c <= j,
            c == sev_count(fv.take(j as int), word@),
        decreases out.len() - j,
    {
        assert(fv.take(j + 1).drop_last() =~= fv.take(j as int));
        if str_eq(out[j].severity.as_str(), word) {
            c += 1;
        }
        j += 1;
    }
    assert(fv.take(out.len() as int) =~= fv);
    c
}

fn list_contains(v: &Vec<String>, s: &str) -> (r: bool)
    ensures
        r == string_views(v@).contains(s@),
{
    let mut i: usize = 0;
    while i < v.len()
        invariant
            0 <= i <= v.len(),
            forall|k: int| 0 <= k < i ==> string_views(v@)[k] != s@,
        decreases v.len() - i,
    {
        if str_eq(v[i].as_str(), s) {
            assert(string_views(v@)[i as int] == s@);
            return true;
        }
        i += 1;
    }
    false
}

fn keep(f: &Finding, only: &Vec<String>, ignore: &Vec<String>, floor: u8) -> (r: bool)
    ensures
        r == kept(finding_view(*f), string_views(only@), string_views(ignore@), floor),
{
    if rank_str(f.severity.as_str()) < floor {
        return false;
    }
    let kept_by_only = only.len() == 0 || match &f.rule {
        Some(c) => list_contains(only, c.as_str()),
        None => false,
    };
    let dropped = match &f.rule {
        Some(c) => list_contains(ignore, c.as_str()),
        None => false,
    };
    kept_by_only && !dropped
}

pub(crate) fn insert_finding(out: &mut Vec<Finding>, f: Finding)
    requires
        findings_sorted(finding_views(old(out)@)),
    ensures
        exists|p: int| 0 <= p <= old(out)@.len() && final(out)@ == old(out)@.insert(p, f),
        findings_sorted(finding_views(final(out)@)),
        forall|k: (int, int, int, Option<Seq<char>>, Seq<char>)| #[trigger] with_key(finding_views(final(out)@), k)
            == if fkey(finding_view(f)) == k { with_key(finding_views(old(out)@), k).push(finding_view(f)) } else { with_key(finding_views(old(out)@), k) },
{
    let ghost ov = finding_views(out@);
    let ghost xv = finding_view(f);
    let mut p: usize = 0;
    while p < out.len() && !key_less(&f, &out[p])
        invariant
            0 <= p <= out.len(),
            ov == finding_views(out@),
            xv == finding_view(f),
            forall|q: int| 0 <= q < p ==> !key_lt(fkey(xv), fkey(#[trigger] ov[q])),
        decreases out.len() - p,
    {
        p += 1;
    }
    proof {
        assert forall|q: int| p <= q < ov.len() implies key_lt(fkey(xv), fkey(#[trigger] ov[q])) by {
            if q > p {
                lemma_key_lt(fkey(ov[p as int]), fkey(ov[q]), fkey(ov[q]));
                lemma_key_lt(fkey(xv), fkey(ov[p as int]), fkey(ov[q]));
                lemma_key_lt(fkey(ov[q]), fkey(ov[p as int]), fkey(ov[q]));
            }
        }
        assert forall|q: int| p <= q < ov.len() implies fkey(#[trigger] ov[q]) != fkey(xv) by {
            lemma_key_lt(fkey(xv), fkey(xv), fkey(xv));
        }
    }
    let ghost old_out = out@;
    out.insert(p, f);
    assert(out@ == old_out.insert(p as int, f));
    proof {
        let nv = finding_views(out@);
        assert(nv =~= ov.insert(p as int, xv));
        assert forall|a: int, b: int| 0 <= a < b < nv.len() implies !key_lt(fkey(#[trigger] nv[b]), fkey(#[trigger] nv[a])) by {
            if a < p && b == p {
            } else if a == p && b > p {
                lemma_key_lt(fkey(xv), fkey(ov[b - 1]), fkey(xv));
            } else if a < p && b > p {
                lemma_key_lt(fkey(ov[b - 1]), fkey(ov[a]), fkey(xv));
                lemma_key_lt(fkey(ov[a]), fkey(xv), fkey(ov[b - 1]));
                lemma_key_lt(fkey(xv), fkey(ov[b - 1]), fkey(ov[a]));
                lemma_key_lt(fkey(ov[b - 1]), fkey(xv), fkey(ov[b - 1]));
                lemma_key_lt(fkey(xv), fkey(ov[a]), fkey(ov[b - 1]));
            } else if b < p {
            } else {
                assert(nv[a] == ov[a - 1] && nv[b] == ov[b - 1]);
            }
        }
        assert forall|k: (int, int, int, Option<Seq<char>>, Seq<char>)| #[trigger] with_key(nv, k)
            == if fkey(xv) == k { with_key(ov, k).push(xv) } else { with_key(ov, k) } by {
            lemma_with_key_insert(ov, p as int, xv, k);
        }
    }
}

// ---------------------------------------------------------------------------
// Human output.

/// The style of a severity label: yellow for warnings, dim otherwise;
/// nothing without color.
pub open spec fn sev_codes(severity: Seq<char>, no_color: bool) -> (Seq<char>, Seq<char>) {
    if no_color {
        (seq![], seq![])
    } else if severity == warning_word() {
        (esc(seq!['3', '3']), reset_code())
    } else {
        (esc(seq!['2']), reset_code())
    }
}

fn lint_sev_style(severity: &str, no_color: bool) -> (r: (String, String))
    ensures
        (r.0@, r.1@) == sev_codes(severity@, no_color),
{
    proof {
        reveal_strlit("warning");
    }
    assert("warning"@ =~= warning_word());
    if no_color {
        plain_style()
    } else if str_eq(severity, "warning") {
        yellow_style()
    } else {
        dimmed_style()
    }
}

/// One rendered finding: `severity  rule  path  message`.
pub open spec fn finding_line(f: (Seq<char>, Option<Seq<char>>, Option<Seq<char>>, Seq<char>), no_color: bool) -> Seq<char> {
    let st = sev_codes(f.0, no_color);
    let rule = match f.1 { Some(r) => r, None => seq!['-'] };
    st.0 + pad_left_spec(f.0, 7, ' ') + st.1 + seq![' ', ' '] + pad_right_spec(rule, 4)
        + match f.2 { Some(p) => p + seq![' ', ' '] + f.3, None => f.3 } + seq!['\n']
}

pub open spec fn render_spec(fs: Seq<(Seq<char>, Option<Seq<char>>, Option<Seq<char>>, Seq<char>)>, no_color: bool) -> Seq<char>
    decreases fs.len(),
{
    if fs.len() == 0 {
        seq![]
    } else {
        render_spec(fs.drop_last(), no_color) + finding_line(fs.last(), no_color)
    }
}

/// Human rendering: one finding per line.
#[verifier::rlimit(30)]
pub fn render_human(out: &LintOutput, no_color: bool) -> (r: String)
    ensures
        r@ == render_spec(finding_views(out.diagnostics@), no_color),
{
    let ghost fv = finding_views(out.diagnostics@);
    proof {
        reveal_strlit("");
        reveal_strlit("-");
        reveal_strlit("  ");
        reveal_strlit("\n");
    }
    let mut s = owned("");
    let mut i: usize = 0;
    assert(fv.take(0) =~= Seq::<(Seq<char>, Option<Seq<char>>, Option<Seq<char>>, Seq<char>)>::empty());
    while i < out.diagnostics.len()
        invariant
            fv == finding_views(out.diagnostics@),
            0 <= i <= out.diagnostics.len(),
            s@ == render_spec(fv.take(i as int), no_color),
            "-"@ == seq!['-'],
            "  "@ == seq![' ', ' '],
            "\n"@ == seq!['\n'],
        decreases out.diagnostics.len() - i,
    {
        let f = &out.diagnostics[i];
        assert(fv.take(i + 1).drop_last() =~= fv.take(i as int));
        assert(fv.take(i + 1).last() == finding_view(*f));
        let st = lint_sev_style(f.severity.as_str(), no_color);
        let ghost before = s@;
        push_str(&mut s, st.0.as_str());
        let sev = pad_left(f.severity.as_str(), 7, ' ');
        push_str(&mut s, sev.as_str());
        push_str(&mut s, st.1.as_str());
        push_str(&mut s, "  ");
        let rule = match &f.rule {
            Some(r) => pad_right(r.as_str(), 4),
            None => pad_right("-", 4),
        };
        push_str(&mut s, rule.as_str());
        match &f.path {
            Some(p) => {
                push_str(&mut s, p.as_str());
                push_str(&mut s, "  ");
                push_str(&mut s, f.message.as_str());
            },
            None => {
                push_str(&mut s, f.message.as_str());
            },
        }
        push_str(&mut s, "\n");
        assert(s@ =~= before + finding_line(finding_view(*f), no_color));
        i += 1;
    }
    assert(fv.take(out.diagnostics.len() as int) =~= fv);
    s
}

/// Whether a diagnostic concerns a file okq sees: one without a path
/// always does; one with a path unless `.okqignore` excludes that path.
pub open spec fn shown(set: crate::ignore_rules::IgnoreSet, d: RawDiagnostic) -> bool {
    match d.path {
        Some(p) => !(set.enabled_view() && crate::ignore_rules::decide(set.matchers_view(), p@)),
        None => true,
    }
}

/// The diagnostics that are `shown`, in order.
pub open spec fn visible_spec(ds: Seq<RawDiagnostic>, set: crate::ignore_rules::IgnoreSet) -> Seq<RawDiagnostic>
    decreases ds.len(),
{
    if ds.len() == 0 {
        seq![]
    } else {
        let prev = visible_spec(ds.drop_last(), set);
        if shown(set, ds.last()) { prev.push(ds.last()) } else { prev }
    }
}

/// Drops the diagnostics of files `.okqignore` excludes, before anything is
/// counted, so counts and conformance describe the bundle okq queries.
/// Paths are bundle-relative.
pub fn visible(ds: Vec<RawDiagnostic>, set: &crate::ignore_rules::IgnoreSet) -> (r: Vec<RawDiagnostic>)
    ensures
        r@ == visible_spec(ds@, *set),
{
    let ghost all = ds@;
    let mut out: Vec<RawDiagnostic> = Vec::new();
    let mut rest = ds;
    let ghost mut k: int = 0;
    assert(all.take(0) =~= Seq::<RawDiagnostic>::empty());
    assert(all.skip(0) =~= all);
    while rest.len() > 0
        invariant
            0 <= k <= all.len(),
            rest@ == all.skip(k),
            out@ == visible_spec(all.take(k), *set),
        decreases rest.len(),
    {
        let d = rest.remove(0);
        assert(d == all[k]);
        assert(all.take(k + 1).drop_last() =~= all.take(k));
        assert(all.take(k + 1).last() == all[k]);
        assert(rest@ =~= all.skip(k + 1));
        let keep = match &d.path {
            Some(p) => !set.is_ignored(p.as_str()),
            None => true,
        };
        if keep {
            out.push(d);
        }
        proof {
            k = k + 1;
        }
    }
    assert(all.take(all.len() as int) =~= all);
    out
}

} // verus!
