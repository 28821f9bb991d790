//! `okq validate`: OKF conformance diagnostics from okf's validator, with
//! the envelope, severity filtering, a deterministic order and human output.

use vstd::prelude::*;
use crate::commands::lint::{
    Finding, RawDiagnostic, error_word, finding_view, finding_views, findings_sorted, info_word, insert_finding,
    rank_spec, rank_str, sev_count, warning_word, with_key,
};
use crate::fmt::{pad_left, pad_left_spec, push_str};
use crate::style::{dimmed_style, esc, plain_style, red_bold_style, reset_code, yellow_style};
use crate::text::{owned, str_eq};
use crate::trust::opt_view;

verus! {

/// One conformance finding.
pub struct Diagnostic {
    /// `error`, `warning` or `info`.
    pub severity: String,
    /// Bundle-relative path the finding relates to, if any.
    pub path: Option<String>,
    /// Human-readable description.
    pub message: String,
}

/// The `okq.validate/v1` envelope.
pub struct ValidateOutput {
    /// No error-severity diagnostics.
    pub conformant: bool,
    /// Error-severity diagnostics (before the severity floor).
    pub errors: usize,
    /// Warning-severity diagnostics.
    pub warnings: usize,
    /// Info-severity diagnostics.
    pub infos: usize,
    /// Diagnostics at or above the floor, by severity (descending), path,
    /// message.
    pub diagnostics: Vec<Diagnostic>,
}

/// A diagnostic as (severity, no rule, path, message), the shape lint
/// findings are ordered in.
pub open spec fn raw_view(d: RawDiagnostic) -> (Seq<char>, Option<Seq<char>>, Option<Seq<char>>, Seq<char>) {
    (d.severity@, None, opt_view(d.path), d.message@)
}

pub open spec fn diag_view(d: Diagnostic) -> (Seq<char>, Option<Seq<char>>, Option<Seq<char>>, Seq<char>) {
    (d.severity@, None, opt_view(d.path), d.message@)
}

pub open spec fn diag_views(v: Seq<Diagnostic>) -> Seq<(Seq<char>, Option<Seq<char>>, Option<Seq<char>>, Seq<char>)> {
    v.map_values(|d: Diagnostic| diag_view(d))
}

/// The diagnostics at or above the floor, in the validator's order.
pub open spec fn at_floor(ds: Seq<RawDiagnostic>, floor: u8) -> Seq<(Seq<char>, Option<Seq<char>>, Option<Seq<char>>, Seq<char>)>
    decreases ds.len(),
{
    if ds.len() == 0 {
        seq![]
    } else if rank_spec(ds.last().severity@) >= floor {
        at_floor(ds.drop_last(), floor).push(raw_view(ds.last()))
    } else {
        at_floor(ds.drop_last(), floor)
    }
}

pub open spec fn raw_views(ds: Seq<RawDiagnostic>) -> Seq<(Seq<char>, Option<Seq<char>>, Option<Seq<char>>, Seq<char>)> {
    ds.map_values(|d: RawDiagnostic| raw_view(d))
}

fn count_raw(ds: &Vec<RawDiagnostic>, word: &str) -> (c: usize)
    ensures
        c == sev_count(raw_views(ds@), word@),
{
    let ghost v = raw_views(ds@);
    let mut c: usize = 0;
    let mut j: usize = 0;
    assert(v.take(0) =~= Seq::<(Seq<char>, Option<Seq<char>>, Option<Seq<char>>, Seq<char>)>::empty());
    while j < ds.len()
        invariant
            v == raw_views(ds@),
            0 <= j <= ds.len(),
            c <= j,
            c == sev_count(v.take(j as int), word@),
        decreases ds.len() - j,
    {
        assert(v.take(j + 1).drop_last() =~= v.take(j as int));
        if str_eq(ds[j].severity.as_str(), word) {
            c += 1;
        }
        j += 1;
    }
    assert(v.take(ds.len() as int) =~= v);
    c
}

/// The validate envelope for the validator's diagnostics (already
/// restricted to the files okq sees), listing those at or above `floor`.
pub fn report(ds: &Vec<RawDiagnostic>, floor: u8) -> (r: ValidateOutput)
    ensures
        r.errors == sev_count(raw_views(ds@), error_word()),
        r.warnings == sev_count(raw_views(ds@), warning_word()),
        r.infos == sev_count(raw_views(ds@), info_word()),
        r.conformant == (r.errors == 0),
        findings_sorted(diag_views(r.diagnostics@)),
        forall|k: (int, int, int, Option<Seq<char>>, Seq<char>)| #[trigger] with_key(diag_views(r.diagnostics@), k)
            == with_key(at_floor(ds@, floor), k),
{
    proof {
        reveal_strlit("error");
        reveal_strlit("warning");
        reveal_strlit("info");
    }
    assert("error"@ =~= error_word());
    assert("warning"@ =~= warning_word());
    assert("info"@ =~= info_word());
    let errors = count_raw(ds, "error");
    let warnings = count_raw(ds, "warning");
    let infos = count_raw(ds, "info");
    let mut out: Vec<Finding> = Vec::new();
    let mut i: usize = 0;
    assert(ds@.take(0) =~= Seq::<RawDiagnostic>::empty());
    while i < ds.len()
        invariant
            0 <= i <= ds.len(),
            findings_sorted(finding_views(out@)),
            forall|j: int| 0 <= j < out@.len() ==> (#[trigger] out@[j]).rule is None,
            forall|k: (int, int, int, Option<Seq<char>>, Seq<char>)| #[trigger] with_key(finding_views(out@), k)
                == with_key(at_floor(ds@.take(i as int), floor), k),
        decreases ds.len() - i,
    {
        let d = &ds[i];
        assert(ds@.take(i + 1).drop_last() =~= ds@.take(i as int));
        assert(ds@.take(i + 1).last() == ds@[i as int]);
        let ghost prev = at_floor(ds@.take(i as int), floor);
        if rank_str(d.severity.as_str()) >= floor {
            let path = match &d.path {
                Some(p) => Some(p.clone()),
                None => None,
            };
            let f = Finding { severity: d.severity.clone(), rule: None, path, message: d.message.clone() };
            assert(finding_view(f) == raw_view(ds@[i as int]));
            assert(at_floor(ds@.take(i + 1), floor) == prev.push(raw_view(ds@[i as int])));
            assert(prev.push(raw_view(ds@[i as int])).drop_last() =~= prev);
            let ghost before = out@;
            insert_finding(&mut out, f);
            proof {
                let p = choose|p: int| 0 <= p <= before.len() && out@ == before.insert(p, f);
                assert forall|j: int| 0 <= j < out@.len() implies (#[trigger] out@[j]).rule is None by {
                    if j < p {
                        assert(out@[j] == before[j]);
                    } else if j > p {
                        assert(out@[j] == before[j - 1]);
                    }
                }
            }
        }
        i += 1;
    }
    assert(ds@.take(ds.len() as int) =~= ds@);
    let mut diagnostics: Vec<Diagnostic> = Vec::new();
    let mut j: usize = 0;
    while j < out.len()
        invariant
            0 <= j <= out.len(),
            forall|q: int| 0 <= q < out@.len() ==> (#[trigger] out@[q]).rule is None,
            diag_views(diagnostics@) == finding_views(out@).take(j as int),
        decreases out.len() - j,
    {
        let f = &out[j];
        let path = match &f.path {
            Some(p) => Some(p.clone()),
            None => None,
        };
        let d = Diagnostic { severity: f.severity.clone(), path, message: f.message.clone() };
        let ghost before = diagnostics@;
        diagnostics.push(d);
        assert(diag_views(diagnostics@) =~= diag_views(before).push(diag_view(d)));
        assert(diag_view(d) == finding_view(out@[j as int]));
        assert(finding_views(out@).take(j + 1) =~= finding_views(out@).take(j as int).push(finding_view(out@[j as int])));
        j += 1;
    }
    assert(finding_views(out@).take(out.len() as int) =~= finding_views(out@));
    ValidateOutput { conformant: errors == 0, errors, warnings, infos, diagnostics }
}

/// The style of a severity label: bold red for errors, yellow for warnings,
/// dim otherwise; nothing without color.
pub open spec fn sev_codes(severity: Seq<char>, no_color: bool) -> (Seq<char>, Seq<char>) {
    if no_color {
        (seq![], seq![])
    } else if severity == error_word() {
        (esc(seq!['1']) + esc(seq!['3', '1']), reset_code())
    } else if severity == warning_word() {
        (esc(seq!['3', '3']), reset_code())
    } else {
        (esc(seq!['2']), reset_code())
    }
}

fn sev_style(severity: &str, no_color: bool) -> (r: (String, String))
    ensures
        (r.0@, r.1@) == sev_codes(severity@, no_color),
{
    proof {
        reveal_strlit("error");
        reveal_strlit("warning");
    }
    assert("error"@ =~= error_word());
    assert("warning"@ =~= warning_word());
    if no_color {
        plain_style()
    } else if str_eq(severity, "error") {
        red_bold_style()
    } else if str_eq(severity, "warning") {
        yellow_style()
    } else {
        dimmed_style()
    }
}

/// One rendered diagnostic: `severity  path  message`.
pub open spec fn diag_line(d: (Seq<char>, Option<Seq<char>>, Option<Seq<char>>, Seq<char>), no_color: bool) -> Seq<char> {
    let st = sev_codes(d.0, no_color);
    st.0 + pad_left_spec(d.0, 7, ' ') + st.1 + seq![' ', ' '] + match d.2 {
        Some(p) => p + seq![' ', ' '] + d.3,
        None => d.3,
    } + seq!['\n']
}

pub open spec fn render_spec(ds: Seq<(Seq<char>, Option<Seq<char>>, Option<Seq<char>>, Seq<char>)>, no_color: bool) -> Seq<char>
    decreases ds.len(),
{
    if ds.len() == 0 {
        seq![]
    } else {
        render_spec(ds.drop_last(), no_color) + diag_line(ds.last(), no_color)
    }
}

/// Human rendering: one diagnostic per line.
#[verifier::rlimit(30)]
pub fn render_human(out: &ValidateOutput, no_color: bool) -> (r: String)
    ensures
        r@ == render_spec(diag_views(out.diagnostics@), no_color),
{
    let ghost dv = diag_views(out.diagnostics@);
    proof {
        reveal_strlit("");
        reveal_strlit("  ");
        reveal_strlit("\n");
    }
    let mut s = owned("");
    let mut i: usize = 0;
    assert(dv.take(0) =~= Seq::<(Seq<char>, Option<Seq<char>>, Option<Seq<char>>, Seq<char>)>::empty());
    while i < out.diagnostics.len()
        invariant
            dv == diag_views(out.diagnostics@),
            0 <= i <= out.diagnostics.len(),
            s@ == render_spec(dv.take(i as int), no_color),
            "  "@ == seq![' ', ' '],
            "\n"@ == seq!['\n'],
        decreases out.diagnostics.len() - i,
    {
        let d = &out.diagnostics[i];
        assert(dv.take(i + 1).drop_last() =~= dv.take(i as int));
        assert(dv.take(i + 1).last() == diag_view(*d));
        let st = sev_style(d.severity.as_str(), no_color);
        let ghost before = s@;
        push_str(&mut s, st.0.as_str());
        let sev = pad_left(d.severity.as_str(), 7, ' ');
        push_str(&mut s, sev.as_str());
        push_str(&mut s, st.1.as_str());
        push_str(&mut s, "  ");
        match &d.path {
            Some(p) => {
                push_str(&mut s, p.as_str());
                push_str(&mut s, "  ");
                push_str(&mut s, d.message.as_str());
            },
            None => {
                push_str(&mut s, d.message.as_str());
            },
        }
        push_str(&mut s, "\n");
        assert(s@ =~= before + diag_line(diag_view(*d), no_color));
        i += 1;
    }
    assert(dv.take(out.diagnostics.len() as int) =~= dv);
    s
}

} // verus!
