//! `okq spec`: the OKF specification this build implements, verbatim, or
//! one section of it, chosen by heading text or slug as `get --section`
//! chooses.

use vstd::prelude::*;
use crate::cli::SpecArgs;
use crate::commands::get::{section_choice, section_hits, select_section, sections_in, text_sections};
use crate::error::AppError;
use crate::sections::{section_view, section_views};
use crate::text::owned;
use crate::trust::opt_view;

verus! {

/// The `okq.spec/v1` envelope.
pub struct SpecOutput {
    /// `okq.spec/v1`.
    pub schema: String,
    /// The OKF spec version the text specifies.
    pub okf_version: String,
    /// Upstream location of the document.
    pub source: String,
    /// License of the spec text.
    pub license: String,
    /// The resolved heading, with `--section`.
    pub section: Option<String>,
    /// 1-based line of the resolved heading within the spec, with `--section`.
    pub line: Option<usize>,
    /// The whole document, or just the selected section.
    pub text: String,
}

/// What `spec` gives for the document `doc`: the whole text, or the one
/// section the query selects (not-found and ambiguity as `get` reports
/// them, against "the OKF spec").
pub open spec fn spec_outcome(doc: Seq<char>, a: SpecArgs, r: Result<SpecOutput, AppError>) -> bool {
    match a.section {
        None => r matches Ok(o) && o.text@ == doc && o.section is None && o.line is None,
        Some(q) => {
            let secs = text_sections(doc, doc);
            let h = section_hits(secs, q@, secs.len() as int);
            if h.len() == 1 {
                r matches Ok(o) && {
                    let s = secs[h[0]];
                    &&& opt_view(o.section) == Some(s.0)
                    &&& o.line == Some(s.3)
                    &&& o.text@ == s.4
                }
            } else {
                r matches Err(e) && section_choice(secs, q@, "the OKF spec"@, Err(e))
            }
        },
    }
}

/// `okq spec` over the embedded document `doc`, which was taken from
/// `source`.
pub fn run(doc: &str, source: &str, args: &SpecArgs) -> (r: Result<SpecOutput, AppError>)
    ensures
        spec_outcome(doc@, *args, r),
        r matches Ok(o) ==> o.schema@ == "okq.spec/v1"@ && o.okf_version@ == "0.2"@ && o.license@ == "Apache-2.0"@
            && o.source@ == source@,
{
    let (section, line, text) = match &args.section {
        None => (None, None, owned(doc)),
        Some(q) => {
            let secs = sections_in(doc, doc);
            let k = match select_section(&secs, q.as_str(), "the OKF spec") {
                Ok(k) => k,
                Err(e) => return Err(e),
            };
            let s = &secs[k];
            assert(section_views(secs@)[k as int] == section_view(*s));
            (Some(owned(s.heading.as_str())), Some(s.line), owned(s.body.as_str()))
        },
    };
    Ok(SpecOutput {
        schema: owned("okq.spec/v1"),
        okf_version: owned("0.2"),
        source: owned(source),
        license: owned("Apache-2.0"),
        section,
        line,
        text,
    })
}

} // verus!
