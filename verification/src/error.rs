//! Application errors, each carrying the process exit code it maps to.
//! Exit code 3 (a health check that found issues) is not an error: a
//! successful check run returns it, see `check_code`.

use vstd::prelude::*;

pub mod exit;

use crate::fmt::push_str;
use crate::text::{debug_quoted, debug_str, owned, string_views};

verus! {

/// A top-level okq error.
#[derive(Debug)]
pub enum AppError {
    /// A predicate or argument was invalid (bad `--where`, invalid regex).
    Usage(String),
    /// The bundle could not be loaded; the loader's message.
    Bundle(String),
    /// A search-index operation failed.
    Index(String),
    /// A write or scaffold operation failed or would overwrite a file.
    Io(String),
    /// The concept identity was syntactically invalid.
    InvalidConcept {
        /// The identity as the caller typed it.
        input: String,
        /// Why it was rejected.
        reason: String,
    },
    /// No concept resolved for the given identity.
    ConceptNotFound {
        /// The identity as the caller typed it.
        input: String,
    },
    /// A partial identity matched more than one concept.
    ConceptAmbiguous {
        /// The identity as the caller typed it.
        input: String,
        /// The matching concept ids.
        candidates: Vec<String>,
    },
    /// `--section` matched no heading in the resolved concept.
    SectionNotFound {
        /// The concept that was searched.
        concept: String,
        /// The requested heading or slug.
        query: String,
    },
    /// `--section` matched more than one heading.
    SectionAmbiguous {
        /// The concept that was searched.
        concept: String,
        /// The requested heading or slug.
        query: String,
        /// The matching headings, with their locations.
        candidates: Vec<String>,
    },
    /// `--field` matched no frontmatter key.
    FieldNotFound {
        /// The concept that was searched.
        concept: String,
        /// The requested key.
        query: String,
    },
    /// `--field` matched more than one frontmatter key.
    FieldAmbiguous {
        /// The concept that was searched.
        concept: String,
        /// The requested key.
        query: String,
        /// The matching keys.
        candidates: Vec<String>,
    },
}

/// The exit code each kind of error maps to.
pub open spec fn exit_code_spec(e: AppError) -> i32 {
    match e {
        AppError::Usage(_) => exit::USAGE,
        AppError::Bundle(_) | AppError::Index(_) | AppError::Io(_) => exit::ERROR,
        AppError::InvalidConcept { .. } | AppError::ConceptNotFound { .. } | AppError::ConceptAmbiguous { .. } => exit::NOT_FOUND,
        AppError::SectionNotFound { .. } | AppError::SectionAmbiguous { .. } | AppError::FieldNotFound { .. }
        | AppError::FieldAmbiguous { .. } => exit::SECTION,
    }
}

impl AppError {
    /// The process exit code this error maps to.
    pub fn exit_code(&self) -> (r: i32)
        ensures
            r == exit_code_spec(*self),
    {
        match self {
            AppError::Usage(_) => exit::USAGE,
            AppError::Bundle(_) | AppError::Index(_) | AppError::Io(_) => exit::ERROR,
            AppError::InvalidConcept { .. } | AppError::ConceptNotFound { .. } | AppError::ConceptAmbiguous { .. } => exit::NOT_FOUND,
            AppError::SectionNotFound { .. } | AppError::SectionAmbiguous { .. } | AppError::FieldNotFound { .. }
            | AppError::FieldAmbiguous { .. } => exit::SECTION,
        }
    }
}

/// Maps a health-check outcome to an exit code: 3 when `--check` was given
/// and issues were found, else 0.
pub fn check_code(check: bool, count: usize) -> (r: i32)
    ensures
        r == if check && count > 0 { exit::CHECK_FAILED } else { exit::SUCCESS },
{
    if check && count > 0 {
        exit::CHECK_FAILED
    } else {
        exit::SUCCESS
    }
}

/// `items` separated by `sep`.
pub open spec fn joined(items: Seq<Seq<char>>, sep: Seq<char>) -> Seq<char>
    decreases items.len(),
{
    if items.len() == 0 {
        seq![]
    } else if items.len() == 1 {
        items[0]
    } else {
        joined(items.drop_last(), sep) + sep + items.last()
    }
}

/// Appends `items` separated by `sep`.
fn push_joined(out: &mut String, items: &Vec<String>, sep: &str)
    ensures
        final(out)@ == old(out)@ + joined(string_views(items@), sep@),
{
    let ghost v = string_views(items@);
    let ghost start = out@;
    let mut i: usize = 0;
    assert(v.take(0) =~= Seq::<Seq<char>>::empty());
    while i < items.len()
        invariant
            0 <= i <= items.len(),
            v == string_views(items@),
            out@ == start + joined(v.take(i as int), sep@),
        decreases items.len() - i,
    {
        assert(v[i as int] == items@[i as int]@);
        assert(v.take(i + 1).drop_last() =~= v.take(i as int));
        if i > 0 {
            push_str(out, sep);
        }
        push_str(out, items[i].as_str());
        proof {
            if i == 0 {
                assert(v.take(1) =~= seq![v[0]]);
            }
            assert(out@ =~= start + joined(v.take(i + 1), sep@));
        }
        i += 1;
    }
    assert(v.take(items.len() as int) =~= v);
}

/// What okq prints for an error, after `okq: error: `.
pub open spec fn message_spec(e: AppError) -> Seq<char> {
    match e {
        AppError::Usage(m) => m@,
        AppError::Bundle(m) => m@,
        AppError::Index(m) => "search index error: "@ + m@,
        AppError::Io(m) => m@,
        AppError::InvalidConcept { input, reason } => "invalid concept id "@ + debug_str(input@) + ": "@ + reason@,
        AppError::ConceptNotFound { input } => "no concept found for "@ + debug_str(input@),
        AppError::ConceptAmbiguous { input, candidates } => debug_str(input@) + " matches multiple concepts; disambiguate: "@
            + joined(string_views(candidates@), ", "@),
        AppError::SectionNotFound { concept, query } => "no section "@ + debug_str(query@) + " in concept "@ + debug_str(concept@),
        AppError::SectionAmbiguous { concept, query, candidates } => "section "@ + debug_str(query@) + " is ambiguous in concept "@
            + debug_str(concept@) + "; candidates: "@ + joined(string_views(candidates@), "; "@),
        AppError::FieldNotFound { concept, query } => "no field "@ + debug_str(query@) + " in concept "@ + debug_str(concept@),
        AppError::FieldAmbiguous { concept, query, candidates } => "field "@ + debug_str(query@) + " is ambiguous in concept "@
            + debug_str(concept@) + "; candidates: "@ + joined(string_views(candidates@), ", "@),
    }
}

impl AppError {
    /// The error's message, as okq prints it after `okq: error: `.
    pub fn message(&self) -> (r: String)
        ensures
            r@ == message_spec(*self),
    {
        match self {
            AppError::Usage(m) => owned(m.as_str()),
            AppError::Bundle(m) => owned(m.as_str()),
            AppError::Index(m) => {
                let mut out = owned("search index error: ");
                push_str(&mut out, m.as_str());
                out
            },
            AppError::Io(m) => owned(m.as_str()),
            AppError::InvalidConcept { input, reason } => {
                let mut out = owned("invalid concept id ");
                push_str(&mut out, debug_quoted(input.as_str()).as_str());
                push_str(&mut out, ": ");
                push_str(&mut out, reason.as_str());
                out
            },
            AppError::ConceptNotFound { input } => {
                let mut out = owned("no concept found for ");
                push_str(&mut out, debug_quoted(input.as_str()).as_str());
                out
            },
            AppError::ConceptAmbiguous { input, candidates } => {
                let mut out = debug_quoted(input.as_str());
                push_str(&mut out, " matches multiple concepts; disambiguate: ");
                push_joined(&mut out, candidates, ", ");
                out
            },
            AppError::SectionNotFound { concept, query } => {
                let mut out = owned("no section ");
                push_str(&mut out, debug_quoted(query.as_str()).as_str());
                push_str(&mut out, " in concept ");
                push_str(&mut out, debug_quoted(concept.as_str()).as_str());
                out
            },
            AppError::SectionAmbiguous { concept, query, candidates } => {
                let mut out = owned("section ");
                push_str(&mut out, debug_quoted(query.as_str()).as_str());
                push_str(&mut out, " is ambiguous in concept ");
                push_str(&mut out, debug_quoted(concept.as_str()).as_str());
                push_str(&mut out, "; candidates: ");
                push_joined(&mut out, candidates, "; ");
                out
            },
            AppError::FieldNotFound { concept, query } => {
                let mut out = owned("no field ");
                push_str(&mut out, debug_quoted(query.as_str()).as_str());
                push_str(&mut out, " in concept ");
                push_str(&mut out, debug_quoted(concept.as_str()).as_str());
                out
            },
            AppError::FieldAmbiguous { concept, query, candidates } => {
                let mut out = owned("field ");
                push_str(&mut out, debug_quoted(query.as_str()).as_str());
                push_str(&mut out, " is ambiguous in concept ");
                push_str(&mut out, debug_quoted(concept.as_str()).as_str());
                push_str(&mut out, "; candidates: ");
                push_joined(&mut out, candidates, ", ");
                out
            },
        }
    }
}

} // verus!
