//! The command-line surface as plain values: the global flags and each
//! command's arguments, as the shell hands them to the library.

use vstd::prelude::*;

verus! {

/// Global flags and the chosen command.
pub struct Cli {
    /// Bundle root directory.
    pub bundle: String,
    /// Emit machine-readable JSON.
    pub json: bool,
    /// Disable ANSI color.
    pub no_color: bool,
    /// Ignore `.okqignore` rules.
    pub no_ignore: bool,
    /// The command to run.
    pub command: Command,
}

/// The commands okq knows.
pub enum Command {
    /// Expand one concept.
    Get(GetArgs),
    /// Filter concepts by predicates.
    Find(FindArgs),
    /// Ranked full-text search.
    Search(SearchArgs),
    /// Concepts within N hops.
    Neighbors(NeighborsArgs),
    /// Inbound concepts.
    Backlinks(BacklinksArgs),
    /// Shortest route between two concepts.
    Path(PathArgs),
    /// Concepts nothing links to.
    Orphans(OrphansArgs),
    /// Links to missing concepts.
    Deadlinks(DeadlinksArgs),
    /// Bundle overview.
    Stats(StatsArgs),
    /// JSON Schemas of the envelopes.
    Schema(SchemaArgs),
    /// Scaffold a bundle.
    Init(InitArgs),
    /// Author a concept from a template.
    New(NewArgs),
    /// Conformance diagnostics.
    Validate(ValidateArgs),
    /// Hygiene findings.
    Lint(LintArgs),
    /// Regenerate `index.md` listings.
    Index(IndexArgs),
    /// Print the OKF specification.
    Spec(SpecArgs),
    /// Install or list the agent skills.
    Skills(SkillsArgs),
}

/// Traversal direction as given on the command line.
#[derive(Clone, Copy, PartialEq, Eq, Structural, Debug)]
pub enum DirectionArg {
    /// Follow inbound edges.
    In,
    /// Follow outbound edges.
    Out,
    /// Follow both.
    Both,
}

/// Minimum severity to report.
#[derive(Clone, Copy, PartialEq, Eq, Structural, Debug)]
pub enum SeverityArg {
    /// Errors only.
    Error,
    /// Warnings and errors.
    Warning,
    /// Everything.
    Info,
}

/// `okq neighbors`.
pub struct NeighborsArgs {
    /// The starting concept.
    pub concept: String,
    /// Maximum hop distance.
    pub depth: usize,
    /// Edge direction to follow.
    pub direction: DirectionArg,
    /// Edge kinds to follow (empty: all).
    pub edge: Vec<String>,
}

/// `okq backlinks`.
pub struct BacklinksArgs {
    /// The target concept.
    pub concept: String,
    /// Edge kinds to follow (empty: all).
    pub edge: Vec<String>,
}

/// `okq path`.
pub struct PathArgs {
    /// Start concept.
    pub from: String,
    /// End concept.
    pub to: String,
    /// Ignore edge direction.
    pub undirected: bool,
    /// Edge kinds to follow (empty: all).
    pub edge: Vec<String>,
}

/// `okq orphans`.
pub struct OrphansArgs {
    /// Exit 3 if any exist.
    pub check: bool,
}

/// `okq deadlinks`.
pub struct DeadlinksArgs {
    /// Exit 3 if any exist.
    pub check: bool,
    /// Include phantom links.
    pub phantoms: bool,
    /// List phantom links only.
    pub phantoms_only: bool,
}

/// `okq stats`.
pub struct StatsArgs {
    /// How many hubs and tags to show.
    pub top: usize,
}

/// `okq schema`.
pub struct SchemaArgs {
    /// One command's schema, or all when absent.
    pub command: Option<String>,
}

/// `okq init`.
pub struct InitArgs {}

/// `okq new`.
pub struct NewArgs {
    /// The concept type (`adr` or `feature`).
    pub type_: Option<String>,
    /// The new concept's title.
    pub title: Option<String>,
    /// List the available types instead.
    pub list: bool,
}

/// `okq get`.
pub struct GetArgs {
    /// The concept identity.
    pub concept: String,
    /// Print only the frontmatter.
    pub frontmatter: bool,
    /// Print only the body.
    pub body: bool,
    /// Print one section, by heading or slug.
    pub section: Option<String>,
    /// Print one frontmatter field.
    pub field: Option<String>,
}

/// `okq find`.
pub struct FindArgs {
    /// Tags that must all be present.
    pub tag: Vec<String>,
    /// Types, any of which matches.
    pub type_: Vec<String>,
    /// `FIELD=VALUE` constraints.
    pub where_: Vec<String>,
    /// Title/body matcher.
    pub match_: Option<String>,
    /// Treat the matcher as a regular expression.
    pub regex: bool,
    /// Lifecycle statuses, any of which matches.
    pub status: Vec<String>,
    /// Trust tiers, any of which matches.
    pub trust: Vec<String>,
    /// Only concepts past their `stale_after`.
    pub stale: bool,
    /// The day staleness is evaluated on (`YYYY-MM-DD`).
    pub today: Option<String>,
}

/// `okq search`.
pub struct SearchArgs {
    /// The query.
    pub query: String,
    /// Maximum hits.
    pub limit: usize,
    /// Rebuild the index.
    pub reindex: bool,
    /// Build the index in memory only.
    pub ephemeral: bool,
}

/// `okq validate`.
pub struct ValidateArgs {
    /// Minimum severity to list.
    pub severity: SeverityArg,
    /// Exit 3 when not conformant.
    pub check: bool,
}

/// `okq lint`.
pub struct LintArgs {
    /// Only these rules.
    pub rule: Vec<String>,
    /// All but these rules.
    pub ignore: Vec<String>,
    /// Minimum severity to list.
    pub severity: SeverityArg,
    /// The day time-based rules evaluate on.
    pub today: Option<String>,
    /// Exit 3 when there are findings.
    pub check: bool,
}

/// `okq index`.
pub struct IndexArgs {
    /// Report what would change, write nothing.
    pub check: bool,
}

/// `okq spec`.
pub struct SpecArgs {
    /// One section, by heading or slug.
    pub section: Option<String>,
}

/// `okq skills`.
pub struct SkillsArgs {
    /// What to do.
    pub action: SkillsAction,
}

/// `okq skills` actions.
pub enum SkillsAction {
    /// List the embedded skills.
    List,
    /// Install the skills.
    Install(InstallArgs),
}

/// `okq skills install`.
pub struct InstallArgs {
    /// Install into the home directories.
    pub global: bool,
    /// Fetch the latest skills from the repository.
    pub from_repo: bool,
    /// Delegate to skills.sh.
    pub via_skills_sh: bool,
}

} // verus!
