//! The exit-code taxonomy: the canonical numbers; never renumber.

use vstd::prelude::*;

verus! {

/// Success, including a valid empty answer (no matches, no path).
pub const SUCCESS: i32 = 0;

/// Other or internal error: bad bundle, I/O, search-index failure.
pub const ERROR: i32 = 1;

/// Usage error: bad flags or arguments, malformed `--where`, invalid regex.
pub const USAGE: i32 = 2;

/// A health check ran cleanly but found issues (opt-in, `--check`).
pub const CHECK_FAILED: i32 = 3;

/// Concept not found or not resolvable.
pub const NOT_FOUND: i32 = 4;

/// Section or field not found, or ambiguous, within a resolved concept.
pub const SECTION: i32 = 5;

} // verus!
