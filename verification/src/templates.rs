//! Embedded templates for `okq init` and `okq new`, and the README and
//! index blocks okq manages between markers. Frontmatter follows the OKF
//! well-known keys (`type`, `title`, `description`, `tags`, `status`, `generated`).

use vstd::prelude::*;
use crate::fmt::{push_str, signed_pad, signed_pad_spec};
use crate::splice::{
    block_fits, lemma_comment_block_fits, lemma_window_block, lemma_window_newline, lemma_no_comment_open, lemma_no_comment_open_concat, lemma_no_newline, lemma_splice_twice,
    markers_sound, no_comment_open, no_comment_open_upto, no_newline_upto, one_line, splice_spec,
};
use crate::text::{
    chars_to_string, contains_spec, find_first, first_occ, occurs_at, lines, lines_spec, owned, slice_chars, starts_with, starts_with_spec,
    str_to_chars, trim_end_chars, trim_end_spec, trim_start_chars, trim_start_spec, views,
};

verus! {

/// Opening marker of the okq-owned block in a README.
pub const README_BEGIN: &'static str = "<!-- okq:begin -->";

/// Closing marker of the okq-owned README block.
pub const README_END: &'static str = "<!-- okq:end -->";

/// Opening marker of the listing block in an `index.md`.
pub const INDEX_BEGIN: &'static str = "<!-- okq:index:begin -->";

/// Closing marker of the listing block in an `index.md`.
pub const INDEX_END: &'static str = "<!-- okq:index:end -->";

pub open spec fn adr_spec(title: Seq<char>, date: Seq<char>) -> Seq<char> {
    "---\ntype: adr\ntitle: "@
        + title
        + "\ndescription: One-line summary of the decision.\ntags: []\nstatus: draft\ngenerated: { by: okq/0.1.0, at: "@
        + date
        + " }\n---\n\n# "@
        + title
        + "\n\n## Status\n\nProposed.\n\n## Context\n\nWhat is the situation that forces a decision?\n\n## Decision\n\nWhat we decided, and the main reasons it won.\n\n## Consequences\n\nWhat becomes easier, what becomes harder.\n"@
}

/// Frontmatter and body of a new ADR (`okq new adr`).
pub fn adr(title: &str, date: &str) -> (r: String)
    ensures
        r@ == adr_spec(title@, date@),
{
    let mut out = owned("---\ntype: adr\ntitle: ");
    push_str(&mut out, title);
    push_str(&mut out, "\ndescription: One-line summary of the decision.\ntags: []\nstatus: draft\ngenerated: { by: okq/0.1.0, at: ");
    push_str(&mut out, date);
    push_str(&mut out, " }\n---\n\n# ");
    push_str(&mut out, title);
    push_str(&mut out, "\n\n## Status\n\nProposed.\n\n## Context\n\nWhat is the situation that forces a decision?\n\n## Decision\n\nWhat we decided, and the main reasons it won.\n\n## Consequences\n\nWhat becomes easier, what becomes harder.\n");
    out
}

pub open spec fn feature_spec(title: Seq<char>, date: Seq<char>) -> Seq<char> {
    "---\ntype: feature\ntitle: "@
        + title
        + "\ndescription: One-line summary of the capability.\ntags: []\nstatus: draft\ngenerated: { by: okq/0.1.0, at: "@
        + date
        + " }\n---\n\n# "@
        + title
        + "\n\n## Summary\n\nOne or two sentences: what this lets the user do.\n\n## Motivation\n\nWhy this exists — the problem it removes.\n\n## Behavior\n\nHow it works from the user's perspective.\n\n## Acceptance criteria\n\n- [ ] Concrete, checkable statements that mean \"done\".\n\n## Open questions\n\n- Anything unresolved.\n"@
}

/// Frontmatter and body of a new feature spec (`okq new feature`).
pub fn feature(title: &str, date: &str) -> (r: String)
    ensures
        r@ == feature_spec(title@, date@),
{
    let mut out = owned("---\ntype: feature\ntitle: ");
    push_str(&mut out, title);
    push_str(&mut out, "\ndescription: One-line summary of the capability.\ntags: []\nstatus: draft\ngenerated: { by: okq/0.1.0, at: ");
    push_str(&mut out, date);
    push_str(&mut out, " }\n---\n\n# ");
    push_str(&mut out, title);
    push_str(&mut out, "\n\n## Summary\n\nOne or two sentences: what this lets the user do.\n\n## Motivation\n\nWhy this exists — the problem it removes.\n\n## Behavior\n\nHow it works from the user's perspective.\n\n## Acceptance criteria\n\n- [ ] Concrete, checkable statements that mean \"done\".\n\n## Open questions\n\n- Anything unresolved.\n");
    out
}

pub open spec fn seed_adr_spec(date: Seq<char>) -> Seq<char> {
    "---\ntype: adr\ntitle: Record architecture decisions\ndescription: Use ADRs to capture significant, hard-to-reverse decisions.\ntags: [process]\nstatus: draft\ngenerated: { by: okq/0.1.0, at: "@
        + date
        + " }\n---\n\n# Record architecture decisions\n\n## Status\n\nAccepted.\n\n## Context\n\nWe need to record the architectural decisions made on this project — the\nsignificant, hard-to-reverse ones — so the reasoning survives turnover and time.\n\n## Decision\n\nWe will use Architecture Decision Records, as [described by Michael\nNygard](https://cognitect.com/blog/2011/11/15/documenting-architecture-decisions).\nEach record is one Markdown file in `adrs/`, numbered, with Status / Context /\nDecision / Consequences.\n\n## Consequences\n\nThe rationale behind decisions is preserved and queryable\n(`okq find --type adr`). One lightweight step is added when making a\nsignificant decision.\n"@
}

/// The seed ADR, "Record architecture decisions".
pub fn seed_adr(date: &str) -> (r: String)
    ensures
        r@ == seed_adr_spec(date@),
{
    let mut out = owned("---\ntype: adr\ntitle: Record architecture decisions\ndescription: Use ADRs to capture significant, hard-to-reverse decisions.\ntags: [process]\nstatus: draft\ngenerated: { by: okq/0.1.0, at: ");
    push_str(&mut out, date);
    push_str(&mut out, " }\n---\n\n# Record architecture decisions\n\n## Status\n\nAccepted.\n\n## Context\n\nWe need to record the architectural decisions made on this project — the\nsignificant, hard-to-reverse ones — so the reasoning survives turnover and time.\n\n## Decision\n\nWe will use Architecture Decision Records, as [described by Michael\nNygard](https://cognitect.com/blog/2011/11/15/documenting-architecture-decisions).\nEach record is one Markdown file in `adrs/`, numbered, with Status / Context /\nDecision / Consequences.\n\n## Consequences\n\nThe rationale behind decisions is preserved and queryable\n(`okq find --type adr`). One lightweight step is added when making a\nsignificant decision.\n");
    out
}

pub open spec fn root_index_spec(name: Seq<char>) -> Seq<char> {
    "---\nokf_version: \"0.1\"\n---\n\n# "@
        + name
        + "\n\nAn [Open Knowledge Format](https://github.com/GoogleCloudPlatform/knowledge-catalog/tree/main/okf)\n(OKF) bundle — Markdown + YAML frontmatter, one concept per file. Query it with okq:\n\n    okq find --type adr\n    okq search \"<topic>\"\n    okq stats\n\nFolders: `adrs/` (decisions), `features/` (specs).\n"@
}

/// The root `index.md`: carries `okf_version` and a short listing.
pub fn root_index(name: &str) -> (r: String)
    ensures
        r@ == root_index_spec(name@),
{
    let mut out = owned("---\nokf_version: \"0.1\"\n---\n\n# ");
    push_str(&mut out, name);
    push_str(&mut out, "\n\nAn [Open Knowledge Format](https://github.com/GoogleCloudPlatform/knowledge-catalog/tree/main/okf)\n(OKF) bundle — Markdown + YAML frontmatter, one concept per file. Query it with okq:\n\n    okq find --type adr\n    okq search \"<topic>\"\n    okq stats\n\nFolders: `adrs/` (decisions), `features/` (specs).\n");
    out
}

pub open spec fn adrs_index_spec() -> Seq<char> {
    "# Architecture Decision Records\n\nNumbered records of significant, hard-to-reverse decisions. List them:\n\n    okq find --type adr\n\nAdd one with `okq new adr \"<title>\"`.\n"@
}

/// The `adrs/index.md` listing.
pub fn adrs_index() -> (r: String)
    ensures
        r@ == adrs_index_spec(),
{
    let mut out = owned("# Architecture Decision Records\n\nNumbered records of significant, hard-to-reverse decisions. List them:\n\n    okq find --type adr\n\nAdd one with `okq new adr \"<title>\"`.\n");
    out
}

pub open spec fn features_index_spec() -> Seq<char> {
    "# Features\n\nOne spec per capability. List them:\n\n    okq find --type feature\n\nAdd one with `okq new feature \"<title>\"`.\n"@
}

/// The `features/index.md` listing.
pub fn features_index() -> (r: String)
    ensures
        r@ == features_index_spec(),
{
    let mut out = owned("# Features\n\nOne spec per capability. List them:\n\n    okq find --type feature\n\nAdd one with `okq new feature \"<title>\"`.\n");
    out
}

const BLOCK_INTRO: &'static str = "\n## Knowledge base\n\nThis directory is an [Open Knowledge Format]";
const BLOCK_LINK: &'static str = "(https://github.com/GoogleCloudPlatform/knowledge-catalog/tree/main/okf)\n";
const BLOCK_TOOL: &'static str = "(OKF) bundle. Explore it with [okq](https://github.com/mikevalstar/okq):\n\n";
const BLOCK_SEARCH: &'static str = "    okq search \"<topic>\"     # ranked full-text\n";
const BLOCK_FIND: &'static str = "    okq find --type adr      # filter by frontmatter\n";
const BLOCK_STATS: &'static str = "    okq stats                # overview\n";
const BLOCK_NEW: &'static str = "    okq new adr \"<title>\"    # add a decision\n";

/// The text of the okq-owned README block, between its markers.
pub closed spec fn okq_block_body() -> Seq<char> {
    BLOCK_INTRO@ + BLOCK_LINK@ + BLOCK_TOOL@ + BLOCK_SEARCH@ + BLOCK_FIND@ + BLOCK_STATS@ + BLOCK_NEW@
}

#[verifier::opaque]
pub open spec fn okq_block_spec() -> Seq<char> {
    README_BEGIN@ + okq_block_body() + README_END@
}

/// The okq-owned README block, between the markers, describing how to
/// query the bundle.
pub fn okq_block() -> (r: String)
    ensures
        r@ == okq_block_spec(),
{
    proof {
        reveal(okq_block_spec);
    }
    let mut out = owned(README_BEGIN);
    push_str(&mut out, BLOCK_INTRO);
    push_str(&mut out, BLOCK_LINK);
    push_str(&mut out, BLOCK_TOOL);
    push_str(&mut out, BLOCK_SEARCH);
    push_str(&mut out, BLOCK_FIND);
    push_str(&mut out, BLOCK_STATS);
    push_str(&mut out, BLOCK_NEW);
    push_str(&mut out, README_END);
    out
}

pub open spec fn base_readme_spec(name: Seq<char>) -> Seq<char> {
    "---\ntype: readme\ntitle: "@
        + name
        + "\n---\n\n# "@
        + name
        + "\n\n"@
        + okq_block_spec()
        + "\n"@
}

/// A base README for a bundle that has none.
pub fn base_readme(name: &str) -> (r: String)
    ensures
        r@ == base_readme_spec(name@),
{
    let mut out = owned("---\ntype: readme\ntitle: ");
    push_str(&mut out, name);
    push_str(&mut out, "\n---\n\n# ");
    push_str(&mut out, name);
    push_str(&mut out, "\n\n");
    let block = okq_block();
    push_str(&mut out, block.as_str());
    push_str(&mut out, "\n");
    out
}

// ---------------------------------------------------------------------------
// Dates.

/// Rust's `/` on a signed value by a positive divisor: toward zero.
pub open spec fn tdiv(a: int, b: int) -> int {
    if a >= 0 { a / b } else { -((-a) / b) }
}

/// Days since 1970-01-01 to (year, month, day) in the proleptic Gregorian
/// calendar, by Howard Hinnant's `civil_from_days`.
pub open spec fn civil_spec(z: int) -> (int, int, int) {
    let z1 = z + 719468;
    let era = tdiv(if z1 >= 0 { z1 } else { z1 - 146096 }, 146097);
    let doe = z1 - era * 146097;
    let yoe = tdiv(doe - tdiv(doe, 1460) + tdiv(doe, 36524) - tdiv(doe, 146096), 365);
    let y = yoe + era * 400;
    let doy = doe - (365 * yoe + tdiv(yoe, 4) - tdiv(yoe, 100));
    let mp = tdiv(5 * doy + 2, 153);
    let d = doy - tdiv(153 * mp + 2, 5) + 1;
    let m = if mp < 10 { mp + 3 } else { mp - 9 };
    (if m <= 2 { y + 1 } else { y }, m, d)
}

/// Days since 1970-01-01 → (year, month, day).
pub fn civil_from_days(z: i64) -> (r: (i64, u32, u32))
    requires
        z <= i64::MAX - 719468,
    ensures
        r.0 as int == civil_spec(z as int).0,
        r.1 as int == civil_spec(z as int).1,
        r.2 as int == civil_spec(z as int).2,
{
    let z1 = z + 719468;
    let num = if z1 >= 0 { z1 } else { z1 - 146096 };
    let era = if num >= 0 { num / 146097 } else { -((-num) / 146097) };
    assert(0 <= z1 - era * 146097 <= 146096) by (nonlinear_arith)
        requires
            num == if z1 >= 0 { z1 as int } else { z1 - 146096 },
            era == if num >= 0 { num / 146097 } else { -((-num) / 146097) },
    {
    }
    let doe = z1 - era * 146097;
    let yoe = (doe - doe / 1460 + doe / 36524 - doe / 146096) / 365;
    assert(0 <= yoe <= 400);
    let y = yoe + era * 400;
    let doy = doe - (365 * yoe + yoe / 4 - yoe / 100);
    assert(0 <= doy <= 365) by (nonlinear_arith)
        requires
            0 <= doe <= 146096,
            yoe == (doe - doe / 1460 + doe / 36524 - doe / 146096) / 365,
            doy == doe - (365 * yoe + yoe / 4 - yoe / 100),
    {
    }
    let mp = (5 * doy + 2) / 153;
    let d = doy - (153 * mp + 2) / 5 + 1;
    assert(1 <= d <= 31) by (nonlinear_arith)
        requires
            0 <= doy <= 365,
            mp == (5 * doy + 2) / 153,
            d == doy - (153 * mp + 2) / 5 + 1,
    {
    }
    let m = if mp < 10 { mp + 3 } else { mp - 9 };
    let year = if m <= 2 { y + 1 } else { y };
    (year, m as u32, d as u32)
}

/// The current time as whole seconds since the Unix epoch (0 if the clock
/// reads before it): `SystemTime::now().duration_since(UNIX_EPOCH)`, in
/// seconds. Nothing is claimed of the value.
#[verifier::external_body]
fn unix_seconds() -> (r: u64) {
    std::time::SystemTime::now().duration_since(std::time::UNIX_EPOCH).map(|d| d.as_secs()).unwrap_or(0)
}

/// `YYYY-MM-DD` for a (year, month, day), zero-padded like `{y:04}-{m:02}-{d:02}`.
pub open spec fn iso_spec(c: (int, int, int)) -> Seq<char> {
    signed_pad_spec(c.0, 4) + seq!['-'] + crate::fmt::pad_left_spec(crate::fmt::digits(c.1 as nat), 2, '0')
        + seq!['-'] + crate::fmt::pad_left_spec(crate::fmt::digits(c.2 as nat), 2, '0')
}

/// A number below ten thousand has at most four decimal digits, below a
/// hundred at most two.
proof fn lemma_digits_len(n: nat)
    ensures
        digits_len_ok(n),
    decreases n,
{
    if n >= 10 {
        lemma_digits_len(n / 10);
    }
}

spec fn digits_len_ok(n: nat) -> bool {
    &&& crate::fmt::digits(n).len() >= 1
    &&& (n < 10 ==> crate::fmt::digits(n).len() == 1)
    &&& (n < 100 ==> crate::fmt::digits(n).len() <= 2)
    &&& (n < 1000 ==> crate::fmt::digits(n).len() <= 3)
    &&& (n < 10000 ==> crate::fmt::digits(n).len() <= 4)
}

/// A calendar date converted from a day count has a month from 1 to 12 and
/// a day from 1 to 31.
pub proof fn lemma_civil_ranges(z: int)
    ensures
        1 <= civil_spec(z).1 <= 12,
        1 <= civil_spec(z).2 <= 31,
{
    let z1 = z + 719468;
    let num = if z1 >= 0 { z1 } else { z1 - 146096 };
    let era = tdiv(num, 146097);
    assert(0 <= z1 - era * 146097 <= 146096) by (nonlinear_arith)
        requires
            num == if z1 >= 0 { z1 } else { z1 - 146096 },
            era == if num >= 0 { num / 146097 } else { -((-num) / 146097) },
    {
    }
    let doe = z1 - era * 146097;
    let yoe = tdiv(doe - tdiv(doe, 1460) + tdiv(doe, 36524) - tdiv(doe, 146096), 365);
    assert(0 <= yoe <= 400);
    let doy = doe - (365 * yoe + tdiv(yoe, 4) - tdiv(yoe, 100));
    assert(0 <= doy <= 365) by (nonlinear_arith)
        requires
            0 <= doe <= 146096,
            yoe == (doe - doe / 1460 + doe / 36524 - doe / 146096) / 365,
            doy == doe - (365 * yoe + yoe / 4 - yoe / 100),
    {
    }
    let mp = tdiv(5 * doy + 2, 153);
    let d = doy - tdiv(153 * mp + 2, 5) + 1;
    assert(1 <= d <= 31) by (nonlinear_arith)
        requires
            0 <= doy <= 365,
            mp == (5 * doy + 2) / 153,
            d == doy - (153 * mp + 2) / 5 + 1,
    {
    }
}

/// An ISO date of a year from 0 to 9999 is ten characters, `YYYY-MM-DD`,
/// with its dashes at positions 4 and 7.
pub proof fn lemma_iso_shape(y: int, m: int, d: int)
    requires
        0 <= y <= 9999,
        1 <= m <= 12,
        1 <= d <= 31,
    ensures
        iso_spec((y, m, d)).len() == 10,
        iso_spec((y, m, d))[4] == '-',
        iso_spec((y, m, d))[7] == '-',
{
    lemma_digits_len(y as nat);
    lemma_digits_len(m as nat);
    lemma_digits_len(d as nat);
    let yd = crate::fmt::digits(y as nat);
    let md = crate::fmt::digits(m as nat);
    let dd = crate::fmt::digits(d as nat);
    crate::fmt::lemma_repeat_len('0', (4 - yd.len()) as nat);
    crate::fmt::lemma_repeat_len('0', (2 - md.len()) as nat);
    crate::fmt::lemma_repeat_len('0', (2 - dd.len()) as nat);
    let ys = signed_pad_spec(y, 4);
    let ms = crate::fmt::pad_left_spec(md, 2, '0');
    let ds = crate::fmt::pad_left_spec(dd, 2, '0');
    assert(ys.len() == 4);
    assert(ms.len() == 2);
    assert(ds.len() == 2);
    let s = iso_spec((y, m, d));
    assert(s == ys + seq!['-'] + ms + seq!['-'] + ds);
    assert(s[4] == '-');
    assert(s[7] == '-');
}

/// The ISO-8601 date of a day count since 1970-01-01.
pub fn iso_date(days: i64) -> (r: String)
    requires
        days <= i64::MAX - 719468,
    ensures
        r@ == iso_spec((civil_spec(days as int).0, civil_spec(days as int).1 as u32 as int, civil_spec(days as int).2 as u32 as int)),
{
    let (y, m, d) = civil_from_days(days);
    let mut out = signed_pad(y, 4);
    proof {
        reveal_strlit("-");
    }
    push_str(&mut out, "-");
    let ms = crate::fmt::decimal_string(m as u64);
    let mp = crate::fmt::pad_left(ms.as_str(), 2, '0');
    push_str(&mut out, mp.as_str());
    push_str(&mut out, "-");
    let ds = crate::fmt::decimal_string(d as u64);
    let dp = crate::fmt::pad_left(ds.as_str(), 2, '0');
    push_str(&mut out, dp.as_str());
    out
}

/// Whole days since the epoch of a timestamp in seconds (floor).
pub open spec fn days_of(secs: u64) -> int {
    (secs as i64 as int) / 86400
}

/// Today's date as ISO-8601 `YYYY-MM-DD` (UTC), for the `generated` date of new concepts.
pub fn today_iso() -> (r: String)
    ensures
        exists|secs: u64| r@ == iso_spec((civil_spec(#[trigger] days_of(secs)).0, civil_spec(days_of(secs)).1 as u32 as int, civil_spec(days_of(secs)).2 as u32 as int)),
{
    let secs = unix_seconds();
    let s = secs as i64;
    let days: i64 = if s >= 0 { s / 86400 } else { -((-(s + 1)) / 86400) - 1 };
    assert(days == (s as int) / 86400) by (nonlinear_arith)
        requires
            days == if s >= 0 { s / 86400 } else { -((-(s + 1)) / 86400) - 1 },
    {
    }
    assert(days_of(secs) == days);
    iso_date(days)
}

// ---------------------------------------------------------------------------
// README handling.

pub open spec fn type_key() -> Seq<char> {
    seq!['t', 'y', 'p', 'e', ':']
}

/// A frontmatter line declares `type` (`type:` after leading whitespace).
pub open spec fn has_type_line(fm: Seq<char>) -> bool {
    exists|i: int| 0 <= i < lines_spec(fm).len() && starts_with_spec(trim_start_spec(#[trigger] lines_spec(fm)[i]), type_key())
}

/// A README with `type: readme` added to its frontmatter when it has no
/// `type`, or a fresh frontmatter block when it has none.
pub open spec fn ensure_type_spec(content: Seq<char>) -> Seq<char> {
    let open = "---\n"@;
    if starts_with_spec(content, open) && first_occ(content.skip(4), "\n---"@) >= 0 {
        let fm = content.skip(4).take(first_occ(content.skip(4), "\n---"@));
        if has_type_line(fm) {
            content
        } else {
            "---\ntype: readme\n"@ + content.skip(4)
        }
    } else {
        "---\ntype: readme\n---\n\n"@ + content
    }
}

/// The line `okq` writes into a README's frontmatter, with its newline.
spec fn type_line() -> Seq<char> {
    seq!['t', 'y', 'p', 'e', ':', ' ', 'r', 'e', 'a', 'd', 'm', 'e', '\n']
}

/// A README whose frontmatter opens with `type: readme` (and closes
/// somewhere) is left as it is.
proof fn lemma_typed_readme_kept(rest: Seq<char>)
    requires
        contains_spec(type_line() + rest, "\n---"@),
    ensures
        ensure_type_spec("---\n"@ + type_line() + rest) == "---\n"@ + type_line() + rest,
{
    reveal_strlit("---\n");
    reveal_strlit("\n---");
    let t = type_line();
    let s = "---\n"@ + t + rest;
    let body = t + rest;
    assert(s.take(4) =~= "---\n"@);
    assert(starts_with_spec(s, "---\n"@));
    assert(s.skip(4) =~= body);
    crate::splice::lemma_first_occ(body, "\n---"@);
    let q = first_occ(body, "\n---"@);
    assert(q >= 0);
    if q < 12 {
        assert(occurs_at(body, "\n---"@, q));
        assert(body.subrange(q, q + 4)[0] == body[q]);
        assert(body[q] == t[q]);
    }
    assert(q >= 12);
    let fm = body.take(q);
    let line: Seq<char> = seq!['t', 'y', 'p', 'e', ':', ' ', 'r', 'e', 'a', 'd', 'm', 'e'];
    assert forall|j: int| 0 <= j < 12 implies fm[j] != '\n' by {
        assert(fm[j] == t[j]);
    }
    if q > 12 {
        assert(fm[12] == t[12]);
    }
    crate::text::lemma_first_pos(fm, '\n', 12);
    assert(fm.take(12) =~= line);
    if q == 12 {
        assert(fm =~= line);
    }
    assert(lines_spec(fm)[0] == line);
    assert(trim_start_spec(line) == line);
    assert(line.take(5) =~= type_key());
    assert(starts_with_spec(trim_start_spec(lines_spec(fm)[0]), type_key()));
    assert(has_type_line(fm));
}

/// Ensuring a README's `type` twice is ensuring it once.
pub proof fn lemma_ensure_type_idempotent(content: Seq<char>)
    ensures
        ensure_type_spec(ensure_type_spec(content)) == ensure_type_spec(content),
{
    reveal_strlit("---\n");
    reveal_strlit("\n---");
    reveal_strlit("---\ntype: readme\n");
    reveal_strlit("---\ntype: readme\n---\n\n");
    let t = type_line();
    let open = "---\n"@;
    if starts_with_spec(content, open) && first_occ(content.skip(4), "\n---"@) >= 0 {
        let rest = content.skip(4);
        let fm = rest.take(first_occ(rest, "\n---"@));
        if !has_type_line(fm) {
            assert("---\ntype: readme\n"@ + rest =~= open + t + rest);
            crate::splice::lemma_first_occ(rest, "\n---"@);
            let p = first_occ(rest, "\n---"@);
            assert((t + rest).subrange(13 + p, 13 + p + 4) =~= rest.subrange(p, p + 4));
            assert(occurs_at(t + rest, "\n---"@, 13 + p));
            lemma_typed_readme_kept(rest);
        }
    } else {
        let rest = "---\n\n"@ + content;
        reveal_strlit("---\n\n");
        assert("---\ntype: readme\n---\n\n"@ + content =~= open + t + rest);
        assert((t + rest).subrange(12, 16) =~= "\n---"@);
        assert(occurs_at(t + rest, "\n---"@, 12));
        lemma_typed_readme_kept(rest);
    }
}

/// Ensures a README's frontmatter has a `type`, so it stays a conformant
/// concept.
#[verifier::rlimit(40)]
pub fn ensure_type_readme(content: &str) -> (r: String)
    ensures
        r@ == ensure_type_spec(content@),
{
    proof {
        reveal_strlit("---\n");
        reveal_strlit("\n---");
        reveal_strlit("type:");
    }
    let v = str_to_chars(content);
    let open = str_to_chars("---\n");
    if starts_with(&v, &open) {
        assert(open@.len() == 4);
        let rest = slice_chars(&v, 4, v.len());
        assert(rest@ == content@.skip(4));
        let close = str_to_chars("\n---");
        match find_first(&rest, &close) {
            Some(end) => {
                let fm = slice_chars(&rest, 0, end);
                assert(fm@ == rest@.take(end as int));
                let ls = lines(&fm);
                let key = str_to_chars("type:");
                assert(key@ == type_key());
                assert(has_type_line(fm@) ==> ensure_type_spec(content@) == content@);
                let mut i: usize = 0;
                while i < ls.len()
                    invariant
                        views(ls@) == lines_spec(fm@),
                        has_type_line(fm@) ==> ensure_type_spec(content@) == content@,
                        key@ == type_key(),
                        0 <= i <= ls.len(),
                        forall|k: int| 0 <= k < i ==> !starts_with_spec(trim_start_spec(#[trigger] lines_spec(fm@)[k]), type_key()),
                    decreases ls.len() - i,
                {
                    let t = trim_start_chars(&ls[i]);
                    assert(ls@[i as int]@ == lines_spec(fm@)[i as int]);
                    if starts_with(&t, &key) {
                        return owned(content);
                    }
                    i += 1;
                }
                let mut out = owned("---\ntype: readme\n");
                push_str(&mut out, chars_to_string(&rest).as_str());
                return out;
            },
            None => {},
        }
    }
    let mut out = owned("---\ntype: readme\n---\n\n");
    push_str(&mut out, content);
    out
}

/// The README with the okq block replaced between the markers, or
/// appended after the trimmed content when the markers are missing or out
/// of order.
pub open spec fn inject_spec(content: Seq<char>, block: Seq<char>) -> Seq<char> {
    let b = first_occ(content, README_BEGIN@);
    let e = first_occ(content, README_END@);
    if b >= 0 && e >= 0 && e >= b {
        content.take(b) + block + content.skip(e + README_END@.len())
    } else {
        trim_end_spec(content) + "\n\n"@ + block + "\n"@
    }
}

/// Injects (or replaces) the okq block in a README, between the markers.
pub fn inject_okq_block(content: &str) -> (r: String)
    ensures
        r@ == inject_spec(content@, okq_block_spec()),
{
    let block = okq_block();
    let v = str_to_chars(content);
    let bm = str_to_chars(README_BEGIN);
    let em = str_to_chars(README_END);
    let bo = find_first(&v, &bm);
    let eo = find_first(&v, &em);
    let ghost bi = first_occ(content@, README_BEGIN@);
    let ghost ei = first_occ(content@, README_END@);
    match bo {
        Some(b) => {
            match eo {
                Some(e) => {
                    if e >= b {
                        let vl = v.len();
                        assert(occurs_at(v@, em@, e as int));
                        assert(e + em.len() <= vl);
                        let end = e + em.len();
                        let head = slice_chars(&v, 0, b);
                        let tail = slice_chars(&v, end, v.len());
                        let mut out = chars_to_string(&head);
                        push_str(&mut out, block.as_str());
                        push_str(&mut out, chars_to_string(&tail).as_str());
                        assert(out@ =~= content@.take(bi) + okq_block_spec() + content@.skip(ei + README_END@.len()));
                        return out;
                    }
                },
                None => {},
            }
        },
        None => {},
    }
    assert(!(bi >= 0 && ei >= 0 && ei >= bi));
    let t = trim_end_chars(&v);
    let mut out = chars_to_string(&t);
    push_str(&mut out, "\n\n");
    push_str(&mut out, block.as_str());
    push_str(&mut out, "\n");
    out
}

/// A line of the okq block holds no comment opening and does not end in
/// `<`.
pub open spec fn clean_piece(s: Seq<char>) -> bool {
    s.len() > 0 && s.last() != '<' && no_comment_open(s)
}

proof fn lemma_clean_intro()
    ensures
        clean_piece(BLOCK_INTRO@),
{
    reveal_strlit("\n## Knowledge base\n\nThis directory is an [Open Knowledge Format]");
    assert(no_comment_open_upto(BLOCK_INTRO@, BLOCK_INTRO@.len())) by {
        reveal_with_fuel(no_comment_open_upto, 80);
    }
    lemma_no_comment_open(BLOCK_INTRO@, BLOCK_INTRO@.len());
}

proof fn lemma_clean_link()
    ensures
        clean_piece(BLOCK_LINK@),
{
    reveal_strlit("(https://github.com/GoogleCloudPlatform/knowledge-catalog/tree/main/okf)\n");
    assert(no_comment_open_upto(BLOCK_LINK@, BLOCK_LINK@.len())) by {
        reveal_with_fuel(no_comment_open_upto, 80);
    }
    lemma_no_comment_open(BLOCK_LINK@, BLOCK_LINK@.len());
}

proof fn lemma_clean_tool()
    ensures
        clean_piece(BLOCK_TOOL@),
{
    reveal_strlit("(OKF) bundle. Explore it with [okq](https://github.com/mikevalstar/okq):\n\n");
    assert(no_comment_open_upto(BLOCK_TOOL@, BLOCK_TOOL@.len())) by {
        reveal_with_fuel(no_comment_open_upto, 80);
    }
    lemma_no_comment_open(BLOCK_TOOL@, BLOCK_TOOL@.len());
}

proof fn lemma_clean_search()
    ensures
        clean_piece(BLOCK_SEARCH@),
{
    reveal_strlit("    okq search \"<topic>\"     # ranked full-text\n");
    assert(no_comment_open_upto(BLOCK_SEARCH@, BLOCK_SEARCH@.len())) by {
        reveal_with_fuel(no_comment_open_upto, 80);
    }
    lemma_no_comment_open(BLOCK_SEARCH@, BLOCK_SEARCH@.len());
}

proof fn lemma_clean_find()
    ensures
        clean_piece(BLOCK_FIND@),
{
    reveal_strlit("    okq find --type adr      # filter by frontmatter\n");
    assert(no_comment_open_upto(BLOCK_FIND@, BLOCK_FIND@.len())) by {
        reveal_with_fuel(no_comment_open_upto, 80);
    }
    lemma_no_comment_open(BLOCK_FIND@, BLOCK_FIND@.len());
}

proof fn lemma_clean_stats()
    ensures
        clean_piece(BLOCK_STATS@),
{
    reveal_strlit("    okq stats                # overview\n");
    assert(no_comment_open_upto(BLOCK_STATS@, BLOCK_STATS@.len())) by {
        reveal_with_fuel(no_comment_open_upto, 80);
    }
    lemma_no_comment_open(BLOCK_STATS@, BLOCK_STATS@.len());
}

proof fn lemma_clean_new()
    ensures
        clean_piece(BLOCK_NEW@),
{
    reveal_strlit("    okq new adr \"<title>\"    # add a decision\n");
    assert(no_comment_open_upto(BLOCK_NEW@, BLOCK_NEW@.len())) by {
        reveal_with_fuel(no_comment_open_upto, 80);
    }
    lemma_no_comment_open(BLOCK_NEW@, BLOCK_NEW@.len());
}

/// The markers are single-line, and the begin marker after its `<` holds
/// no comment opening.
proof fn lemma_markers()
    ensures
        one_line(README_BEGIN@),
        one_line(README_END@),
        README_END@.len() <= README_BEGIN@.len(),
        README_BEGIN@.len() >= 2,
        README_END@.len() >= 2,
        README_END@[0] == '<',
        README_END@[1] == '!',
        README_BEGIN@.take(README_END@.len() as int) != README_END@,
        clean_piece(README_BEGIN@.drop_first()),
{
    reveal_strlit("<!-- okq:begin -->");
    reveal_strlit("<!-- okq:end -->");
    reveal_strlit("!-- okq:begin -->");
    assert(no_newline_upto(README_BEGIN@, README_BEGIN@.len())) by {
        reveal_with_fuel(no_newline_upto, 20);
    }
    lemma_no_newline(README_BEGIN@, README_BEGIN@.len());
    assert(no_newline_upto(README_END@, README_END@.len())) by {
        reveal_with_fuel(no_newline_upto, 20);
    }
    lemma_no_newline(README_END@, README_END@.len());
    let d = README_BEGIN@.drop_first();
    assert(d =~= "!-- okq:begin -->"@);
    assert(no_comment_open_upto(d, d.len())) by {
        reveal_with_fuel(no_comment_open_upto, 20);
    }
    lemma_no_comment_open(d, d.len());
    assert(README_BEGIN@.take(README_END@.len() as int)[9] != README_END@[9]);
}

/// The okq block opens with the begin marker and holds the end marker
/// only at its end.
proof fn lemma_okq_block_fits()
    ensures
        block_fits(okq_block_spec(), README_BEGIN@, README_END@),
{
    reveal(okq_block_spec);
    lemma_markers();
    lemma_clean_intro();
    lemma_clean_link();
    lemma_clean_tool();
    lemma_clean_search();
    lemma_clean_find();
    lemma_clean_stats();
    lemma_clean_new();
    let mut acc = BLOCK_INTRO@;
    lemma_no_comment_open_concat(acc, BLOCK_LINK@);
    acc = acc + BLOCK_LINK@;
    lemma_no_comment_open_concat(acc, BLOCK_TOOL@);
    acc = acc + BLOCK_TOOL@;
    lemma_no_comment_open_concat(acc, BLOCK_SEARCH@);
    acc = acc + BLOCK_SEARCH@;
    lemma_no_comment_open_concat(acc, BLOCK_FIND@);
    acc = acc + BLOCK_FIND@;
    lemma_no_comment_open_concat(acc, BLOCK_STATS@);
    acc = acc + BLOCK_STATS@;
    lemma_no_comment_open_concat(acc, BLOCK_NEW@);
    acc = acc + BLOCK_NEW@;
    assert(acc == okq_block_body());
    let d = README_BEGIN@.drop_first();
    lemma_no_comment_open_concat(d, acc);
    lemma_comment_block_fits(README_BEGIN@, okq_block_body(), README_END@);
}

/// Running the injection again on its own output changes nothing, when
/// the README's markers were both present and in order, or both absent.
pub proof fn lemma_inject_okq_block_idempotent(content: Seq<char>)
    requires
        markers_sound(content, README_BEGIN@, README_END@),
    ensures
        inject_spec(inject_spec(content, okq_block_spec()), okq_block_spec()) == inject_spec(content, okq_block_spec()),
{
    lemma_markers();
    lemma_okq_block_fits();
    reveal_strlit("\n\n");
    reveal_strlit("\n");
    let b = okq_block_spec();
    let once = inject_spec(content, b);
    assert(once == splice_spec(content, b, README_BEGIN@, README_END@));
    assert(inject_spec(once, b) == splice_spec(once, b, README_BEGIN@, README_END@));
    lemma_splice_twice(content, b, README_BEGIN@, README_END@);
}

/// The part of a fresh README before its okq block.
spec fn readme_head(name: Seq<char>) -> Seq<char> {
    "---\ntype: readme\ntitle: "@ + name + "\n---\n\n# "@ + name + "\n\n"@
}

/// No one-line marker that opens with `<` occurs in a fresh README before
/// its okq block when the bundle name holds none.
proof fn lemma_head_free(r: Seq<char>, name: Seq<char>, m: Seq<char>)
    requires
        one_line(m),
        m.len() >= 13,
        m[0] == '<',
        !contains_spec(name, m),
        readme_head(name).len() <= r.len(),
        r.take(readme_head(name).len() as int) == readme_head(name),
    ensures
        forall|j: int| 0 <= j < readme_head(name).len() ==> !#[trigger] occurs_at(r, m, j),
{
    reveal_strlit("---\ntype: readme\ntitle: ");
    reveal_strlit("\n---\n\n# ");
    reveal_strlit("\n\n");
    let a = "---\ntype: readme\ntitle: "@;
    let b = "\n---\n\n# "@;
    let c = "\n\n"@;
    let h = readme_head(name);
    let nl = name.len() as int;
    let o2 = 24 + nl;
    let o3 = o2 + 8;
    let o4 = o3 + nl;
    assert(a.len() == 24 && b.len() == 8 && c.len() == 2);
    assert(h.len() == o4 + 2);
    assert forall|k: int| 0 <= k < h.len() implies #[trigger] r[k] == h[k] by {
        assert(r.take(h.len() as int)[k] == r[k]);
    }
    assert(h.subrange(24, o2) =~= name);
    assert(h.subrange(o3, o4) =~= name);
    assert(r.subrange(24, o2) =~= h.subrange(24, o2));
    assert(r.subrange(o3, o4) =~= h.subrange(o3, o4));
    assert forall|j: int| 0 <= j < h.len() implies !#[trigger] occurs_at(r, m, j) by {
        if occurs_at(r, m, j) {
            assert(r.subrange(j, j + m.len())[0] == r[j]);
            assert(r[j] == '<');
            if j <= 3 {
                assert(h[3] == a[3]);
                lemma_window_newline(r, m, j, 3);
            } else if j <= 16 {
                assert(h[16] == a[16]);
                lemma_window_newline(r, m, j, 16);
            } else if j < 24 {
                assert(h[j] == a[j]);
                assert(a[17] == 't' && a[18] == 'i' && a[19] == 't' && a[20] == 'l' && a[21] == 'e' && a[22] == ':' && a[23] == ' ');
            } else if j < o2 {
                if j + m.len() <= o2 {
                    lemma_window_block(r, name, m, 24, j);
                    assert(contains_spec(name, m));
                } else {
                    assert(h[o2] == b[0]);
                    lemma_window_newline(r, m, j, o2);
                }
            } else if j < o3 {
                assert(h[o2] == b[0] && h[o2 + 4] == b[4] && h[o2 + 5] == b[5]);
                assert(h[o2 + 6] == b[6] && h[o2 + 7] == b[7]);
                if j <= o2 + 4 {
                    lemma_window_newline(r, m, j, o2 + 4);
                } else if j == o2 + 5 {
                    lemma_window_newline(r, m, j, o2 + 5);
                }
            } else if j < o4 {
                if j + m.len() <= o4 {
                    lemma_window_block(r, name, m, o3, j);
                    assert(contains_spec(name, m));
                } else {
                    assert(h[o4] == c[0]);
                    lemma_window_newline(r, m, j, o4);
                }
            } else {
                assert(h[j] == c[j - o4]);
                lemma_window_newline(r, m, j, j);
            }
        }
    }
}

/// Re-running `init` on the README it created changes nothing: the
/// `type` is already there and the okq block is already in place, for any
/// bundle name that does not itself hold one of the block's markers.
pub proof fn lemma_fresh_readme_stable(name: Seq<char>)
    requires
        !contains_spec(name, README_BEGIN@),
        !contains_spec(name, README_END@),
    ensures
        ensure_type_spec(base_readme_spec(name)) == base_readme_spec(name),
        inject_spec(ensure_type_spec(base_readme_spec(name)), okq_block_spec()) == base_readme_spec(name),
{
    reveal_strlit("---\ntype: readme\ntitle: ");
    reveal_strlit("\n---\n\n# ");
    reveal_strlit("\n\n");
    reveal_strlit("\n");
    reveal_strlit("---\n");
    reveal_strlit("\n---");
    reveal_strlit("<!-- okq:begin -->");
    reveal_strlit("<!-- okq:end -->");
    lemma_markers();
    lemma_okq_block_fits();
    let blk = okq_block_spec();
    let h = readme_head(name);
    let base = base_readme_spec(name);
    assert(base =~= h + blk + "\n"@);
    // The frontmatter already has its type.
    let rest = "title: "@ + name + "\n---\n\n# "@ + name + "\n\n"@ + blk + "\n"@;
    reveal_strlit("title: ");
    assert(base =~= "---\n"@ + type_line() + rest);
    let tr = type_line() + rest;
    let p: int = 20 + name.len() as int;
    assert(tr.subrange(p, p + 4) =~= "\n---"@);
    assert(occurs_at(tr, "\n---"@, p));
    lemma_typed_readme_kept(rest);
    // The block's markers are the first ones.
    let hl = h.len() as int;
    assert(base.take(hl) =~= h);
    lemma_head_free(base, name, README_BEGIN@);
    lemma_head_free(base, name, README_END@);
    let bl = README_BEGIN@.len() as int;
    let el = README_END@.len() as int;
    assert(base.subrange(hl, hl + bl) =~= blk.take(bl));
    crate::splice::lemma_first_occ_at(base, README_BEGIN@, hl);
    crate::splice::lemma_first_occ(blk, README_END@);
    let fe = blk.len() - el;
    assert(base.subrange(hl + fe, hl + fe + el) =~= blk.subrange(fe, fe + el));
    assert(base.subrange(hl, hl + blk.len()) =~= blk);
    assert forall|j: int| 0 <= j < hl + fe implies !occurs_at(base, README_END@, j) by {
        if j >= hl && occurs_at(base, README_END@, j) {
            lemma_window_block(base, blk, README_END@, hl, j);
        }
    }
    crate::splice::lemma_first_occ_at(base, README_END@, hl + fe);
    assert(base.take(hl) + blk + base.skip(hl + fe + el) =~= base);
}

} // verus!
