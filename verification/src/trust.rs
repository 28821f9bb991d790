//! Trust and lifecycle values as a concept envelope carries them. Every
//! field is left out at its default: absent status means `stable`, absent
//! trust means `unverified`, absent stale means not stale.

use vstd::prelude::*;
use crate::model::{Concept, TrustTier};
use crate::text::{owned, str_eq, string_views};

verus! {

/// A concept's trust and lifecycle values; `None` means "at its default".
#[derive(Debug, Clone, PartialEq, Eq)]
pub struct ConceptTrust {
    /// Lifecycle `status`, unless `stable`.
    pub status: Option<String>,
    /// Derived trust tier, unless `unverified`.
    pub trust: Option<String>,
    /// `Some(true)` when `stale_after` has passed.
    pub stale: Option<bool>,
}

pub open spec fn stable_word() -> Seq<char> {
    seq!['s', 't', 'a', 'b', 'l', 'e']
}

pub open spec fn stale_word() -> Seq<char> {
    seq!['s', 't', 'a', 'l', 'e']
}

/// The canonical spelling of a tier.
pub open spec fn tier_name_spec(t: TrustTier) -> Seq<char> {
    match t {
        TrustTier::Unverified => seq!['u', 'n', 'v', 'e', 'r', 'i', 'f', 'i', 'e', 'd'],
        TrustTier::MachineConfirmed => seq!['m', 'a', 'c', 'h', 'i', 'n', 'e', '-', 'c', 'o', 'n', 'f', 'i', 'r', 'm', 'e', 'd'],
        TrustTier::HumanReviewed => seq!['h', 'u', 'm', 'a', 'n', '-', 'r', 'e', 'v', 'i', 'e', 'w', 'e', 'd'],
    }
}

/// Canonical spelling of a trust tier, for filters and distributions.
pub fn tier_name(tier: TrustTier) -> (r: &'static str)
    ensures
        r@ == tier_name_spec(tier),
{
    proof {
        reveal_strlit("unverified");
        reveal_strlit("machine-confirmed");
        reveal_strlit("human-reviewed");
    }
    match tier {
        TrustTier::Unverified => "unverified",
        TrustTier::MachineConfirmed => "machine-confirmed",
        TrustTier::HumanReviewed => "human-reviewed",
    }
}

/// The tier names a `--trust` filter accepts, in ascending confidence.
pub fn tier_names() -> (r: Vec<&'static str>)
    ensures
        r@.len() == 3,
        r@[0]@ == tier_name_spec(TrustTier::Unverified),
        r@[1]@ == tier_name_spec(TrustTier::MachineConfirmed),
        r@[2]@ == tier_name_spec(TrustTier::HumanReviewed),
{
    let mut v: Vec<&'static str> = Vec::new();
    v.push(tier_name(TrustTier::Unverified));
    v.push(tier_name(TrustTier::MachineConfirmed));
    v.push(tier_name(TrustTier::HumanReviewed));
    v
}

pub open spec fn opt_view(o: Option<String>) -> Option<Seq<char>> {
    match o {
        Some(s) => Some(s@),
        None => None,
    }
}

/// The envelope values of a concept.
pub open spec fn trust_of_spec(c: Concept) -> (Option<Seq<char>>, Option<Seq<char>>, Option<bool>) {
    (
        if c.status@ != stable_word() { Some(c.status@) } else { None },
        if c.trust != TrustTier::Unverified { Some(tier_name_spec(c.trust)) } else { None },
        if c.stale { Some(true) } else { None },
    )
}

/// The non-default values, in order: status, trust, then `stale`.
pub open spec fn labels_spec(t: (Option<Seq<char>>, Option<Seq<char>>, Option<bool>)) -> Seq<Seq<char>> {
    let a: Seq<Seq<char>> = match t.0 {
        Some(s) => seq![s],
        None => seq![],
    };
    let b: Seq<Seq<char>> = match t.1 {
        Some(s) => seq![s],
        None => seq![],
    };
    let c: Seq<Seq<char>> = if t.2 == Some(true) { seq![stale_word()] } else { seq![] };
    a + b + c
}

impl Default for ConceptTrust {
    /// No lifecycle, trust or staleness label.
    fn default() -> (r: ConceptTrust)
        ensures
            r.status is None && r.trust is None && r.stale is None,
    {
        ConceptTrust { status: None, trust: None, stale: None }
    }
}

impl ConceptTrust {
    pub open spec fn view_tuple(&self) -> (Option<Seq<char>>, Option<Seq<char>>, Option<bool>) {
        (opt_view(self.status), opt_view(self.trust), self.stale)
    }

    /// Derives the envelope values of a concept.
    pub fn of(c: &Concept) -> (r: ConceptTrust)
        ensures
            r.view_tuple() == trust_of_spec(*c),
    {
        proof {
            reveal_strlit("stable");
        }
        assert("stable"@ == stable_word());
        let status = if !str_eq(c.status.as_str(), "stable") { Some(c.status.clone()) } else { None };
        let trust = if c.trust != TrustTier::Unverified { Some(owned(tier_name(c.trust))) } else { None };
        let stale = if c.stale { Some(true) } else { None };
        ConceptTrust { status, trust, stale }
    }

    /// `true` when every value is at its default.
    pub fn is_default(&self) -> (r: bool)
        ensures
            r == (self.status is None && self.trust is None && self.stale is None),
    {
        self.status.is_none() && self.trust.is_none() && self.stale.is_none()
    }

    /// The non-default values, for the `[draft, human-reviewed, stale]`
    /// suffix of a human-readable concept line.
    pub fn labels(&self) -> (r: Vec<String>)
        ensures
            string_views(r@) == labels_spec(self.view_tuple()),
    {
        proof {
            reveal_strlit("stale");
        }
        assert("stale"@ == stale_word());
        let mut out: Vec<String> = Vec::new();
        match &self.status {
            Some(s) => out.push(s.clone()),
            None => {},
        }
        match &self.trust {
            Some(t) => out.push(t.clone()),
            None => {},
        }
        if self.stale == Some(true) {
            out.push(owned("stale"));
        }
        let ghost t = self.view_tuple();
        assert(string_views(out@) =~= labels_spec(t));
        out
    }
}

// ---------------------------------------------------------------------------
// The evaluation day.

/// A calendar date as (year, month, day).
pub type Ymd = (i32, u32, u32);

pub open spec fn is_leap(y: int) -> bool {
    (y % 4 == 0 && y % 100 != 0) || y % 400 == 0
}

pub open spec fn month_days(y: int, m: int) -> int {
    if m == 2 {
        if is_leap(y) { 29 } else { 28 }
    } else if m == 4 || m == 6 || m == 9 || m == 11 {
        30
    } else if 1 <= m <= 12 {
        31
    } else {
        0
    }
}

pub open spec fn digit_at(s: Seq<char>, i: int) -> int {
    s[i] as int - '0' as int
}

/// A strict `YYYY-MM-DD` date that exists in the proleptic Gregorian
/// calendar; `None` for any other text.
pub open spec fn iso_date_spec(s: Seq<char>) -> Option<Ymd> {
    if s.len() == 10 && s[4] == '-' && s[7] == '-' && forall|i: int| 0 <= i < 10 && i != 4 && i != 7 ==> crate::text::is_ascii_digit(
        #[trigger] s[i],
    ) {
        let y = digit_at(s, 0) * 1000 + digit_at(s, 1) * 100 + digit_at(s, 2) * 10 + digit_at(s, 3);
        let m = digit_at(s, 5) * 10 + digit_at(s, 6);
        let d = digit_at(s, 8) * 10 + digit_at(s, 9);
        if 1 <= m <= 12 && 1 <= d <= month_days(y, m) {
            Some((y as i32, m as u32, d as u32))
        } else {
            None
        }
    } else {
        None
    }
}

/// okf's `Date::parse`. Claimed, as its source reads: a ten-character
/// `YYYY-MM-DD` with ASCII digits, a month from 1 to 12 and a day that the
/// month has (leap years by the Gregorian rule); anything else is `None`.
#[verifier::external_body]
fn date_parse(s: &str) -> (r: Option<Ymd>)
    ensures
        r == iso_date_spec(s@),
{
    okf::Date::parse(s).map(|d| (d.year, d.month, d.day))
}

/// The day staleness is judged on: the `--today` value when given (a usage
/// error unless it is an ISO date), else the system date the shell read.
pub fn resolve_today(flag: Option<&str>, system: Option<Ymd>) -> (r: Result<Option<Ymd>, crate::error::AppError>)
    ensures
        match flag {
            None => r == Ok::<Option<Ymd>, crate::error::AppError>(system),
            Some(raw) => match iso_date_spec(crate::text::trim_spec(raw@)) {
                Some(d) => r == Ok::<Option<Ymd>, crate::error::AppError>(Some(d)),
                None => r matches Err(crate::error::AppError::Usage(m))
                    && m@ == "--today must be an ISO date (YYYY-MM-DD), got "@ + crate::text::debug_str(raw@),
            },
        },
{
    match flag {
        None => Ok(system),
        Some(raw) => {
            let t = crate::text::chars_to_string(&crate::text::trim_chars(&crate::text::str_to_chars(raw)));
            match date_parse(t.as_str()) {
                Some(d) => Ok(Some(d)),
                None => {
                    let mut m = owned("--today must be an ISO date (YYYY-MM-DD), got ");
                    let q = crate::text::debug_quoted(raw);
                    crate::fmt::push_str(&mut m, q.as_str());
                    Err(crate::error::AppError::Usage(m))
                },
            }
        },
    }
}

} // verus!
