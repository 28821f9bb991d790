//! `okq find`: filter concepts by frontmatter and content predicates.
//!
//! Set membership, not ranking: a concept is returned iff it satisfies every
//! supplied predicate. Results are the shared concept envelope, in the
//! bundle's order.

use vstd::prelude::*;
use crate::cli::FindArgs;
use crate::error::AppError;
use crate::model::{Concept, ConceptRecord, TrustTier, concept_tags, field_values, field_values_spec, tags_spec};
use crate::text::{
    first_index_of, slice_chars, contains, contains_spec, debug_quoted, debug_str, first_pos, owned, str_eq, str_lowercase, str_to_chars,
    string_views, trim_chars, trim_spec, unicode_lower_str, chars_to_string,
};
use crate::fmt::{decimal_string, push_str};
use crate::commands::graph::{at, loc_off, loc_on};
use crate::style::{dim_style, esc, loc_style};
use crate::trust::labels_spec;
use crate::trust::{tier_name, tier_name_spec};
use crate::view::Corpus;

verus! {

/// What regex's `Regex::new` says of a pattern it rejects: its error
/// message; `None` when the pattern compiles.
pub uninterp spec fn regex_error(pattern: Seq<char>) -> Option<Seq<char>>;

/// Whether the compiled pattern matches somewhere in the haystack.
pub uninterp spec fn regex_matches(pattern: Seq<char>, haystack: Seq<char>) -> bool;

/// `regex::Regex::new`. Claimed: it fails exactly on the patterns the name
/// says, with the error's display text as the message.
#[verifier::external_body]
fn regex_check(pattern: &str) -> (r: Option<String>)
    ensures
        match r {
            Some(m) => regex_error(pattern@) == Some(m@),
            None => regex_error(pattern@) is None,
        },
{
    match regex::Regex::new(pattern) {
        Ok(_) => None,
        Err(e) => Some(format!("{e}")),
    }
}

/// `regex::Regex::is_match` on the compiled pattern. Claimed: the result is
/// the named match relation of the pattern and the haystack.
#[verifier::external_body]
fn regex_is_match(pattern: &str, haystack: &str) -> (r: bool)
    requires
        regex_error(pattern@) is None,
    ensures
        r == regex_matches(pattern@, haystack@),
{
    match regex::Regex::new(pattern) {
        Ok(re) => re.is_match(haystack),
        Err(_) => false,
    }
}

/// The `okq.find/v1` collection envelope.
pub struct FindOutput {
    /// `okq.find/v1`.
    pub schema: String,
    /// Number of matching concepts.
    pub count: usize,
    /// The matching concepts, in the bundle's order.
    pub results: Vec<ConceptRecord>,
}

// ---------------------------------------------------------------------------
// Building the predicate.

/// `--where FIELD=VALUE`, split at the first `=`.
pub open spec fn where_parts(spec: Seq<char>) -> (Seq<char>, Seq<char>) {
    let k = first_pos(spec, '=');
    (spec.take(k), spec.skip(k + 1))
}

/// The usage error a `--where` value gives, if any.
pub open spec fn where_error(spec: Seq<char>) -> Option<Seq<char>> {
    let k = first_pos(spec, '=');
    if k >= spec.len() {
        Some("--where must be FIELD=VALUE, got "@ + debug_str(spec))
    } else if k == 0 {
        Some("--where field is empty in "@ + debug_str(spec))
    } else {
        None
    }
}

/// The first `--where` error, in order.
pub open spec fn first_where_error(specs: Seq<Seq<char>>) -> Option<Seq<char>>
    decreases specs.len(),
{
    if specs.len() == 0 {
        None
    } else {
        match where_error(specs[0]) {
            Some(m) => Some(m),
            None => first_where_error(specs.drop_first()),
        }
    }
}

/// The tier a `--trust` value names, after trimming and lowercasing.
pub open spec fn tier_named(n: Seq<char>) -> Option<TrustTier> {
    if n == tier_name_spec(TrustTier::Unverified) {
        Some(TrustTier::Unverified)
    } else if n == tier_name_spec(TrustTier::MachineConfirmed) {
        Some(TrustTier::MachineConfirmed)
    } else if n == tier_name_spec(TrustTier::HumanReviewed) {
        Some(TrustTier::HumanReviewed)
    } else {
        None
    }
}

pub open spec fn lower_trim(s: Seq<char>) -> Seq<char> {
    unicode_lower_str(trim_spec(s))
}

/// The usage error a `--trust` value gives, if any.
pub open spec fn tier_error(raw: Seq<char>) -> Option<Seq<char>> {
    let other = lower_trim(raw);
    if tier_named(other) is Some {
        None
    } else {
        Some("unknown --trust tier "@ + debug_str(other) + "; known: unverified, machine-confirmed, human-reviewed"@)
    }
}

pub open spec fn first_tier_error(raws: Seq<Seq<char>>) -> Option<Seq<char>>
    decreases raws.len(),
{
    if raws.len() == 0 {
        None
    } else {
        match tier_error(raws[0]) {
            Some(m) => Some(m),
            None => first_tier_error(raws.drop_first()),
        }
    }
}

/// The usage error a `find` invocation gives, if any: a bad `--where`
/// first, then a bad `--match` regex, then an unknown `--trust` tier.
pub open spec fn build_error(a: FindArgs) -> Option<Seq<char>> {
    match first_where_error(string_views(a.where_@)) {
        Some(m) => Some(m),
        None => match (if a.regex && a.match_ is Some { regex_error(a.match_->0@) } else { None }) {
            Some(e) => Some("invalid --match regex: "@ + e),
            None => first_tier_error(string_views(a.trust@)),
        },
    }
}

// ---------------------------------------------------------------------------
// Matching.

/// The concept carries this (lowercased) tag, case-insensitively.
pub open spec fn has_tag(c: Concept, needle: Seq<char>) -> bool {
    exists|i: int| 0 <= i < tags_spec(c).len() && unicode_lower_str(#[trigger] tags_spec(c)[i]) == needle
}

/// The concept's frontmatter field holds this display value.
pub open spec fn where_holds(c: Concept, spec: Seq<char>) -> bool {
    field_values_spec(c.fields@, where_parts(spec).0).contains(where_parts(spec).1)
}

/// The texts `--match` looks in: the frontmatter title, if any, and the body.
pub open spec fn haystacks(c: Concept) -> Seq<Seq<char>> {
    match c.title {
        Some(t) => seq![t@, c.body@],
        None => seq![c.body@],
    }
}

pub open spec fn text_hit(h: Seq<char>, pattern: Seq<char>, regex: bool) -> bool {
    if regex {
        regex_matches(pattern, h)
    } else {
        contains_spec(unicode_lower_str(h), unicode_lower_str(pattern))
    }
}

/// A concept satisfies every predicate of a `find` invocation.
pub open spec fn find_matches(a: FindArgs, c: Concept) -> bool {
    let tags = string_views(a.tag@);
    let types = string_views(a.type_@);
    let wheres = string_views(a.where_@);
    let statuses = string_views(a.status@);
    let tiers = string_views(a.trust@);
    &&& forall|i: int| 0 <= i < tags.len() ==> has_tag(c, unicode_lower_str(#[trigger] tags[i]))
    &&& types.len() == 0 || (c.type_ matches Some(ty) && types.contains(ty@))
    &&& forall|i: int| 0 <= i < wheres.len() ==> where_holds(c, #[trigger] wheres[i])
    &&& statuses.len() == 0 || exists|i: int| 0 <= i < statuses.len() && lower_trim(#[trigger] statuses[i]) == unicode_lower_str(c.status@)
    &&& tiers.len() == 0 || exists|i: int| 0 <= i < tiers.len() && tier_named(lower_trim(#[trigger] tiers[i])) == Some(c.trust)
    &&& a.stale ==> c.stale
    &&& match a.match_ {
        None => true,
        Some(p) => exists|i: int| 0 <= i < haystacks(c).len() && text_hit(#[trigger] haystacks(c)[i], p@, a.regex),
    }
}

/// Two invocations that agree on every flag but the tags and the types.
pub open spec fn same_other_flags(a: FindArgs, b: FindArgs) -> bool {
    &&& string_views(a.where_@) == string_views(b.where_@)
    &&& string_views(a.status@) == string_views(b.status@)
    &&& string_views(a.trust@) == string_views(b.trust@)
    &&& a.stale == b.stale
    &&& a.regex == b.regex
    &&& crate::trust::opt_view(a.match_) == crate::trust::opt_view(b.match_)
}

/// Tags combine with AND: asking for more tags never finds more.
pub proof fn lemma_more_tags_narrow(a: FindArgs, b: FindArgs, c: Concept)
    requires
        same_other_flags(a, b),
        string_views(a.type_@) == string_views(b.type_@),
        forall|i: int| 0 <= i < a.tag@.len() ==> #[trigger] string_views(b.tag@).contains(string_views(a.tag@)[i]),
        find_matches(b, c),
    ensures
        find_matches(a, c),
{
    let ta = string_views(a.tag@);
    let tb = string_views(b.tag@);
    assert forall|i: int| 0 <= i < ta.len() implies has_tag(c, unicode_lower_str(#[trigger] ta[i])) by {
        assert(tb.contains(ta[i]));
        let j = choose|j: int| 0 <= j < tb.len() && tb[j] == ta[i];
        assert(has_tag(c, unicode_lower_str(tb[j])));
    }
    match a.match_ {
        Some(p) => {
            assert(b.match_ is Some && b.match_->0@ == p@);
        },
        None => {},
    }
}

/// Types combine with OR: accepting more types never finds fewer.
pub proof fn lemma_more_types_widen(a: FindArgs, b: FindArgs, c: Concept)
    requires
        same_other_flags(a, b),
        string_views(a.tag@) == string_views(b.tag@),
        a.type_@.len() > 0,
        forall|i: int| 0 <= i < a.type_@.len() ==> #[trigger] string_views(b.type_@).contains(string_views(a.type_@)[i]),
        find_matches(a, c),
    ensures
        find_matches(b, c),
{
    let ya = string_views(a.type_@);
    let yb = string_views(b.type_@);
    let ty = c.type_->0;
    assert(ya.contains(ty@));
    let i = choose|i: int| 0 <= i < ya.len() && ya[i] == ty@;
    assert(yb.contains(ya[i]));
    match a.match_ {
        Some(p) => {
            assert(b.match_ is Some && b.match_->0@ == p@);
        },
        None => {},
    }
}

// ---------------------------------------------------------------------------
// The compiled predicate.

/// A compiled set of predicates: all must hold for a concept to match.
struct Predicate {
    /// Tags that must all be present, lowercased.
    tags: Vec<String>,
    /// Types, any of which matches; empty means no constraint.
    types: Vec<String>,
    /// Frontmatter `(field, value)` constraints.
    wheres: Vec<(String, String)>,
    /// The `--match` pattern: lowercased for a substring, as given for a regex.
    needle: Option<String>,
    /// Whether the pattern is a regex.
    regex: bool,
    /// Lifecycle statuses (trimmed, lowercased), any of which matches.
    statuses: Vec<String>,
    /// Trust tiers, any of which matches.
    tiers: Vec<TrustTier>,
    /// Keep only stale concepts.
    stale_only: bool,
}

impl Predicate {
    /// The predicate compiled from these arguments.
    spec fn for_args(&self, a: FindArgs) -> bool {
        &&& self.tags@.len() == a.tag@.len()
        &&& forall|i: int| 0 <= i < a.tag@.len() ==> #[trigger] self.tags@[i]@ == unicode_lower_str(a.tag@[i]@)
        &&& string_views(self.types@) == string_views(a.type_@)
        &&& self.wheres@.len() == a.where_@.len()
        &&& forall|i: int| 0 <= i < a.where_@.len() ==> (#[trigger] self.wheres@[i].0@, self.wheres@[i].1@) == where_parts(a.where_@[i]@)
        &&& self.regex == a.regex
        &&& match a.match_ {
            None => self.needle is None,
            Some(p) => self.needle matches Some(n) && if a.regex {
                n@ == p@ && regex_error(p@) is None
            } else {
                n@ == unicode_lower_str(p@)
            },
        }
        &&& self.statuses@.len() == a.status@.len()
        &&& forall|i: int| 0 <= i < a.status@.len() ==> #[trigger] self.statuses@[i]@ == lower_trim(a.status@[i]@)
        &&& self.tiers@.len() == a.trust@.len()
        &&& forall|i: int| 0 <= i < a.trust@.len() ==> tier_named(lower_trim(a.trust@[i]@)) == Some(#[trigger] self.tiers@[i])
        &&& self.stale_only == a.stale
    }
}

/// Trimmed and lowercased.
fn lower_trimmed(s: &str) -> (r: String)
    ensures
        r@ == lower_trim(s@),
{
    let t = trim_chars(&str_to_chars(s));
    let ts = chars_to_string(&t);
    str_lowercase(ts.as_str())
}

/// Splits a `--where FIELD=VALUE` at its first `=`.
fn split_where(spec: &str) -> (r: Result<(String, String), String>)
    ensures
        match r {
            Ok(p) => where_error(spec@) is None && (p.0@, p.1@) == where_parts(spec@),
            Err(m) => where_error(spec@) == Some(m@),
        },
{
    let v = str_to_chars(spec);
    let k = first_index_of(&v, '=');
    if k >= v.len() {
        let mut m = owned("--where must be FIELD=VALUE, got ");
        let q = debug_quoted(spec);
        push_str(&mut m, q.as_str());
        return Err(m);
    }
    if k == 0 {
        let mut m = owned("--where field is empty in ");
        let q = debug_quoted(spec);
        push_str(&mut m, q.as_str());
        return Err(m);
    }
    let field = chars_to_string(&slice_chars(&v, 0, k));
    let value = chars_to_string(&slice_chars(&v, k + 1, v.len()));
    assert(v@.subrange(0, k as int) =~= v@.take(k as int));
    assert(v@.subrange(k + 1, v@.len() as int) =~= v@.skip(k + 1));
    Ok((field, value))
}

/// Parses a `--trust` value into a tier, case-insensitively; an unknown
/// tier is a usage error listing the three names.
fn parse_tier(raw: &str) -> (r: Result<TrustTier, String>)
    ensures
        match r {
            Ok(t) => tier_error(raw@) is None && tier_named(lower_trim(raw@)) == Some(t),
            Err(m) => tier_error(raw@) == Some(m@),
        },
{
    let other = lower_trimmed(raw);
    if str_eq(other.as_str(), tier_name(TrustTier::Unverified)) {
        return Ok(TrustTier::Unverified);
    }
    if str_eq(other.as_str(), tier_name(TrustTier::MachineConfirmed)) {
        return Ok(TrustTier::MachineConfirmed);
    }
    if str_eq(other.as_str(), tier_name(TrustTier::HumanReviewed)) {
        return Ok(TrustTier::HumanReviewed);
    }
    let mut m = owned("unknown --trust tier ");
    let q = debug_quoted(other.as_str());
    push_str(&mut m, q.as_str());
    push_str(&mut m, "; known: unverified, machine-confirmed, human-reviewed");
    Err(m)
}

/// Compiles the predicates of a `find` invocation, or the usage error it
/// gives.
fn build(a: &FindArgs) -> (r: Result<Predicate, String>)
    ensures
        match r {
            Ok(p) => build_error(*a) is None && p.for_args(*a),
            Err(m) => build_error(*a) == Some(m@),
        },
{
    let ghost ws = string_views(a.where_@);
    let mut wheres: Vec<(String, String)> = Vec::new();
    let mut i: usize = 0;
    assert(ws.skip(0) =~= ws);
    while i < a.where_.len()
        invariant
            ws == string_views(a.where_@),
            0 <= i <= a.where_.len(),
            wheres@.len() == i,
            first_where_error(ws) == first_where_error(ws.skip(i as int)),
            forall|k: int| 0 <= k < i ==> (#[trigger] wheres@[k].0@, wheres@[k].1@) == where_parts(a.where_@[k]@),
        decreases a.where_.len() - i,
    {
        assert(ws.skip(i as int)[0] == a.where_@[i as int]@);
        assert(ws.skip(i as int).drop_first() =~= ws.skip(i + 1));
        match split_where(a.where_[i].as_str()) {
            Ok(p) => wheres.push(p),
            Err(m) => return Err(m),
        }
        i += 1;
    }
    assert(ws.skip(i as int) =~= Seq::<Seq<char>>::empty());

    let needle = match &a.match_ {
        None => None,
        Some(p) => {
            if a.regex {
                match regex_check(p.as_str()) {
                    Some(e) => {
                        let mut m = owned("invalid --match regex: ");
                        push_str(&mut m, e.as_str());
                        return Err(m);
                    },
                    None => Some(owned(p.as_str())),
                }
            } else {
                Some(str_lowercase(p.as_str()))
            }
        },
    };

    let ghost ts = string_views(a.trust@);
    let mut tiers: Vec<TrustTier> = Vec::new();
    let mut j: usize = 0;
    assert(ts.skip(0) =~= ts);
    assert(first_where_error(ws) is None);
    assert((if a.regex && a.match_ is Some { regex_error(a.match_->0@) } else { None }) is None);
    while j < a.trust.len()
        invariant
            ts == string_views(a.trust@),
            0 <= j <= a.trust.len(),
            tiers@.len() == j,
            first_tier_error(ts) == first_tier_error(ts.skip(j as int)),
            build_error(*a) == first_tier_error(ts),
            forall|k: int| 0 <= k < j ==> tier_named(lower_trim(a.trust@[k]@)) == Some(#[trigger] tiers@[k]),
        decreases a.trust.len() - j,
    {
        assert(ts.skip(j as int)[0] == a.trust@[j as int]@);
        assert(ts.skip(j as int).drop_first() =~= ts.skip(j + 1));
        match parse_tier(a.trust[j].as_str()) {
            Ok(t) => tiers.push(t),
            Err(m) => {
                assert(first_tier_error(ts.skip(j as int)) == Some(m@));
                return Err(m);
            },
        }
        j += 1;
    }
    assert(ts.skip(j as int) =~= Seq::<Seq<char>>::empty());

    let mut tags: Vec<String> = Vec::new();
    let mut k: usize = 0;
    while k < a.tag.len()
        invariant
            0 <= k <= a.tag.len(),
            tags@.len() == k,
            forall|q: int| 0 <= q < k ==> #[trigger] tags@[q]@ == unicode_lower_str(a.tag@[q]@),
        decreases a.tag.len() - k,
    {
        tags.push(str_lowercase(a.tag[k].as_str()));
        k += 1;
    }

    let mut statuses: Vec<String> = Vec::new();
    let mut q: usize = 0;
    while q < a.status.len()
        invariant
            0 <= q <= a.status.len(),
            statuses@.len() == q,
            forall|x: int| 0 <= x < q ==> #[trigger] statuses@[x]@ == lower_trim(a.status@[x]@),
        decreases a.status.len() - q,
    {
        statuses.push(lower_trimmed(a.status[q].as_str()));
        q += 1;
    }

    let mut types: Vec<String> = Vec::new();
    let mut t: usize = 0;
    while t < a.type_.len()
        invariant
            0 <= t <= a.type_.len(),
            string_views(types@) == string_views(a.type_@).take(t as int),
        decreases a.type_.len() - t,
    {
        let ghost before = types@;
        types.push(owned(a.type_[t].as_str()));
        assert(string_views(types@) =~= string_views(a.type_@).take(t + 1)) by {
            assert(string_views(types@) =~= string_views(before).push(a.type_@[t as int]@));
        }
        t += 1;
    }
    assert(string_views(a.type_@).take(a.type_.len() as int) =~= string_views(a.type_@));

    Ok(Predicate { tags, types, wheres, needle, regex: a.regex, statuses, tiers, stale_only: a.stale })
}

fn has_tag_in(tags: &Vec<String>, needle: &str) -> (r: bool)
    ensures
        r == exists|i: int| 0 <= i < tags@.len() && unicode_lower_str(#[trigger] string_views(tags@)[i]) == needle@,
{
    let mut i: usize = 0;
    while i < tags.len()
        invariant
            0 <= i <= tags.len(),
            forall|k: int| 0 <= k < i ==> unicode_lower_str(#[trigger] string_views(tags@)[k]) != needle@,
        decreases tags.len() - i,
    {
        let l = str_lowercase(tags[i].as_str());
        assert(string_views(tags@)[i as int] == tags@[i as int]@);
        if str_eq(l.as_str(), needle) {
            return true;
        }
        i += 1;
    }
    false
}

fn tags_ok(p: &Predicate, a: &FindArgs, c: &Concept) -> (r: bool)
    requires
        p.for_args(*a),
    ensures
        r == forall|i: int| 0 <= i < string_views(a.tag@).len() ==> has_tag(*c, unicode_lower_str(#[trigger] string_views(a.tag@)[i])),
{
    if p.tags.len() == 0 {
        return true;
    }
    let have = concept_tags(c);
    let mut i: usize = 0;
    while i < p.tags.len()
        invariant
            p.for_args(*a),
            string_views(have@) == tags_spec(*c),
            0 <= i <= p.tags.len(),
            forall|k: int| 0 <= k < i ==> has_tag(*c, unicode_lower_str(#[trigger] string_views(a.tag@)[k])),
        decreases p.tags.len() - i,
    {
        assert(p.tags@[i as int]@ == unicode_lower_str(a.tag@[i as int]@));
        assert(string_views(a.tag@)[i as int] == a.tag@[i as int]@);
        if !has_tag_in(&have, p.tags[i].as_str()) {
            return false;
        }
        i += 1;
    }
    true
}

fn type_ok(p: &Predicate, a: &FindArgs, c: &Concept) -> (r: bool)
    requires
        p.for_args(*a),
    ensures
        r == (string_views(a.type_@).len() == 0 || (c.type_ matches Some(ty) && string_views(a.type_@).contains(ty@))),
{
    if p.types.len() == 0 {
        return true;
    }
    match &c.type_ {
        None => false,
        Some(ty) => {
            let mut i: usize = 0;
            while i < p.types.len()
                invariant
                    string_views(p.types@) == string_views(a.type_@),
                    c.type_ is Some && c.type_->0@ == ty@,
                    0 <= i <= p.types.len(),
                    forall|k: int| 0 <= k < i ==> string_views(a.type_@)[k] != ty@,
                decreases p.types.len() - i,
            {
                assert(string_views(p.types@)[i as int] == p.types@[i as int]@);
                if str_eq(p.types[i].as_str(), ty.as_str()) {
                    assert(string_views(a.type_@)[i as int] == ty@);
                    assert(string_views(a.type_@).contains(ty@));
                    return true;
                }
                i += 1;
            }
            false
        },
    }
}

fn value_in(vals: &Vec<String>, v: &str) -> (r: bool)
    ensures
        r == string_views(vals@).contains(v@),
{
    let mut i: usize = 0;
    while i < vals.len()
        invariant
            0 <= i <= vals.len(),
            forall|k: int| 0 <= k < i ==> string_views(vals@)[k] != v@,
        decreases vals.len() - i,
    {
        assert(string_views(vals@)[i as int] == vals@[i as int]@);
        if str_eq(vals[i].as_str(), v) {
            return true;
        }
        i += 1;
    }
    false
}

fn wheres_ok(p: &Predicate, a: &FindArgs, c: &Concept) -> (r: bool)
    requires
        p.for_args(*a),
    ensures
        r == forall|i: int| 0 <= i < string_views(a.where_@).len() ==> where_holds(*c, #[trigger] string_views(a.where_@)[i]),
{
    let mut i: usize = 0;
    while i < p.wheres.len()
        invariant
            p.for_args(*a),
            0 <= i <= p.wheres.len(),
            forall|k: int| 0 <= k < i ==> where_holds(*c, #[trigger] string_views(a.where_@)[k]),
        decreases p.wheres.len() - i,
    {
        let w = &p.wheres[i];
        assert((w.0@, w.1@) == where_parts(a.where_@[i as int]@));
        assert(string_views(a.where_@)[i as int] == a.where_@[i as int]@);
        let vals = field_values(c, w.0.as_str());
        if !value_in(&vals, w.1.as_str()) {
            return false;
        }
        i += 1;
    }
    true
}

fn status_ok(p: &Predicate, a: &FindArgs, c: &Concept) -> (r: bool)
    requires
        p.for_args(*a),
    ensures
        r == (string_views(a.status@).len() == 0 || exists|i: int| 0 <= i < string_views(a.status@).len()
            && lower_trim(#[trigger] string_views(a.status@)[i]) == unicode_lower_str(c.status@)),
{
    if p.statuses.len() == 0 {
        return true;
    }
    let actual = str_lowercase(c.status.as_str());
    let mut i: usize = 0;
    while i < p.statuses.len()
        invariant
            p.for_args(*a),
            actual@ == unicode_lower_str(c.status@),
            0 <= i <= p.statuses.len(),
            forall|k: int| 0 <= k < i ==> lower_trim(#[trigger] string_views(a.status@)[k]) != unicode_lower_str(c.status@),
        decreases p.statuses.len() - i,
    {
        assert(string_views(a.status@)[i as int] == a.status@[i as int]@);
        if str_eq(p.statuses[i].as_str(), actual.as_str()) {
            return true;
        }
        i += 1;
    }
    false
}

fn tier_ok(p: &Predicate, a: &FindArgs, c: &Concept) -> (r: bool)
    requires
        p.for_args(*a),
    ensures
        r == (string_views(a.trust@).len() == 0 || exists|i: int| 0 <= i < string_views(a.trust@).len()
            && tier_named(lower_trim(#[trigger] string_views(a.trust@)[i])) == Some(c.trust)),
{
    if p.tiers.len() == 0 {
        return true;
    }
    let mut i: usize = 0;
    while i < p.tiers.len()
        invariant
            p.for_args(*a),
            0 <= i <= p.tiers.len(),
            forall|k: int| 0 <= k < i ==> tier_named(lower_trim(#[trigger] string_views(a.trust@)[k])) != Some(c.trust),
        decreases p.tiers.len() - i,
    {
        assert(string_views(a.trust@)[i as int] == a.trust@[i as int]@);
        if p.tiers[i] == c.trust {
            return true;
        }
        i += 1;
    }
    false
}

fn hit(h: &str, needle: &str, regex: bool, ghost_pattern: &str) -> (r: bool)
    requires
        regex ==> needle@ == ghost_pattern@ && regex_error(ghost_pattern@) is None,
        !regex ==> needle@ == unicode_lower_str(ghost_pattern@),
    ensures
        r == text_hit(h@, ghost_pattern@, regex),
{
    if regex {
        regex_is_match(needle, h)
    } else {
        let l = str_lowercase(h);
        contains(&str_to_chars(l.as_str()), &str_to_chars(needle))
    }
}

fn text_ok(p: &Predicate, a: &FindArgs, c: &Concept) -> (r: bool)
    requires
        p.for_args(*a),
    ensures
        r == match a.match_ {
            None => true,
            Some(pat) => exists|i: int| 0 <= i < haystacks(*c).len() && text_hit(#[trigger] haystacks(*c)[i], pat@, a.regex),
        },
{
    match (&p.needle, &a.match_) {
        (Some(n), Some(pat)) => {
            let in_title = match &c.title {
                Some(t) => hit(t.as_str(), n.as_str(), p.regex, pat.as_str()),
                None => false,
            };
            if in_title {
                assert(text_hit(haystacks(*c)[0], pat@, a.regex));
                return true;
            }
            let in_body = hit(c.body.as_str(), n.as_str(), p.regex, pat.as_str());
            assert(haystacks(*c).last() == c.body@);
            if in_body {
                assert(text_hit(haystacks(*c)[haystacks(*c).len() - 1], pat@, a.regex));
            }
            in_body
        },
        _ => true,
    }
}

/// Whether a concept satisfies every predicate.
fn matches(p: &Predicate, a: &FindArgs, c: &Concept) -> (r: bool)
    requires
        p.for_args(*a),
    ensures
        r == find_matches(*a, *c),
{
    tags_ok(p, a, c) && type_ok(p, a, c) && wheres_ok(p, a, c) && status_ok(p, a, c) && tier_ok(p, a, c)
        && (!p.stale_only || c.stale) && text_ok(p, a, c)
}

// ---------------------------------------------------------------------------
// Running it.

/// The bundle indices, among the first `n`, of the visible concepts that
/// satisfy the invocation, in order.
pub open spec fn selected(c: Corpus, a: FindArgs, n: int) -> Seq<int>
    decreases n,
{
    if n <= 0 {
        seq![]
    } else {
        let p = selected(c, a, n - 1);
        if c.visible(n - 1) && find_matches(a, c.bundle_view()[n - 1]) {
            p.push(n - 1)
        } else {
            p
        }
    }
}

/// `okq find`: the visible concepts that satisfy every predicate, as
/// envelopes in the bundle's order; a usage error for a malformed
/// `--where`, an invalid `--match` regex or an unknown `--trust` tier.
pub fn run(corpus: &Corpus, args: &FindArgs) -> (r: Result<FindOutput, AppError>)
    ensures
        match r {
            Ok(out) => {
                let sel = selected(*corpus, *args, corpus.bundle_view().len() as int);
                &&& build_error(*args) is None
                &&& out.schema@ == "okq.find/v1"@
                &&& out.count == out.results@.len()
                &&& out.results@.len() == sel.len()
                &&& forall|i: int| 0 <= i < sel.len() ==> (#[trigger] out.results@[i]).describes(corpus.bundle_view()[sel[i]])
            },
            Err(e) => build_error(*args) matches Some(m) && e matches AppError::Usage(u) && u@ == m,
        },
{
    let p = match build(args) {
        Ok(p) => p,
        Err(m) => return Err(AppError::Usage(m)),
    };
    let b = corpus.bundle().concepts();
    let ghost bv = corpus.bundle_view();
    let mut results: Vec<ConceptRecord> = Vec::new();
    let mut j: usize = 0;
    while j < b.len()
        invariant
            p.for_args(*args),
            b@ == bv,
            bv == corpus.bundle_view(),
            0 <= j <= b.len(),
            results@.len() == selected(*corpus, *args, j as int).len(),
            forall|i: int| 0 <= i < results@.len() ==> (#[trigger] results@[i]).describes(bv[selected(*corpus, *args, j as int)[i]]),
        decreases b.len() - j,
    {
        let c = &b[j];
        let ghost before = selected(*corpus, *args, j as int);
        if !corpus.is_hidden(&c.id) && matches(&p, args, c) {
            assert(corpus.visible(j as int));
            results.push(ConceptRecord::from_concept(c));
            assert(selected(*corpus, *args, j + 1) == before.push(j as int));
        } else {
            assert(selected(*corpus, *args, j + 1) == before);
        }
        j += 1;
    }
    Ok(FindOutput { schema: owned("okq.find/v1"), count: results.len(), results })
}

// ---------------------------------------------------------------------------
// Human output

/// Strings joined with `, `.
pub open spec fn join_comma(s: Seq<Seq<char>>) -> Seq<char>
    decreases s.len(),
{
    if s.len() == 0 {
        seq![]
    } else if s.len() == 1 {
        s[0]
    } else {
        join_comma(s.drop_last()) + seq![',', ' '] + s.last()
    }
}

pub open spec fn dim_on(no_color: bool) -> Seq<char> {
    if no_color {
        seq![]
    } else {
        esc(seq!['2'])
    }
}

/// One listed concept: location, type (`-` if none), title, and the
/// non-default trust values as a dimmed `[..]` suffix.
pub open spec fn find_line(r: ConceptRecord, no_color: bool) -> Seq<char> {
    let labels = labels_spec(r.trust.view_tuple());
    at(r.path@, r.line as nat, no_color) + seq!['\t'] + match r.type_ {
        Some(t) => t@,
        None => seq!['-'],
    } + seq!['\t'] + r.title@ + (if labels.len() == 0 {
        seq![]
    } else {
        seq![' ', ' '] + dim_on(no_color) + seq!['['] + join_comma(labels) + seq![']'] + loc_off(no_color)
    }) + seq!['\n']
}

pub open spec fn find_text(rs: Seq<ConceptRecord>, no_color: bool) -> Seq<char>
    decreases rs.len(),
{
    if rs.len() == 0 {
        seq![]
    } else {
        find_text(rs.drop_last(), no_color) + find_line(rs.last(), no_color)
    }
}

pub(crate) fn push_joined(s: &mut String, items: &Vec<String>)
    ensures
        final(s)@ == old(s)@ + join_comma(string_views(items@)),
{
    let ghost v = string_views(items@);
    let ghost start = s@;
    let mut i: usize = 0;
    assert(v.take(0) =~= Seq::<Seq<char>>::empty());
    while i < items.len()
        invariant
            v == string_views(items@),
            0 <= i <= items.len(),
            s@ == start + join_comma(v.take(i as int)),
        decreases items.len() - i,
    {
        assert(v.take(i + 1).drop_last() =~= v.take(i as int));
        assert(v.take(i + 1).last() == items@[i as int]@);
        if i > 0 {
            s.push(',');
            s.push(' ');
        }
        push_str(s, items[i].as_str());
        assert(s@ =~= start + join_comma(v.take(i + 1)));
        i += 1;
    }
    assert(v.take(items.len() as int) =~= v);
}

#[verifier::rlimit(40)]
fn find_line_text(r: &ConceptRecord, loc: &(String, String), dim: &(String, String), no_color: bool) -> (t: String)
    requires
        loc.0@ == loc_on(no_color),
        loc.1@ == loc_off(no_color),
        dim.0@ == dim_on(no_color),
        dim.1@ == loc_off(no_color),
    ensures
        t@ == find_line(*r, no_color),
{
    let mut s = String::new();
    push_str(&mut s, loc.0.as_str());
    push_str(&mut s, r.path.as_str());
    s.push(':');
    let n = decimal_string(r.line as u64);
    push_str(&mut s, n.as_str());
    push_str(&mut s, loc.1.as_str());
    s.push('\t');
    match &r.type_ {
        Some(t) => push_str(&mut s, t.as_str()),
        None => s.push('-'),
    }
    s.push('\t');
    push_str(&mut s, r.title.as_str());
    let ghost mid = s@;
    let labels = r.trust.labels();
    if labels.len() > 0 {
        s.push(' ');
        s.push(' ');
        push_str(&mut s, dim.0.as_str());
        s.push('[');
        push_joined(&mut s, &labels);
        s.push(']');
        push_str(&mut s, dim.1.as_str());
    }
    s.push('\n');
    s
}

/// The human listing: one concept per line, `path:line` first.
pub fn render_human(out: &FindOutput, no_color: bool) -> (r: String)
    ensures
        r@ == find_text(out.results@, no_color),
{
    let ghost v = out.results@;
    let loc = loc_style(no_color);
    let dim = dim_style(no_color);
    let mut s = String::new();
    let mut i: usize = 0;
    while i < out.results.len()
        invariant
            v == out.results@,
            loc.0@ == loc_on(no_color),
            loc.1@ == loc_off(no_color),
            dim.0@ == dim_on(no_color),
            dim.1@ == loc_off(no_color),
            0 <= i <= v.len(),
            s@ == find_text(v.take(i as int), no_color),
        decreases v.len() - i,
    {
        assert(v.take(i + 1).drop_last() =~= v.take(i as int));
        let line = find_line_text(&out.results[i], &loc, &dim, no_color);
        push_str(&mut s, line.as_str());
        i += 1;
    }
    assert(v.take(v.len() as int) =~= v);
    s
}

} // verus!
