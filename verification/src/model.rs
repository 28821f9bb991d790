//! The loaded bundle as plain values, and the shared concept envelope.
//!
//! The okf data layer parses a bundle; the shell converts what the logic
//! reads into these types: each concept's id, path, well-known frontmatter
//! values, every frontmatter key with its displayable values, the inline
//! links okf resolved, and the body.

use vstd::prelude::*;
use crate::concept::{ConceptId, id_views, valid_id};
use crate::error::AppError;
use crate::view::Corpus;
use crate::text::{chars_to_string, slice_chars, str_eq, str_to_chars, string_views, trim_chars, trim_spec, unicode_lower_str};

verus! {

/// One frontmatter key with the display strings of its value: the items of
/// a sequence, or the single scalar (no values for a mapping or null).
pub struct Field {
    /// The key.
    pub key: String,
    /// The value's display strings.
    pub values: Vec<String>,
    /// The value as `--field` prints it: a string verbatim, anything else
    /// as YAML, trailing whitespace removed.
    pub rendered: String,
}

/// An inline markdown link as written, with the concept it resolves to.
pub struct Link {
    /// The link target as written.
    pub raw: String,
    /// The concept the link points at (it may not exist).
    pub target: ConceptId,
}

/// The trust tier derived from a concept's `verified` events.
#[derive(Clone, Copy, PartialEq, Eq, Structural, Debug)]
pub enum TrustTier {
    /// No verification.
    Unverified,
    /// Confirmed by non-human verifiers only.
    MachineConfirmed,
    /// Confirmed by at least one human.
    HumanReviewed,
}

/// One `{by, at}` event, with both fields as written.
pub struct TrustEvent {
    /// The actor.
    pub by: Option<String>,
    /// The timestamp exactly as written.
    pub at: Option<String>,
}

/// The evidence behind a derived trust tier.
pub struct TrustEvents {
    /// `generated: {by, at}`.
    pub generated: Option<TrustEvent>,
    /// `verified: [{by, at}]`, in frontmatter order.
    pub verified: Vec<TrustEvent>,
}

/// One concept of a bundle.
pub struct Concept {
    /// The concept id.
    pub id: ConceptId,
    /// The concept's path relative to the bundle root, `/`-separated.
    pub path: String,
    /// The frontmatter `type`.
    pub type_: Option<String>,
    /// The frontmatter `title`.
    pub title: Option<String>,
    /// The frontmatter `tags` (display strings of a sequence).
    pub tags: Vec<String>,
    /// Every frontmatter key, in order.
    pub fields: Vec<Field>,
    /// The inline markdown links, in document order.
    pub links: Vec<Link>,
    /// The body markdown.
    pub body: String,
    /// The lifecycle status, rendered (`stable` when absent).
    pub status: String,
    /// The derived trust tier.
    pub trust: TrustTier,
    /// Whether `stale_after` has passed on the evaluation day.
    pub stale: bool,
    /// The `generated`/`verified` events.
    pub events: TrustEvents,
    /// The whole frontmatter rendered as YAML, trailing whitespace removed.
    pub frontmatter_yaml: String,
}

/// A loaded bundle: its concepts, in load order, with distinct ids.
pub struct Bundle {
    concepts: Vec<Concept>,
}

impl Bundle {
    pub closed spec fn concepts_view(&self) -> Seq<Concept> {
        self.concepts@
    }

    /// No two concepts share an id.
    pub open spec fn distinct_ids(cs: Seq<Concept>) -> bool {
        forall|i: int, j: int| 0 <= i < j < cs.len() ==> #[trigger] cs[i].id@ != #[trigger] cs[j].id@
    }

    /// No two concepts share an id.
    pub open spec fn wf(&self) -> bool {
        Self::distinct_ids(self.concepts_view())
    }

    /// Builds a bundle; `None` if two concepts share an id.
    pub fn new(concepts: Vec<Concept>) -> (r: Option<Bundle>)
        ensures
            r is Some <==> Self::distinct_ids(concepts@),
            r matches Some(b) ==> b.concepts_view() == concepts@ && b.wf(),
    {
        let mut i: usize = 0;
        while i < concepts.len()
            invariant
                0 <= i <= concepts.len(),
                forall|a: int, b: int| 0 <= a < b < concepts@.len() && a < i ==> #[trigger] concepts@[a].id@ != #[trigger] concepts@[b].id@,
            decreases concepts.len() - i,
        {
            let mut j: usize = i + 1;
            while j < concepts.len()
                invariant
                    0 <= i < concepts.len(),
                    i + 1 <= j <= concepts.len(),
                    forall|a: int, b: int| 0 <= a < b < concepts@.len() && a < i ==> #[trigger] concepts@[a].id@ != #[trigger] concepts@[b].id@,
                    forall|b: int| i < b < j ==> concepts@[i as int].id@ != #[trigger] concepts@[b].id@,
                decreases concepts.len() - j,
            {
                if concepts[i].id.same(&concepts[j].id) {
                    assert(concepts@[i as int].id@ == concepts@[j as int].id@);
                    return None;
                }
                j += 1;
            }
            i += 1;
        }
        Some(Bundle { concepts })
    }

    /// The concepts, in load order.
    pub fn concepts(&self) -> (r: &Vec<Concept>)
        ensures
            r@ == self.concepts_view(),
    {
        &self.concepts
    }
}


// ---------------------------------------------------------------------------
// Frontmatter reads.

/// The display values of the first field named `key` (none if absent).
pub open spec fn field_values_spec(fields: Seq<Field>, key: Seq<char>) -> Seq<Seq<char>>
    decreases fields.len(),
{
    if fields.len() == 0 {
        seq![]
    } else if fields[0].key@ == key {
        string_views(fields[0].values@)
    } else {
        field_values_spec(fields.drop_first(), key)
    }
}

/// Trimmed values, empties dropped, in order.
pub open spec fn trimmed_nonempty(vals: Seq<Seq<char>>) -> Seq<Seq<char>>
    decreases vals.len(),
{
    if vals.len() == 0 {
        seq![]
    } else {
        let rest = trimmed_nonempty(vals.drop_last());
        let t = trim_spec(vals.last());
        if t.len() == 0 {
            rest
        } else {
            rest.push(t)
        }
    }
}

pub open spec fn aliases_key() -> Seq<char> {
    seq!['a', 'l', 'i', 'a', 's', 'e', 's']
}

/// A concept's frontmatter `aliases:` (list or single scalar), trimmed,
/// empties dropped.
pub open spec fn aliases_spec(c: Concept) -> Seq<Seq<char>> {
    trimmed_nonempty(field_values_spec(c.fields@, aliases_key()))
}

/// The display values of frontmatter key `key` (a sequence's items, or the
/// single scalar); empty when the key is absent.
pub fn field_values(c: &Concept, key: &str) -> (r: Vec<String>)
    ensures
        string_views(r@) == field_values_spec(c.fields@, key@),
{
    let mut i: usize = 0;
    assert(c.fields@.skip(0) =~= c.fields@);
    while i < c.fields.len()
        invariant
            0 <= i <= c.fields.len(),
            field_values_spec(c.fields@.skip(i as int), key@) == field_values_spec(c.fields@, key@),
        decreases c.fields.len() - i,
    {
        assert(c.fields@.skip(i as int)[0] == c.fields@[i as int]);
        if str_eq(c.fields[i].key.as_str(), key) {
            let v = c.fields[i].values.clone();
            assert(v@ == c.fields@[i as int].values@);
            return v;
        }
        assert(c.fields@.skip(i as int).drop_first() =~= c.fields@.skip(i + 1));
        i += 1;
    }
    Vec::new()
}

/// A concept's frontmatter `aliases:` — alternate note names, resolution
/// keys only. Values are trimmed and empties dropped.
pub fn concept_aliases(c: &Concept) -> (r: Vec<String>)
    ensures
        string_views(r@) == aliases_spec(*c),
{
    proof {
        reveal_strlit("aliases");
    }
    assert("aliases"@ == aliases_key());
    let raw = field_values(c, "aliases");
    let ghost rv = string_views(raw@);
    let mut out: Vec<String> = Vec::new();
    let mut i: usize = 0;
    assert(rv.take(0) =~= Seq::<Seq<char>>::empty());
    while i < raw.len()
        invariant
            0 <= i <= raw.len(),
            rv == string_views(raw@),
            string_views(out@) == trimmed_nonempty(rv.take(i as int)),
        decreases raw.len() - i,
    {
        let chars = crate::text::str_to_chars(raw[i].as_str());
        let t = trim_chars(&chars);
        assert(rv.take(i + 1).drop_last() =~= rv.take(i as int));
        assert(rv.take(i + 1).last() == raw@[i as int]@);
        if t.len() > 0 {
            let ts = crate::text::chars_to_string(&t);
            let ghost before = string_views(out@);
            out.push(ts);
            assert(string_views(out@) =~= before.push(t@));
        }
        i += 1;
    }
    assert(rv.take(raw.len() as int) =~= rv);
    out
}


// ---------------------------------------------------------------------------
// Titles and tags.

/// The display title: the frontmatter `title` when present, else the id's
/// last segment, verbatim.
pub open spec fn title_spec(c: Concept) -> Seq<char> {
    match c.title {
        Some(t) => t@,
        None => crate::graph::id_name(c.id@),
    }
}

/// The concept's display title.
pub fn concept_title(c: &Concept) -> (r: String)
    ensures
        r@ == title_spec(*c),
{
    match &c.title {
        Some(t) => t.clone(),
        None => {
            let segs = c.id.segments();
            if segs.len() > 0 {
                assert(string_views(segs@).last() == segs@[segs.len() - 1]@);
                segs[segs.len() - 1].clone()
            } else {
                proof {
                    reveal_strlit("");
                }
                assert(""@ =~= Seq::<char>::empty());
                crate::text::owned("")
            }
        },
    }
}

/// Each tag with the key it is deduplicated by.
pub open spec fn tag_items(c: Concept) -> Seq<(Seq<char>, Seq<char>)> {
    string_views(c.tags@).map_values(|t: Seq<char>| (t, unicode_lower_str(t)))
        + crate::tags::extract_spec(c.body@).map_values(|t: Seq<char>| (t, t))
}

/// The values whose key has not occurred before, in order.
pub open spec fn first_by_key(items: Seq<(Seq<char>, Seq<char>)>) -> Seq<Seq<char>>
    decreases items.len(),
{
    if items.len() == 0 {
        seq![]
    } else if items.drop_last().map_values(|p: (Seq<char>, Seq<char>)| p.1).contains(items.last().1) {
        first_by_key(items.drop_last())
    } else {
        first_by_key(items.drop_last()).push(items.last().0)
    }
}

/// A concept's full tag set: frontmatter tags as written, then inline body
/// tags (lowercased by the scanner), deduplicated case-insensitively so the
/// first spelling wins.
pub open spec fn tags_spec(c: Concept) -> Seq<Seq<char>> {
    first_by_key(tag_items(c))
}

/// The key of item `i` is represented in `first_by_key(items)` by the
/// value of an item no later than `i` with the same key.
proof fn lemma_key_represented(items: Seq<(Seq<char>, Seq<char>)>, i: int) -> (j: int)
    requires
        0 <= i < items.len(),
    ensures
        0 <= j <= i,
        items[j].1 == items[i].1,
        first_by_key(items).contains(items[j].0),
    decreases items.len(),
{
    let p = items.drop_last();
    let n = items.len() - 1;
    let l = items.last();
    let prev = first_by_key(p);
    let out = first_by_key(items);
    let keys = p.map_values(|q: (Seq<char>, Seq<char>)| q.1);
    let j = if i < n {
        lemma_key_represented(p, i)
    } else if keys.contains(l.1) {
        let m = choose|m: int| 0 <= m < keys.len() && keys[m] == l.1;
        lemma_key_represented(p, m)
    } else {
        n
    };
    if j < n {
        assert(items[j] == p[j]);
        assert(prev.contains(p[j].0));
        let a = choose|a: int| 0 <= a < prev.len() && prev[a] == p[j].0;
        if !keys.contains(l.1) {
            assert(out == prev.push(l.0));
            assert(out[a] == p[j].0);
        }
    } else {
        assert(out == prev.push(l.0));
        assert(out[prev.len() as int] == l.0);
    }
    j
}

/// Every value `first_by_key` keeps is the value of some item.
proof fn lemma_first_by_key_from(items: Seq<(Seq<char>, Seq<char>)>, x: Seq<char>)
    requires
        first_by_key(items).contains(x),
    ensures
        exists|j: int| 0 <= j < items.len() && (#[trigger] items[j]).0 == x,
    decreases items.len(),
{
    let p = items.drop_last();
    let prev = first_by_key(p);
    if prev.contains(x) {
        lemma_first_by_key_from(p, x);
        let j = choose|j: int| 0 <= j < p.len() && (#[trigger] p[j]).0 == x;
        assert(items[j] == p[j]);
    } else {
        let out = first_by_key(items);
        let a = choose|a: int| 0 <= a < out.len() && out[a] == x;
        assert(out == prev.push(items.last().0));
        assert(items[items.len() - 1] == items.last());
    }
}

/// The concept's tags come only from its frontmatter tags and its inline
/// `#tags`.
pub proof fn lemma_tags_from_sources(c: Concept, x: Seq<char>)
    requires
        tags_spec(c).contains(x),
    ensures
        string_views(c.tags@).contains(x) || crate::tags::extract_spec(c.body@).contains(x),
{
    let items = tag_items(c);
    let fm = string_views(c.tags@);
    let inl = crate::tags::extract_spec(c.body@);
    lemma_first_by_key_from(items, x);
    let j = choose|j: int| 0 <= j < items.len() && (#[trigger] items[j]).0 == x;
    if j < fm.len() {
        assert(items[j].0 == fm[j]);
    } else {
        assert(items[j].0 == inl[j - fm.len()]);
    }
}

/// No inline `#tag` of the body is lost: each is among the concept's tags,
/// or a frontmatter tag that lowercases to it is.
pub proof fn lemma_inline_tags_kept(c: Concept)
    ensures
        forall|t: Seq<char>| #[trigger] crate::tags::extract_spec(c.body@).contains(t) ==> tags_spec(c).contains(t)
            || exists|x: Seq<char>| #[trigger] string_views(c.tags@).contains(x) && unicode_lower_str(x) == t && tags_spec(c).contains(x),
{
    let items = tag_items(c);
    let fm = string_views(c.tags@);
    let inl = crate::tags::extract_spec(c.body@);
    assert forall|t: Seq<char>| #[trigger] inl.contains(t) implies tags_spec(c).contains(t)
        || exists|x: Seq<char>| #[trigger] fm.contains(x) && unicode_lower_str(x) == t && tags_spec(c).contains(x) by {
        let m = choose|m: int| 0 <= m < inl.len() && inl[m] == t;
        let i = fm.len() + m;
        assert(items[i] == (t, t));
        let j = lemma_key_represented(items, i);
        if j < fm.len() {
            let x = fm[j];
            assert(items[j] == (x, unicode_lower_str(x)));
            assert(fm.contains(x));
        } else {
            assert(items[j] == (inl[j - fm.len()], inl[j - fm.len()]));
        }
    }
}

/// A concept's tags: frontmatter `tags:` unified with inline `#tags`.
pub fn concept_tags(c: &Concept) -> (r: Vec<String>)
    ensures
        string_views(r@) == tags_spec(*c),
{
    let inline = crate::tags::extract(c.body.as_str());
    let ghost items = tag_items(*c);
    let mut out: Vec<String> = Vec::new();
    let mut seen: Vec<String> = Vec::new();
    assert(items.take(0) =~= Seq::<(Seq<char>, Seq<char>)>::empty());
    assert(items.take(0).map_values(|p: (Seq<char>, Seq<char>)| p.1) =~= Seq::<Seq<char>>::empty());
    let mut i: usize = 0;
    while i < c.tags.len()
        invariant
            items == tag_items(*c),
            0 <= i <= c.tags.len(),
            string_views(seen@) == items.take(i as int).map_values(|p: (Seq<char>, Seq<char>)| p.1),
            string_views(out@) == first_by_key(items.take(i as int)),
        decreases c.tags.len() - i,
    {
        let t = c.tags[i].clone();
        let k = crate::text::str_lowercase(t.as_str());
        assert(items[i as int] == (t@, k@));
        push_first(&mut out, &mut seen, t, k, Ghost(items), Ghost(i as int));
        i += 1;
    }
    let mut j: usize = 0;
    while j < inline.len()
        invariant
            items == tag_items(*c),
            string_views(inline@) == crate::tags::extract_spec(c.body@),
            0 <= j <= inline.len(),
            string_views(seen@) == items.take((c.tags@.len() + j) as int).map_values(|p: (Seq<char>, Seq<char>)| p.1),
            string_views(out@) == first_by_key(items.take((c.tags@.len() + j) as int)),
        decreases inline.len() - j,
    {
        let t = inline[j].clone();
        assert(items[(c.tags@.len() + j) as int] == (t@, t@));
        push_first(&mut out, &mut seen, t.clone(), t, Ghost(items), Ghost((c.tags@.len() + j) as int));
        j += 1;
    }
    assert(items.take((c.tags@.len() + inline@.len()) as int) =~= items);
    out
}

/// Appends `value` unless `key` was already seen; records `key` either way.
fn push_first(
    out: &mut Vec<String>,
    seen: &mut Vec<String>,
    value: String,
    key: String,
    Ghost(items): Ghost<Seq<(Seq<char>, Seq<char>)>>,
    Ghost(i): Ghost<int>,
)
    requires
        0 <= i < items.len(),
        items[i] == (value@, key@),
        string_views(old(seen)@) == items.take(i).map_values(|p: (Seq<char>, Seq<char>)| p.1),
        string_views(old(out)@) == first_by_key(items.take(i)),
    ensures
        string_views(final(seen)@) == items.take(i + 1).map_values(|p: (Seq<char>, Seq<char>)| p.1),
        string_views(final(out)@) == first_by_key(items.take(i + 1)),
{
    let ghost pre = items.take(i);
    assert(items.take(i + 1).drop_last() =~= pre);
    assert(items.take(i + 1).last() == (value@, key@));
    let mut dup = false;
    let mut j: usize = 0;
    let ghost sv = string_views(seen@);
    assert(sv.take(0) =~= Seq::<Seq<char>>::empty());
    while j < seen.len()
        invariant
            sv == string_views(seen@),
            0 <= j <= seen.len(),
            dup == sv.take(j as int).contains(key@),
        decreases seen.len() - j,
    {
        let ghost t0 = sv.take(j as int);
        let ghost t1 = sv.take(j + 1);
        assert(t1 =~= t0.push(seen@[j as int]@));
        let eq = crate::text::str_eq(seen[j].as_str(), key.as_str());
        proof {
            if t0.contains(key@) {
                let m = choose|m: int| 0 <= m < t0.len() && t0[m] == key@;
                assert(t1[m] == key@);
            }
            if eq {
                assert(t1[j as int] == key@);
            }
            if t1.contains(key@) {
                let m = choose|m: int| 0 <= m < t1.len() && t1[m] == key@;
                if m < j {
                    assert(t0[m] == key@);
                }
            }
        }
        if eq {
            dup = true;
        }
        j += 1;
    }
    assert(string_views(seen@).take(seen.len() as int) =~= string_views(seen@));
    let ghost kv = key@;
    if !dup {
        let ghost before = out@;
        out.push(value);
        assert(string_views(out@) =~= string_views(before).push(items[i].0));
    }
    let ghost sb = seen@;
    seen.push(key);
    assert(string_views(seen@) =~= string_views(sb).push(kv));
    assert(items.take(i + 1).map_values(|p: (Seq<char>, Seq<char>)| p.1) =~= pre.map_values(|p: (Seq<char>, Seq<char>)| p.1).push(kv));
}

// ---------------------------------------------------------------------------
// Parsing identities.

/// The non-empty `/`-separated parts of `s`.
pub open spec fn nonempty_parts(parts: Seq<Seq<char>>) -> Seq<Seq<char>>
    decreases parts.len(),
{
    if parts.len() == 0 {
        seq![]
    } else if parts.last().len() == 0 {
        nonempty_parts(parts.drop_last())
    } else {
        nonempty_parts(parts.drop_last()).push(parts.last())
    }
}

pub open spec fn id_parts(s: Seq<char>) -> Seq<Seq<char>> {
    nonempty_parts(crate::resolve::split_spec(s, '/'))
}

/// The message okf gives when it refuses `s` as a concept id.
pub uninterp spec fn okf_parse_error(s: Seq<char>) -> Seq<char>;

/// `okf::ConceptId::parse(s)`. Claimed (from okf's source): the id's
/// segments are the non-empty `/`-separated parts of `s`, accepted exactly
/// when there is at least one and each is a valid segment; otherwise the
/// error's text is the named message for `s`.
#[verifier::external_body]
fn okf_parse(s: &str) -> (r: Result<Vec<String>, String>)
    ensures
        match r {
            Ok(v) => valid_id(id_parts(s@)) && string_views(v@) == id_parts(s@),
            Err(m) => !valid_id(id_parts(s@)) && m@ == okf_parse_error(s@),
        },
{
    match okf::ConceptId::parse(s) {
        Ok(id) => Ok(id.segments().to_vec()),
        Err(e) => Err(e.to_string()),
    }
}

pub open spec fn dot_slash() -> Seq<char> {
    seq!['.', '/']
}

/// Every leading `./` removed.
pub open spec fn strip_dot_slash(s: Seq<char>) -> Seq<char>
    decreases s.len(),
{
    if s.len() >= 2 && s.take(2) == dot_slash() {
        strip_dot_slash(s.skip(2))
    } else {
        s
    }
}

/// What a caller-supplied identity names: leading `./`s and a `.md` suffix
/// dropped.
pub open spec fn input_path(input: Seq<char>) -> Seq<char> {
    crate::wikilinks::strip_md(strip_dot_slash(input))
}

/// Parses a caller-supplied identity into a concept id syntactically: a
/// `.md` suffix and leading `./` are tolerated; existence is not checked.
pub fn parse_concept_id(input: &str) -> (r: Result<ConceptId, AppError>)
    ensures
        valid_id(id_parts(input_path(input@))) ==> (r matches Ok(id) && id@ == id_parts(input_path(input@))),
        !valid_id(id_parts(input_path(input@))) ==> (r matches Err(AppError::InvalidConcept { input: i, reason: m })
            && i@ == input@ && m@ == okf_parse_error(input_path(input@))),
{
    let v = str_to_chars(input);
    let mut k: usize = 0;
    assert(v@.skip(0) =~= v@);
    while k < v.len() && v.len() - k >= 2 && v[k] == '.' && v[k + 1] == '/'
        invariant
            v@ == input@,
            0 <= k <= v.len(),
            strip_dot_slash(v@.skip(k as int)) == strip_dot_slash(input@),
        decreases v.len() - k,
    {
        assert(v@.skip(k as int).take(2) =~= dot_slash());
        assert(v@.skip(k as int).skip(2) =~= v@.skip(k + 2));
        k += 2;
    }
    let rest = slice_chars(&v, k, v.len());
    assert(rest@ == v@.skip(k as int));
    assert(!(rest@.len() >= 2 && rest@.take(2) == dot_slash())) by {
        if rest@.len() >= 2 && rest@.take(2) == dot_slash() {
            assert(rest@[0] == '.' && rest@[1] == '/');
        }
    }
    let stripped = crate::resolve::strip_md_chars(&rest);
    let s = chars_to_string(&stripped);
    match okf_parse(s.as_str()) {
        Ok(segs) => Ok(ConceptId { segments: segs }),
        Err(m) => Err(AppError::InvalidConcept { input: crate::text::owned(input), reason: m }),
    }
}

/// `segments` ends with `needle`, aligned on segments.
pub open spec fn ends_with_segs(segments: Seq<Seq<char>>, needle: Seq<Seq<char>>) -> bool {
    segments.len() >= needle.len() && segments.skip(segments.len() - needle.len()) == needle
}

/// `true` if `segments` ends with `needle` (segment-aligned suffix).
pub fn ends_with_segments(segments: &Vec<String>, needle: &Vec<String>) -> (r: bool)
    ensures
        r == ends_with_segs(string_views(segments@), string_views(needle@)),
{
    if segments.len() < needle.len() {
        return false;
    }
    let off = segments.len() - needle.len();
    let ghost sv = string_views(segments@);
    let ghost nv = string_views(needle@);
    let mut i: usize = 0;
    while i < needle.len()
        invariant
            off + needle.len() == segments.len(),
            sv == string_views(segments@),
            nv == string_views(needle@),
            0 <= i <= needle.len(),
            forall|k: int| 0 <= k < i ==> sv[off + k] == nv[k],
        decreases needle.len() - i,
    {
        if !str_eq(segments[off + i].as_str(), needle[i].as_str()) {
            assert(sv.skip(off as int)[i as int] != nv[i as int]);
            return false;
        }
        i += 1;
    }
    assert(sv.skip(off as int) =~= nv);
    true
}


// ---------------------------------------------------------------------------
// Resolving identities against a corpus.

/// Two id lists, each in strict id order, with the same members are equal.
pub proof fn lemma_sorted_unique(a: Seq<Seq<Seq<char>>>, b: Seq<Seq<Seq<char>>>)
    requires
        crate::concept::ids_sorted(a),
        crate::concept::ids_sorted(b),
        forall|x: Seq<Seq<char>>| a.contains(x) <==> #[trigger] b.contains(x),
    ensures
        a == b,
    decreases a.len(),
{
    if a.len() == 0 {
        if b.len() > 0 {
            assert(b.contains(b[0]));
        }
        assert(a =~= b);
    } else {
        assert(a.contains(a[0]));
        assert(b.contains(a[0]));
        assert(b.len() > 0);
        assert(b.contains(b[0]));
        assert(a.contains(b[0]));
        let k = choose|k: int| 0 <= k < a.len() && a[k] == b[0];
        let m = choose|m: int| 0 <= m < b.len() && b[m] == a[0];
        if k > 0 && m > 0 {
            crate::concept::lemma_id_lt_asym(a[0], a[k]);
        } else if k > 0 {
            crate::concept::lemma_id_lt_irrefl(a[0]);
        }
        assert(a[0] == b[0]);
        let a1 = a.drop_first();
        let b1 = b.drop_first();
        assert forall|x: Seq<Seq<char>>| a1.contains(x) <==> #[trigger] b1.contains(x) by {
            if a1.contains(x) {
                let i = choose|i: int| 0 <= i < a1.len() && a1[i] == x;
                assert(a[i + 1] == x);
                assert(a.contains(x));
                assert(b.contains(x));
                let j = choose|j: int| 0 <= j < b.len() && b[j] == x;
                if j == 0 {
                    crate::concept::lemma_id_lt_irrefl(a[0]);
                }
                assert(b1[j - 1] == x);
            }
            if b1.contains(x) {
                let i = choose|i: int| 0 <= i < b1.len() && b1[i] == x;
                assert(b[i + 1] == x);
                assert(b.contains(x));
                assert(a.contains(x));
                let j = choose|j: int| 0 <= j < a.len() && a[j] == x;
                if j == 0 {
                    crate::concept::lemma_id_lt_irrefl(b[0]);
                }
                assert(a1[j - 1] == x);
            }
        }
        lemma_sorted_unique(a1, b1);
        assert(a =~= seq![a[0]] + a1);
        assert(b =~= seq![b[0]] + b1);
    }
}

/// A visible concept whose id ends with `needle`, segment-aligned.
pub open spec fn suffix_hit(c: Corpus, needle: Seq<Seq<char>>, x: Seq<Seq<char>>) -> bool {
    exists|j: int| #[trigger] c.visible(j) && c.bundle_view()[j].id@ == x && ends_with_segs(x, needle)
}

/// The key an alias lookup compares: the input trimmed and lowercased.
pub open spec fn alias_key(input: Seq<char>) -> Seq<char> {
    unicode_lower_str(trim_spec(input))
}

/// A visible concept with an alias equal to `key` case-insensitively (an
/// empty key matches nothing).
pub open spec fn alias_hit(c: Corpus, key: Seq<char>, x: Seq<Seq<char>>) -> bool {
    key.len() > 0 && exists|j: int| #[trigger] c.visible(j) && c.bundle_view()[j].id@ == x
        && crate::graph::lower_all(aliases_spec(c.bundle_view()[j])).contains(key)
}

pub open spec fn is_suffix_list(c: Corpus, needle: Seq<Seq<char>>, s: Seq<Seq<Seq<char>>>) -> bool {
    crate::concept::ids_sorted(s) && forall|x: Seq<Seq<char>>| s.contains(x) <==> #[trigger] suffix_hit(c, needle, x)
}

pub open spec fn is_alias_list(c: Corpus, key: Seq<char>, s: Seq<Seq<Seq<char>>>) -> bool {
    crate::concept::ids_sorted(s) && forall|x: Seq<Seq<char>>| s.contains(x) <==> #[trigger] alias_hit(c, key, x)
}

/// The suffix matches in id order.
pub open spec fn suffix_list(c: Corpus, needle: Seq<Seq<char>>) -> Seq<Seq<Seq<char>>> {
    choose|s: Seq<Seq<Seq<char>>>| is_suffix_list(c, needle, s)
}

/// The alias matches in id order.
pub open spec fn alias_list(c: Corpus, key: Seq<char>) -> Seq<Seq<Seq<char>>> {
    choose|s: Seq<Seq<Seq<char>>>| is_alias_list(c, key, s)
}

/// The ids of the visible concepts flagged in `mask`, in id order.
#[verifier::rlimit(60)]
fn collect_ids(c: &Corpus, mask: &Vec<bool>) -> (r: Vec<ConceptId>)
    requires
        c.wf(),
        mask@.len() == c.bundle_view().len(),
    ensures
        crate::concept::ids_sorted(id_views(r@)),
        forall|x: Seq<Seq<char>>| id_views(r@).contains(x) <==> exists|j: int| #[trigger] c.visible(j) && mask@[j] && c.bundle_view()[j].id@ == x,
{
    let vis = c.visible_indices();
    let cs = c.bundle().concepts();
    let ghost bv = c.bundle_view();
    let mut out: Vec<ConceptId> = Vec::new();
    let ghost mut src: Seq<int> = seq![];
    let mut i: usize = 0;
    while i < vis.len()
        invariant
            c.wf(),
            cs@ == bv,
            bv == c.bundle_view(),
            mask@.len() == bv.len(),
            forall|q: int| 0 <= q < vis@.len() ==> c.visible(#[trigger] vis@[q] as int),
            forall|q: int, w: int| 0 <= q < w < vis@.len() ==> #[trigger] vis@[q] < #[trigger] vis@[w],
            forall|j: int| #[trigger] c.visible(j) ==> exists|q: int| 0 <= q < vis@.len() && vis@[q] == j,
            0 <= i <= vis@.len(),
            src.len() == out@.len(),
            forall|m: int| 0 <= m < src.len() ==> c.visible(#[trigger] src[m]) && mask@[src[m]] && out@[m]@ == bv[src[m]].id@,
            forall|m: int, w: int| 0 <= m < w < src.len() ==> #[trigger] src[m] < #[trigger] src[w],
            forall|m: int| 0 <= m < src.len() ==> exists|q: int| 0 <= q < i && vis@[q] == #[trigger] src[m],
            forall|q: int| 0 <= q < i && mask@[#[trigger] vis@[q] as int] ==> exists|m: int| 0 <= m < src.len() && src[m] == vis@[q],
        decreases vis@.len() - i,
    {
        let j = vis[i];
        let ghost old_src = src;
        if mask[j] {
            out.push(cs[j].id.duplicate());
            proof {
                src = src.push(j as int);
                assert forall|m: int, w: int| 0 <= m < w < src.len() implies #[trigger] src[m] < #[trigger] src[w] by {
                    if w == src.len() - 1 {
                        let q = choose|q: int| 0 <= q < i && vis@[q] == old_src[m];
                        assert(vis@[q] < vis@[i as int]);
                    }
                }
            }
        }
        proof {
            assert forall|m: int| 0 <= m < src.len() implies exists|q: int| 0 <= q < i + 1 && vis@[q] == #[trigger] src[m] by {
                if m < old_src.len() {
                    let q = choose|q: int| 0 <= q < i && vis@[q] == old_src[m];
                    assert(vis@[q] == src[m]);
                } else {
                    assert(vis@[i as int] == src[m]);
                }
            }
            assert forall|q: int| 0 <= q < i + 1 && mask@[#[trigger] vis@[q] as int] implies exists|m: int| 0 <= m < src.len() && src[m] == vis@[q] by {
                if q == i {
                    assert(src[src.len() - 1] == vis@[q]);
                } else {
                    let m = choose|m: int| 0 <= m < old_src.len() && old_src[m] == vis@[q];
                    assert(src[m] == vis@[q]);
                }
            }
        }
        i += 1;
    }
    proof {
        assert forall|a: int, b: int| 0 <= a < b < out@.len() implies #[trigger] id_views(out@)[a] != #[trigger] id_views(out@)[b] by {
            assert(src[a] < src[b]);
            assert(Bundle::distinct_ids(bv));
            assert(bv[src[a]].id@ != bv[src[b]].id@);
        }
    }
    let sorted = crate::concept::sort_ids(out);
    proof {
        assert forall|x: Seq<Seq<char>>| id_views(sorted@).contains(x) <==> exists|j: int| #[trigger] c.visible(j) && mask@[j] && c.bundle_view()[j].id@ == x by {
            if id_views(out@).contains(x) {
                let m = choose|m: int| 0 <= m < id_views(out@).len() && id_views(out@)[m] == x;
                assert(c.visible(src[m]) && mask@[src[m]] && bv[src[m]].id@ == x);
            }
            if exists|j: int| #[trigger] c.visible(j) && mask@[j] && c.bundle_view()[j].id@ == x {
                let j = choose|j: int| #[trigger] c.visible(j) && mask@[j] && c.bundle_view()[j].id@ == x;
                let q = choose|q: int| 0 <= q < vis@.len() && vis@[q] == j;
                let m = choose|m: int| 0 <= m < src.len() && src[m] == vis@[q];
                assert(id_views(out@)[m] == x);
            }
        }
    }
    sorted
}

/// The visible concepts whose id ends with `needle`, in id order.
fn suffix_matches(c: &Corpus, needle: &ConceptId) -> (r: Vec<ConceptId>)
    requires
        c.wf(),
    ensures
        id_views(r@) == suffix_list(*c, needle@),
        is_suffix_list(*c, needle@, id_views(r@)),
{
    let cs = c.bundle().concepts();
    let mut mask: Vec<bool> = Vec::new();
    let mut j: usize = 0;
    while j < cs.len()
        invariant
            cs@ == c.bundle_view(),
            0 <= j <= cs.len(),
            mask@.len() == j,
            forall|k: int| 0 <= k < j ==> #[trigger] mask@[k] == ends_with_segs(cs@[k].id@, needle@),
        decreases cs.len() - j,
    {
        mask.push(ends_with_segments(cs[j].id.segments(), needle.segments()));
        j += 1;
    }
    let r = collect_ids(c, &mask);
    proof {
        assert forall|x: Seq<Seq<char>>| id_views(r@).contains(x) <==> #[trigger] suffix_hit(*c, needle@, x) by {
            if suffix_hit(*c, needle@, x) {
                let j = choose|j: int| #[trigger] c.visible(j) && c.bundle_view()[j].id@ == x && ends_with_segs(x, needle@);
                assert(mask@[j]);
            }
        }
        assert(is_suffix_list(*c, needle@, id_views(r@)));
        let sl = suffix_list(*c, needle@);
        assert(is_suffix_list(*c, needle@, sl));
        assert forall|x: Seq<Seq<char>>| id_views(r@).contains(x) <==> #[trigger] sl.contains(x) by {
            let w = id_views(r@);
            assert(w.contains(x) <==> suffix_hit(*c, needle@, x));
            assert(sl.contains(x) <==> suffix_hit(*c, needle@, x));
        }
        lemma_sorted_unique(id_views(r@), sl);
    }
    r
}

/// The visible concepts with a frontmatter alias equal to `input`
/// (trimmed, case-insensitively), in id order. Empty input matches nothing.
pub fn alias_matches(c: &Corpus, input: &str) -> (r: Vec<ConceptId>)
    requires
        c.wf(),
    ensures
        id_views(r@) == alias_list(*c, alias_key(input@)),
        is_alias_list(*c, alias_key(input@), id_views(r@)),
{
    let t = trim_chars(&str_to_chars(input));
    let ts = chars_to_string(&t);
    let key = crate::text::str_lowercase(ts.as_str());
    let key_len = str_to_chars(key.as_str()).len();
    let cs = c.bundle().concepts();
    let mut mask: Vec<bool> = Vec::new();
    let mut j: usize = 0;
    while j < cs.len()
        invariant
            cs@ == c.bundle_view(),
            key@ == alias_key(input@),
            key_len == key@.len(),
            0 <= j <= cs.len(),
            mask@.len() == j,
            forall|k: int| 0 <= k < j ==> #[trigger] mask@[k] == (key@.len() > 0
                && crate::graph::lower_all(aliases_spec(cs@[k])).contains(key@)),
        decreases cs.len() - j,
    {
        let mut hit = false;
        if key_len > 0 {
            let al = concept_aliases(&cs[j]);
            let mut m: usize = 0;
            let ghost lv = crate::graph::lower_all(string_views(al@));
            assert(lv.take(0) =~= Seq::<Seq<char>>::empty());
            while m < al.len()
                invariant
                    string_views(al@) == aliases_spec(cs@[j as int]),
                    lv == crate::graph::lower_all(string_views(al@)),
                    0 <= m <= al.len(),
                    hit == lv.take(m as int).contains(key@),
                decreases al.len() - m,
            {
                let low = crate::text::str_lowercase(al[m].as_str());
                let eq = str_eq(low.as_str(), key.as_str());
                proof {
                    let t0 = lv.take(m as int);
                    let t1 = lv.take(m + 1);
                    assert(t1 =~= t0.push(lv[m as int]));
                    if t0.contains(key@) {
                        let q = choose|q: int| 0 <= q < t0.len() && t0[q] == key@;
                        assert(t1[q] == key@);
                    }
                    if t1.contains(key@) {
                        let q = choose|q: int| 0 <= q < t1.len() && t1[q] == key@;
                        if q < m {
                            assert(t0[q] == key@);
                        }
                    }
                    if eq {
                        assert(t1[m as int] == key@);
                    }
                }
                if eq {
                    hit = true;
                }
                m += 1;
            }
            assert(lv.take(al.len() as int) =~= lv);
        }
        mask.push(hit);
        j += 1;
    }
    let r = collect_ids(c, &mask);
    proof {
        assert forall|x: Seq<Seq<char>>| id_views(r@).contains(x) <==> #[trigger] alias_hit(*c, key@, x) by {
            if alias_hit(*c, key@, x) {
                let j = choose|j: int| #[trigger] c.visible(j) && c.bundle_view()[j].id@ == x
                    && crate::graph::lower_all(aliases_spec(c.bundle_view()[j])).contains(key@);
                assert(mask@[j]);
            }
        }
        assert(is_alias_list(*c, key@, id_views(r@)));
        let al = alias_list(*c, key@);
        assert(is_alias_list(*c, key@, al));
        assert forall|x: Seq<Seq<char>>| id_views(r@).contains(x) <==> #[trigger] al.contains(x) by {
            let w = id_views(r@);
            assert(w.contains(x) <==> alias_hit(*c, key@, x));
            assert(al.contains(x) <==> alias_hit(*c, key@, x));
        }
        lemma_sorted_unique(id_views(r@), al);
    }
    r
}

pub open spec fn id_texts(v: Seq<Seq<Seq<char>>>) -> Seq<Seq<char>> {
    v.map_values(|x: Seq<Seq<char>>| crate::concept::join_slash(x))
}

fn texts(v: &Vec<ConceptId>) -> (r: Vec<String>)
    ensures
        string_views(r@) == id_texts(id_views(v@)),
{
    let mut r: Vec<String> = Vec::new();
    let mut i: usize = 0;
    while i < v.len()
        invariant
            0 <= i <= v.len(),
            string_views(r@) == id_texts(id_views(v@)).take(i as int),
        decreases v.len() - i,
    {
        let t = v[i].to_text();
        let ghost before = r@;
        r.push(t);
        assert(string_views(r@) =~= id_texts(id_views(v@)).take(i + 1)) by {
            assert(string_views(r@) =~= string_views(before).push(t@));
        }
        i += 1;
    }
    assert(id_texts(id_views(v@)).take(v.len() as int) =~= id_texts(id_views(v@)));
    r
}

/// What resolving `input` against the corpus gives: the exact id (or
/// `.md` path) when a visible concept has it; else the unique segment-aligned
/// suffix match; several are ambiguous; failing those, the unique alias
/// match; several are ambiguous; none is "not found", or the syntax error
/// when the input is not a valid id.
pub open spec fn resolution(corpus: Corpus, input: Seq<char>, r: Result<ConceptId, AppError>) -> bool {
    let p = id_parts(input_path(input));
    let ok = valid_id(p);
    let s = suffix_list(corpus, p);
    let a = alias_list(corpus, alias_key(input));
    &&& ok && corpus.has(p) ==> (r matches Ok(id) && id@ == p)
    &&& ok && !corpus.has(p) && s.len() == 1 ==> (r matches Ok(id) && id@ == s[0])
    &&& ok && !corpus.has(p) && s.len() >= 2 ==> (r matches Err(AppError::ConceptAmbiguous { input: i, candidates: cs })
        && i@ == input && string_views(cs@) == id_texts(s))
    &&& (!ok || (!corpus.has(p) && s.len() == 0)) && a.len() == 1 ==> (r matches Ok(id) && id@ == a[0])
    &&& (!ok || (!corpus.has(p) && s.len() == 0)) && a.len() >= 2 ==> (r matches Err(AppError::ConceptAmbiguous { input: i, candidates: cs })
        && i@ == input && string_views(cs@) == id_texts(a))
    &&& !ok && a.len() == 0 ==> (r matches Err(AppError::InvalidConcept { input: i, reason: m })
        && i@ == input && m@ == okf_parse_error(input_path(input)))
    &&& ok && !corpus.has(p) && s.len() == 0 && a.len() == 0 ==> (r matches Err(AppError::ConceptNotFound { input: i }) && i@ == input)
}

/// Resolves a caller-supplied identity to an existing (visible) concept.
///
/// An exact id (or `.md` path) wins; otherwise a unique segment-aligned
/// suffix (`0002-foo` finds `adrs/0002-foo`); failing that, a unique
/// frontmatter alias, case-insensitively. Several suffix or alias matches
/// are ambiguous and list the candidates in id order; no match is "not
/// found", or the syntax error when the input is not even a valid id.
pub fn resolve_concept(corpus: &Corpus, input: &str) -> (r: Result<ConceptId, AppError>)
    requires
        corpus.wf(),
    ensures
        resolution(*corpus, input@, r),
        r matches Ok(id) ==> corpus.has(id@),
{
    match parse_concept_id(input) {
        Ok(parsed) => {
            if corpus.contains(&parsed) {
                return Ok(parsed);
            }
            let matches = suffix_matches(corpus, &parsed);
            if matches.len() == 1 {
                proof {
                    assert(id_views(matches@)[0] == matches@[0]@);
                    assert(id_views(matches@).contains(matches@[0]@));
                    assert(suffix_hit(*corpus, parsed@, matches@[0]@));
                }
                return Ok(matches[0].duplicate());
            }
            if matches.len() > 1 {
                return Err(AppError::ConceptAmbiguous { input: crate::text::owned(input), candidates: texts(&matches) });
            }
        },
        Err(_) => {},
    }
    let aliased = alias_matches(corpus, input);
    if aliased.len() == 1 {
        proof {
            assert(id_views(aliased@)[0] == aliased@[0]@);
            assert(id_views(aliased@).contains(aliased@[0]@));
            assert(alias_hit(*corpus, alias_key(input@), aliased@[0]@));
        }
        return Ok(aliased[0].duplicate());
    }
    if aliased.len() == 0 {
        return match parse_concept_id(input) {
            Err(e) => Err(e),
            Ok(_) => Err(AppError::ConceptNotFound { input: crate::text::owned(input) }),
        };
    }
    Err(AppError::ConceptAmbiguous { input: crate::text::owned(input), candidates: texts(&aliased) })
}


// ---------------------------------------------------------------------------
// The shared concept envelope.

/// One concept as it appears in a shortlist: identity, location and the
/// frontmatter an agent needs to decide whether to expand it, never the body.
pub struct ConceptRecord {
    /// The concept id (path minus `.md`).
    pub id: String,
    /// The frontmatter `type`, if present.
    pub type_: Option<String>,
    /// The title: the frontmatter `title`, or the filename if none.
    pub title: String,
    /// The concept's path relative to the bundle root.
    pub path: String,
    /// 1-based line where the concept begins (always 1).
    pub line: usize,
    /// The concept's tags (frontmatter and inline).
    pub tags: Vec<String>,
    /// Trust and lifecycle values, each left out at its default.
    pub trust: crate::trust::ConceptTrust,
}

impl ConceptRecord {
    /// What a record built from concept `c` holds.
    pub open spec fn describes(&self, c: Concept) -> bool {
        &&& self.id@ == crate::concept::join_slash(c.id@)
        &&& crate::trust::opt_view(self.type_) == crate::trust::opt_view(c.type_)
        &&& self.title@ == title_spec(c)
        &&& self.path@ == c.path@
        &&& self.line == 1
        &&& string_views(self.tags@) == tags_spec(c)
        &&& self.trust.view_tuple() == crate::trust::trust_of_spec(c)
    }

    /// Builds the record of a loaded concept.
    pub fn from_concept(c: &Concept) -> (r: ConceptRecord)
        ensures
            r.describes(*c),
    {
        let type_ = match &c.type_ {
            Some(t) => Some(t.clone()),
            None => None,
        };
        ConceptRecord {
            id: c.id.to_text(),
            type_,
            title: concept_title(c),
            path: c.path.clone(),
            line: 1,
            tags: concept_tags(c),
            trust: crate::trust::ConceptTrust::of(c),
        }
    }
}

} // verus!
