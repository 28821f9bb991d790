//! `okq get`: expand one concept on demand.
//!
//! Resolves a concept by identity, then selects what to emit: frontmatter
//! and/or body, or a single section or frontmatter field. Selectors are
//! additive; with none, frontmatter and the full body are shown.

use vstd::prelude::*;
use crate::cli::GetArgs;
use crate::concept::{ConceptId, join_slash};
use crate::error::AppError;
use crate::fmt::{decimal_string, digits, pad_right, pad_right_spec, push_str};
use crate::commands::find::{dim_on, join_comma, push_joined};
use crate::commands::graph::{at, loc_off};
use crate::graph::min_usize;
use crate::sections::byte_len;
use crate::style::{dim_style, loc_style};
use crate::text::{trim_chars, trim_end_chars, trim_end_spec, trim_spec};
use crate::trust::labels_spec;
use crate::model::{Concept, ConceptRecord, Field, resolution, resolve_concept, title_spec};
pub use crate::model::{TrustEvent, TrustEvents};
use crate::sections::{Section, body_start_line, body_start_spec, cmark_events, events_ok, parse_sections, section_view, section_views, sections_spec, slugify, slugify_spec};
use crate::text::{owned, str_eq, str_lowercase, str_to_chars, string_views, unicode_lower_str, chars_to_string};
use crate::trust::{ConceptTrust, opt_view, trust_of_spec};
use crate::view::Corpus;

verus! {

/// A section as it appears in the envelope.
pub struct SectionOut {
    /// Heading text.
    pub heading: String,
    /// Slugified heading.
    pub slug: String,
    /// Heading depth, 1–6.
    pub level: u8,
    /// 1-based source line of the heading.
    pub line: usize,
    /// Section source markdown.
    pub body: String,
}

/// Which frontmatter the envelope carries.
pub enum FrontmatterPick {
    /// All of it.
    Whole,
    /// The one field `--field` selected: its key and its position among the
    /// concept's fields.
    Field(String, usize),
}

/// The `okq.get/v1` envelope.
pub struct GetOutput {
    /// `okq.get/v1`.
    pub schema: String,
    /// The concept id.
    pub id: String,
    /// The concept's path relative to the bundle root.
    pub path: String,
    /// 1-based line where the concept begins (always 1).
    pub line: usize,
    /// The frontmatter `type`, if present.
    pub type_: Option<String>,
    /// The title: the frontmatter `title`, or the filename.
    pub title: String,
    /// Trust and lifecycle values, each left out at its default.
    pub trust: ConceptTrust,
    /// The `generated` and `verified` events, when the concept has any.
    pub provenance: Option<TrustEvents>,
    /// The frontmatter requested, if any.
    pub frontmatter: Option<FrontmatterPick>,
    /// The full body, if requested.
    pub body: Option<String>,
    /// The selected section, with `--section`.
    pub sections: Option<Vec<SectionOut>>,
}

/// The result of a `get`: the envelope plus the text the human rendering
/// prints for the frontmatter or the one field.
pub struct Got {
    /// The envelope.
    pub output: GetOutput,
    /// The frontmatter as YAML, when the whole frontmatter was requested.
    pub frontmatter_yaml: Option<String>,
    /// The selected field's value, rendered bare, with `--field`.
    pub field_yaml: Option<String>,
}

// ---------------------------------------------------------------------------
// --field

pub open spec fn fold_underscores(s: Seq<char>) -> Seq<char> {
    s.map_values(|c: char| if c == '_' { '-' } else { c })
}

/// A key for lenient matching: lowercased, `_` folded to `-`.
pub open spec fn normalize_spec(k: Seq<char>) -> Seq<char> {
    fold_underscores(unicode_lower_str(k))
}

/// Normalizes a frontmatter key for lenient matching: lowercased, with `_`
/// folded to `-`.
pub fn normalize_key(key: &str) -> (r: String)
    ensures
        r@ == normalize_spec(key@),
{
    let l = str_lowercase(key);
    let v = str_to_chars(l.as_str());
    let mut out: Vec<char> = Vec::new();
    let mut i: usize = 0;
    while i < v.len()
        invariant
            0 <= i <= v.len(),
            out@ == fold_underscores(v@.take(i as int)),
        decreases v.len() - i,
    {
        let c = v[i];
        out.push(if c == '_' { '-' } else { c });
        assert(out@ =~= fold_underscores(v@.take(i + 1)));
        i += 1;
    }
    assert(v@.take(v.len() as int) =~= v@);
    chars_to_string(&out)
}

/// A key `--field` selects: the exact name, or the same up to case and
/// `-`/`_`.
pub open spec fn field_hit(k: Seq<char>, q: Seq<char>) -> bool {
    k == q || normalize_spec(k) == normalize_spec(q)
}

/// The positions, among the first `n` fields, of those a query selects.
pub open spec fn field_hits(fields: Seq<Field>, q: Seq<char>, n: int) -> Seq<int>
    decreases n,
{
    if n <= 0 {
        seq![]
    } else {
        let p = field_hits(fields, q, n - 1);
        if field_hit(fields[n - 1].key@, q) {
            p.push(n - 1)
        } else {
            p
        }
    }
}

/// What selecting a field gives: the one match, or not-found, or an
/// ambiguity listing the matching keys in order.
pub open spec fn field_choice(fields: Seq<Field>, q: Seq<char>, concept: Seq<char>, r: Result<usize, AppError>) -> bool {
    let h = field_hits(fields, q, fields.len() as int);
    &&& h.len() == 0 ==> (r matches Err(AppError::FieldNotFound { concept: c, query: x }) && c@ == concept && x@ == q)
    &&& h.len() == 1 ==> (r matches Ok(k) && k == h[0])
    &&& h.len() >= 2 ==> (r matches Err(AppError::FieldAmbiguous { concept: c, query: x, candidates: cs })
        && c@ == concept && x@ == q && string_views(cs@) == h.map_values(|k: int| fields[k].key@))
}

/// Selects the one frontmatter key matching `query` exactly or leniently;
/// zero or several matches are errors.
pub fn select_field(fields: &Vec<Field>, query: &str, concept: &str) -> (r: Result<usize, AppError>)
    ensures
        field_choice(fields@, query@, concept@, r),
        r matches Ok(k) ==> k < fields@.len(),
{
    let qn = normalize_key(query);
    let mut hits: Vec<usize> = Vec::new();
    let mut i: usize = 0;
    while i < fields.len()
        invariant
            qn@ == normalize_spec(query@),
            0 <= i <= fields.len(),
            hits@.len() == field_hits(fields@, query@, i as int).len(),
            forall|k: int| 0 <= k < hits@.len() ==> #[trigger] hits@[k] as int == field_hits(fields@, query@, i as int)[k],
            forall|k: int| 0 <= k < hits@.len() ==> #[trigger] hits@[k] < i,
        decreases fields.len() - i,
    {
        let k = &fields[i].key;
        let kn = normalize_key(k.as_str());
        if str_eq(k.as_str(), query) || str_eq(kn.as_str(), qn.as_str()) {
            hits.push(i);
        }
        i += 1;
    }
    let ghost h = field_hits(fields@, query@, fields@.len() as int);
    if hits.len() == 0 {
        return Err(AppError::FieldNotFound { concept: owned(concept), query: owned(query) });
    }
    if hits.len() == 1 {
        return Ok(hits[0]);
    }
    let mut cands: Vec<String> = Vec::new();
    let mut j: usize = 0;
    while j < hits.len()
        invariant
            h == field_hits(fields@, query@, fields@.len() as int),
            hits@.len() == h.len(),
            forall|k: int| 0 <= k < hits@.len() ==> #[trigger] hits@[k] as int == h[k],
            forall|k: int| 0 <= k < hits@.len() ==> #[trigger] hits@[k] < fields@.len(),
            0 <= j <= hits.len(),
            string_views(cands@) == h.map_values(|k: int| fields@[k].key@).take(j as int),
        decreases hits.len() - j,
    {
        let ghost before = cands@;
        cands.push(owned(fields[hits[j]].key.as_str()));
        assert(string_views(cands@) =~= h.map_values(|k: int| fields@[k].key@).take(j + 1)) by {
            assert(string_views(cands@) =~= string_views(before).push(fields@[hits@[j as int] as int].key@));
        }
        j += 1;
    }
    assert(h.map_values(|k: int| fields@[k].key@).take(hits.len() as int) =~= h.map_values(|k: int| fields@[k].key@));
    Err(AppError::FieldAmbiguous { concept: owned(concept), query: owned(query), candidates: cands })
}

// ---------------------------------------------------------------------------
// --section

/// A section `--section` selects: its heading up to case, or its slug
/// (equal to the query's slug, or to the query as given).
pub open spec fn section_hit(s: (Seq<char>, Seq<char>, u8, usize, Seq<char>), q: Seq<char>) -> bool {
    unicode_lower_str(s.0) == unicode_lower_str(q) || s.1 == slugify_spec(q) || s.1 == q
}

pub open spec fn section_hits(secs: Seq<(Seq<char>, Seq<char>, u8, usize, Seq<char>)>, q: Seq<char>, n: int) -> Seq<int>
    decreases n,
{
    if n <= 0 {
        seq![]
    } else {
        let p = section_hits(secs, q, n - 1);
        if section_hit(secs[n - 1], q) {
            p.push(n - 1)
        } else {
            p
        }
    }
}

/// How an ambiguous match names a section: `heading (line N)`.
pub open spec fn section_label(s: (Seq<char>, Seq<char>, u8, usize, Seq<char>)) -> Seq<char> {
    s.0 + seq![' ', '(', 'l', 'i', 'n', 'e', ' '] + digits(s.3 as nat) + seq![')']
}

/// What selecting a section gives: the one match, or not-found, or an
/// ambiguity listing the matches in order.
pub open spec fn section_choice(secs: Seq<(Seq<char>, Seq<char>, u8, usize, Seq<char>)>, q: Seq<char>, concept: Seq<char>, r: Result<usize, AppError>) -> bool {
    let h = section_hits(secs, q, secs.len() as int);
    &&& h.len() == 0 ==> (r matches Err(AppError::SectionNotFound { concept: c, query: x }) && c@ == concept && x@ == q)
    &&& h.len() == 1 ==> (r matches Ok(k) && k == h[0])
    &&& h.len() >= 2 ==> (r matches Err(AppError::SectionAmbiguous { concept: c, query: x, candidates: cs })
        && c@ == concept && x@ == q && string_views(cs@) == h.map_values(|k: int| section_label(secs[k])))
}

/// The hits are the matching positions, in increasing order.
proof fn lemma_section_hits(secs: Seq<(Seq<char>, Seq<char>, u8, usize, Seq<char>)>, q: Seq<char>, n: int)
    ensures
        forall|a: int| 0 <= a < section_hits(secs, q, n).len() ==> 0 <= #[trigger] section_hits(secs, q, n)[a] < n
            && section_hit(secs[section_hits(secs, q, n)[a]], q),
        forall|a: int, b: int| 0 <= a < b < section_hits(secs, q, n).len()
            ==> #[trigger] section_hits(secs, q, n)[a] < #[trigger] section_hits(secs, q, n)[b],
        forall|k: int| 0 <= k < n && section_hit(secs[k], q) ==> #[trigger] section_hits(secs, q, n).contains(k),
    decreases n,
{
    if n > 0 {
        lemma_section_hits(secs, q, n - 1);
        let p = section_hits(secs, q, n - 1);
        let h = section_hits(secs, q, n);
        if section_hit(secs[n - 1], q) {
            assert(h == p.push(n - 1));
            assert(h[p.len() as int] == n - 1);
            assert forall|k: int| 0 <= k < n && section_hit(secs[k], q) implies #[trigger] h.contains(k) by {
                if k < n - 1 {
                    assert(p.contains(k));
                    let a = choose|a: int| 0 <= a < p.len() && p[a] == k;
                    assert(h[a] == k);
                }
            }
        } else {
            assert(h == p);
        }
    }
}

/// Section `s` answers to the query `q`: by heading up to case, by the
/// query's slug, or by its slug as given.
pub open spec fn answers_to(s: (Seq<char>, Seq<char>, u8, usize, Seq<char>), q: Seq<char>) -> bool {
    ||| unicode_lower_str(s.0) == unicode_lower_str(q)
    ||| s.1 == slugify_spec(q)
    ||| s.1 == q
}

/// Section `i` is the only one answering to `q`.
pub open spec fn only_answer(secs: Seq<(Seq<char>, Seq<char>, u8, usize, Seq<char>)>, q: Seq<char>, i: int) -> bool {
    forall|j: int| 0 <= j < secs.len() && j != i ==> !answers_to(#[trigger] secs[j], q)
}

/// `--section` finds a section by its heading up to case, by the slug of
/// the query, or by the slug as given: such a section is never reported
/// missing, is listed when several match, and is the answer when it is the
/// only one that matches.
pub proof fn lemma_section_query(
    secs: Seq<(Seq<char>, Seq<char>, u8, usize, Seq<char>)>,
    q: Seq<char>,
    concept: Seq<char>,
    r: Result<usize, AppError>,
    i: int,
)
    requires
        section_choice(secs, q, concept, r),
        0 <= i < secs.len(),
        answers_to(secs[i], q),
    ensures
        !(r matches Err(AppError::SectionNotFound { .. })),
        only_answer(secs, q, i) ==> r == Ok::<usize, AppError>(i as usize),
        r matches Ok(k) ==> k < secs.len() && answers_to(secs[k as int], q),
        r matches Err(AppError::SectionAmbiguous { candidates: cs, .. }) ==> string_views(cs@).contains(section_label(secs[i])),
{
    let n = secs.len() as int;
    lemma_section_hits(secs, q, n);
    let h = section_hits(secs, q, n);
    assert(h.contains(i));
    let a = choose|a: int| 0 <= a < h.len() && h[a] == i;
    if only_answer(secs, q, i) {
        assert forall|b: int| 0 <= b < h.len() implies h[b] == i by {
            let k = h[b];
            assert(0 <= k < n && section_hit(secs[k], q));
            if k != i {
                assert(!answers_to(secs[k], q));
            }
        }
        if h.len() >= 2 {
            assert(h[0] < h[1]);
        }
        assert(h.len() == 1);
        assert(h[0] == i);
        if let Ok(k) = r {
            assert(k as int == i);
            assert(r == Ok::<usize, AppError>(i as usize));
        }
    }
    if let Ok(k) = r {
        assert(h.len() == 1 && k == h[0]);
    }
    if r matches Err(AppError::SectionAmbiguous { candidates: cs, .. }) {
        let labels = h.map_values(|k: int| section_label(secs[k]));
        assert(labels[a] == section_label(secs[i]));
    }
}

fn section_label_text(s: &Section) -> (r: String)
    ensures
        r@ == section_label(section_view(*s)),
{
    let mut t = owned(s.heading.as_str());
    t.push(' ');
    t.push('(');
    t.push('l');
    t.push('i');
    t.push('n');
    t.push('e');
    t.push(' ');
    let n = decimal_string(s.line as u64);
    push_str(&mut t, n.as_str());
    t.push(')');
    t
}

/// Selects the one section matching `query` by heading (any case) or slug;
/// zero or several matches are errors. `concept` names the document
/// searched, for the message.
pub fn select_section(sections: &Vec<Section>, query: &str, concept: &str) -> (r: Result<usize, AppError>)
    ensures
        section_choice(section_views(sections@), query@, concept@, r),
        r matches Ok(k) ==> k < sections@.len(),
{
    let ghost sv = section_views(sections@);
    let ql = str_lowercase(query);
    let qs = slugify(query);
    let mut hits: Vec<usize> = Vec::new();
    let mut i: usize = 0;
    while i < sections.len()
        invariant
            sv == section_views(sections@),
            ql@ == unicode_lower_str(query@),
            qs@ == slugify_spec(query@),
            0 <= i <= sections.len(),
            hits@.len() == section_hits(sv, query@, i as int).len(),
            forall|k: int| 0 <= k < hits@.len() ==> #[trigger] hits@[k] as int == section_hits(sv, query@, i as int)[k],
            forall|k: int| 0 <= k < hits@.len() ==> #[trigger] hits@[k] < i,
        decreases sections.len() - i,
    {
        let s = &sections[i];
        assert(sv[i as int] == section_view(*s));
        let hl = str_lowercase(s.heading.as_str());
        if str_eq(hl.as_str(), ql.as_str()) || str_eq(s.slug.as_str(), qs.as_str()) || str_eq(s.slug.as_str(), query) {
            hits.push(i);
        }
        i += 1;
    }
    let ghost h = section_hits(sv, query@, sv.len() as int);
    if hits.len() == 0 {
        return Err(AppError::SectionNotFound { concept: owned(concept), query: owned(query) });
    }
    if hits.len() == 1 {
        return Ok(hits[0]);
    }
    let mut cands: Vec<String> = Vec::new();
    let mut j: usize = 0;
    while j < hits.len()
        invariant
            sv == section_views(sections@),
            h == section_hits(sv, query@, sv.len() as int),
            hits@.len() == h.len(),
            forall|k: int| 0 <= k < hits@.len() ==> #[trigger] hits@[k] as int == h[k],
            forall|k: int| 0 <= k < hits@.len() ==> #[trigger] hits@[k] < sections@.len(),
            0 <= j <= hits.len(),
            string_views(cands@) == h.map_values(|k: int| section_label(sv[k])).take(j as int),
        decreases hits.len() - j,
    {
        let ghost before = cands@;
        let l = section_label_text(&sections[hits[j]]);
        cands.push(l);
        assert(string_views(cands@) =~= h.map_values(|k: int| section_label(sv[k])).take(j + 1)) by {
            assert(sv[hits@[j as int] as int] == section_view(sections@[hits@[j as int] as int]));
            assert(string_views(cands@) =~= string_views(before).push(l@));
        }
        j += 1;
    }
    assert(h.map_values(|k: int| section_label(sv[k])).take(hits.len() as int) =~= h.map_values(|k: int| section_label(sv[k])));
    Err(AppError::SectionAmbiguous { concept: owned(concept), query: owned(query), candidates: cands })
}

// ---------------------------------------------------------------------------
// Running it.

pub open spec fn event_view(e: TrustEvent) -> (Option<Seq<char>>, Option<Seq<char>>) {
    (opt_view(e.by), opt_view(e.at))
}

pub open spec fn event_views(s: Seq<TrustEvent>) -> Seq<(Option<Seq<char>>, Option<Seq<char>>)> {
    s.map_values(|e: TrustEvent| event_view(e))
}

pub open spec fn events_view(t: TrustEvents) -> (Option<(Option<Seq<char>>, Option<Seq<char>>)>, Seq<(Option<Seq<char>>, Option<Seq<char>>)>) {
    (
        match t.generated {
            Some(g) => Some(event_view(g)),
            None => None,
        },
        event_views(t.verified@),
    )
}

/// The provenance block: the concept's events, or nothing when it has none.
pub open spec fn provenance_of(c: Concept, p: Option<TrustEvents>) -> bool {
    if c.events.generated is Some || c.events.verified@.len() > 0 {
        p matches Some(t) && events_view(t) == events_view(c.events)
    } else {
        p is None
    }
}

fn copy_event(e: &TrustEvent) -> (r: TrustEvent)
    ensures
        event_view(r) == event_view(*e),
{
    let by = match &e.by {
        Some(b) => Some(owned(b.as_str())),
        None => None,
    };
    let at = match &e.at {
        Some(a) => Some(owned(a.as_str())),
        None => None,
    };
    TrustEvent { by, at }
}

/// Collects the `generated`/`verified` events, or `None` when there are none.
fn trust_events(c: &Concept) -> (r: Option<TrustEvents>)
    ensures
        provenance_of(*c, r),
{
    let generated = match &c.events.generated {
        Some(g) => Some(copy_event(g)),
        None => None,
    };
    let src = &c.events.verified;
    let mut verified: Vec<TrustEvent> = Vec::new();
    let mut i: usize = 0;
    while i < src.len()
        invariant
            0 <= i <= src.len(),
            event_views(verified@) == event_views(src@).take(i as int),
        decreases src.len() - i,
    {
        let ghost before = verified@;
        let e = copy_event(&src[i]);
        verified.push(e);
        assert(event_views(verified@) =~= event_views(src@).take(i + 1)) by {
            assert(event_views(verified@) =~= event_views(before).push(event_view(e)));
        }
        i += 1;
    }
    assert(event_views(src@).take(src.len() as int) =~= event_views(src@));
    if generated.is_some() || verified.len() > 0 {
        Some(TrustEvents { generated, verified })
    } else {
        None
    }
}

pub open spec fn any_selector(a: GetArgs) -> bool {
    a.frontmatter || a.body || a.section is Some || a.field is Some
}

/// The whole frontmatter is shown: asked for, or by default; never with
/// `--field`, which narrows it to one key.
pub open spec fn wants_frontmatter(a: GetArgs) -> bool {
    a.field is None && (a.frontmatter || !any_selector(a))
}

/// The full body is shown: asked for, or by default.
pub open spec fn wants_body(a: GetArgs) -> bool {
    a.body || !any_selector(a)
}

/// The sections of a concept whose file reads `raw`: its body parsed with
/// line numbers counted from where the body starts in the file.
pub open spec fn concept_sections(c: Concept, raw: Seq<char>) -> Seq<(Seq<char>, Seq<char>, u8, usize, Seq<char>)> {
    text_sections(c.body@, raw)
}

/// The sections of `body`, numbered from the line where the body starts
/// in the file text `raw`.
pub open spec fn text_sections(body: Seq<char>, raw: Seq<char>) -> Seq<(Seq<char>, Seq<char>, u8, usize, Seq<char>)> {
    let start = body_start_spec(raw);
    if start + body.len() > usize::MAX || !events_ok(body, cmark_events(body)) {
        seq![]
    } else {
        sections_spec(body, cmark_events(body), start as usize)
    }
}

pub open spec fn section_out_view(s: SectionOut) -> (Seq<char>, Seq<char>, u8, usize, Seq<char>) {
    (s.heading@, s.slug@, s.level, s.line, s.body@)
}

/// A successful `get` of concept `c`, whose file text (when `--section`
/// needs it) is `text`.
pub open spec fn got_ok(c: Concept, a: GetArgs, text: Result<String, String>, g: Got) -> bool {
    let o = g.output;
    &&& o.schema@ == "okq.get/v1"@
    &&& o.id@ == join_slash(c.id@)
    &&& o.path@ == c.path@
    &&& o.line == 1
    &&& opt_view(o.type_) == opt_view(c.type_)
    &&& o.title@ == title_spec(c)
    &&& o.trust.view_tuple() == trust_of_spec(c)
    &&& provenance_of(c, o.provenance)
    &&& (if wants_body(a) { o.body matches Some(b) && b@ == c.body@ } else { o.body is None })
    &&& match a.field {
        Some(q) => {
            let i = field_hits(c.fields@, q@, c.fields@.len() as int)[0];
            &&& o.frontmatter matches Some(FrontmatterPick::Field(k, x)) && x == i && k@ == c.fields@[i].key@
            &&& g.field_yaml matches Some(y) && y@ == c.fields@[i].rendered@
            &&& g.frontmatter_yaml is None
        },
        None => if wants_frontmatter(a) {
            &&& o.frontmatter matches Some(FrontmatterPick::Whole)
            &&& g.frontmatter_yaml matches Some(y) && y@ == c.frontmatter_yaml@
            &&& g.field_yaml is None
        } else {
            &&& o.frontmatter is None
            &&& g.frontmatter_yaml is None
            &&& g.field_yaml is None
        },
    }
    &&& match a.section {
        Some(q) => text matches Ok(raw) && {
            let secs = concept_sections(c, raw@);
            o.sections matches Some(v) && v@.len() == 1
                && section_out_view(v@[0]) == secs[section_hits(secs, q@, secs.len() as int)[0]]
        },
        None => o.sections is None,
    }
}

/// What `get` gives for concept `c` once it is resolved: a field-selection
/// error first, then a read error or a section-selection error, else the
/// envelope.
pub open spec fn get_outcome(c: Concept, a: GetArgs, text: Result<String, String>, r: Result<Got, AppError>) -> bool {
    let field_ok = match a.field {
        Some(q) => field_hits(c.fields@, q@, c.fields@.len() as int).len() == 1,
        None => true,
    };
    if !field_ok {
        r matches Err(e) && field_choice(c.fields@, a.field->0@, c.path@, Err(e))
    } else if a.section is Some && text is Err {
        r matches Err(AppError::Io(m)) && m@ == text->Err_0@
    } else if a.section is Some && section_hits(concept_sections(c, text->Ok_0@), a.section->0@,
        concept_sections(c, text->Ok_0@).len() as int).len() != 1 {
        r matches Err(e) && section_choice(concept_sections(c, text->Ok_0@), a.section->0@, c.path@, Err(e))
    } else {
        r matches Ok(g) && got_ok(c, a, text, g)
    }
}

/// The sections of `body`, given the file text it is the body of.
pub(crate) fn sections_in(body: &str, raw: &str) -> (r: Vec<Section>)
    ensures
        section_views(r@) == text_sections(body@, raw@),
{
    let start = body_start_line(raw);
    let blen = str_to_chars(body).len();
    if start > usize::MAX - blen {
        return Vec::new();
    }
    let secs = parse_sections(body, start);
    if secs.len() == 0 {
        assert(section_views(secs@) =~= Seq::<(Seq<char>, Seq<char>, u8, usize, Seq<char>)>::empty());
    }
    secs
}

/// `get` on a resolved concept.
fn expand(c: &Concept, a: &GetArgs, text: &Result<String, String>) -> (r: Result<Got, AppError>)
    ensures
        get_outcome(*c, *a, *text, r),
{
    let any = a.frontmatter || a.body || a.section.is_some() || a.field.is_some();
    let want_frontmatter = a.field.is_none() && (a.frontmatter || !any);
    let want_body = a.body || !any;

    let (frontmatter, frontmatter_yaml, field_yaml) = match &a.field {
        Some(q) => {
            let k = match select_field(&c.fields, q.as_str(), c.path.as_str()) {
                Ok(k) => k,
                Err(e) => return Err(e),
            };
            let f = &c.fields[k];
            let ghost h = field_hits(c.fields@, q@, c.fields@.len() as int);
            assert(h.len() == 1 && k == h[0]);
            (Some(FrontmatterPick::Field(owned(f.key.as_str()), k)), None, Some(owned(f.rendered.as_str())))
        },
        None => {
            if want_frontmatter {
                (Some(FrontmatterPick::Whole), Some(owned(c.frontmatter_yaml.as_str())), None)
            } else {
                (None, None, None)
            }
        },
    };

    let sections = match &a.section {
        Some(q) => {
            let raw = match text {
                Ok(raw) => raw,
                Err(m) => return Err(AppError::Io(owned(m.as_str()))),
            };
            let secs = sections_in(c.body.as_str(), raw.as_str());
            let k = match select_section(&secs, q.as_str(), c.path.as_str()) {
                Ok(k) => k,
                Err(e) => return Err(e),
            };
            let s = &secs[k];
            let ghost sv = concept_sections(*c, raw@);
            let ghost h = section_hits(sv, q@, sv.len() as int);
            assert(h.len() == 1 && k == h[0]);
            assert(section_views(secs@)[k as int] == section_view(*s));
            let out = SectionOut {
                heading: owned(s.heading.as_str()),
                slug: owned(s.slug.as_str()),
                level: s.level,
                line: s.line,
                body: owned(s.body.as_str()),
            };
            let mut v: Vec<SectionOut> = Vec::new();
            v.push(out);
            Some(v)
        },
        None => None,
    };

    let type_ = match &c.type_ {
        Some(t) => Some(owned(t.as_str())),
        None => None,
    };
    let body = if want_body { Some(owned(c.body.as_str())) } else { None };
    let output = GetOutput {
        schema: owned("okq.get/v1"),
        id: c.id.to_text(),
        path: owned(c.path.as_str()),
        line: 1,
        type_,
        title: crate::model::concept_title(c),
        trust: ConceptTrust::of(c),
        provenance: trust_events(c),
        frontmatter,
        body,
        sections,
    };
    let g = Got { output, frontmatter_yaml, field_yaml };
    assert(g.output.schema@ == "okq.get/v1"@);
    assert(provenance_of(*c, g.output.provenance));
    assert(if wants_body(*a) { g.output.body matches Some(b) && b@ == c.body@ } else { g.output.body is None });
    assert(a.field is None ==> g.field_yaml is None);
    assert(a.section is None ==> g.output.sections is None);
    assert(match a.field {
        Some(q) => {
            let i = field_hits(c.fields@, q@, c.fields@.len() as int)[0];
            &&& g.output.frontmatter matches Some(FrontmatterPick::Field(k, x)) && x == i && k@ == c.fields@[i].key@
            &&& g.field_yaml matches Some(y) && y@ == c.fields@[i].rendered@
            &&& g.frontmatter_yaml is None
        },
        None => true,
    });
    assert(match a.section {
        Some(q) => text matches Ok(raw) && {
            let secs = concept_sections(*c, raw@);
            g.output.sections matches Some(v) && v@.len() == 1
                && section_out_view(v@[0]) == secs[section_hits(secs, q@, secs.len() as int)[0]]
        },
        None => g.output.sections is None,
    });
    assert(got_ok(*c, *a, *text, g));
    Ok(g)
}

/// `okq get`: resolves the concept, then selects what to show. `texts[j]`
/// is the file text of the bundle's `j`th concept (or the error reading
/// it); only `--section` reads it, to number the section lines.
pub fn run(corpus: &Corpus, args: &GetArgs, texts: &Vec<Result<String, String>>) -> (r: Result<Got, AppError>)
    requires
        corpus.wf(),
        args.section is Some ==> texts@.len() == corpus.bundle_view().len(),
    ensures
        ({
            let b = corpus.bundle_view();
            ||| (r matches Err(e) && resolution(*corpus, args.concept@, Err(e)))
            ||| exists|id: ConceptId| #[trigger] resolution(*corpus, args.concept@, Ok(id)) && {
                let j = crate::commands::graph::concept_index(b, id@);
                if j < 0 {
                    r matches Err(AppError::ConceptNotFound { input: i }) && i@ == args.concept@
                } else {
                    get_outcome(b[j], *args, texts@[j], r)
                }
            }
        }),
{
    let id = match resolve_concept(corpus, args.concept.as_str()) {
        Ok(id) => id,
        Err(e) => return Err(e),
    };
    assert(resolution(*corpus, args.concept@, Ok(id)));
    let b = corpus.bundle().concepts();
    let ghost bv = corpus.bundle_view();
    match crate::commands::graph::find_concept(b, &id) {
        None => {
            assert(crate::commands::graph::concept_index(bv, id@) < 0);
            Err(AppError::ConceptNotFound { input: owned(args.concept.as_str()) })
        },
        Some(j) => {
            assert(crate::commands::graph::concept_index(bv, id@) == j) by {
                let c = choose|c: int| 0 <= c < bv.len() && #[trigger] bv[c].id@ == id@;
                if c != j {
                    assert(bv[c].id@ == bv[j as int].id@);
                }
            }
            let c = &b[j];
            if args.section.is_some() {
                expand(c, args, &texts[j])
            } else {
                let none: Result<String, String> = Ok(owned(""));
                let r = expand(c, args, &none);
                assert(get_outcome(bv[j as int], *args, texts@[j as int], r));
                r
            }
        },
    }
}

// ---------------------------------------------------------------------------
// Human output

/// The actor column: the `by` value, or `-` when it is absent or blank.
pub open spec fn actor(e: TrustEvent) -> Seq<char> {
    match e.by {
        Some(b) => if trim_spec(b@).len() > 0 { b@ } else { seq!['-'] },
        None => seq!['-'],
    }
}

/// The evidence rows: `generated` first, then each `verified`.
pub open spec fn event_rows(t: TrustEvents) -> Seq<(Seq<char>, TrustEvent)> {
    (match t.generated {
        Some(g) => seq![("generated"@, g)],
        None => seq![],
    }) + t.verified@.map_values(|v: TrustEvent| ("verified"@, v))
}

/// The widest actor, in UTF-8 bytes.
pub open spec fn widest(rows: Seq<(Seq<char>, TrustEvent)>) -> usize
    decreases rows.len(),
{
    if rows.len() == 0 {
        0
    } else {
        let w = widest(rows.drop_last());
        let x = min_usize(byte_len(actor(rows.last().1)));
        if x > w { x } else { w }
    }
}

/// One evidence row, dimmed: the label in a 9-wide column, the actor padded
/// to the widest, then the timestamp when there is one.
pub open spec fn row_line(row: (Seq<char>, TrustEvent), w: usize, no_color: bool) -> Seq<char> {
    dim_on(no_color) + pad_right_spec(row.0, 9) + seq![' ', ' '] + match row.1.at {
        Some(at) => pad_right_spec(actor(row.1), w as nat) + seq![' ', ' '] + at@,
        None => actor(row.1),
    } + loc_off(no_color) + seq!['\n']
}

pub open spec fn rows_text(rows: Seq<(Seq<char>, TrustEvent)>, w: usize, no_color: bool) -> Seq<char>
    decreases rows.len(),
{
    if rows.len() == 0 {
        seq![]
    } else {
        rows_text(rows.drop_last(), w, no_color) + row_line(rows.last(), w, no_color)
    }
}

pub open spec fn events_text(p: Option<TrustEvents>, no_color: bool) -> Seq<char> {
    match p {
        Some(t) => rows_text(event_rows(t), widest(event_rows(t)), no_color),
        None => seq![],
    }
}

/// The text `get` prints: unless `--field`, a `path:line` header with the
/// non-default trust values and the evidence rows; then the frontmatter
/// between `---` fences, the field value, the trimmed body, and each
/// trimmed section, each as requested.
pub open spec fn get_text(g: Got, no_color: bool) -> Seq<char> {
    header_text(g, no_color) + parts_text(g) + match g.output.sections {
        Some(v) => sections_text(v@),
        None => seq![],
    }
}

/// The frontmatter between fences, the field value, and the trimmed body,
/// each when present.
pub open spec fn parts_text(g: Got) -> Seq<char> {
    (match g.frontmatter_yaml {
        Some(fm) => seq!['-', '-', '-', '\n'] + fm@ + seq!['\n', '-', '-', '-', '\n'],
        None => seq![],
    }) + match g.field_yaml {
        Some(f) => f@ + seq!['\n'],
        None => seq![],
    } + match g.output.body {
        Some(b) => seq!['\n'] + trim_end_spec(b@) + seq!['\n'],
        None => seq![],
    }
}

pub open spec fn sections_text(v: Seq<SectionOut>) -> Seq<char>
    decreases v.len(),
{
    if v.len() == 0 {
        seq![]
    } else {
        sections_text(v.drop_last()) + seq!['\n'] + trim_end_spec(v.last().body@) + seq!['\n']
    }
}

/// The UTF-8 length of a string, saturating.
fn utf8_bytes(s: &str) -> (r: usize)
    ensures
        r == min_usize(byte_len(s@)),
{
    let v = str_to_chars(s);
    let mut n: usize = 0;
    let mut i: usize = 0;
    while i < v.len()
        invariant
            0 <= i <= v.len(),
            v@ == s@,
            n == min_usize(byte_len(v@.take(i as int))),
        decreases v.len() - i,
    {
        let c = v[i];
        let b: usize = if (c as u32) < 0x80 { 1 } else if (c as u32) < 0x800 { 2 } else if (c as u32) < 0x10000 { 3 } else { 4 };
        assert(v@.take(i + 1).drop_last() =~= v@.take(i as int));
        n = if n > usize::MAX - b { usize::MAX } else { n + b };
        i += 1;
    }
    assert(v@.take(v.len() as int) =~= v@);
    n
}

fn actor_text(e: &TrustEvent) -> (r: String)
    ensures
        r@ == actor(*e),
{
    match &e.by {
        Some(b) => {
            let t = trim_chars(&str_to_chars(b.as_str()));
            if t.len() > 0 {
                owned(b.as_str())
            } else {
                let mut d = String::new();
                d.push('-');
                d
            }
        },
        None => {
            let mut d = String::new();
            d.push('-');
            d
        },
    }
}

fn row_text(label: &str, e: &TrustEvent, w: usize, dim: &(String, String), no_color: bool) -> (r: String)
    requires
        dim.0@ == dim_on(no_color),
        dim.1@ == loc_off(no_color),
    ensures
        r@ == row_line((label@, *e), w, no_color),
{
    let mut s = String::new();
    push_str(&mut s, dim.0.as_str());
    let l = pad_right(label, 9);
    push_str(&mut s, l.as_str());
    s.push(' ');
    s.push(' ');
    let by = actor_text(e);
    match &e.at {
        Some(at) => {
            let p = pad_right(by.as_str(), w);
            push_str(&mut s, p.as_str());
            s.push(' ');
            s.push(' ');
            push_str(&mut s, at.as_str());
        },
        None => push_str(&mut s, by.as_str()),
    }
    push_str(&mut s, dim.1.as_str());
    s.push('\n');
    s
}

/// The evidence lines, aligned; nothing when there are no events.
fn render_trust_events(events: &Option<TrustEvents>, dim: &(String, String), no_color: bool) -> (r: String)
    requires
        dim.0@ == dim_on(no_color),
        dim.1@ == loc_off(no_color),
    ensures
        r@ == events_text(*events, no_color),
{
    let t = match events {
        Some(t) => t,
        None => {
            return String::new();
        },
    };
    let ghost rows = event_rows(*t);
    let ghost k0: int = if t.generated is Some { 1 } else { 0 };
    proof {
        reveal_strlit("generated");
        reveal_strlit("verified");
    }
    assert(rows.len() == k0 + t.verified@.len());
    // The widest actor.
    let mut w: usize = 0;
    match &t.generated {
        Some(g) => {
            w = utf8_bytes(actor_text(g).as_str());
            assert(rows[0] == ("generated"@, *g));
            assert(rows.take(1).drop_last() =~= Seq::<(Seq<char>, TrustEvent)>::empty());
            assert(rows.take(1).last() == rows[0]);
            assert(widest(rows.take(1).drop_last()) == 0);
            assert(w == min_usize(byte_len(actor(rows.take(1).last().1))));
            assert(w == widest(rows.take(1)));
        },
        None => {
            assert(rows.take(0) =~= Seq::<(Seq<char>, TrustEvent)>::empty());
        },
    }
    assert(w == widest(rows.take(k0)));
    let mut i: usize = 0;
    while i < t.verified.len()
        invariant
            rows == event_rows(*t),
            k0 == (if t.generated is Some { 1int } else { 0int }),
            rows.len() == k0 + t.verified@.len(),
            0 <= i <= t.verified.len(),
            w == widest(rows.take(k0 + i)),
        decreases t.verified.len() - i,
    {
        assert(rows.take(k0 + i + 1).drop_last() =~= rows.take(k0 + i));
        assert(rows[k0 + i] == ("verified"@, t.verified@[i as int]));
        let x = utf8_bytes(actor_text(&t.verified[i]).as_str());
        if x > w {
            w = x;
        }
        i += 1;
    }
    assert(rows.take(rows.len() as int) =~= rows);

    let mut s = String::new();
    match &t.generated {
        Some(g) => {
            let line = row_text("generated", g, w, dim, no_color);
            push_str(&mut s, line.as_str());
            assert(rows[0] == ("generated"@, *g));
            assert(rows.take(1).drop_last() =~= Seq::<(Seq<char>, TrustEvent)>::empty());
            assert(rows.take(1).last() == rows[0]);
            assert(rows_text(rows.take(1).drop_last(), w, no_color) =~= Seq::<char>::empty());
            assert(line@ == row_line(rows.take(1).last(), w, no_color));
            assert(s@ =~= rows_text(rows.take(1), w, no_color));
        },
        None => {
            assert(rows.take(0) =~= Seq::<(Seq<char>, TrustEvent)>::empty());
            assert(s@ =~= rows_text(rows.take(0), w, no_color));
        },
    }
    assert(s@ == rows_text(rows.take(k0), w, no_color));
    let mut j: usize = 0;
    while j < t.verified.len()
        invariant
            rows == event_rows(*t),
            k0 == (if t.generated is Some { 1int } else { 0int }),
            rows.len() == k0 + t.verified@.len(),
            0 <= j <= t.verified.len(),
            w == widest(rows),
            dim.0@ == dim_on(no_color),
            dim.1@ == loc_off(no_color),
            s@ == rows_text(rows.take(k0 + j), w, no_color),
        decreases t.verified.len() - j,
    {
        assert(rows.take(k0 + j + 1).drop_last() =~= rows.take(k0 + j));
        assert(rows[k0 + j] == ("verified"@, t.verified@[j as int]));
        let line = row_text("verified", &t.verified[j], w, dim, no_color);
        push_str(&mut s, line.as_str());
        j += 1;
    }
    s
}

fn push_trimmed_block(s: &mut String, text: &str)
    ensures
        final(s)@ == old(s)@ + seq!['\n'] + trim_end_spec(text@) + seq!['\n'],
{
    s.push('\n');
    let t = trim_end_chars(&str_to_chars(text));
    let ts = chars_to_string(&t);
    push_str(s, ts.as_str());
    s.push('\n');
}

pub open spec fn header_text(g: Got, no_color: bool) -> Seq<char> {
    let o = g.output;
    let labels = labels_spec(o.trust.view_tuple());
    if g.field_yaml is None {
        at(o.path@, o.line as nat, no_color) + (if labels.len() == 0 {
            seq![]
        } else {
            seq![' ', ' '] + dim_on(no_color) + seq!['['] + join_comma(labels) + seq![']'] + loc_off(no_color)
        }) + seq!['\n'] + events_text(o.provenance, no_color)
    } else {
        seq![]
    }
}

fn render_header(g: &Got, no_color: bool) -> (r: String)
    ensures
        r@ == header_text(*g, no_color),
{
    let o = &g.output;
    let loc = loc_style(no_color);
    let dim = dim_style(no_color);
    let mut s = String::new();
    if g.field_yaml.is_none() {
        push_str(&mut s, loc.0.as_str());
        push_str(&mut s, o.path.as_str());
        s.push(':');
        let n = decimal_string(o.line as u64);
        push_str(&mut s, n.as_str());
        push_str(&mut s, loc.1.as_str());
        let labels = o.trust.labels();
        if labels.len() > 0 {
            s.push(' ');
            s.push(' ');
            push_str(&mut s, dim.0.as_str());
            s.push('[');
            push_joined(&mut s, &labels);
            s.push(']');
            push_str(&mut s, dim.1.as_str());
        }
        s.push('\n');
        let ev = render_trust_events(&o.provenance, &dim, no_color);
        push_str(&mut s, ev.as_str());
    }
    s
}

fn render_parts(g: &Got) -> (r: String)
    ensures
        r@ == parts_text(*g),
{
    let mut s = String::new();
    match &g.frontmatter_yaml {
        Some(fm) => {
            s.push('-');
            s.push('-');
            s.push('-');
            s.push('\n');
            push_str(&mut s, fm.as_str());
            s.push('\n');
            s.push('-');
            s.push('-');
            s.push('-');
            s.push('\n');
        },
        None => {},
    }
    let ghost a = s@;
    match &g.field_yaml {
        Some(f) => {
            push_str(&mut s, f.as_str());
            s.push('\n');
        },
        None => {},
    }
    let ghost b = s@;
    match &g.output.body {
        Some(body) => push_trimmed_block(&mut s, body.as_str()),
        None => {},
    }
    s
}

fn render_sections(v: &Vec<SectionOut>) -> (r: String)
    ensures
        r@ == sections_text(v@),
{
    let mut s = String::new();
    let mut i: usize = 0;
    while i < v.len()
        invariant
            0 <= i <= v.len(),
            s@ == sections_text(v@.take(i as int)),
        decreases v.len() - i,
    {
        assert(v@.take(i + 1).drop_last() =~= v@.take(i as int));
        push_trimmed_block(&mut s, v[i].body.as_str());
        i += 1;
    }
    assert(v@.take(v.len() as int) =~= v@);
    s
}

/// The human rendering.
pub fn render_human(g: &Got, no_color: bool) -> (r: String)
    ensures
        r@ == get_text(*g, no_color),
{
    let mut s = render_header(g, no_color);
    let p = render_parts(g);
    push_str(&mut s, p.as_str());
    match &g.output.sections {
        Some(v) => {
            let t = render_sections(v);
            push_str(&mut s, t.as_str());
        },
        None => {},
    }
    s
}

} // verus!
