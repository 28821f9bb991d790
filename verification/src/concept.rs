//! Concept identifiers: the `/`-separated path of a concept's file within the
//! bundle, without `.md`, kept as its segments.

use vstd::prelude::*;
use crate::text::{chars_lt, lemma_chars_lt_asym, lemma_chars_lt_irrefl, lemma_chars_lt_total,
    lemma_chars_lt_trans, str_eq, str_less, string_views};

verus! {

/// A concept identifier: an ordered list of path segments.
#[derive(Clone, Debug, PartialEq, Eq, Hash, PartialOrd, Ord)]
pub struct ConceptId {
    /// The id's segments (`["tables", "users"]` for `tables/users`).
    pub segments: Vec<String>,
}

impl View for ConceptId {
    type V = Seq<Seq<char>>;

    open spec fn view(&self) -> Seq<Seq<char>> {
        string_views(self.segments@)
    }
}

pub open spec fn id_views(v: Seq<ConceptId>) -> Seq<Seq<Seq<char>>> {
    v.map_values(|c: ConceptId| c@)
}

// ---------------------------------------------------------------------------
// Validity, as the okf data layer decides it.

/// Unicode general category `Cc`: U+0000–U+001F and U+007F–U+009F.
pub open spec fn is_control(c: char) -> bool {
    (c as int) <= 0x1F || (0x7F <= (c as int) && (c as int) <= 0x9F)
}

/// A segment that can round-trip through the `/`-joined form: non-empty,
/// not `.` or `..`, and free of `/`, `\` and control characters.
pub open spec fn valid_segment(s: Seq<char>) -> bool {
    &&& s.len() > 0
    &&& s != seq!['.']
    &&& s != seq!['.', '.']
    &&& forall|i: int| 0 <= i < s.len() ==> #[trigger] s[i] != '/' && s[i] != '\\' && !is_control(s[i])
}

/// At least one segment, each valid.
pub open spec fn valid_id(segs: Seq<Seq<char>>) -> bool {
    segs.len() > 0 && forall|i: int| 0 <= i < segs.len() ==> valid_segment(#[trigger] segs[i])
}

/// `okf::ConceptId::new(segments).is_ok()`. Claimed (from okf's
/// `validate_segment`): it accepts exactly a non-empty list of valid segments.
#[verifier::external_body]
fn okf_accepts(segments: &Vec<String>) -> (r: bool)
    ensures
        r == valid_id(string_views(segments@)),
{
    okf::ConceptId::new(segments.clone()).is_ok()
}

// ---------------------------------------------------------------------------
// Order: lexicographic over segments, each compared as a string.

pub open spec fn id_lt(a: Seq<Seq<char>>, b: Seq<Seq<char>>) -> bool
    decreases a.len(),
{
    if a.len() == 0 {
        b.len() > 0
    } else if b.len() == 0 {
        false
    } else if a[0] != b[0] {
        chars_lt(a[0], b[0])
    } else {
        id_lt(a.drop_first(), b.drop_first())
    }
}

pub proof fn lemma_id_lt_irrefl(a: Seq<Seq<char>>)
    ensures
        !id_lt(a, a),
    decreases a.len(),
{
    if a.len() > 0 {
        lemma_id_lt_irrefl(a.drop_first());
    }
}

pub proof fn lemma_id_lt_trans(a: Seq<Seq<char>>, b: Seq<Seq<char>>, c: Seq<Seq<char>>)
    requires
        id_lt(a, b),
        id_lt(b, c),
    ensures
        id_lt(a, c),
    decreases a.len(),
{
    if a.len() > 0 && b.len() > 0 && c.len() > 0 {
        if a[0] == b[0] && b[0] == c[0] {
            lemma_id_lt_trans(a.drop_first(), b.drop_first(), c.drop_first());
        } else if a[0] == b[0] {
        } else if b[0] == c[0] {
        } else {
            lemma_chars_lt_trans(a[0], b[0], c[0]);
            lemma_chars_lt_asym(a[0], c[0]);
            if a[0] == c[0] {
                lemma_chars_lt_irrefl(a[0]);
                lemma_chars_lt_trans(a[0], b[0], a[0]);
            }
        }
    }
}

pub proof fn lemma_id_lt_total(a: Seq<Seq<char>>, b: Seq<Seq<char>>)
    ensures
        a == b || id_lt(a, b) || id_lt(b, a),
    decreases a.len(),
{
    if a.len() > 0 && b.len() > 0 {
        if a[0] == b[0] {
            lemma_id_lt_total(a.drop_first(), b.drop_first());
            if a.drop_first() == b.drop_first() {
                assert(a =~= seq![a[0]] + a.drop_first());
                assert(b =~= seq![b[0]] + b.drop_first());
            }
        } else {
            lemma_chars_lt_total(a[0], b[0]);
        }
    } else if a.len() == 0 && b.len() == 0 {
        assert(a =~= b);
    }
}

pub proof fn lemma_id_lt_asym(a: Seq<Seq<char>>, b: Seq<Seq<char>>)
    requires
        id_lt(a, b),
    ensures
        !id_lt(b, a),
        a != b,
{
    lemma_id_lt_irrefl(a);
    if id_lt(b, a) {
        lemma_id_lt_trans(a, b, a);
    }
}

impl ConceptId {
    /// Builds an id from segments, `None` unless okf accepts them.
    pub fn new(segments: Vec<String>) -> (r: Option<ConceptId>)
        ensures
            r is Some <==> valid_id(string_views(segments@)),
            r matches Some(id) ==> id@ == string_views(segments@),
    {
        if okf_accepts(&segments) {
            Some(ConceptId { segments })
        } else {
            None
        }
    }

    /// The id's segments.
    pub fn segments(&self) -> (r: &Vec<String>)
        ensures
            string_views(r@) == self@,
    {
        &self.segments
    }

    /// A copy of this id.
    pub fn duplicate(&self) -> (r: ConceptId)
        ensures
            r@ == self@,
    {
        let mut segments: Vec<String> = Vec::new();
        let mut i: usize = 0;
        while i < self.segments.len()
            invariant
                0 <= i <= self.segments.len(),
                string_views(segments@) == self@.take(i as int),
            decreases self.segments.len() - i,
        {
            let seg = self.segments[i].clone();
            assert(seg@ == self@[i as int]);
            let ghost before = segments@;
            segments.push(seg);
            assert(string_views(segments@) =~= string_views(before).push(seg@));
            i += 1;
            assert(string_views(segments@) =~= self@.take(i as int));
        }
        assert(self@.take(i as int) =~= self@);
        ConceptId { segments }
    }

    /// Segment-wise equality.
    pub fn same(&self, other: &ConceptId) -> (r: bool)
        ensures
            r == (self@ == other@),
    {
        if self.segments.len() != other.segments.len() {
            assert(self@.len() != other@.len());
            return false;
        }
        let mut i: usize = 0;
        while i < self.segments.len()
            invariant
                self.segments.len() == other.segments.len(),
                0 <= i <= self.segments.len(),
                forall|k: int| 0 <= k < i ==> self@[k] == other@[k],
            decreases self.segments.len() - i,
        {
            if !str_eq(self.segments[i].as_str(), other.segments[i].as_str()) {
                assert(self@[i as int] != other@[i as int]);
                return false;
            }
            i += 1;
        }
        assert(self@ =~= other@);
        true
    }

    /// `self < other` in id order.
    pub fn less(&self, other: &ConceptId) -> (r: bool)
        ensures
            r == id_lt(self@, other@),
    {
        let a = &self.segments;
        let b = &other.segments;
        let mut i: usize = 0;
        assert(self@.skip(0) =~= self@);
        assert(other@.skip(0) =~= other@);
        while i < a.len() && i < b.len()
            invariant
                a == &self.segments,
                b == &other.segments,
                0 <= i <= a.len(),
                i <= b.len(),
                id_lt(self@.skip(i as int), other@.skip(i as int)) == id_lt(self@, other@),
            decreases a.len() - i,
        {
            assert(self@.skip(i as int)[0] == self@[i as int]);
            assert(other@.skip(i as int)[0] == other@[i as int]);
            if !str_eq(a[i].as_str(), b[i].as_str()) {
                return str_less(a[i].as_str(), b[i].as_str());
            }
            assert(self@.skip(i as int).drop_first() =~= self@.skip(i + 1));
            assert(other@.skip(i as int).drop_first() =~= other@.skip(i + 1));
            i += 1;
        }
        i == a.len() && i < b.len()
    }
}


// ---------------------------------------------------------------------------
// Ordering and display of id lists.

/// Strictly increasing in id order.
pub open spec fn ids_sorted(v: Seq<Seq<Seq<char>>>) -> bool {
    forall|i: int, j: int| 0 <= i < j < v.len() ==> id_lt(#[trigger] v[i], #[trigger] v[j])
}

pub open spec fn ids_distinct(v: Seq<Seq<Seq<char>>>) -> bool {
    forall|i: int, j: int| 0 <= i < j < v.len() ==> #[trigger] v[i] != #[trigger] v[j]
}

/// Sorts distinct ids into id order.
pub fn sort_ids(v: Vec<ConceptId>) -> (r: Vec<ConceptId>)
    requires
        ids_distinct(id_views(v@)),
    ensures
        ids_sorted(id_views(r@)),
        forall|x: Seq<Seq<char>>| id_views(r@).contains(x) <==> #[trigger] id_views(v@).contains(x),
{
    let ghost vv = id_views(v@);
    let mut r: Vec<ConceptId> = Vec::new();
    let mut i: usize = 0;
    while i < v.len()
        invariant
            vv == id_views(v@),
            ids_distinct(vv),
            0 <= i <= v.len(),
            ids_sorted(id_views(r@)),
            forall|x: Seq<Seq<char>>| id_views(r@).contains(x) <==> #[trigger] vv.take(i as int).contains(x),
        decreases v.len() - i,
    {
        let x = v[i].duplicate();
        let ghost xv = x@;
        let ghost rv = id_views(r@);
        let mut p: usize = 0;
        while p < r.len() && r[p].less(&x)
            invariant
                0 <= p <= r.len(),
                rv == id_views(r@),
                xv == x@,
                forall|q: int| 0 <= q < p ==> id_lt(#[trigger] rv[q], xv),
            decreases r.len() - p,
        {
            p += 1;
        }
        proof {
            assert(!rv.contains(xv)) by {
                if rv.contains(xv) {
                    let m = choose|m: int| 0 <= m < rv.len() && rv[m] == xv;
                    assert(vv.take(i as int).contains(xv));
                    let k = choose|k: int| 0 <= k < vv.take(i as int).len() && vv.take(i as int)[k] == xv;
                    assert(vv[k] == vv[i as int]);
                }
            }
            assert forall|q: int| p <= q < rv.len() implies id_lt(xv, #[trigger] rv[q]) by {
                lemma_id_lt_total(rv[p as int], xv);
                assert(rv[p as int] != xv);
                if q > p {
                    lemma_id_lt_trans(xv, rv[p as int], rv[q]);
                }
            }
        }
        r.insert(p, x);
        proof {
            let nv = id_views(r@);
            assert(nv =~= rv.insert(p as int, xv));
            assert forall|a: int, c: int| 0 <= a < c < nv.len() implies id_lt(#[trigger] nv[a], #[trigger] nv[c]) by {
                if a < p && c == p {
                } else if a == p && c > p {
                } else if a < p && c > p {
                    lemma_id_lt_trans(rv[a], xv, rv[c - 1]);
                } else if c < p {
                } else {
                    assert(nv[a] == rv[a - 1] && nv[c] == rv[c - 1]);
                }
            }
            assert(vv.take(i + 1) =~= vv.take(i as int).push(xv));
            assert forall|y: Seq<Seq<char>>| nv.contains(y) <==> #[trigger] vv.take(i + 1).contains(y) by {
                if nv.contains(y) {
                    let m = choose|m: int| 0 <= m < nv.len() && nv[m] == y;
                    if m != p {
                        if m < p {
                            assert(rv[m] == y);
                        } else {
                            assert(rv[m - 1] == y);
                        }
                        assert(rv.contains(y));
                        assert(vv.take(i as int).contains(y));
                        let t0 = vv.take(i as int);
                        let k = choose|k: int| 0 <= k < t0.len() && t0[k] == y;
                        assert(vv.take(i + 1)[k] == y);
                    } else {
                        assert(vv.take(i + 1)[i as int] == y);
                    }
                }
                if vv.take(i + 1).contains(y) {
                    let t = vv.take(i + 1);
                    let k = choose|k: int| 0 <= k < t.len() && t[k] == y;
                    if k == i {
                        assert(nv[p as int] == y);
                    } else {
                        assert(vv.take(i as int)[k] == y);
                        assert(vv.take(i as int).contains(y));
                        let m = choose|m: int| 0 <= m < rv.len() && rv[m] == y;
                        if m < p {
                            assert(nv[m] == y);
                        } else {
                            assert(nv[m + 1] == y);
                        }
                    }
                }
            }
        }
        i += 1;
    }
    assert(vv.take(v.len() as int) =~= vv);
    r
}

/// Segments joined with `/`.
pub open spec fn join_slash(s: Seq<Seq<char>>) -> Seq<char>
    decreases s.len(),
{
    if s.len() == 0 {
        seq![]
    } else if s.len() == 1 {
        s[0]
    } else {
        join_slash(s.drop_last()) + seq!['/'] + s.last()
    }
}

impl ConceptId {
    /// The `/`-joined form (`tables/users`).
    pub fn to_text(&self) -> (r: String)
        ensures
            r@ == join_slash(self@),
    {
        let mut out: Vec<char> = Vec::new();
        let mut i: usize = 0;
        assert(self@.take(0) =~= Seq::<Seq<char>>::empty());
        while i < self.segments.len()
            invariant
                0 <= i <= self.segments.len(),
                out@ == join_slash(self@.take(i as int)),
            decreases self.segments.len() - i,
        {
            let ghost before = out@;
            if i > 0 {
                out.push('/');
            }
            let seg = crate::text::str_to_chars(self.segments[i].as_str());
            let ghost mid = out@;
            let mut j: usize = 0;
            while j < seg.len()
                invariant
                    0 <= j <= seg.len(),
                    out@ == mid + seg@.take(j as int),
                decreases seg.len() - j,
            {
                out.push(seg[j]);
                j += 1;
                assert(out@ =~= mid + seg@.take(j as int));
            }
            assert(seg@.take(seg.len() as int) =~= seg@);
            assert(self@.take(i + 1).drop_last() =~= self@.take(i as int));
            assert(self@.take(i + 1).last() == self@[i as int]);
            assert(self@[i as int] == seg@);
            if i == 0 {
                assert(out@ =~= join_slash(self@.take(1)));
            } else {
                assert(out@ =~= before + seq!['/'] + seg@);
            }
            i += 1;
        }
        assert(self@.take(self.segments.len() as int) =~= self@);
        crate::text::chars_to_string(&out)
    }
}

} // verus!
