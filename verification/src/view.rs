//! The filtered bundle view: a loaded bundle together with the ids that
//! `.okqignore` hides. Hidden concepts are not in the bundle for query
//! purposes: they cannot be resolved, and links into them are dead.

use vstd::prelude::*;
use crate::concept::{ConceptId, id_views};
use crate::model::{Bundle, Concept};

verus! {

/// A loaded bundle plus the ids its ignore rules hide.
pub struct Corpus {
    bundle: Bundle,
    hidden: Vec<ConceptId>,
}

impl Corpus {
    pub closed spec fn bundle_view(&self) -> Seq<Concept> {
        self.bundle.concepts_view()
    }

    pub closed spec fn hidden_view(&self) -> Seq<Seq<Seq<char>>> {
        id_views(self.hidden@)
    }

    pub open spec fn wf(&self) -> bool {
        Bundle::distinct_ids(self.bundle_view())
    }

    /// Concept `j` of the bundle is visible.
    pub open spec fn visible(&self, j: int) -> bool {
        0 <= j < self.bundle_view().len() && !self.hidden_view().contains(self.bundle_view()[j].id@)
    }

    /// A visible concept has this id.
    pub open spec fn has(&self, id: Seq<Seq<char>>) -> bool {
        exists|j: int| #[trigger] self.visible(j) && self.bundle_view()[j].id@ == id
    }

    /// Pairs a bundle with its hidden ids.
    pub fn new(bundle: Bundle, hidden: Vec<ConceptId>) -> (r: Corpus)
        ensures
            r.bundle_view() == bundle.concepts_view(),
            r.hidden_view() == id_views(hidden@),
            bundle.wf() ==> r.wf(),
    {
        Corpus { bundle, hidden }
    }

    /// The underlying bundle (full, unfiltered).
    pub fn bundle(&self) -> (r: &Bundle)
        ensures
            r.concepts_view() == self.bundle_view(),
    {
        &self.bundle
    }

    /// The hidden ids.
    pub fn hidden(&self) -> (r: &Vec<ConceptId>)
        ensures
            id_views(r@) == self.hidden_view(),
    {
        &self.hidden
    }

    /// `true` if a concept id is hidden.
    pub fn is_hidden(&self, id: &ConceptId) -> (r: bool)
        ensures
            r == self.hidden_view().contains(id@),
    {
        let mut i: usize = 0;
        while i < self.hidden.len()
            invariant
                0 <= i <= self.hidden.len(),
                forall|k: int| 0 <= k < i ==> id_views(self.hidden@)[k] != id@,
            decreases self.hidden.len() - i,
        {
            if self.hidden[i].same(id) {
                assert(id_views(self.hidden@)[i as int] == id@);
                return true;
            }
            i += 1;
        }
        false
    }

    /// `true` if a visible concept with this id exists.
    pub fn contains(&self, id: &ConceptId) -> (r: bool)
        ensures
            r == self.has(id@),
    {
        if self.is_hidden(id) {
            return false;
        }
        let cs = self.bundle.concepts();
        let mut j: usize = 0;
        while j < cs.len()
            invariant
                cs@ == self.bundle_view(),
                !self.hidden_view().contains(id@),
                0 <= j <= cs.len(),
                forall|k: int| 0 <= k < j ==> cs@[k].id@ != id@,
            decreases cs.len() - j,
        {
            if cs[j].id.same(id) {
                assert(self.visible(j as int));
                return true;
            }
            j += 1;
        }
        false
    }

    /// The visible concepts' bundle indices, in load order.
    pub fn visible_indices(&self) -> (r: Vec<usize>)
        ensures
            forall|i: int| 0 <= i < r@.len() ==> self.visible(#[trigger] r@[i] as int),
            forall|i: int, j: int| 0 <= i < j < r@.len() ==> #[trigger] r@[i] < #[trigger] r@[j],
            forall|j: int| #[trigger] self.visible(j) ==> exists|i: int| 0 <= i < r@.len() && r@[i] == j,
    {
        let cs = self.bundle.concepts();
        let mut r: Vec<usize> = Vec::new();
        let mut j: usize = 0;
        while j < cs.len()
            invariant
                cs@ == self.bundle_view(),
                0 <= j <= cs.len(),
                forall|i: int| 0 <= i < r@.len() ==> self.visible(#[trigger] r@[i] as int) && r@[i] < j,
                forall|i: int, k: int| 0 <= i < k < r@.len() ==> #[trigger] r@[i] < #[trigger] r@[k],
                forall|k: int| 0 <= k < j && #[trigger] self.visible(k) ==> exists|i: int| 0 <= i < r@.len() && r@[i] == k,
            decreases cs.len() - j,
        {
            let ghost old_r = r@;
            if !self.is_hidden(&cs[j].id) {
                r.push(j);
                assert(r@[r@.len() - 1] == j);
            }
            proof {
                assert forall|k: int| 0 <= k < j + 1 && #[trigger] self.visible(k) implies exists|i: int| 0 <= i < r@.len() && r@[i] == k by {
                    if k == j {
                        assert(r@[r@.len() - 1] == j);
                    } else {
                        let i = choose|i: int| 0 <= i < old_r.len() && old_r[i] == k;
                        assert(r@[i] == k);
                    }
                }
            }
            j += 1;
        }
        r
    }
}

} // verus!
