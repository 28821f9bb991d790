//! Writing a concept id out and reading it back: the `/`-joined form of a
//! valid id parses to the same id, so every visible concept is found by
//! its own id.

use vstd::prelude::*;
use crate::concept::{join_slash, valid_id, valid_segment, ConceptId};
use crate::error::AppError;
use crate::model::{dot_slash, id_parts, input_path, nonempty_parts, resolution, strip_dot_slash};
use crate::resolve::split_spec;
use crate::text::{ends_with_spec, first_pos, lemma_first_pos};
use crate::view::Corpus;
use crate::wikilinks::{md_suffix, strip_md};

verus! {

/// Joining with a first segment in front: `a/b/c` is `a`, `/`, then `b/c`.
pub proof fn lemma_join_front(a: Seq<char>, t: Seq<Seq<char>>)
    requires
        t.len() > 0,
    ensures
        join_slash(seq![a] + t) == a + seq!['/'] + join_slash(t),
    decreases t.len(),
{
    let s = seq![a] + t;
    if t.len() == 1 {
        assert(s.drop_last() =~= seq![a]);
        assert(s.last() == t[0]);
        assert(join_slash(s) =~= a + seq!['/'] + join_slash(t));
    } else {
        assert(s.drop_last() =~= seq![a] + t.drop_last());
        lemma_join_front(a, t.drop_last());
        assert(s.last() == t.last());
        assert(join_slash(s) == join_slash(seq![a] + t.drop_last()) + seq!['/'] + t.last());
        assert(join_slash(t) == join_slash(t.drop_last()) + seq!['/'] + t.last());
        assert(join_slash(s) =~= a + seq!['/'] + join_slash(t));
    }
}

/// A segment of a valid id holds no `/`.
proof fn lemma_no_slash(s: Seq<char>)
    requires
        valid_segment(s),
    ensures
        first_pos(s, '/') == s.len(),
{
    lemma_first_pos(s, '/', s.len() as int);
}

/// Splitting the joined form of a valid id on `/` gives back its segments.
pub proof fn lemma_split_join(id: Seq<Seq<char>>)
    requires
        valid_id(id),
    ensures
        split_spec(join_slash(id), '/') == id,
    decreases id.len(),
{
    let a = id[0];
    assert(valid_segment(id[0]));
    if id.len() == 1 {
        lemma_no_slash(a);
        assert(split_spec(a, '/') == seq![a]);
        assert(seq![a] =~= id);
    } else {
        let t = id.drop_first();
        assert(id =~= seq![a] + t);
        assert forall|i: int| 0 <= i < t.len() implies valid_segment(#[trigger] t[i]) by {
            assert(t[i] == id[i + 1]);
        }
        lemma_split_join(t);
        lemma_join_front(a, t);
        let j = a + seq!['/'] + join_slash(t);
        assert forall|k: int| 0 <= k < a.len() implies j[k] != '/' by {
            assert(j[k] == a[k]);
        }
        assert(j[a.len() as int] == '/');
        lemma_first_pos(j, '/', a.len() as int);
        assert(j.take(a.len() as int) =~= a);
        assert(j.skip(a.len() as int + 1) =~= join_slash(t));
    }
}

/// Keeping the non-empty parts of non-empty parts changes nothing.
proof fn lemma_nonempty_parts(p: Seq<Seq<char>>)
    requires
        forall|i: int| 0 <= i < p.len() ==> (#[trigger] p[i]).len() > 0,
    ensures
        nonempty_parts(p) == p,
    decreases p.len(),
{
    if p.len() > 0 {
        lemma_nonempty_parts(p.drop_last());
        assert(p.drop_last().push(p.last()) =~= p);
    }
}

/// The joined form of a valid id does not start with `./`.
proof fn lemma_no_dot_slash(id: Seq<Seq<char>>)
    requires
        valid_id(id),
    ensures
        strip_dot_slash(join_slash(id)) == join_slash(id),
{
    let a = id[0];
    assert(valid_segment(a));
    let j = join_slash(id);
    let head: Seq<char> = if id.len() == 1 {
        a
    } else {
        let t = id.drop_first();
        assert(id =~= seq![a] + t);
        lemma_join_front(a, t);
        a + seq!['/'] + join_slash(t)
    };
    assert(j == head);
    if j.len() >= 2 && j.take(2) == dot_slash() {
        assert(j[0] == '.' && j[1] == '/');
        assert(j[0] == a[0]);
        if a.len() >= 2 {
            assert(j[1] == a[1]);
        } else {
            assert(a =~= seq!['.']);
        }
    }
}

/// The joined form of a valid id whose last segment does not end in `.md`
/// does not end in `.md` either.
proof fn lemma_no_md(id: Seq<Seq<char>>)
    requires
        valid_id(id),
        !ends_with_spec(id.last(), md_suffix()),
    ensures
        strip_md(join_slash(id)) == join_slash(id),
{
    let l = id.last();
    assert(valid_segment(id[id.len() - 1]));
    let j = join_slash(id);
    if id.len() > 1 {
        let p = join_slash(id.drop_last());
        assert(j == p + seq!['/'] + l);
        if ends_with_spec(j, md_suffix()) {
            if l.len() >= 3 {
                assert(l.skip(l.len() - 3) =~= j.skip(j.len() - 3));
            } else {
                let k = j.len() - 1 - l.len();
                assert(j[k] == '/');
                assert(j.skip(j.len() - 3)[k - (j.len() - 3)] == j[k]);
            }
        }
    }
}

/// Every visible concept is found by its own id written out `/`-joined
/// (unless its last segment ends in `.md`, which the input syntax drops).
pub proof fn lemma_own_id_resolves(corpus: Corpus, id: Seq<Seq<char>>, r: Result<ConceptId, AppError>)
    requires
        corpus.has(id),
        valid_id(id),
        !ends_with_spec(id.last(), md_suffix()),
        resolution(corpus, join_slash(id), r),
    ensures
        r matches Ok(x) && x@ == id,
{
    lemma_no_dot_slash(id);
    lemma_no_md(id);
    assert(input_path(join_slash(id)) == join_slash(id));
    lemma_split_join(id);
    assert forall|i: int| 0 <= i < id.len() implies (#[trigger] id[i]).len() > 0 by {
        assert(valid_segment(id[i]));
    }
    lemma_nonempty_parts(id);
    assert(id_parts(join_slash(id)) == id);
}

} // verus!
