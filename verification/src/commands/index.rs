//! `okq index`: the listing block of each directory's `index.md`, built
//! from the concepts okq sees, and how it is placed into an existing or a
//! fresh `index.md`. Only the fenced block between the markers is managed.

use vstd::prelude::*;
use crate::fmt::push_str;
use crate::model::ConceptRecord;
use crate::resolve::{split_chars, split_spec};
use crate::splice::{lemma_no_newline, lemma_splice_twice, markers_sound, no_newline_upto, one_line, splice_spec};
use crate::templates::{INDEX_BEGIN, INDEX_END};
use crate::text::{
    chars_to_string, find_first, first_occ, occurs_at, owned, slice_chars, str_to_chars, string_views,
    trim_end_chars, trim_end_spec, views,
};

verus! {

/// One `index.md` touched (or that would be, under `--check`).
pub struct IndexFile {
    /// Path of the `index.md`, relative to the bundle root.
    pub path: String,
    /// `created`, `updated` or `unchanged`.
    pub verb: String,
    /// Number of direct concepts listed.
    pub concepts: usize,
}

/// The `okq.index/v1` envelope.
pub struct IndexOutput {
    /// Per-`index.md` result, in path order.
    pub files: Vec<IndexFile>,
}

/// The last index of `c` in `s` (-1 if none).
pub open spec fn last_pos(s: Seq<char>, c: char) -> int
    decreases s.len(),
{
    if s.len() == 0 {
        -1
    } else if s.last() == c {
        s.len() - 1
    } else {
        last_pos(s.drop_last(), c)
    }
}

proof fn lemma_last_pos(s: Seq<char>, c: char)
    ensures
        -1 <= last_pos(s, c) < s.len(),
        last_pos(s, c) >= 0 ==> s[last_pos(s, c)] == c,
        forall|k: int| last_pos(s, c) < k < s.len() ==> s[k] != c,
    decreases s.len(),
{
    if s.len() > 0 && s.last() != c {
        lemma_last_pos(s.drop_last(), c);
        assert forall|k: int| last_pos(s, c) < k < s.len() implies s[k] != c by {
            if k < s.len() - 1 {
                assert(s.drop_last()[k] == s[k]);
            }
        }
    }
}

pub(crate) fn last_index(v: &Vec<char>, c: char) -> (r: Option<usize>)
    ensures
        match r {
            Some(k) => k as int == last_pos(v@, c) && k < v.len(),
            None => last_pos(v@, c) == -1,
        },
{
    let mut i: usize = v.len();
    assert(v@.take(v.len() as int) =~= v@);
    while i > 0
        invariant
            0 <= i <= v.len(),
            last_pos(v@.take(i as int), c) == last_pos(v@, c),
        decreases i,
    {
        assert(v@.take(i as int).last() == v@[i - 1]);
        if v[i - 1] == c {
            return Some(i - 1);
        }
        assert(v@.take(i as int).drop_last() =~= v@.take(i - 1));
        i -= 1;
    }
    None
}

proof fn lemma_last_pos_take(v: Seq<char>, c: char)
    ensures
        last_pos(v.take(v.len() as int), c) == last_pos(v, c),
{
    assert(v.take(v.len() as int) =~= v);
}

/// The parent directory of a `/`-separated relative path (empty at the root).
pub open spec fn parent_dir_spec(rel: Seq<char>) -> Seq<char> {
    let k = last_pos(rel, '/');
    if k >= 0 { rel.take(k) } else { seq![] }
}

/// The parent directory of a forward-slash relative path.
pub fn parent_dir(rel: &str) -> (r: String)
    ensures
        r@ == parent_dir_spec(rel@),
{
    let v = str_to_chars(rel);
    proof {
        lemma_last_pos_take(v@, '/');
    }
    match last_index(&v, '/') {
        Some(k) => chars_to_string(&slice_chars(&v, 0, k)),
        None => {
            let e: Vec<char> = Vec::new();
            assert(e@ =~= Seq::<char>::empty());
            chars_to_string(&e)
        },
    }
}

/// The last path segment (directory or file name).
pub open spec fn last_seg_spec(path: Seq<char>) -> Seq<char> {
    let k = last_pos(path, '/');
    if k >= 0 { path.skip(k + 1) } else { path }
}

/// The last path segment.
pub fn last_seg(path: &str) -> (r: String)
    ensures
        r@ == last_seg_spec(path@),
{
    let v = str_to_chars(path);
    proof {
        lemma_last_pos_take(v@, '/');
    }
    match last_index(&v, '/') {
        Some(k) => chars_to_string(&slice_chars(&v, k + 1, v.len())),
        None => owned(path),
    }
}

/// Each prefix of a `/`-separated directory, built part by part.
pub open spec fn prefixes(parts: Seq<Seq<char>>) -> (Seq<char>, Seq<Seq<char>>)
    decreases parts.len(),
{
    if parts.len() == 0 {
        (seq![], seq![])
    } else {
        let (acc, out) = prefixes(parts.drop_last());
        let next = if acc.len() == 0 { parts.last() } else { acc + seq!['/'] + parts.last() };
        (next, out.push(next))
    }
}

/// All ancestor directories of `dir`, the root (`""`) first, `dir` last.
pub open spec fn ancestors_spec(dir: Seq<char>) -> Seq<Seq<char>> {
    if dir.len() == 0 {
        seq![seq![]]
    } else {
        seq![Seq::<char>::empty()] + prefixes(split_spec(dir, '/')).1
    }
}

/// All ancestor directories of `dir`, including the root and `dir` itself.
pub fn ancestors(dir: &str) -> (r: Vec<String>)
    ensures
        string_views(r@) == ancestors_spec(dir@),
{
    let mut out: Vec<String> = Vec::new();
    let e: Vec<char> = Vec::new();
    assert(e@ =~= Seq::<char>::empty());
    out.push(chars_to_string(&e));
    let v = str_to_chars(dir);
    if v.len() == 0 {
        assert(string_views(out@) =~= ancestors_spec(dir@));
        return out;
    }
    let parts = split_chars(&v, '/');
    let ghost pv = views(parts@);
    let mut acc: Vec<char> = Vec::new();
    let mut i: usize = 0;
    assert(pv.take(0) =~= Seq::<Seq<char>>::empty());
    assert(string_views(out@) =~= seq![Seq::<char>::empty()]);
    while i < parts.len()
        invariant
            pv == views(parts@),
            pv == split_spec(dir@, '/'),
            0 <= i <= parts.len(),
            acc@ == prefixes(pv.take(i as int)).0,
            string_views(out@) == seq![Seq::<char>::empty()] + prefixes(pv.take(i as int)).1,
        decreases parts.len() - i,
    {
        assert(pv.take(i + 1).drop_last() =~= pv.take(i as int));
        assert(pv.take(i + 1).last() == parts@[i as int]@);
        let ghost old_acc = acc@;
        if acc.len() == 0 {
            acc = parts[i].clone();
        } else {
            acc.push('/');
            let mut j: usize = 0;
            let ghost mid = acc@;
            while j < parts[i].len()
                invariant
                    i < parts.len(),
                    0 <= j <= parts@[i as int]@.len(),
                    acc@ == mid + parts@[i as int]@.take(j as int),
                decreases parts@[i as int]@.len() - j,
            {
                acc.push(parts[i][j]);
                j += 1;
                assert(acc@ =~= mid + parts@[i as int]@.take(j as int));
            }
            assert(parts@[i as int]@.take(parts@[i as int]@.len() as int) =~= parts@[i as int]@);
        }
        assert(acc@ == prefixes(pv.take(i + 1)).0);
        let s = chars_to_string(&acc);
        let ghost before = out@;
        out.push(s);
        assert(string_views(out@) =~= string_views(before).push(acc@));
        assert(seq![Seq::<char>::empty()] + prefixes(pv.take(i + 1)).1 =~= (seq![Seq::<char>::empty()] + prefixes(pv.take(i as int)).1).push(acc@));
        i += 1;
    }
    assert(pv.take(parts.len() as int) =~= pv);
    out
}

/// `|` escaped so a title cannot break a Markdown table.
pub open spec fn escape_spec(s: Seq<char>) -> Seq<char>
    decreases s.len(),
{
    if s.len() == 0 {
        seq![]
    } else if s.last() == '|' {
        escape_spec(s.drop_last()) + seq!['\\', '|']
    } else {
        escape_spec(s.drop_last()).push(s.last())
    }
}

/// Escapes `|` so a title cannot break the Markdown table.
pub fn escape_cell(s: &str) -> (r: String)
    ensures
        r@ == escape_spec(s@),
{
    let v = str_to_chars(s);
    let mut out: Vec<char> = Vec::new();
    let mut i: usize = 0;
    assert(v@.take(0) =~= Seq::<char>::empty());
    while i < v.len()
        invariant
            v@ == s@,
            0 <= i <= v.len(),
            out@ == escape_spec(v@.take(i as int)),
        decreases v.len() - i,
    {
        assert(v@.take(i + 1).drop_last() =~= v@.take(i as int));
        assert(v@.take(i + 1).last() == v@[i as int]);
        if v[i] == '|' {
            out.push('\\');
            out.push('|');
        } else {
            out.push(v[i]);
        }
        i += 1;
    }
    assert(v@.take(v.len() as int) =~= v@);
    chars_to_string(&out)
}

/// The `- [name/](name/)` lines for child folders.
pub open spec fn folder_lines(children: Seq<Seq<char>>) -> Seq<char>
    decreases children.len(),
{
    if children.len() == 0 {
        seq![]
    } else {
        let name = last_seg_spec(children.last());
        folder_lines(children.drop_last()) + "- ["@ + name + "/]("@ + name + "/)\n"@
    }
}

/// What a concept's row shows as its title: the title, or the id when the
/// title is empty.
pub open spec fn row_title(r: ConceptRecord) -> Seq<char> {
    if r.title@.len() > 0 { r.title@ } else { r.id@ }
}

/// The `| title | [file](file) |` rows for direct concepts.
pub open spec fn concept_rows(direct: Seq<ConceptRecord>) -> Seq<char>
    decreases direct.len(),
{
    if direct.len() == 0 {
        seq![]
    } else {
        let r = direct.last();
        let file = last_seg_spec(r.path@);
        concept_rows(direct.drop_last()) + "| "@ + escape_spec(row_title(r)) + " | ["@ + file + "]("@ + file + ") |\n"@
    }
}

/// The fenced listing block: child folders, then a table of concepts.
pub open spec fn block_spec(children: Seq<Seq<char>>, direct: Seq<ConceptRecord>) -> Seq<char> {
    INDEX_BEGIN@ + "\n"@
        + (if children.len() > 0 { "### Folders\n\n"@ + folder_lines(children) + "\n"@ } else { seq![] })
        + (if direct.len() > 0 { "### Concepts\n\n| Title | File |\n|-------|------|\n"@ + concept_rows(direct) } else { seq![] })
        + INDEX_END@
}

/// Builds the fenced listing block.
pub fn build_block(children: &Vec<String>, direct: &Vec<ConceptRecord>) -> (r: String)
    ensures
        r@ == block_spec(string_views(children@), direct@),
{
    let ghost cv = string_views(children@);
    let mut s = owned(INDEX_BEGIN);
    push_str(&mut s, "\n");
    let ghost head = s@;
    if children.len() > 0 {
        push_str(&mut s, "### Folders\n\n");
        let ghost h2 = s@;
        let mut i: usize = 0;
        assert(cv.take(0) =~= Seq::<Seq<char>>::empty());
        assert(h2 + folder_lines(cv.take(0)) =~= h2);
        while i < children.len()
            invariant
                cv == string_views(children@),
                0 <= i <= children.len(),
                s@ == h2 + folder_lines(cv.take(i as int)),
            decreases children.len() - i,
        {
            let name = last_seg(children[i].as_str());
            assert(cv.take(i + 1).drop_last() =~= cv.take(i as int));
            assert(cv.take(i + 1).last() == children@[i as int]@);
            push_str(&mut s, "- [");
            push_str(&mut s, name.as_str());
            push_str(&mut s, "/](");
            push_str(&mut s, name.as_str());
            push_str(&mut s, "/)\n");
            assert(s@ =~= h2 + folder_lines(cv.take(i + 1)));
            i += 1;
        }
        assert(cv.take(children.len() as int) =~= cv);
        push_str(&mut s, "\n");
    }
    let ghost mid = s@;
    assert(mid == head + (if cv.len() > 0 { "### Folders\n\n"@ + folder_lines(cv) + "\n"@ } else { seq![] }));
    if direct.len() > 0 {
        push_str(&mut s, "### Concepts\n\n| Title | File |\n|-------|------|\n");
        let ghost h2 = s@;
        let mut i: usize = 0;
        assert(direct@.take(0) =~= Seq::<ConceptRecord>::empty());
        assert(h2 + concept_rows(direct@.take(0)) =~= h2);
        while i < direct.len()
            invariant
                0 <= i <= direct.len(),
                s@ == h2 + concept_rows(direct@.take(i as int)),
            decreases direct.len() - i,
        {
            let rec = &direct[i];
            let file = last_seg(rec.path.as_str());
            let tv = str_to_chars(rec.title.as_str());
            let title = if tv.len() > 0 { escape_cell(rec.title.as_str()) } else { escape_cell(rec.id.as_str()) };
            assert(direct@.take(i + 1).drop_last() =~= direct@.take(i as int));
            assert(direct@.take(i + 1).last() == direct@[i as int]);
            push_str(&mut s, "| ");
            push_str(&mut s, title.as_str());
            push_str(&mut s, " | [");
            push_str(&mut s, file.as_str());
            push_str(&mut s, "](");
            push_str(&mut s, file.as_str());
            push_str(&mut s, ") |\n");
            assert(s@ =~= h2 + concept_rows(direct@.take(i + 1)));
            i += 1;
        }
        assert(direct@.take(direct.len() as int) =~= direct@);
    }
    push_str(&mut s, INDEX_END);
    s
}

/// The records at positions `idx`, in that order.
pub open spec fn pick(records: Seq<ConceptRecord>, idx: Seq<usize>) -> Seq<ConceptRecord> {
    idx.map_values(|k: usize| records[k as int])
}

/// Builds the fenced listing block of the records at positions `idx`.
pub fn build_block_at(children: &Vec<String>, records: &Vec<ConceptRecord>, idx: &Vec<usize>) -> (r: String)
    requires
        forall|j: int| 0 <= j < idx@.len() ==> (#[trigger] idx@[j]) < records@.len(),
    ensures
        r@ == block_spec(string_views(children@), pick(records@, idx@)),
{
    let ghost direct = pick(records@, idx@);
    let ghost cv = string_views(children@);
    let mut s = owned(INDEX_BEGIN);
    push_str(&mut s, "\n");
    let ghost head = s@;
    if children.len() > 0 {
        push_str(&mut s, "### Folders\n\n");
        let ghost h2 = s@;
        let mut i: usize = 0;
        assert(cv.take(0) =~= Seq::<Seq<char>>::empty());
        assert(h2 + folder_lines(cv.take(0)) =~= h2);
        while i < children.len()
            invariant
                cv == string_views(children@),
                0 <= i <= children.len(),
                s@ == h2 + folder_lines(cv.take(i as int)),
            decreases children.len() - i,
        {
            let name = last_seg(children[i].as_str());
            assert(cv.take(i + 1).drop_last() =~= cv.take(i as int));
            assert(cv.take(i + 1).last() == children@[i as int]@);
            push_str(&mut s, "- [");
            push_str(&mut s, name.as_str());
            push_str(&mut s, "/](");
            push_str(&mut s, name.as_str());
            push_str(&mut s, "/)\n");
            assert(s@ =~= h2 + folder_lines(cv.take(i + 1)));
            i += 1;
        }
        assert(cv.take(children.len() as int) =~= cv);
        push_str(&mut s, "\n");
    }
    let ghost mid = s@;
    assert(direct.len() == idx@.len());
    assert(mid == head + (if cv.len() > 0 { "### Folders\n\n"@ + folder_lines(cv) + "\n"@ } else { seq![] }));
    if idx.len() > 0 {
        push_str(&mut s, "### Concepts\n\n| Title | File |\n|-------|------|\n");
        let ghost h2 = s@;
        let mut i: usize = 0;
        assert(direct.take(0) =~= Seq::<ConceptRecord>::empty());
        assert(h2 + concept_rows(direct.take(0)) =~= h2);
        while i < idx.len()
            invariant
                0 <= i <= idx.len(),
                direct == pick(records@, idx@),
                forall|j: int| 0 <= j < idx@.len() ==> (#[trigger] idx@[j]) < records@.len(),
                s@ == h2 + concept_rows(direct.take(i as int)),
            decreases idx.len() - i,
        {
            assert(idx@[i as int] < records@.len());
            let rec = &records[idx[i]];
            assert(direct[i as int] == *rec);
            let file = last_seg(rec.path.as_str());
            let tv = str_to_chars(rec.title.as_str());
            let title = if tv.len() > 0 { escape_cell(rec.title.as_str()) } else { escape_cell(rec.id.as_str()) };
            assert(direct.take(i + 1).drop_last() =~= direct.take(i as int));
            assert(direct.take(i + 1).last() == direct[i as int]);
            push_str(&mut s, "| ");
            push_str(&mut s, title.as_str());
            push_str(&mut s, " | [");
            push_str(&mut s, file.as_str());
            push_str(&mut s, "](");
            push_str(&mut s, file.as_str());
            push_str(&mut s, ") |\n");
            assert(s@ =~= h2 + concept_rows(direct.take(i + 1)));
            i += 1;
        }
        assert(direct.take(idx.len() as int) =~= direct);
    }
    push_str(&mut s, INDEX_END);
    s
}

/// The listing block replaced between the markers, or appended after the
/// trimmed text when the markers are missing or out of order.
pub open spec fn inject_spec(existing: Seq<char>, block: Seq<char>) -> Seq<char> {
    let b = first_occ(existing, INDEX_BEGIN@);
    let e = first_occ(existing, INDEX_END@);
    if b >= 0 && e >= 0 && e >= b {
        existing.take(b) + block + existing.skip(e + INDEX_END@.len())
    } else {
        trim_end_spec(existing) + "\n\n"@ + block + "\n"@
    }
}

/// Replaces the listing block in `existing`, or appends it if no markers exist.
pub fn inject(existing: &str, block: &str) -> (r: String)
    ensures
        r@ == inject_spec(existing@, block@),
{
    let v = str_to_chars(existing);
    let vl = v.len();
    let bm = str_to_chars(INDEX_BEGIN);
    let em = str_to_chars(INDEX_END);
    let bo = find_first(&v, &bm);
    let eo = find_first(&v, &em);
    let ghost bi = first_occ(existing@, INDEX_BEGIN@);
    let ghost ei = first_occ(existing@, INDEX_END@);
    match bo {
        Some(b) => {
            match eo {
                Some(e) => {
                    if e >= b {
                        assert(occurs_at(v@, em@, e as int));
                        assert(e + em.len() <= vl);
                        let end = e + em.len();
                        let head = slice_chars(&v, 0, b);
                        let tail = slice_chars(&v, end, v.len());
                        let mut out = chars_to_string(&head);
                        push_str(&mut out, block);
                        push_str(&mut out, chars_to_string(&tail).as_str());
                        assert(out@ =~= existing@.take(bi) + block@ + existing@.skip(ei + INDEX_END@.len()));
                        return out;
                    }
                },
                None => {},
            }
        },
        None => {},
    }
    let t = trim_end_chars(&v);
    let mut out = chars_to_string(&t);
    push_str(&mut out, "\n\n");
    push_str(&mut out, block);
    push_str(&mut out, "\n");
    out
}

/// A fresh `index.md` for a directory that has none. The root carries
/// `okf_version` and is titled by the bundle's directory name
/// (`Knowledge base` when it has none); others are titled by their name.
pub open spec fn scaffold_spec(dir: Seq<char>, root_name: Seq<char>, block: Seq<char>) -> Seq<char> {
    if dir.len() == 0 {
        let name = if root_name.len() > 0 { root_name } else { "Knowledge base"@ };
        "---\nokf_version: \"0.1\"\n---\n\n# "@ + name + "\n\n"@ + block + "\n"@
    } else {
        "# "@ + last_seg_spec(dir) + "\n\n"@ + block + "\n"@
    }
}

/// A fresh `index.md` for directory `dir`; `root_name` is the bundle
/// directory's own name (empty when it has none).
pub fn scaffold(dir: &str, root_name: &str, block: &str) -> (r: String)
    ensures
        r@ == scaffold_spec(dir@, root_name@, block@),
{
    let dv = str_to_chars(dir);
    if dv.len() == 0 {
        let rv = str_to_chars(root_name);
        let mut out = owned("---\nokf_version: \"0.1\"\n---\n\n# ");
        if rv.len() > 0 {
            push_str(&mut out, root_name);
        } else {
            push_str(&mut out, "Knowledge base");
        }
        push_str(&mut out, "\n\n");
        push_str(&mut out, block);
        push_str(&mut out, "\n");
        out
    } else {
        let mut out = owned("# ");
        let name = last_seg(dir);
        push_str(&mut out, name.as_str());
        push_str(&mut out, "\n\n");
        push_str(&mut out, block);
        push_str(&mut out, "\n");
        out
    }
}

/// The index markers are single-line, and the end marker is the shorter.
pub proof fn lemma_index_markers()
    ensures
        one_line(INDEX_BEGIN@),
        one_line(INDEX_END@),
        INDEX_END@.len() <= INDEX_BEGIN@.len(),
{
    reveal_strlit("<!-- okq:index:begin -->");
    reveal_strlit("<!-- okq:index:end -->");
    assert(no_newline_upto(INDEX_BEGIN@, INDEX_BEGIN@.len())) by {
        reveal_with_fuel(no_newline_upto, 30);
    }
    lemma_no_newline(INDEX_BEGIN@, INDEX_BEGIN@.len());
    assert(no_newline_upto(INDEX_END@, INDEX_END@.len())) by {
        reveal_with_fuel(no_newline_upto, 30);
    }
    lemma_no_newline(INDEX_END@, INDEX_END@.len());
}

/// Injecting a listing block into the output of the same injection
/// changes nothing, when the file's markers were both present and in
/// order, or both absent, and the block's end marker is the one that ends
/// it.
pub proof fn lemma_inject_idempotent(existing: Seq<char>, children: Seq<Seq<char>>, direct: Seq<ConceptRecord>)
    requires
        markers_sound(existing, INDEX_BEGIN@, INDEX_END@),
        first_occ(block_spec(children, direct), INDEX_END@) == block_spec(children, direct).len() - INDEX_END@.len(),
    ensures
        ({
            let block = block_spec(children, direct);
            inject_spec(inject_spec(existing, block), block) == inject_spec(existing, block)
        }),
{
    lemma_index_markers();
    reveal_strlit("\n\n");
    reveal_strlit("\n");
    let block = block_spec(children, direct);
    assert(block.take(INDEX_BEGIN@.len() as int) =~= INDEX_BEGIN@);
    let once = inject_spec(existing, block);
    assert(once == splice_spec(existing, block, INDEX_BEGIN@, INDEX_END@));
    assert(inject_spec(once, block) == splice_spec(once, block, INDEX_BEGIN@, INDEX_END@));
    lemma_splice_twice(existing, block, INDEX_BEGIN@, INDEX_END@);
}

} // verus!
