//! Resolution of link and relation targets to concept ids.

use vstd::prelude::*;
use vstd::utf8::encode_utf8;
use crate::concept::{ConceptId, valid_id};
use crate::text::{
    before_first, before_first_chars, chars_to_string, contains, contains_spec, first_index_from,
    first_pos, lemma_first_pos_bounds, slice_chars, str_to_chars, string_views, trim_chars,
    trim_spec, views,
};
use crate::wikilinks::{md_suffix, scheme_sep, strip_md};
use crate::text::ends_with;

verus! {

// ---------------------------------------------------------------------------
// Splitting on a separator, as `str::split` does.

pub open spec fn split_spec(s: Seq<char>, c: char) -> Seq<Seq<char>>
    decreases s.len(),
{
    let k = first_pos(s, c);
    if k >= s.len() {
        seq![s]
    } else {
        proof {
            lemma_first_pos_bounds(s, c);
        }
        seq![s.take(k)] + split_spec(s.skip(k + 1), c)
    }
}

pub fn split_chars(s: &Vec<char>, c: char) -> (r: Vec<Vec<char>>)
    ensures
        views(r@) == split_spec(s@, c),
{
    let mut out: Vec<Vec<char>> = Vec::new();
    let mut pos: usize = 0;
    assert(s@.skip(0) =~= s@);
    loop
        invariant
            0 <= pos <= s.len(),
            views(out@) + split_spec(s@.skip(pos as int), c) == split_spec(s@, c),
        decreases s.len() - pos,
    {
        let ghost rest = s@.skip(pos as int);
        let k = first_index_from(s, pos, c);
        proof {
            lemma_first_pos_bounds(rest, c);
        }
        let piece = slice_chars(s, pos, k);
        let ghost before = out@;
        if k == s.len() {
            assert(piece@ =~= rest);
            out.push(piece);
            assert(views(out@) =~= views(before).push(rest));
            assert(views(out@) =~= views(before) + split_spec(rest, c));
            return out;
        }
        assert(rest.take(k - pos) =~= piece@);
        assert(rest.skip(k - pos + 1) =~= s@.skip(k + 1));
        out.push(piece);
        assert(views(out@) =~= views(before).push(piece@));
        pos = k + 1;
        assert(views(out@) + split_spec(s@.skip(pos as int), c) =~= views(before) + split_spec(rest, c));
    }
}

// ---------------------------------------------------------------------------
// Percent-decoding of one path component.

/// The value of an ASCII hex digit byte.
pub open spec fn hexval(b: u8) -> Option<u8> {
    if 48 <= b <= 57 {
        Some((b - 48) as u8)
    } else if 97 <= b <= 102 {
        Some((b - 87) as u8)
    } else if 65 <= b <= 70 {
        Some((b - 55) as u8)
    } else {
        None
    }
}

/// `%XY` escapes replaced by the byte they denote, from position `i`;
/// malformed or incomplete escapes stay as written.
pub open spec fn pct_from(b: Seq<u8>, i: int) -> Seq<u8>
    decreases b.len() - i,
{
    if i < 0 || i >= b.len() {
        seq![]
    } else if b[i] == 37 && i + 2 < b.len() && hexval(b[i + 1]) is Some && hexval(b[i + 2]) is Some {
        seq![(hexval(b[i + 1])->0 * 16 + hexval(b[i + 2])->0) as u8] + pct_from(b, i + 3)
    } else {
        seq![b[i]] + pct_from(b, i + 1)
    }
}

/// The string `String::from_utf8_lossy` makes of some bytes.
pub uninterp spec fn lossy_decode(b: Seq<u8>) -> Seq<char>;

/// `String::from_utf8_lossy(bytes).into_owned()`. Claimed: the result is
/// the named decoding of `bytes`, and bytes that are valid UTF-8 decode to
/// exactly the characters they encode.
#[verifier::external_body]
fn utf8_lossy(bytes: &Vec<u8>) -> (r: String)
    ensures
        r@ == lossy_decode(bytes@),
        forall|s: Seq<char>| #[trigger] encode_utf8(s) == bytes@ ==> r@ == s,
{
    String::from_utf8_lossy(bytes).into_owned()
}

fn hex_digit(b: u8) -> (r: Option<u8>)
    ensures
        r == hexval(b),
{
    if 48 <= b && b <= 57 {
        Some(b - 48)
    } else if 97 <= b && b <= 102 {
        Some(b - 87)
    } else if 65 <= b && b <= 70 {
        Some(b - 55)
    } else {
        None
    }
}

pub open spec fn percent_decode_spec(s: Seq<char>) -> Seq<char> {
    lossy_decode(pct_from(encode_utf8(s), 0))
}

/// Percent-decodes one path component (`Quarterly%20Report` →
/// `Quarterly Report`), byte by byte so multi-byte escapes reassemble.
pub fn percent_decode(s: &str) -> (r: String)
    ensures
        r@ == percent_decode_spec(s@),
{
    let bytes = s.as_bytes();
    let mut out: Vec<u8> = Vec::new();
    let mut i: usize = 0;
    assert(bytes@ == encode_utf8(s@));
    while i < bytes.len()
        invariant
            0 <= i <= bytes@.len(),
            bytes@ == encode_utf8(s@),
            out@ + pct_from(bytes@, i as int) == pct_from(bytes@, 0),
        decreases bytes@.len() - i,
    {
        let ghost before = out@;
        if bytes[i] == 37 && bytes.len() - i > 2 {
            let hi = hex_digit(bytes[i + 1]);
            let lo = hex_digit(bytes[i + 2]);
            match (hi, lo) {
                (Some(h), Some(l)) => {
                    let v: u8 = h * 16 + l;
                    out.push(v);
                    assert(out@ + pct_from(bytes@, i + 3) =~= before + pct_from(bytes@, i as int));
                    i += 3;
                    continue;
                },
                _ => {},
            }
        }
        out.push(bytes[i]);
        assert(out@ + pct_from(bytes@, i + 1) =~= before + pct_from(bytes@, i as int));
        i += 1;
    }
    assert(out@ + pct_from(bytes@, i as int) =~= out@);
    utf8_lossy(&out)
}

// ---------------------------------------------------------------------------
// Walking path components.

pub open spec fn is_dot(p: Seq<char>) -> bool {
    p == seq!['.']
}

pub open spec fn is_dotdot(p: Seq<char>) -> bool {
    p == seq!['.', '.']
}

/// Applies path components to a segment stack: empty and `.` are skipped,
/// `..` pops (failing at the root), anything else is pushed (percent-decoded
/// when `decode`).
pub open spec fn walk_parts(segs: Seq<Seq<char>>, parts: Seq<Seq<char>>, decode: bool) -> Option<Seq<Seq<char>>>
    decreases parts.len(),
{
    if parts.len() == 0 {
        Some(segs)
    } else {
        let p = parts[0];
        let rest = parts.drop_first();
        if p.len() == 0 || is_dot(p) {
            walk_parts(segs, rest, decode)
        } else if is_dotdot(p) {
            if segs.len() == 0 {
                None
            } else {
                walk_parts(segs.drop_last(), rest, decode)
            }
        } else {
            walk_parts(segs.push(if decode { percent_decode_spec(p) } else { p }), rest, decode)
        }
    }
}

pub open spec fn checked_id(segs: Option<Seq<Seq<char>>>) -> Option<Seq<Seq<char>>> {
    match segs {
        Some(sg) => if valid_id(sg) { Some(sg) } else { None },
        None => None,
    }
}

/// A relation or link target read relative to the source's directory:
/// anchor dropped and trimmed; nothing for an empty or external target; a
/// `.md` suffix tolerated; each component percent-decoded.
pub open spec fn resolve_relative_spec(source: Seq<Seq<char>>, value: Seq<char>) -> Option<Seq<Seq<char>>> {
    let v = trim_spec(before_first(value, '#'));
    if v.len() == 0 || contains_spec(v, scheme_sep()) {
        None
    } else {
        let dir = if source.len() > 0 { source.drop_last() } else { source };
        checked_id(walk_parts(dir, split_spec(strip_md(v), '/'), true))
    }
}

/// A wikilink path read from the bundle root: `.md` tolerated, `.`/`..` and
/// a leading `/` handled, no decoding.
pub open spec fn resolve_from_root_spec(value: Seq<char>) -> Option<Seq<Seq<char>>> {
    checked_id(walk_parts(seq![], split_spec(strip_md(value), '/'), false))
}

fn walk_parts_exec(start: Vec<String>, parts: &Vec<Vec<char>>, decode: bool) -> (r: Option<Vec<String>>)
    ensures
        match walk_parts(string_views(start@), views(parts@), decode) {
            Some(sg) => r matches Some(v) && string_views(v@) == sg,
            None => r is None,
        },
{
    let mut segs = start;
    let mut i: usize = 0;
    assert(views(parts@).skip(0) =~= views(parts@));
    while i < parts.len()
        invariant
            0 <= i <= parts.len(),
            walk_parts(string_views(segs@), views(parts@).skip(i as int), decode) == walk_parts(
                string_views(start@),
                views(parts@),
                decode,
            ),
        decreases parts.len() - i,
    {
        let p = &parts[i];
        let ghost before = string_views(segs@);
        assert(views(parts@).skip(i as int)[0] == p@);
        assert(views(parts@).skip(i as int).drop_first() =~= views(parts@).skip(i + 1));
        if p.len() == 0 || (p.len() == 1 && p[0] == '.') {
            if p.len() == 1 {
                assert(p@ =~= seq!['.']);
            }
        } else if p.len() == 2 && p[0] == '.' && p[1] == '.' {
            assert(p@ =~= seq!['.', '.']);
            if segs.len() == 0 {
                return None;
            }
            segs.pop();
            assert(string_views(segs@) =~= before.drop_last());
        } else {
            assert(!is_dot(p@) && !is_dotdot(p@)) by {
                if is_dot(p@) {
                    assert(p@.len() == 1 && p@[0] == '.');
                }
                if is_dotdot(p@) {
                    assert(p@.len() == 2 && p@[0] == '.' && p@[1] == '.');
                }
            }
            let raw = chars_to_string(p);
            let seg = if decode {
                percent_decode(raw.as_str())
            } else {
                raw
            };
            segs.push(seg);
            assert(string_views(segs@) =~= before.push(seg@));
        }
        i += 1;
    }
    assert(views(parts@).skip(i as int) =~= Seq::<Seq<char>>::empty());
    Some(segs)
}

pub(crate) fn strip_md_chars(v: &Vec<char>) -> (r: Vec<char>)
    ensures
        r@ == strip_md(v@),
{
    if ends_with(v, &vec!['.', 'm', 'd']) {
        slice_chars(v, 0, v.len() - 3)
    } else {
        let r = slice_chars(v, 0, v.len());
        assert(r@ =~= v@);
        r
    }
}

fn checked(segs: Option<Vec<String>>) -> (r: Option<ConceptId>)
    ensures
        match segs {
            Some(v) => match checked_id(Some(string_views(v@))) {
                Some(sg) => r matches Some(id) && id@ == sg,
                None => r is None,
            },
            None => r is None,
        },
{
    match segs {
        Some(v) => ConceptId::new(v),
        None => None,
    }
}

/// Resolves a relation/link target written relative to `source`'s directory.
pub fn resolve_relative(source: &ConceptId, value: &str) -> (r: Option<ConceptId>)
    ensures
        match resolve_relative_spec(source@, value@) {
            Some(sg) => r matches Some(id) && id@ == sg,
            None => r is None,
        },
{
    let chars = str_to_chars(value);
    let a = before_first_chars(&chars, '#');
    let v = trim_chars(&a);
    if v.len() == 0 || contains(&v, &vec![':', '/', '/']) {
        return None;
    }
    let stripped = strip_md_chars(&v);
    let parts = split_chars(&stripped, '/');
    let mut dir = source.segments().clone();
    assert(string_views(dir@) == source@);
    if dir.len() > 0 {
        dir.pop();
        assert(string_views(dir@) =~= source@.drop_last());
    }
    checked(walk_parts_exec(dir, &parts, true))
}

/// Resolves a wikilink path read relative to the bundle root.
pub fn resolve_from_root(value: &str) -> (r: Option<ConceptId>)
    ensures
        match resolve_from_root_spec(value@) {
            Some(sg) => r matches Some(id) && id@ == sg,
            None => r is None,
        },
{
    let chars = str_to_chars(value);
    let stripped = strip_md_chars(&chars);
    let parts = split_chars(&stripped, '/');
    let empty: Vec<String> = Vec::new();
    assert(string_views(empty@) =~= Seq::<Seq<char>>::empty());
    checked(walk_parts_exec(empty, &parts, false))
}

} // verus!
