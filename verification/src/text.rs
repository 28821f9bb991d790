//! Character and string primitives shared by the scanners.
//!
//! Unicode classification and case mapping come from `std` (trusted wrappers
//! below, each stating exactly what the standard library documents for ASCII
//! and naming the rest). Everything else — line splitting, trimming, prefix
//! tests — is written and proved here over `Seq<char>`.

use vstd::prelude::*;
use vstd::std_specs::iter::IteratorSpec;

verus! {

// ---------------------------------------------------------------------------
// ASCII character classes (exact).

pub open spec fn is_ascii_char(c: char) -> bool {
    (c as u32) < 128
}

pub open spec fn all_ascii(s: Seq<char>) -> bool {
    forall|i: int| 0 <= i < s.len() ==> is_ascii_char(#[trigger] s[i])
}

pub open spec fn is_ascii_upper(c: char) -> bool {
    65 <= (c as u32) && (c as u32) <= 90
}

pub open spec fn is_ascii_lower(c: char) -> bool {
    97 <= (c as u32) && (c as u32) <= 122
}

pub open spec fn is_ascii_letter(c: char) -> bool {
    is_ascii_upper(c) || is_ascii_lower(c)
}

pub open spec fn is_ascii_digit(c: char) -> bool {
    48 <= (c as u32) && (c as u32) <= 57
}

pub open spec fn is_ascii_ws(c: char) -> bool {
    c == ' ' || c == '\t' || c == '\n' || c == '\r' || c == '\x0B' || c == '\x0C'
}

/// ASCII lowercase mapping: `A`–`Z` to `a`–`z`, everything else unchanged.
pub open spec fn ascii_lower(c: char) -> char {
    if is_ascii_upper(c) {
        ((c as u32) + 32) as char
    } else {
        c
    }
}

/// ASCII uppercase mapping: `a`–`z` to `A`–`Z`, everything else unchanged.
pub open spec fn ascii_upper(c: char) -> char {
    if is_ascii_lower(c) {
        ((c as u32) - 32) as char
    } else {
        c
    }
}

pub open spec fn ascii_lower_seq(s: Seq<char>) -> Seq<char> {
    s.map_values(|c: char| ascii_lower(c))
}

pub open spec fn ascii_upper_seq(s: Seq<char>) -> Seq<char> {
    s.map_values(|c: char| ascii_upper(c))
}

// ---------------------------------------------------------------------------
// Unicode properties, named.

/// The Unicode `Alphabetic` property of a non-ASCII character, as
/// `char::is_alphabetic` reports it.
pub uninterp spec fn alphabetic_table(c: char) -> bool;

/// `Alphabetic` or `Numeric` for a non-ASCII character, as
/// `char::is_alphanumeric` reports it.
pub uninterp spec fn alphanumeric_table(c: char) -> bool;

/// The Unicode `White_Space` property of a non-ASCII character, as
/// `char::is_whitespace` reports it.
pub uninterp spec fn whitespace_table(c: char) -> bool;

/// The full lowercase mapping of a non-ASCII character, as `char::to_lowercase` yields it.
pub uninterp spec fn lower_char_table(c: char) -> Seq<char>;

/// The lowercase of a string holding a non-ASCII character, as `str::to_lowercase` returns it.
pub uninterp spec fn lower_str_table(s: Seq<char>) -> Seq<char>;

/// The uppercase of a string holding a non-ASCII character, as `str::to_uppercase` returns it.
pub uninterp spec fn upper_str_table(s: Seq<char>) -> Seq<char>;

/// `char::is_alphabetic`: for ASCII exactly `A`–`Z` and `a`–`z`.
pub open spec fn unicode_alphabetic(c: char) -> bool {
    if is_ascii_char(c) { is_ascii_letter(c) } else { alphabetic_table(c) }
}

/// `char::is_alphanumeric`: for ASCII exactly the letters and digits.
pub open spec fn unicode_alphanumeric(c: char) -> bool {
    if is_ascii_char(c) { is_ascii_letter(c) || is_ascii_digit(c) } else { alphanumeric_table(c) }
}

/// `char::is_whitespace`: for ASCII exactly space, tab, line feed, vertical
/// tab, form feed and carriage return.
pub open spec fn unicode_whitespace(c: char) -> bool {
    if is_ascii_char(c) { is_ascii_ws(c) } else { whitespace_table(c) }
}

/// `char::to_lowercase`: an ASCII character maps to its ASCII lowercase alone.
pub open spec fn unicode_lower_char(c: char) -> Seq<char> {
    if is_ascii_char(c) { seq![ascii_lower(c)] } else { lower_char_table(c) }
}

/// `str::to_lowercase`: an all-ASCII string maps character by character.
pub open spec fn unicode_lower_str(s: Seq<char>) -> Seq<char> {
    if all_ascii(s) { ascii_lower_seq(s) } else { lower_str_table(s) }
}

/// `str::to_uppercase`: an all-ASCII string maps character by character.
pub open spec fn unicode_upper_str(s: Seq<char>) -> Seq<char> {
    if all_ascii(s) { ascii_upper_seq(s) } else { upper_str_table(s) }
}

/// `char::is_alphabetic`. Claimed: for an ASCII character it holds exactly
/// for `A`–`Z` and `a`–`z`; otherwise it is the named Unicode property.
#[verifier::external_body]
pub(crate) fn is_alphabetic(c: char) -> (r: bool)
    ensures
        is_ascii_char(c) ==> (r <==> is_ascii_letter(c)),
        !is_ascii_char(c) ==> r == alphabetic_table(c),
{
    c.is_alphabetic()
}

/// `char::is_alphanumeric`. Claimed: for ASCII it holds exactly for letters
/// and digits; otherwise it is the named property, and it holds of every
/// alphabetic character (the documentation defines it as alphabetic or numeric).
#[verifier::external_body]
pub(crate) fn is_alphanumeric(c: char) -> (r: bool)
    ensures
        is_ascii_char(c) ==> (r <==> (is_ascii_letter(c) || is_ascii_digit(c))),
        !is_ascii_char(c) ==> r == alphanumeric_table(c),
        unicode_alphabetic(c) ==> r,
{
    c.is_alphanumeric()
}

/// `char::is_whitespace`. Claimed: for ASCII it holds exactly for space,
/// tab, line feed, vertical tab, form feed and carriage return; otherwise it
/// is the named Unicode `White_Space` property.
#[verifier::external_body]
pub(crate) fn is_whitespace(c: char) -> (r: bool)
    ensures
        is_ascii_char(c) ==> (r <==> is_ascii_ws(c)),
        !is_ascii_char(c) ==> r == whitespace_table(c),
{
    c.is_whitespace()
}

/// `char::to_lowercase`, collected. Claimed: an ASCII character maps to its
/// ASCII lowercase alone; any other to the named mapping.
#[verifier::external_body]
pub(crate) fn char_lowercase(c: char) -> (r: Vec<char>)
    ensures
        is_ascii_char(c) ==> r@ == seq![ascii_lower(c)],
        !is_ascii_char(c) ==> r@ == lower_char_table(c),
{
    c.to_lowercase().collect()
}

/// `str::to_lowercase`. Claimed: an all-ASCII string maps character by
/// character to ASCII lowercase; any other to the named mapping.
#[verifier::external_body]
pub(crate) fn str_lowercase(s: &str) -> (r: String)
    ensures
        all_ascii(s@) ==> r@ == ascii_lower_seq(s@),
        !all_ascii(s@) ==> r@ == lower_str_table(s@),
{
    s.to_lowercase()
}

/// `str::to_uppercase`. Claimed: an all-ASCII string maps character by
/// character to ASCII uppercase; any other to the named mapping.
#[verifier::external_body]
pub(crate) fn str_uppercase(s: &str) -> (r: String)
    ensures
        all_ascii(s@) ==> r@ == ascii_upper_seq(s@),
        !all_ascii(s@) ==> r@ == upper_str_table(s@),
{
    s.to_uppercase()
}

/// `String::push` appends one character.
pub assume_specification[ String::push ](string: &mut String, ch: char)
    ensures
        final(string)@ == old(string)@.push(ch),
;

// ---------------------------------------------------------------------------
// Conversions.

/// The characters of a string slice.
pub fn str_to_chars(s: &str) -> (r: Vec<char>)
    ensures
        r@ == s@,
{
    broadcast use vstd::string::group_string_axioms;

    let mut it = s.chars();
    let mut r: Vec<char> = Vec::new();
    loop
        invariant
            r@ + it.remaining() == s@,
            it.decrease() is Some,
        ensures
            r@ == s@,
        decreases it.decrease()->0,
    {
        match it.next() {
            Some(c) => {
                r.push(c);
            },
            None => {
                assert(it.remaining().len() == 0);
                assert(r@ + it.remaining() == r@);
                break;
            },
        }
    }
    r
}


/// An owned copy of a string slice.
pub fn owned(s: &str) -> (r: String)
    ensures
        r@ == s@,
{
    broadcast use vstd::string::group_string_axioms;

    s.to_string()
}

/// A `String` holding exactly the given characters.
pub fn chars_to_string(v: &Vec<char>) -> (r: String)
    ensures
        r@ == v@,
{
    let mut r = String::new();
    let mut i: usize = 0;
    while i < v.len()
        invariant
            0 <= i <= v.len(),
            r@ == v@.take(i as int),
        decreases v.len() - i,
    {
        r.push(v[i]);
        i += 1;
        assert(r@ =~= v@.take(i as int));
    }
    assert(v@.take(v.len() as int) =~= v@);
    r
}

/// Copies `v[from..to]`.
pub fn slice_chars(v: &Vec<char>, from: usize, to: usize) -> (r: Vec<char>)
    requires
        from <= to <= v.len(),
    ensures
        r@ == v@.subrange(from as int, to as int),
{
    let mut r: Vec<char> = Vec::new();
    let mut i = from;
    while i < to
        invariant
            from <= i <= to <= v.len(),
            r@ == v@.subrange(from as int, i as int),
        decreases to - i,
    {
        r.push(v[i]);
        i += 1;
        assert(r@ =~= v@.subrange(from as int, i as int));
    }
    r
}

// ---------------------------------------------------------------------------
// Trimming (Unicode `White_Space`, as `str::trim*` use).

pub open spec fn trim_start_spec(s: Seq<char>) -> Seq<char>
    decreases s.len(),
{
    if s.len() > 0 && unicode_whitespace(s[0]) {
        trim_start_spec(s.drop_first())
    } else {
        s
    }
}

pub open spec fn trim_end_spec(s: Seq<char>) -> Seq<char>
    decreases s.len(),
{
    if s.len() > 0 && unicode_whitespace(s.last()) {
        trim_end_spec(s.drop_last())
    } else {
        s
    }
}

pub open spec fn trim_spec(s: Seq<char>) -> Seq<char> {
    trim_end_spec(trim_start_spec(s))
}

/// The index of the first character of `v` that is not whitespace (or its length).
pub fn trim_start_index(v: &Vec<char>) -> (k: usize)
    ensures
        k <= v.len(),
        v@.skip(k as int) == trim_start_spec(v@),
{
    let mut i: usize = 0;
    assert(v@.skip(0) =~= v@);
    while i < v.len() && is_whitespace(v[i])
        invariant
            0 <= i <= v.len(),
            trim_start_spec(v@.skip(i as int)) == trim_start_spec(v@),
        decreases v.len() - i,
    {
        assert(v@.skip(i as int).drop_first() =~= v@.skip(i + 1));
        i += 1;
    }
    assert(v@.skip(0) =~= v@);
    i
}

/// The length of `v` with trailing whitespace removed.
pub fn trim_end_index(v: &Vec<char>) -> (k: usize)
    ensures
        k <= v.len(),
        v@.take(k as int) == trim_end_spec(v@),
{
    let mut i: usize = v.len();
    assert(v@.take(v.len() as int) =~= v@);
    while i > 0 && is_whitespace(v[i - 1])
        invariant
            0 <= i <= v.len(),
            trim_end_spec(v@.take(i as int)) == trim_end_spec(v@),
        decreases i,
    {
        assert(v@.take(i as int).drop_last() =~= v@.take(i - 1));
        i -= 1;
    }
    assert(v@.take(v.len() as int) =~= v@);
    i
}

pub fn trim_start_chars(v: &Vec<char>) -> (r: Vec<char>)
    ensures
        r@ == trim_start_spec(v@),
{
    let k = trim_start_index(v);
    slice_chars(v, k, v.len())
}

pub fn trim_end_chars(v: &Vec<char>) -> (r: Vec<char>)
    ensures
        r@ == trim_end_spec(v@),
{
    let k = trim_end_index(v);
    slice_chars(v, 0, k)
}

pub fn trim_chars(v: &Vec<char>) -> (r: Vec<char>)
    ensures
        r@ == trim_spec(v@),
{
    let a = trim_start_chars(v);
    trim_end_chars(&a)
}

// ---------------------------------------------------------------------------
// Prefixes, suffixes, occurrences.

pub open spec fn starts_with_spec(s: Seq<char>, p: Seq<char>) -> bool {
    p.len() <= s.len() && s.take(p.len() as int) == p
}

pub open spec fn ends_with_spec(s: Seq<char>, p: Seq<char>) -> bool {
    p.len() <= s.len() && s.skip(s.len() - p.len()) == p
}

pub open spec fn occurs_at(s: Seq<char>, p: Seq<char>, i: int) -> bool {
    0 <= i && i + p.len() <= s.len() && s.subrange(i, i + p.len()) == p
}

pub open spec fn contains_spec(s: Seq<char>, p: Seq<char>) -> bool {
    exists|i: int| occurs_at(s, p, i)
}

pub fn starts_with(s: &Vec<char>, p: &Vec<char>) -> (r: bool)
    ensures
        r == starts_with_spec(s@, p@),
{
    if p.len() > s.len() {
        return false;
    }
    let mut i: usize = 0;
    while i < p.len()
        invariant
            p.len() <= s.len(),
            0 <= i <= p.len(),
            forall|k: int| 0 <= k < i ==> s@[k] == p@[k],
        decreases p.len() - i,
    {
        if s[i] != p[i] {
            assert(s@.take(p.len() as int)[i as int] != p@[i as int]);
            return false;
        }
        i += 1;
    }
    assert(s@.take(p.len() as int) =~= p@);
    true
}

pub fn occurs_at_exec(s: &Vec<char>, p: &Vec<char>, at: usize) -> (r: bool)
    ensures
        r == occurs_at(s@, p@, at as int),
{
    if at > s.len() || p.len() > s.len() - at {
        return false;
    }
    let mut i: usize = 0;
    while i < p.len()
        invariant
            at + p.len() <= s.len(),
            0 <= i <= p.len(),
            forall|k: int| 0 <= k < i ==> s@[at + k] == p@[k],
        decreases p.len() - i,
    {
        if s[at + i] != p[i] {
            assert(s@.subrange(at as int, at + p.len())[i as int] != p@[i as int]);
            return false;
        }
        i += 1;
    }
    assert(s@.subrange(at as int, at + p.len()) =~= p@);
    true
}

pub fn ends_with(s: &Vec<char>, p: &Vec<char>) -> (r: bool)
    ensures
        r == ends_with_spec(s@, p@),
{
    if p.len() > s.len() {
        return false;
    }
    let r = occurs_at_exec(s, p, s.len() - p.len());
    assert(s@.subrange(s.len() - p.len(), s.len() as int) =~= s@.skip(s.len() - p.len()));
    r
}

/// The first index at which `p` occurs in `s`, if any.
pub fn find_seq(s: &Vec<char>, p: &Vec<char>) -> (r: Option<usize>)
    ensures
        match r {
            Some(i) => occurs_at(s@, p@, i as int) && forall|j: int| 0 <= j < i ==> !occurs_at(s@, p@, j),
            None => !contains_spec(s@, p@),
        },
{
    if p.len() > s.len() {
        return None;
    }
    let last = s.len() - p.len();
    let mut i: usize = 0;
    loop
        invariant
            p.len() <= s.len(),
            last == s.len() - p.len(),
            0 <= i <= last,
            forall|j: int| 0 <= j < i ==> !occurs_at(s@, p@, j),
        decreases last - i,
    {
        if occurs_at_exec(s, p, i) {
            return Some(i);
        }
        if i == last {
            assert forall|j: int| occurs_at(s@, p@, j) implies false by {
                assert(j <= last);
            }
            return None;
        }
        i += 1;
    }
}


/// The first index at which `p` occurs in `s` (-1 if none).
#[verifier::opaque]
pub open spec fn first_occ(s: Seq<char>, p: Seq<char>) -> int {
    if contains_spec(s, p) {
        choose|i: int| occurs_at(s, p, i) && forall|j: int| 0 <= j < i ==> !occurs_at(s, p, j)
    } else {
        -1
    }
}

/// The first index at which `p` occurs in `s`, as `str::find` reports it.
pub fn find_first(s: &Vec<char>, p: &Vec<char>) -> (r: Option<usize>)
    ensures
        match r {
            Some(i) => i as int == first_occ(s@, p@) && occurs_at(s@, p@, i as int),
            None => first_occ(s@, p@) == -1,
        },
{
    let r = find_seq(s, p);
    proof {
        reveal(first_occ);
    }
    match r {
        Some(i) => {
            proof {
                assert(contains_spec(s@, p@));
                let c = choose|k: int| occurs_at(s@, p@, k) && forall|j: int| 0 <= j < k ==> !occurs_at(s@, p@, j);
                if c < i {
                } else if c > i {
                    assert(!occurs_at(s@, p@, i as int));
                }
            }
            Some(i)
        },
        None => None,
    }
}

pub fn contains(s: &Vec<char>, p: &Vec<char>) -> (r: bool)
    ensures
        r == contains_spec(s@, p@),
{
    match find_seq(s, p) {
        Some(_) => true,
        None => false,
    }
}

/// The position of the first `c` in `s`, or `s.len()` when there is none.
pub open spec fn first_pos(s: Seq<char>, c: char) -> int
    decreases s.len(),
{
    if s.len() == 0 {
        0
    } else if s[0] == c {
        0
    } else {
        1 + first_pos(s.drop_first(), c)
    }
}

pub proof fn lemma_first_pos(s: Seq<char>, c: char, k: int)
    requires
        0 <= k <= s.len(),
        forall|j: int| 0 <= j < k ==> s[j] != c,
        k < s.len() ==> s[k] == c,
    ensures
        first_pos(s, c) == k,
    decreases s.len(),
{
    if s.len() > 0 && k > 0 {
        assert forall|j: int| 0 <= j < k - 1 implies s.drop_first()[j] != c by {
            assert(s.drop_first()[j] == s[j + 1]);
        }
        lemma_first_pos(s.drop_first(), c, k - 1);
    }
}

pub proof fn lemma_first_pos_bounds(s: Seq<char>, c: char)
    ensures
        0 <= first_pos(s, c) <= s.len(),
        forall|j: int| 0 <= j < first_pos(s, c) ==> s[j] != c,
        first_pos(s, c) < s.len() ==> s[first_pos(s, c)] == c,
    decreases s.len(),
{
    if s.len() > 0 && s[0] != c {
        lemma_first_pos_bounds(s.drop_first(), c);
        assert forall|j: int| 0 <= j < first_pos(s, c) implies s[j] != c by {
            if j > 0 {
                assert(s[j] == s.drop_first()[j - 1]);
            }
        }
    }
}

/// The part of `s` before the first `c` (all of `s` when there is none).
pub open spec fn before_first(s: Seq<char>, c: char) -> Seq<char> {
    s.take(first_pos(s, c))
}

pub fn first_index_of(v: &Vec<char>, c: char) -> (k: usize)
    ensures
        k == first_pos(v@, c),
        k <= v.len(),
{
    let mut i: usize = 0;
    while i < v.len() && v[i] != c
        invariant
            0 <= i <= v.len(),
            forall|j: int| 0 <= j < i ==> v@[j] != c,
        decreases v.len() - i,
    {
        i += 1;
    }
    proof {
        lemma_first_pos(v@, c, i as int);
    }
    i
}

pub fn before_first_chars(v: &Vec<char>, c: char) -> (r: Vec<char>)
    ensures
        r@ == before_first(v@, c),
{
    let k = first_index_of(v, c);
    slice_chars(v, 0, k)
}


/// The index of the first `c` at or after `start` (or `v.len()`).
pub fn first_index_from(v: &Vec<char>, start: usize, c: char) -> (k: usize)
    requires
        start <= v.len(),
    ensures
        start <= k <= v.len(),
        k - start == first_pos(v@.skip(start as int), c),
{
    let mut i: usize = start;
    while i < v.len() && v[i] != c
        invariant
            start <= i <= v.len(),
            forall|j: int| start <= j < i ==> v@[j] != c,
        decreases v.len() - i,
    {
        i += 1;
    }
    proof {
        lemma_first_pos(v@.skip(start as int), c, i - start);
    }
    i
}

// ---------------------------------------------------------------------------
// Lines, as `str::lines` splits them.

pub open spec fn views(v: Seq<Vec<char>>) -> Seq<Seq<char>> {
    v.map_values(|x: Vec<char>| x@)
}

pub open spec fn string_views(v: Seq<String>) -> Seq<Seq<char>> {
    v.map_values(|x: String| x@)
}

/// A line that ended in `\n` also loses a `\r` just before it.
pub open spec fn strip_cr(l: Seq<char>) -> Seq<char> {
    if l.len() > 0 && l.last() == '\r' {
        l.drop_last()
    } else {
        l
    }
}

/// `str::lines`: split at `\n` (dropping a `\r` before it); a final line
/// ending adds no empty line.
pub open spec fn lines_spec(s: Seq<char>) -> Seq<Seq<char>>
    decreases s.len(),
{
    if s.len() == 0 {
        seq![]
    } else {
        let k = first_pos(s, '\n');
        if k >= s.len() {
            seq![s]
        } else {
            proof {
                lemma_first_pos_bounds(s, '\n');
            }
            seq![strip_cr(s.take(k))] + lines_spec(s.skip(k + 1))
        }
    }
}

pub fn strip_cr_chars(v: Vec<char>) -> (r: Vec<char>)
    ensures
        r@ == strip_cr(v@),
{
    let mut v = v;
    if v.len() > 0 && v[v.len() - 1] == '\r' {
        v.pop();
    }
    v
}

pub fn lines(s: &Vec<char>) -> (r: Vec<Vec<char>>)
    ensures
        views(r@) == lines_spec(s@),
{
    let mut out: Vec<Vec<char>> = Vec::new();
    let mut pos: usize = 0;
    assert(s@.skip(0) =~= s@);
    while pos < s.len()
        invariant
            0 <= pos <= s.len(),
            views(out@) + lines_spec(s@.skip(pos as int)) == lines_spec(s@),
        decreases s.len() - pos,
    {
        let ghost rest = s@.skip(pos as int);
        let k = first_index_from(s, pos, '\n');
        proof {
            lemma_first_pos_bounds(rest, '\n');
        }
        if k == s.len() {
            let line = slice_chars(s, pos, k);
            assert(line@ =~= rest);
            let ghost before = out@;
            out.push(line);
            assert(views(out@) =~= views(before).push(rest));
            pos = k;
            assert(s@.skip(pos as int) =~= Seq::<char>::empty());
        } else {
            let line = strip_cr_chars(slice_chars(s, pos, k));
            assert(rest.take(k - pos) =~= s@.subrange(pos as int, k as int));
            assert(rest.skip(k - pos + 1) =~= s@.skip(k + 1));
            let ghost before = out@;
            out.push(line);
            assert(views(out@) =~= views(before).push(line@));
            pos = k + 1;
        }
        assert(views(out@) + lines_spec(s@.skip(pos as int)) =~= lines_spec(s@));
    }
    assert(s@.skip(pos as int) =~= Seq::<char>::empty());
    assert(views(out@) + lines_spec(s@.skip(pos as int)) =~= views(out@));
    out
}


// ---------------------------------------------------------------------------
// Lexicographic order on character sequences. Rust orders `str` by UTF-8
// bytes, which coincides with this code-point order.

pub open spec fn chars_lt(a: Seq<char>, b: Seq<char>) -> bool
    decreases a.len(),
{
    if a.len() == 0 {
        b.len() > 0
    } else if b.len() == 0 {
        false
    } else if a[0] != b[0] {
        (a[0] as int) < (b[0] as int)
    } else {
        chars_lt(a.drop_first(), b.drop_first())
    }
}

pub proof fn lemma_chars_lt_irrefl(a: Seq<char>)
    ensures
        !chars_lt(a, a),
    decreases a.len(),
{
    if a.len() > 0 {
        lemma_chars_lt_irrefl(a.drop_first());
    }
}

pub proof fn lemma_chars_lt_trans(a: Seq<char>, b: Seq<char>, c: Seq<char>)
    requires
        chars_lt(a, b),
        chars_lt(b, c),
    ensures
        chars_lt(a, c),
    decreases a.len(),
{
    if a.len() > 0 && b.len() > 0 && c.len() > 0 {
        if a[0] == b[0] && b[0] == c[0] {
            lemma_chars_lt_trans(a.drop_first(), b.drop_first(), c.drop_first());
        }
    }
}

pub proof fn lemma_chars_lt_total(a: Seq<char>, b: Seq<char>)
    ensures
        a == b || chars_lt(a, b) || chars_lt(b, a),
    decreases a.len(),
{
    if a.len() > 0 && b.len() > 0 && a[0] == b[0] {
        lemma_chars_lt_total(a.drop_first(), b.drop_first());
        if a.drop_first() == b.drop_first() {
            assert(a =~= seq![a[0]] + a.drop_first());
            assert(b =~= seq![b[0]] + b.drop_first());
        }
    } else if a.len() == 0 && b.len() == 0 {
        assert(a =~= b);
    }
}

pub proof fn lemma_chars_lt_asym(a: Seq<char>, b: Seq<char>)
    requires
        chars_lt(a, b),
    ensures
        !chars_lt(b, a),
        a != b,
{
    lemma_chars_lt_irrefl(a);
    if chars_lt(b, a) {
        lemma_chars_lt_trans(a, b, a);
    }
}

/// `a < b` in code-point lexicographic order.
pub fn chars_less(a: &Vec<char>, b: &Vec<char>) -> (r: bool)
    ensures
        r == chars_lt(a@, b@),
{
    let mut i: usize = 0;
    assert(a@.skip(0) =~= a@);
    assert(b@.skip(0) =~= b@);
    while i < a.len() && i < b.len() && a[i] == b[i]
        invariant
            0 <= i <= a.len(),
            i <= b.len(),
            chars_lt(a@.skip(i as int), b@.skip(i as int)) == chars_lt(a@, b@),
        decreases a.len() - i,
    {
        assert(a@.skip(i as int).drop_first() =~= a@.skip(i + 1));
        assert(b@.skip(i as int).drop_first() =~= b@.skip(i + 1));
        i += 1;
    }
    if i == a.len() {
        i < b.len()
    } else if i == b.len() {
        false
    } else {
        assert(a@.skip(i as int)[0] == a@[i as int]);
        assert(b@.skip(i as int)[0] == b@[i as int]);
        a[i] < b[i]
    }
}

/// `a < b` for strings, in code-point lexicographic order.
pub fn str_less(a: &str, b: &str) -> (r: bool)
    ensures
        r == chars_lt(a@, b@),
{
    let x = str_to_chars(a);
    let y = str_to_chars(b);
    chars_less(&x, &y)
}

/// String equality.
pub fn str_eq(a: &str, b: &str) -> (r: bool)
    ensures
        r == (a@ == b@),
{
    let x = str_to_chars(a);
    let y = str_to_chars(b);
    if x.len() != y.len() {
        assert(x@.len() != y@.len());
        return false;
    }
    let mut i: usize = 0;
    while i < x.len()
        invariant
            x@ == a@,
            y@ == b@,
            x.len() == y.len(),
            0 <= i <= x.len(),
            forall|k: int| 0 <= k < i ==> x@[k] == y@[k],
        decreases x.len() - i,
    {
        if x[i] != y[i] {
            assert(x@[i as int] != y@[i as int]);
            return false;
        }
        i += 1;
    }
    assert(x@ =~= y@);
    true
}


// ---------------------------------------------------------------------------
// Debug quoting, as error messages show user input.

/// `format!("{:?}", s)` for a string: quoted, with escapes.
pub uninterp spec fn debug_str(s: Seq<char>) -> Seq<char>;

/// A character `{:?}` prints as itself inside a quoted string.
pub open spec fn plain_char(c: char) -> bool {
    0x20 <= (c as int) <= 0x7E && c != '"' && c != '\\'
}

/// `format!("{s:?}")`. Claimed: the result is the named quoting of `s`; a
/// string of printable ASCII without quotes or backslashes is just wrapped
/// in double quotes (std's `Debug` for `str` escapes nothing else there).
#[verifier::external_body]
pub(crate) fn debug_quoted(s: &str) -> (r: String)
    ensures
        r@ == debug_str(s@),
        (forall|i: int| 0 <= i < s@.len() ==> plain_char(#[trigger] s@[i])) ==> r@ == seq!['"'] + s@ + seq!['"'],
{
    format!("{s:?}")
}

/// The value of a run of decimal digits.
pub open spec fn u32_digits_value(s: Seq<char>) -> int
    decreases s.len(),
{
    if s.len() == 0 {
        0
    } else {
        u32_digits_value(s.drop_last()) * 10 + ((s.last() as u32) - 48)
    }
}

pub open spec fn all_digits(s: Seq<char>) -> bool {
    forall|i: int| 0 <= i < s.len() ==> is_ascii_digit(#[trigger] s[i])
}

/// `str::parse::<u32>`: an optional `+`, then at least one ASCII digit,
/// all digits, and a value that fits.
pub open spec fn parse_u32_spec(s: Seq<char>) -> Option<u32> {
    let d = if s.len() > 0 && s[0] == '+' { s.drop_first() } else { s };
    if d.len() > 0 && all_digits(d) && u32_digits_value(d) <= u32::MAX {
        Some(u32_digits_value(d) as u32)
    } else {
        None
    }
}

/// A longer run of digits is worth at least as much as its prefix.
proof fn lemma_digits_value_mono(d: Seq<char>, k: int)
    requires
        0 <= k <= d.len(),
        all_digits(d),
    ensures
        u32_digits_value(d.take(k)) <= u32_digits_value(d),
        u32_digits_value(d.take(k)) >= 0,
    decreases d.len() - k,
{
    if k < d.len() {
        lemma_digits_value_mono(d, k + 1);
        assert(d.take(k + 1).drop_last() =~= d.take(k));
        assert(d.take(k + 1).last() == d[k]);
        assert(is_ascii_digit(d[k]));
        let a = u32_digits_value(d.take(k));
        let b = u32_digits_value(d.take(k + 1));
        let c = (d[k] as u32) - 48;
        assert(b == a * 10 + c);
        assert(0 <= c);
        assert(a >= 0) by {
            lemma_digits_value_nonneg(d.take(k));
        }
        assert(a <= b) by (nonlinear_arith)
            requires
                b == a * 10 + c,
                0 <= c,
                a >= 0,
        {
        }
    } else {
        assert(d.take(k) =~= d);
        lemma_digits_value_nonneg(d);
    }
}

proof fn lemma_digits_value_nonneg(d: Seq<char>)
    requires
        all_digits(d),
    ensures
        u32_digits_value(d) >= 0,
    decreases d.len(),
{
    if d.len() > 0 {
        assert(all_digits(d.drop_last())) by {
            assert forall|i: int| 0 <= i < d.drop_last().len() implies is_ascii_digit(#[trigger] d.drop_last()[i]) by {
                assert(d.drop_last()[i] == d[i]);
            }
        }
        lemma_digits_value_nonneg(d.drop_last());
        assert(is_ascii_digit(d[d.len() - 1]));
    }
}

/// Parses a decimal `u32` as `str::parse::<u32>` does.
pub fn parse_u32(s: &Vec<char>) -> (r: Option<u32>)
    ensures
        r == parse_u32_spec(s@),
{
    let start: usize = if s.len() > 0 && s[0] == '+' { 1 } else { 0 };
    let t = slice_chars(s, start, s.len());
    assert(t@ =~= (if s@.len() > 0 && s@[0] == '+' { s@.drop_first() } else { s@ }));
    if t.len() == 0 {
        return None;
    }
    let mut v: u64 = 0;
    let mut i: usize = 0;
    assert(t@.take(0) =~= Seq::<char>::empty());
    while i < t.len()
        invariant
            t@ == (if s@.len() > 0 && s@[0] == '+' { s@.drop_first() } else { s@ }),
            0 <= i <= t.len(),
            v as int == u32_digits_value(t@.take(i as int)),
            v <= u32::MAX,
            all_digits(t@.take(i as int)),
        decreases t.len() - i,
    {
        let c = t[i];
        let cu = c as u32;
        if !(48 <= cu && cu <= 57) {
            assert(!is_ascii_digit(t@[i as int]));
            return None;
        }
        assert(t@.take(i + 1).drop_last() =~= t@.take(i as int));
        assert(t@.take(i + 1).last() == c);
        assert forall|k: int| 0 <= k < i + 1 implies is_ascii_digit(#[trigger] t@.take(i + 1)[k]) by {
            if k < i {
                assert(t@.take(i + 1)[k] == t@.take(i as int)[k]);
            }
        }
        let nv = v * 10 + ((cu as u64) - 48);
        if nv > 4294967295u64 {
            assert(nv as int == u32_digits_value(t@.take(i + 1)));
            proof {
                if all_digits(t@) {
                    lemma_digits_value_mono(t@, i + 1);
                }
            }
            return None;
        }
        v = nv;
        i += 1;
    }
    assert(t@.take(t.len() as int) =~= t@);
    Some(v as u32)
}

} // verus!
