//! Character classification and string primitives.
//!
//! The Unicode-dependent classifications and case mappings come from the
//! standard library through trusted declarations; everything built on top of
//! them (substring search, lexicographic order, reversal, single-character
//! replacement, capitalization) is implemented and verified here.

use vstd::prelude::*;

verus! {

broadcast use vstd::utf8::char_u32_cast;

/// Whether `char::is_uppercase` holds of the character.
pub uninterp spec fn char_is_upper(c: char) -> bool;

/// Whether `char::is_lowercase` holds of the character.
pub uninterp spec fn char_is_lower(c: char) -> bool;

/// Whether `char::is_numeric` holds of the character.
pub uninterp spec fn char_is_numeric(c: char) -> bool;

/// Whether `char::is_alphanumeric` holds of the character.
pub uninterp spec fn char_is_alphanumeric(c: char) -> bool;

/// Relies on char::is_uppercase: Unicode uppercase classification,
/// a function of the character alone.
pub assume_specification[ char::is_uppercase ](c: char) -> (r: bool)
    ensures
        r == char_is_upper(c),
;

/// Relies on char::is_lowercase: Unicode lowercase classification,
/// a function of the character alone.
pub assume_specification[ char::is_lowercase ](c: char) -> (r: bool)
    ensures
        r == char_is_lower(c),
;

/// Relies on char::is_numeric: Unicode numeric classification,
/// a function of the character alone.
pub assume_specification[ char::is_numeric ](c: char) -> (r: bool)
    ensures
        r == char_is_numeric(c),
;

/// Relies on char::is_alphanumeric: Unicode alphanumeric classification,
/// a function of the character alone.
pub assume_specification[ char::is_alphanumeric ](c: char) -> (r: bool)
    ensures
        r == char_is_alphanumeric(c),
;

/// The characters of `str::to_lowercase(s)`, a function of the characters
/// of `s` alone.
pub uninterp spec fn lower_of(s: Seq<char>) -> Seq<char>;

/// The characters of `str::to_uppercase(s)`, a function of the characters
/// of `s` alone.
pub uninterp spec fn upper_of(s: Seq<char>) -> Seq<char>;

/// The characters of `str::trim(s)`, a function of the characters of `s`
/// alone.
pub uninterp spec fn trim_of(s: Seq<char>) -> Seq<char>;

/// The uppercase expansion of one character (`char::to_uppercase`), which
/// may span several characters.
pub uninterp spec fn char_upper_of(c: char) -> Seq<char>;

/// The whitespace-separated tokens of a string (`str::split_whitespace`),
/// a function of its characters alone.
pub uninterp spec fn split_ws_of(s: Seq<char>) -> Seq<Seq<char>>;

/// Relies on str::to_lowercase: the Unicode lowercase mapping of the string,
/// a function of its characters alone.
pub assume_specification[ str::to_lowercase ](s: &str) -> (r: String)
    ensures
        r@ == lower_of(s@),
;

/// Relies on str::to_uppercase: the Unicode uppercase mapping of the string,
/// a function of its characters alone.
pub assume_specification[ str::to_uppercase ](s: &str) -> (r: String)
    ensures
        r@ == upper_of(s@),
;

/// Relies on str::trim: the string with leading and trailing Unicode
/// whitespace removed, a function of its characters alone.
pub assume_specification<'a>[ str::trim ](s: &'a str) -> (r: &'a str)
    ensures
        r@ == trim_of(s@),
;

/// Relies on String::push: appends exactly the given character.
pub assume_specification[ String::push ](s: &mut String, c: char)
    ensures
        final(s)@ == old(s)@.push(c),
;

/// Relies on char::to_uppercase: the uppercase expansion of one character,
/// a function of the character alone; collecting the expansion into a
/// `String` is pure conversion.
#[verifier::external_body]
pub(crate) fn char_upper_str(c: char) -> (r: String)
    ensures
        r@ == char_upper_of(c),
{
    c.to_uppercase().collect()
}

/// Relies on str::split_whitespace: the maximal runs of non-whitespace
/// characters, in order, a function of the characters alone; mapping each
/// token to an owned `String` is pure conversion.
#[verifier::external_body]
pub(crate) fn split_ws(s: &str) -> (r: Vec<String>)
    ensures
        r.deep_view() == split_ws_of(s@),
{
    s.split_whitespace().map(|t| t.to_string()).collect()
}

/// The needle occurs in the haystack starting at character position `i`.
pub open spec fn occurs_at(hay: Seq<char>, needle: Seq<char>, i: int) -> bool {
    0 <= i && i + needle.len() <= hay.len() && hay.subrange(i, i + needle.len()) == needle
}

/// The needle occurs somewhere in the haystack (`str::contains` semantics:
/// an empty needle occurs in every string).
pub open spec fn contains_seq(hay: Seq<char>, needle: Seq<char>) -> bool {
    exists|i: int| occurs_at(hay, needle, i)
}

fn matches_at(hay: &str, needle: &str, i: usize, hlen: usize, nlen: usize) -> (r: bool)
    requires
        hlen == hay@.len(),
        nlen == needle@.len(),
        i + nlen <= hlen,
    ensures
        r == occurs_at(hay@, needle@, i as int),
{
    let mut j: usize = 0;
    while j < nlen
        invariant
            j <= nlen,
            hlen == hay@.len(),
            nlen == needle@.len(),
            i + nlen <= hlen,
            forall|t: int| 0 <= t < j ==> hay@[i + t] == needle@[t],
        decreases nlen - j,
    {
        if hay.get_char(i + j) != needle.get_char(j) {
            assert(hay@.subrange(i as int, i + nlen)[j as int] != needle@[j as int]);
            return false;
        }
        j += 1;
    }
    assert(hay@.subrange(i as int, i + nlen) =~= needle@);
    true
}

/// Verified substring search: whether `needle` occurs contiguously in `hay`.
pub fn contains_str(hay: &str, needle: &str) -> (r: bool)
    ensures
        r == contains_seq(hay@, needle@),
{
    let hlen = hay.unicode_len();
    let nlen = needle.unicode_len();
    if nlen > hlen {
        assert(forall|i: int| !occurs_at(hay@, needle@, i));
        return false;
    }
    if nlen == 0 {
        assert(hay@.subrange(0, 0) =~= needle@);
        assert(occurs_at(hay@, needle@, 0));
        return true;
    }
    let mut i: usize = 0;
    while i <= hlen - nlen
        invariant
            0 < nlen <= hlen,
            hlen == hay@.len(),
            nlen == needle@.len(),
            i <= hlen - nlen + 1,
            forall|t: int| 0 <= t < i ==> !occurs_at(hay@, needle@, t),
        decreases hlen - nlen - i + 1,
    {
        if matches_at(hay, needle, i, hlen, nlen) {
            return true;
        }
        i += 1;
    }
    assert(forall|t: int| !occurs_at(hay@, needle@, t));
    false
}

/// Strict lexicographic order on character sequences by code point, the
/// order `str` comparison gives (UTF-8 byte order equals code-point order).
pub open spec fn lex_lt(a: Seq<char>, b: Seq<char>) -> bool
    decreases a.len(),
{
    if b.len() == 0 {
        false
    } else if a.len() == 0 {
        true
    } else if (a[0] as u32) < (b[0] as u32) {
        true
    } else if a[0] != b[0] {
        false
    } else {
        lex_lt(a.skip(1), b.skip(1))
    }
}

/// Lexicographic order is total: two sequences are ordered or equal.
pub proof fn lemma_lex_total(a: Seq<char>, b: Seq<char>)
    ensures
        lex_lt(a, b) || lex_lt(b, a) || a == b,
    decreases a.len(),
{
    if b.len() == 0 {
        if a.len() == 0 {
            assert(a =~= b);
        }
    } else if a.len() == 0 {
    } else if a[0] == b[0] {
        lemma_lex_total(a.skip(1), b.skip(1));
        if a.skip(1) == b.skip(1) {
            assert(a.skip(1).len() == a.len() - 1);
            assert(b.skip(1).len() == b.len() - 1);
            assert forall|i: int| 0 <= i < a.len() implies a[i] == b[i] by {
                if i > 0 {
                    assert(a[i] == a.skip(1)[i - 1]);
                    assert(b[i] == b.skip(1)[i - 1]);
                }
            }
            assert(a =~= b);
        }
    } else {
        assert((a[0] as u32) != (b[0] as u32)) by {
            vstd::utf8::char_u32_cast(a[0], a[0] as u32);
            vstd::utf8::char_u32_cast(b[0], b[0] as u32);
        }
    }
}

/// Lexicographic order is irreflexive.
pub proof fn lemma_lex_irrefl(a: Seq<char>)
    ensures
        !lex_lt(a, a),
    decreases a.len(),
{
    if a.len() > 0 {
        lemma_lex_irrefl(a.skip(1));
    }
}

/// Lexicographic order is transitive.
pub proof fn lemma_lex_trans(a: Seq<char>, b: Seq<char>, c: Seq<char>)
    requires
        lex_lt(a, b),
        lex_lt(b, c),
    ensures
        lex_lt(a, c),
    decreases a.len() + b.len() + c.len(),
{
    if a.len() == 0 {
    } else if (a[0] as u32) < (b[0] as u32) {
        if (b[0] as u32) <= (c[0] as u32) {
        }
    } else {
        if a[0] == b[0] && b[0] == c[0] {
            lemma_lex_trans(a.skip(1), b.skip(1), c.skip(1));
        }
    }
}

/// Verified lexicographic comparison of two strings.
pub fn str_lt(a: &str, b: &str) -> (r: bool)
    ensures
        r == lex_lt(a@, b@),
{
    let alen = a.unicode_len();
    let blen = b.unicode_len();
    let mut i: usize = 0;
    proof {
        assert(a@.skip(0) =~= a@);
        assert(b@.skip(0) =~= b@);
    }
    loop
        invariant
            i <= alen,
            i <= blen,
            alen == a@.len(),
            blen == b@.len(),
            lex_lt(a@, b@) == lex_lt(a@.skip(i as int), b@.skip(i as int)),
        decreases alen - i,
    {
        if i >= blen {
            return false;
        }
        if i >= alen {
            return true;
        }
        let ca = a.get_char(i);
        let cb = b.get_char(i);
        if (ca as u32) < (cb as u32) {
            return true;
        }
        if ca != cb {
            return false;
        }
        proof {
            assert(a@.skip(i as int).skip(1) =~= a@.skip(i + 1));
            assert(b@.skip(i as int).skip(1) =~= b@.skip(i + 1));
        }
        i += 1;
    }
}

/// Verified character-order reversal of a string.
pub fn reverse_str(s: &str) -> (r: String)
    ensures
        r@ == s@.reverse(),
{
    let len = s.unicode_len();
    let mut out = String::new();
    let mut i: usize = 0;
    while i < len
        invariant
            i <= len,
            len == s@.len(),
            out@ =~= s@.reverse().take(i as int),
        decreases len - i,
    {
        out.push(s.get_char(len - 1 - i));
        assert(out@ =~= s@.reverse().take(i + 1));
        i += 1;
    }
    assert(s@.reverse().take(len as int) =~= s@.reverse());
    out
}

/// Every occurrence of `from` replaced by `to`, other characters unchanged.
pub open spec fn replace_char_seq(s: Seq<char>, from: char, to: char) -> Seq<char> {
    s.map_values(|c: char| if c == from { to } else { c })
}

/// Verified single-character substitution (`str::replace` with a `char`
/// pattern and a one-character replacement).
pub fn replace_char(s: &str, from: char, to: char) -> (r: String)
    ensures
        r@ == replace_char_seq(s@, from, to),
{
    let len = s.unicode_len();
    let mut out = String::new();
    let mut i: usize = 0;
    while i < len
        invariant
            i <= len,
            len == s@.len(),
            out@ =~= replace_char_seq(s@, from, to).take(i as int),
        decreases len - i,
    {
        let c = s.get_char(i);
        if c == from {
            out.push(to);
        } else {
            out.push(c);
        }
        assert(out@ =~= replace_char_seq(s@, from, to).take(i + 1));
        i += 1;
    }
    assert(replace_char_seq(s@, from, to).take(len as int) =~= replace_char_seq(s@, from, to));
    out
}

/// Whether the character occurs in the string.
pub fn contains_char(s: &str, c: char) -> (r: bool)
    ensures
        r == s@.contains(c),
{
    let len = s.unicode_len();
    let mut i: usize = 0;
    while i < len
        invariant
            i <= len,
            len == s@.len(),
            forall|t: int| 0 <= t < i ==> s@[t] != c,
        decreases len - i,
    {
        if s.get_char(i) == c {
            return true;
        }
        i += 1;
    }
    false
}

/// The string with its first character mapped through the Unicode uppercase
/// expansion; the empty string is unchanged.
pub open spec fn capitalized(s: Seq<char>) -> Seq<char> {
    if s.len() == 0 {
        s
    } else {
        char_upper_of(s[0]) + s.skip(1)
    }
}

/// Verified first-character capitalization.
pub fn capitalize_str(s: &str) -> (r: String)
    ensures
        r@ == capitalized(s@),
{
    let len = s.unicode_len();
    if len == 0 {
        String::from_str(s)
    } else {
        let head = char_upper_str(s.get_char(0));
        let tail = s.substring_char(1, len);
        head.concat(tail)
    }
}

} // verus!
