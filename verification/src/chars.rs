//! Text as sequences of characters: conversions, search, split and trim.
use vstd::prelude::*;
use vstd::slice::slice_subrange;
use vstd::slice::slice_to_vec;
use crate::seqs::{occurs_at, find_from, split, split_from, split_once, find};
use crate::trusted::string_push;
use vstd::utf8::{
    encode_scalar, encode_utf8, has_width_1_encoding, has_width_2_encoding, has_width_3_encoding,
    last_continuation_byte, leading_byte_width_1, leading_byte_width_2, leading_byte_width_3,
    leading_byte_width_4, second_last_continuation_byte, third_last_continuation_byte,
};

verus! {

broadcast use {vstd::string::group_string_axioms, vstd::slice::group_slice_axioms};

/// The characters of a string slice.
pub fn to_chars(s: &str) -> (v: Vec<char>)
    ensures
        v@ == s@,
{
    let mut v: Vec<char> = Vec::new();
    for c in it: s.chars()
        invariant
            v@ == it.seq().take(it.index() as int),
    {
        v.push(c);
    }
    v
}


/// A string holding the given characters.
pub fn from_chars(v: &[char]) -> (s: String)
    ensures
        s@ == v@,
{
    let mut s = String::new();
    let mut i: usize = 0;
    while i < v.len()
        invariant
            i <= v@.len(),
            s@ == v@.take(i as int),
        decreases v.len() - i,
    {
        string_push(&mut s, v[i]);
        i = i + 1;
        assert(s@ == v@.take(i as int));
    }
    assert(v@.take(v@.len() as int) == v@);
    s
}

/// Whether `pat` occurs in `s` at index `i`.
pub fn chars_occur_at(s: &[char], pat: &[char], i: usize) -> (found: bool)
    ensures
        found == occurs_at(s@, pat@, i as int),
{
    if i > s.len() || pat.len() > s.len() - i {
        return false;
    }
    let mut k: usize = 0;
    while k < pat.len()
        invariant
            i + pat.len() <= s.len(),
            k <= pat.len(),
            forall|j: int| 0 <= j < k ==> s@[i + j] == pat@[j],
        decreases pat.len() - k,
    {
        if s[i + k] != pat[k] {
            assert(s@.subrange(i as int, i + pat@.len())[k as int] != pat@[k as int]);
            return false;
        }
        k = k + 1;
    }
    assert(s@.subrange(i as int, i + pat@.len()) == pat@);
    true
}

/// The first index at or after `pos` where `pat` occurs in `s`.
pub fn find_chars_from(s: &[char], pat: &[char], pos: usize) -> (found: Option<usize>)
    ensures
        match found {
            Some(i) => find_from(s@, pat@, pos as int) == Some(i as int),
            None => find_from(s@, pat@, pos as int) is None,
        },
{
    if pos > s.len() || pat.len() > s.len() - pos {
        return None;
    }
    if pat.len() == 0 {
        assert(s@.subrange(pos as int, pos as int) =~= pat@);
        return Some(pos);
    }
    let mut i = pos;
    while i <= s.len() && pat.len() <= s.len() - i
        invariant
            pos <= i <= s@.len() + 1,
            0 < pat@.len() <= s@.len(),
            find_from(s@, pat@, pos as int) == find_from(s@, pat@, i as int),
        decreases s.len() + 1 - i,
    {
        if chars_occur_at(s, pat, i) {
            return Some(i);
        }
        i = i + 1;
    }
    None
}

/// The pieces of `s` between the occurrences of the non-empty `pat`.
pub fn split_chars(s: &[char], pat: &[char]) -> (pieces: Vec<Vec<char>>)
    requires
        pat@.len() > 0,
    ensures
        pieces.deep_view() == split(s@, pat@),
{
    let mut pieces: Vec<Vec<char>> = Vec::new();
    let mut start: usize = 0;
    let mut pos: usize = 0;
    while pos <= s.len() && pat.len() <= s.len() - pos
        invariant
            start <= pos <= s@.len() + 1,
            start <= s@.len(),
            pat@.len() > 0,
            pieces.deep_view() + split_from(s@, pat@, start as int, pos as int) == split(s@, pat@),
        decreases s.len() + 1 - pos,
    {
        if chars_occur_at(s, pat, pos) {
            let piece = slice_to_vec(slice_subrange(s, start, pos));
            assert(piece.deep_view() =~= piece@);
            let ghost before = pieces.deep_view();
            pieces.push(piece);
            assert(pieces.deep_view() =~= before.push(s@.subrange(start as int, pos as int)));
            start = pos + pat.len();
            pos = start;
        } else {
            pos = pos + 1;
        }
    }
    let last = slice_to_vec(slice_subrange(s, start, s.len()));
    assert(last.deep_view() =~= last@);
    let ghost before = pieces.deep_view();
    pieces.push(last);
    assert(pieces.deep_view() =~= before.push(s@.subrange(start as int, s@.len() as int)));
    pieces
}

/// `s` split around the first occurrence of `pat`.
pub fn split_once_chars(s: &[char], pat: &[char]) -> (parts: Option<(Vec<char>, Vec<char>)>)
    ensures
        match parts {
            Some((a, b)) => split_once(s@, pat@) == Some((a@, b@)),
            None => split_once(s@, pat@) is None,
        },
{
    match find_chars_from(s, pat, 0) {
        Some(i) => {
            proof { crate::seqs::lemma_find_from(s@, pat@, 0); }
            assert(occurs_at(s@, pat@, i as int));
            assert(i + pat.len() <= s.len());
            let a = slice_to_vec(slice_subrange(s, 0, i));
            let b = slice_to_vec(slice_subrange(s, i + pat.len(), s.len()));
            Some((a, b))
        },
        None => None,
    }
}

/// Unicode `White_Space`, the property `char::is_whitespace` tests.
pub open spec fn is_space(c: char) -> bool {
    ||| '\u{9}' <= c <= '\u{d}'
    ||| c == ' '
    ||| c == '\u{85}'
    ||| c == '\u{a0}'
    ||| c == '\u{1680}'
    ||| '\u{2000}' <= c <= '\u{200a}'
    ||| c == '\u{2028}'
    ||| c == '\u{2029}'
    ||| c == '\u{202f}'
    ||| c == '\u{205f}'
    ||| c == '\u{3000}'
}

/// Whether a character is Unicode white space.
pub fn is_whitespace(c: char) -> (b: bool)
    ensures
        b == is_space(c),
{
    ('\u{9}' <= c && c <= '\u{d}') || c == ' ' || c == '\u{85}' || c == '\u{a0}' || c == '\u{1680}'
        || ('\u{2000}' <= c && c <= '\u{200a}') || c == '\u{2028}' || c == '\u{2029}'
        || c == '\u{202f}' || c == '\u{205f}' || c == '\u{3000}'
}

/// `s` without its leading white space.
pub open spec fn trim_start(s: Seq<char>) -> Seq<char>
    decreases s.len(),
{
    if s.len() > 0 && is_space(s[0]) {
        trim_start(s.drop_first())
    } else {
        s
    }
}

/// `s` without its trailing white space.
pub open spec fn trim_end(s: Seq<char>) -> Seq<char>
    decreases s.len(),
{
    if s.len() > 0 && is_space(s.last()) {
        trim_end(s.drop_last())
    } else {
        s
    }
}

/// `s` without leading and trailing white space, as `str::trim`.
pub open spec fn trim(s: Seq<char>) -> Seq<char> {
    trim_end(trim_start(s))
}

/// `s` without leading and trailing white space.
pub fn trim_chars(s: &[char]) -> (t: Vec<char>)
    ensures
        t@ == trim(s@),
{
    let mut a: usize = 0;
    assert(s@.subrange(0, s@.len() as int) == s@);
    while a < s.len() && is_whitespace(s[a])
        invariant
            a <= s@.len(),
            trim_start(s@) == trim_start(s@.subrange(a as int, s@.len() as int)),
        decreases s.len() - a,
    {
        assert(s@.subrange(a as int, s@.len() as int).drop_first() == s@.subrange(a + 1, s@.len() as int));
        a = a + 1;
    }
    let mut b: usize = s.len();
    while b > a && is_whitespace(s[b - 1])
        invariant
            a <= b <= s@.len(),
            trim(s@) == trim_end(s@.subrange(a as int, b as int)),
        decreases b,
    {
        assert(s@.subrange(a as int, b as int).drop_last() == s@.subrange(a as int, b - 1));
        b = b - 1;
    }
    slice_to_vec(slice_subrange(s, a, b))
}

/// The UTF-8 bytes of one character: for ASCII the one byte of its value,
/// for any other character bytes of 0x80 and above.
pub proof fn lemma_char_bytes(c: char)
    ensures
        encode_scalar(c as u32).len() >= 1,
        (c as u32) < 0x80 ==> encode_scalar(c as u32) == seq![c as u8],
        (c as u32) < 0x80 ==> (c as u8) as u32 == c as u32,
        (c as u32) >= 0x80 ==> forall|i: int|
            0 <= i < encode_scalar(c as u32).len() ==> #[trigger] encode_scalar(c as u32)[i] >= 0x80,
{
    let v = c as u32;
    vstd::utf8::char_is_scalar(c);
    if has_width_1_encoding(v) {
        assert(leading_byte_width_1(v) == v as u8 && (v as u8) as u32 == v) by (bit_vector)
            requires
                v <= 0x7f,
        ;
    } else if has_width_2_encoding(v) {
        assert(leading_byte_width_2(v) >= 0x80 && last_continuation_byte(v) >= 0x80) by (bit_vector);
    } else if has_width_3_encoding(v) {
        assert(leading_byte_width_3(v) >= 0x80 && second_last_continuation_byte(v) >= 0x80
            && last_continuation_byte(v) >= 0x80) by (bit_vector);
    } else {
        assert(leading_byte_width_4(v) >= 0x80 && third_last_continuation_byte(v) >= 0x80
            && second_last_continuation_byte(v) >= 0x80 && last_continuation_byte(v) >= 0x80)
            by (bit_vector);
    }
}

/// A byte below 0x80 at the front of the UTF-8 bytes of `u` followed by
/// `x` is the first character of `u`, which is ASCII, or else the first
/// byte of `x`.
pub proof fn lemma_first_ascii_byte(u: Seq<char>, x: Seq<u8>)
    requires
        (encode_utf8(u) + x).len() > 0,
        (encode_utf8(u) + x)[0] < 0x80,
    ensures
        u.len() == 0 ==> encode_utf8(u) + x == x,
        u.len() > 0 ==> {
            &&& (u[0] as u32) < 0x80
            &&& u[0] as u8 == (encode_utf8(u) + x)[0]
            &&& encode_utf8(u) + x == seq![u[0] as u8] + (encode_utf8(u.drop_first()) + x)
        },
{
    if u.len() == 0 {
        assert(encode_utf8(u) + x =~= x);
    } else {
        lemma_char_bytes(u[0]);
        let ec = encode_scalar(u[0] as u32);
        assert(encode_utf8(u) == ec + encode_utf8(u.drop_first()));
        assert((encode_utf8(u) + x)[0] == ec[0]);
        assert(encode_utf8(u) + x =~= ec + (encode_utf8(u.drop_first()) + x));
    }
}

} // verus!
