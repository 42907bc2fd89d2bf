//! Byte- and character-level string helpers shared by every feature.
//!
//! Byte offsets are what the HTML parser reports, so most positions in the
//! crate are UTF-8 byte offsets. The specifications speak of a `&str` through
//! its character view `s@` and its UTF-8 encoding `s.spec_bytes()`.

use vstd::prelude::*;
use vstd::string::*;
use vstd::utf8::*;

verus! {

broadcast use vstd::utf8::encode_utf8_valid_utf8;

/// `u8::is_ascii_whitespace`: space, tab, line feed, form feed, carriage return.
pub open spec fn is_ascii_ws(b: u8) -> bool {
    b == 0x20u8 || b == 0x09u8 || b == 0x0au8 || b == 0x0cu8 || b == 0x0du8
}

pub fn ascii_ws(b: u8) -> (r: bool)
    ensures
        r == is_ascii_ws(b),
{
    b == 0x20u8 || b == 0x09u8 || b == 0x0au8 || b == 0x0cu8 || b == 0x0du8
}

/// A byte that follows an ASCII byte in valid UTF-8 starts a character.
pub proof fn lemma_after_ascii_is_boundary(b: Seq<u8>, i: int)
    requires
        valid_utf8(b),
        0 <= i < b.len(),
        b[i] < 0x80,
    ensures
        is_char_boundary(b, i + 1),
    decreases b.len(),
{
    let w = length_of_first_scalar(b);
    let rest = pop_first_scalar(b);
    assert(valid_first_scalar(b) && valid_utf8(rest));
    if i == 0 {
        assert(w == 1);
        assert(is_char_boundary(rest, 0));
    } else if i < w {
        assert(is_continuation_byte(b[i]));
    } else {
        assert(rest.len() == b.len() - w);
        assert(rest[i - w] == b[i]);
        lemma_after_ascii_is_boundary(rest, i - w);
    }
}

/// Every ASCII byte of valid UTF-8 sits between two character boundaries.
pub proof fn lemma_ascii_boundaries(b: Seq<u8>, i: int)
    requires
        valid_utf8(b),
        0 <= i < b.len(),
        b[i] < 0x80,
    ensures
        is_char_boundary(b, i),
        is_char_boundary(b, i + 1),
{
    is_char_boundary_iff_not_is_continuation_byte(b, i);
    lemma_after_ascii_is_boundary(b, i);
}

/// A boundary of `b` at or after `lo` is a boundary of the suffix starting at `lo`.
pub proof fn lemma_boundary_in_suffix(b: Seq<u8>, lo: int, k: int)
    requires
        valid_utf8(b),
        is_char_boundary(b, lo),
        is_char_boundary(b, k),
        0 <= lo <= k <= b.len(),
    ensures
        valid_utf8(b.subrange(lo, b.len() as int)),
        is_char_boundary(b.subrange(lo, b.len() as int), k - lo),
{
    valid_utf8_split(b, lo);
    let s = b.subrange(lo, b.len() as int);
    if k == b.len() {
        is_char_boundary_start_end_of_seq(s);
    } else {
        is_char_boundary_iff_not_is_continuation_byte(b, k);
        is_char_boundary_iff_not_is_continuation_byte(s, k - lo);
    }
}

/// The bytes of a string always form valid UTF-8.
pub proof fn lemma_str_valid(s: &str)
    ensures
        valid_utf8(s.spec_bytes()),
        is_char_boundary(s.spec_bytes(), 0),
        is_char_boundary(s.spec_bytes(), s.spec_bytes().len() as int),
{
    encode_utf8_valid_utf8(s@);
    is_char_boundary_start_end_of_seq(s.spec_bytes());
}

/// The sub-slice of `s` spanning the bytes `[lo, hi)`.
pub fn substr(s: &str, lo: usize, hi: usize) -> (r: &str)
    requires
        lo <= hi <= s.spec_bytes().len(),
        is_char_boundary(s.spec_bytes(), lo as int),
        is_char_boundary(s.spec_bytes(), hi as int),
    ensures
        r.spec_bytes() == s.spec_bytes().subrange(lo as int, hi as int),
        r@ == decode_utf8(s.spec_bytes().subrange(lo as int, hi as int)),
{
    proof {
        lemma_str_valid(s);
        lemma_boundary_in_suffix(s.spec_bytes(), lo as int, hi as int);
    }
    let (_, tail) = s.split_at(lo);
    proof {
        assert(tail.spec_bytes() =~= s.spec_bytes().subrange(lo as int, s.spec_bytes().len() as int));
    }
    let (mid, _) = tail.split_at(hi - lo);
    proof {
        assert(mid.spec_bytes() =~= s.spec_bytes().subrange(lo as int, hi as int));
        encode_utf8_decode_utf8(mid@);
    }
    mid
}

/// The characters of `s`, in order.
pub fn chars_of(s: &str) -> (r: Vec<char>)
    ensures
        r@ == s@,
{
    let mut out: Vec<char> = Vec::new();
    for c in it: s.chars()
        invariant
            out@ == it.seq().take(it.index() as int),
            it.seq() == s@,
    {
        out.push(c);
    }
    out
}


/// `char::is_whitespace`: the Unicode `White_Space` property.
pub open spec fn is_unicode_ws(c: char) -> bool {
    let v = c as u32;
    (0x09 <= v <= 0x0d) || v == 0x20 || v == 0x85 || v == 0xa0 || v == 0x1680
        || (0x2000 <= v <= 0x200a) || v == 0x2028 || v == 0x2029 || v == 0x202f
        || v == 0x205f || v == 0x3000
}

pub fn unicode_ws(c: char) -> (r: bool)
    ensures
        r == is_unicode_ws(c),
{
    let v = c as u32;
    (0x09 <= v && v <= 0x0d) || v == 0x20 || v == 0x85 || v == 0xa0 || v == 0x1680
        || (0x2000 <= v && v <= 0x200a) || v == 0x2028 || v == 0x2029 || v == 0x202f
        || v == 0x205f || v == 0x3000
}

/// `char::to_ascii_lowercase`.
pub open spec fn lower_char(c: char) -> char {
    if 'A' <= c && c <= 'Z' {
        ((c as u32) + 32) as char
    } else {
        c
    }
}

pub fn ascii_lower(c: char) -> (r: char)
    ensures
        r == lower_char(c),
{
    if 'A' <= c && c <= 'Z' {
        ((c as u8) + 32) as char
    } else {
        c
    }
}

/// `str::to_ascii_lowercase`, character by character.
pub open spec fn lower_seq(s: Seq<char>) -> Seq<char> {
    s.map_values(|c: char| lower_char(c))
}

/// Number of leading `White_Space` characters of `s`.
pub open spec fn lead_ws(s: Seq<char>) -> nat
    decreases s.len(),
{
    if s.len() > 0 && is_unicode_ws(s[0]) {
        1 + lead_ws(s.drop_first())
    } else {
        0
    }
}

/// Number of trailing `White_Space` characters of `s`.
pub open spec fn trail_ws(s: Seq<char>) -> nat
    decreases s.len(),
{
    if s.len() > 0 && is_unicode_ws(s.last()) {
        1 + trail_ws(s.drop_last())
    } else {
        0
    }
}

/// `str::trim_start`.
pub open spec fn trim_start_seq(s: Seq<char>) -> Seq<char> {
    s.skip(lead_ws(s) as int)
}

/// `str::trim_end`.
pub open spec fn trim_end_seq(s: Seq<char>) -> Seq<char> {
    s.take(s.len() - trail_ws(s))
}

/// `str::trim`.
pub open spec fn trim_seq(s: Seq<char>) -> Seq<char> {
    trim_end_seq(trim_start_seq(s))
}

pub proof fn lemma_lead_ws_bound(s: Seq<char>)
    ensures
        lead_ws(s) <= s.len(),
        forall|i: int| 0 <= i < lead_ws(s) ==> is_unicode_ws(#[trigger] s[i]),
        lead_ws(s) < s.len() ==> !is_unicode_ws(s[lead_ws(s) as int]),
    decreases s.len(),
{
    if s.len() > 0 && is_unicode_ws(s[0]) {
        lemma_lead_ws_bound(s.drop_first());
        assert forall|i: int| 0 <= i < lead_ws(s) implies is_unicode_ws(#[trigger] s[i]) by {
            if i > 0 {
                assert(s[i] == s.drop_first()[i - 1]);
            }
        }
    }
}

pub proof fn lemma_trail_ws_bound(s: Seq<char>)
    ensures
        trail_ws(s) <= s.len(),
        forall|i: int| s.len() - trail_ws(s) <= i < s.len() ==> is_unicode_ws(#[trigger] s[i]),
        trail_ws(s) < s.len() ==> !is_unicode_ws(s[s.len() - trail_ws(s) - 1]),
    decreases s.len(),
{
    if s.len() > 0 && is_unicode_ws(s.last()) {
        lemma_trail_ws_bound(s.drop_last());
        assert forall|i: int| s.len() - trail_ws(s) <= i < s.len() implies is_unicode_ws(
            #[trigger] s[i],
        ) by {
            if i < s.len() - 1 {
                assert(s[i] == s.drop_last()[i]);
            }
        }
    }
}

/// Counts the leading `White_Space` characters of `s[lo..hi)`.
pub fn count_lead_ws(s: &Vec<char>, lo: usize, hi: usize) -> (n: usize)
    requires
        lo <= hi <= s@.len(),
    ensures
        n == lead_ws(s@.subrange(lo as int, hi as int)),
{
    let mut i = lo;
    while i < hi && unicode_ws(s[i])
        invariant
            lo <= i <= hi <= s@.len(),
            lead_ws(s@.subrange(lo as int, hi as int)) == (i - lo) + lead_ws(
                s@.subrange(i as int, hi as int),
            ),
        decreases hi - i,
    {
        assert(s@.subrange(i as int, hi as int).drop_first() =~= s@.subrange(i + 1, hi as int));
        i += 1;
    }
    i - lo
}

/// Counts the trailing `White_Space` characters of `s[lo..hi)`.
pub fn count_trail_ws(s: &Vec<char>, lo: usize, hi: usize) -> (n: usize)
    requires
        lo <= hi <= s@.len(),
    ensures
        n == trail_ws(s@.subrange(lo as int, hi as int)),
{
    let mut j = hi;
    while j > lo && unicode_ws(s[j - 1])
        invariant
            lo <= j <= hi <= s@.len(),
            trail_ws(s@.subrange(lo as int, hi as int)) == (hi - j) + trail_ws(
                s@.subrange(lo as int, j as int),
            ),
        decreases j - lo,
    {
        assert(s@.subrange(lo as int, j as int).drop_last() =~= s@.subrange(lo as int, j - 1));
        j -= 1;
    }
    hi - j
}

/// Appends `c` to `s` (`String::push`).
#[verifier::external_body]
pub(crate) fn push_char(s: &mut String, c: char)
    ensures
        final(s)@ == old(s)@.push(c),
{
    s.push(c);
}

/// A fresh `String` holding `cs[lo..hi)`.
pub fn string_of(cs: &Vec<char>, lo: usize, hi: usize) -> (r: String)
    requires
        lo <= hi <= cs@.len(),
    ensures
        r@ == cs@.subrange(lo as int, hi as int),
{
    let mut out = String::new();
    let mut i = lo;
    while i < hi
        invariant
            lo <= i <= hi <= cs@.len(),
            out@ == cs@.subrange(lo as int, i as int),
        decreases hi - i,
    {
        push_char(&mut out, cs[i]);
        proof {
            assert(cs@.subrange(lo as int, i + 1) =~= cs@.subrange(lo as int, i as int).push(cs@[i as int]));
        }
        i += 1;
    }
    out
}

/// `trim` followed by `to_ascii_lowercase`, as a character vector.
pub fn trimmed_lower(s: &str) -> (r: Vec<char>)
    ensures
        r@ == lower_seq(trim_seq(s@)),
{
    let cs = chars_of(s);
    let n = cs.len();
    let a = count_lead_ws(&cs, 0, n);
    proof {
        assert(cs@.subrange(0, n as int) =~= cs@);
        lemma_lead_ws_bound(cs@);
    }
    let b = count_trail_ws(&cs, a, n);
    proof {
        assert(cs@.subrange(a as int, n as int) =~= trim_start_seq(s@));
        lemma_trail_ws_bound(trim_start_seq(s@));
    }
    let mut out: Vec<char> = Vec::new();
    let mut i = a;
    while i < n - b
        invariant
            a <= i <= n - b,
            b <= n - a,
            n == cs@.len(),
            cs@ == s@,
            out@ == lower_seq(cs@.subrange(a as int, i as int)),
        decreases n - b - i,
    {
        out.push(ascii_lower(cs[i]));
        proof {
            assert(cs@.subrange(a as int, i + 1) =~= cs@.subrange(a as int, i as int).push(cs@[i as int]));
            assert(lower_seq(cs@.subrange(a as int, i + 1)) =~= lower_seq(cs@.subrange(a as int, i as int)).push(lower_char(cs@[i as int])));
        }
        i += 1;
    }
    proof {
        assert(cs@.subrange(a as int, (n - b) as int) =~= trim_seq(s@));
    }
    out
}

/// `to_ascii_lowercase`, as a character vector.
pub fn lowered(s: &str) -> (r: Vec<char>)
    ensures
        r@ == lower_seq(s@),
{
    let cs = chars_of(s);
    let mut out: Vec<char> = Vec::new();
    let mut i: usize = 0;
    while i < cs.len()
        invariant
            i <= cs@.len(),
            cs@ == s@,
            out@ == lower_seq(cs@.take(i as int)),
        decreases cs@.len() - i,
    {
        out.push(ascii_lower(cs[i]));
        proof {
            assert(cs@.take(i + 1) =~= cs@.take(i as int).push(cs@[i as int]));
            assert(lower_seq(cs@.take(i + 1)) =~= lower_seq(cs@.take(i as int)).push(lower_char(cs@[i as int])));
        }
        i += 1;
    }
    proof {
        assert(cs@.take(cs@.len() as int) =~= cs@);
    }
    out
}

/// Whether `needle` occurs in `hay` as a contiguous run.
pub open spec fn contains_seq(hay: Seq<char>, needle: Seq<char>) -> bool {
    exists|i: int| 0 <= i && i + needle.len() <= hay.len() && #[trigger] hay.subrange(i, i + needle.len()) == needle
}

/// `str::contains` on character vectors.
pub fn contains_chars(hay: &Vec<char>, needle: &Vec<char>) -> (r: bool)
    ensures
        r == contains_seq(hay@, needle@),
{
    let n = needle.len();
    if n > hay.len() {
        proof {
            assert forall|i: int| 0 <= i && i + n <= hay@.len() implies #[trigger] hay@.subrange(i, i + n) != needle@ by {}
        }
        return false;
    }
    let hl = hay.len();
    let mut i: usize = 0;
    while i <= hl - n
        invariant
            hl == hay@.len(),
            n == needle@.len(),
            n <= hay@.len(),
            i <= hay@.len() - n + 1,
            forall|k: int| 0 <= k < i ==> #[trigger] hay@.subrange(k, k + n) != needle@,
        decreases hay@.len() - i,
    {
        let mut j: usize = 0;
        let mut same = true;
        while j < n
            invariant
                n == needle@.len(),
                hl == hay@.len(),
                i + n <= hay@.len(),
                j <= n,
                same == forall|t: int| 0 <= t < j ==> hay@[i + t] == needle@[t],
            decreases n - j,
        {
            if hay[i + j] != needle[j] {
                same = false;
            }
            j += 1;
        }
        if same {
            proof {
                assert(hay@.subrange(i as int, i + n) =~= needle@);
            }
            return true;
        }
        proof {
            let t = choose|t: int| 0 <= t < n && hay@[i + t] != needle@[t];
            assert(hay@.subrange(i as int, i + n)[t] != needle@[t]);
        }
        i += 1;
    }
    false
}

/// Whether two strings hold the same characters.
pub fn str_eq(a: &str, b: &str) -> (r: bool)
    ensures
        r == (a@ == b@),
{
    chars_eq(&chars_of(a), &chars_of(b))
}

/// Whether `s` begins with `p`.
pub open spec fn has_prefix(s: Seq<char>, p: Seq<char>) -> bool {
    p.len() <= s.len() && s.take(p.len() as int) == p
}

pub fn starts_with_chars(s: &Vec<char>, p: &Vec<char>) -> (r: bool)
    ensures
        r == has_prefix(s@, p@),
{
    if p.len() > s.len() {
        return false;
    }
    let mut i: usize = 0;
    while i < p.len()
        invariant
            p@.len() <= s@.len(),
            i <= p@.len(),
            forall|k: int| 0 <= k < i ==> s@[k] == p@[k],
        decreases p@.len() - i,
    {
        if s[i] != p[i] {
            proof {
                assert(s@.take(p@.len() as int)[i as int] != p@[i as int]);
            }
            return false;
        }
        i += 1;
    }
    proof {
        assert(s@.take(p@.len() as int) =~= p@);
    }
    true
}

pub fn chars_eq(a: &Vec<char>, b: &Vec<char>) -> (r: bool)
    ensures
        r == (a@ == b@),
{
    if a.len() != b.len() {
        return false;
    }
    let r = starts_with_chars(a, b);
    proof {
        assert(a@.take(b@.len() as int) =~= a@);
    }
    r
}


/// Index of the first `c` in `s`.
pub open spec fn find_char_spec(s: Seq<char>, c: char) -> Option<int>
    decreases s.len(),
{
    if s.len() == 0 {
        None
    } else if s[0] == c {
        Some(0)
    } else {
        match find_char_spec(s.drop_first(), c) {
            Some(i) => Some(i + 1),
            None => None,
        }
    }
}

pub proof fn lemma_find_char_range(s: Seq<char>, c: char)
    ensures
        find_char_spec(s, c) matches Some(i) ==> 0 <= i < s.len() && s[i] == c,
    decreases s.len(),
{
    if s.len() > 0 && s[0] != c {
        lemma_find_char_range(s.drop_first(), c);
    }
}

/// Index (into `cs`) of the first `c` in `cs[lo..hi)`.
pub fn find_char(cs: &Vec<char>, lo: usize, hi: usize, c: char) -> (r: Option<usize>)
    requires
        lo <= hi <= cs@.len(),
    ensures
        r matches Some(i) ==> lo <= i < hi && find_char_spec(cs@.subrange(lo as int, hi as int), c)
            == Some(i - lo),
        r is None ==> find_char_spec(cs@.subrange(lo as int, hi as int), c) is None,
{
    let mut i = lo;
    while i < hi
        invariant
            lo <= i <= hi <= cs@.len(),
            find_char_spec(cs@.subrange(lo as int, hi as int), c) == match find_char_spec(
                cs@.subrange(i as int, hi as int),
                c,
            ) {
                Some(k) => Some(k + (i - lo)),
                None => None,
            },
        decreases hi - i,
    {
        assert(cs@.subrange(i as int, hi as int).drop_first() =~= cs@.subrange(i + 1, hi as int));
        if cs[i] == c {
            return Some(i);
        }
        i += 1;
    }
    None
}

/// The window `[lo, hi)` of `cs` with `White_Space` trimmed from both ends.
pub fn trim_range(cs: &Vec<char>, lo: usize, hi: usize) -> (r: (usize, usize))
    requires
        lo <= hi <= cs@.len(),
    ensures
        lo <= r.0 <= r.1 <= hi,
        cs@.subrange(r.0 as int, r.1 as int) == trim_seq(cs@.subrange(lo as int, hi as int)),
        r.0 - lo == lead_ws(cs@.subrange(lo as int, hi as int)),
{
    proof {
        lemma_lead_ws_bound(cs@.subrange(lo as int, hi as int));
    }
    let a = lo + count_lead_ws(cs, lo, hi);
    proof {
        assert(cs@.subrange(a as int, hi as int) =~= trim_start_seq(cs@.subrange(lo as int, hi as int)));
        lemma_trail_ws_bound(cs@.subrange(a as int, hi as int));
    }
    let b = hi - count_trail_ws(cs, a, hi);
    proof {
        assert(cs@.subrange(a as int, b as int) =~= trim_seq(cs@.subrange(lo as int, hi as int)));
    }
    (a, b)
}

// === UTF-8 / UTF-16 widths =================================================

/// Bytes in the UTF-8 encoding of `c` (`char::len_utf8`).
pub open spec fn utf8_width(c: char) -> nat {
    let v = c as u32;
    if v < 0x80 {
        1
    } else if v < 0x800 {
        2
    } else if v < 0x10000 {
        3
    } else {
        4
    }
}

/// UTF-16 code units of `c` (`char::len_utf16`).
pub open spec fn utf16_width(c: char) -> nat {
    if (c as u32) < 0x10000 {
        1
    } else {
        2
    }
}

pub fn len_utf8(c: char) -> (r: usize)
    ensures
        r == utf8_width(c),
{
    let v = c as u32;
    if v < 0x80 {
        1
    } else if v < 0x800 {
        2
    } else if v < 0x10000 {
        3
    } else {
        4
    }
}

pub fn len_utf16(c: char) -> (r: u32)
    ensures
        r == utf16_width(c),
{
    if (c as u32) < 0x10000 {
        1
    } else {
        2
    }
}

pub proof fn lemma_width_matches_encoding(c: char)
    ensures
        encode_scalar(c as u32).len() == utf8_width(c),
        1 <= utf16_width(c) <= utf8_width(c),
{
    char_is_scalar(c);
}

/// Appending a character appends its encoding.
pub proof fn lemma_encode_push(cs: Seq<char>, c: char)
    ensures
        encode_utf8(cs.push(c)) == encode_utf8(cs) + encode_scalar(c as u32),
    decreases cs.len(),
{
    if cs.len() == 0 {
        assert(seq![c].drop_first() =~= Seq::<char>::empty());
        assert(cs.push(c) =~= seq![c]);
        assert(encode_utf8(Seq::<char>::empty()) =~= Seq::<u8>::empty());
        assert(encode_utf8(seq![c]) =~= encode_scalar(c as u32) + encode_utf8(Seq::<char>::empty()));
    } else {
        assert(cs.push(c).drop_first() =~= cs.drop_first().push(c));
        lemma_encode_push(cs.drop_first(), c);
        assert(encode_utf8(cs.push(c)) =~= encode_scalar(cs[0] as u32) + encode_utf8(cs.drop_first().push(c)));
    }
}

/// The encoding of a concatenation is the concatenation of the encodings.
pub proof fn lemma_encode_concat(a: Seq<char>, b: Seq<char>)
    ensures
        encode_utf8(a + b) == encode_utf8(a) + encode_utf8(b),
    decreases b.len(),
{
    if b.len() == 0 {
        assert(a + b =~= a);
        assert(encode_utf8(b) =~= Seq::<u8>::empty());
        assert(encode_utf8(a) + encode_utf8(b) =~= encode_utf8(a));
    } else {
        let c = b.last();
        let b0 = b.drop_last();
        lemma_encode_concat(a, b0);
        assert(a + b =~= (a + b0).push(c));
        assert(b =~= b0.push(c));
        lemma_encode_push(a + b0, c);
        lemma_encode_push(b0, c);
        assert(encode_utf8(a + b) =~= encode_utf8(a) + encode_utf8(b));
    }
}

/// UTF-8 byte length of the first `k` characters of `cs`.
pub open spec fn prefix_bytes(cs: Seq<char>, k: int) -> nat {
    encode_utf8(cs.take(k)).len()
}

/// Total UTF-16 length of a character sequence.
pub open spec fn utf16_len(cs: Seq<char>) -> nat
    decreases cs.len(),
{
    if cs.len() == 0 {
        0
    } else {
        utf16_len(cs.drop_last()) + utf16_width(cs.last())
    }
}

pub proof fn lemma_prefix_bytes_step(cs: Seq<char>, k: int)
    requires
        0 <= k < cs.len(),
    ensures
        prefix_bytes(cs, k + 1) == prefix_bytes(cs, k) + utf8_width(cs[k]),
{
    assert(cs.take(k + 1) =~= cs.take(k).push(cs[k]));
    lemma_encode_push(cs.take(k), cs[k]);
    lemma_width_matches_encoding(cs[k]);
}

pub proof fn lemma_prefix_bytes_zero(cs: Seq<char>)
    ensures
        prefix_bytes(cs, 0) == 0,
{
    assert(cs.take(0) =~= Seq::<char>::empty());
}

pub proof fn lemma_prefix_bytes_all(cs: Seq<char>)
    ensures
        prefix_bytes(cs, cs.len() as int) == encode_utf8(cs).len(),
{
    assert(cs.take(cs.len() as int) =~= cs);
}

/// Prefix byte lengths strictly increase with the number of characters.
pub proof fn lemma_prefix_bytes_mono(cs: Seq<char>, i: int, j: int)
    requires
        0 <= i <= j <= cs.len(),
    ensures
        prefix_bytes(cs, i) + (j - i) <= prefix_bytes(cs, j),
    decreases j - i,
{
    if i < j {
        lemma_prefix_bytes_mono(cs, i, j - 1);
        lemma_prefix_bytes_step(cs, j - 1);
    }
}

/// Byte offsets of every character boundary of `s`: `r[k]` is where character
/// `k` starts, and `r[s@.len()]` is the total byte length.
pub fn char_starts(cs: &Vec<char>) -> (r: Vec<usize>)
    requires
        encode_utf8(cs@).len() <= usize::MAX,
    ensures
        r@.len() == cs@.len() + 1,
        forall|k: int| 0 <= k <= cs@.len() ==> #[trigger] r@[k] == prefix_bytes(cs@, k),
{
    let mut out: Vec<usize> = Vec::new();
    out.push(0);
    proof {
        lemma_prefix_bytes_zero(cs@);
        lemma_prefix_bytes_all(cs@);
    }
    let mut acc: usize = 0;
    let mut i: usize = 0;
    while i < cs.len()
        invariant
            i <= cs@.len(),
            out@.len() == i + 1,
            acc == prefix_bytes(cs@, i as int),
            prefix_bytes(cs@, cs@.len() as int) <= usize::MAX,
            forall|k: int| 0 <= k <= i ==> #[trigger] out@[k] == prefix_bytes(cs@, k),
        decreases cs@.len() - i,
    {
        proof {
            lemma_prefix_bytes_step(cs@, i as int);
            lemma_prefix_bytes_mono(cs@, i + 1, cs@.len() as int);
        }
        acc = acc + len_utf8(cs[i]);
        out.push(acc);
        i += 1;
    }
    out
}


// === Byte offset -> character index ========================================

/// `k` is the last character boundary at or before byte offset `b`.
pub open spec fn is_char_floor(cs: Seq<char>, b: int, k: int) -> bool {
    &&& 0 <= k <= cs.len()
    &&& prefix_bytes(cs, k) <= b
    &&& (k == cs.len() || b < prefix_bytes(cs, k + 1))
}

/// Index of the last character boundary at or before byte offset `b`.
pub open spec fn char_floor(cs: Seq<char>, b: int) -> int {
    choose|k: int| is_char_floor(cs, b, k)
}

proof fn lemma_char_floor_from(cs: Seq<char>, b: int, k: int)
    requires
        0 <= k <= cs.len(),
        prefix_bytes(cs, k) <= b,
    ensures
        exists|j: int| is_char_floor(cs, b, j),
    decreases cs.len() - k,
{
    if k == cs.len() || b < prefix_bytes(cs, k + 1) {
        assert(is_char_floor(cs, b, k));
    } else {
        lemma_char_floor_from(cs, b, k + 1);
    }
}

/// For `b >= 0` the floor exists, is unique, and is what `char_floor` picks.
pub proof fn lemma_char_floor(cs: Seq<char>, b: int, k: int)
    requires
        b >= 0,
    ensures
        is_char_floor(cs, b, char_floor(cs, b)),
        is_char_floor(cs, b, k) ==> k == char_floor(cs, b),
{
    lemma_prefix_bytes_zero(cs);
    lemma_char_floor_from(cs, b, 0);
    let f = char_floor(cs, b);
    if is_char_floor(cs, b, k) && k != f {
        if k < f {
            lemma_prefix_bytes_mono(cs, k + 1, f);
        } else {
            lemma_prefix_bytes_mono(cs, f + 1, k);
        }
    }
}

/// A character boundary is its own floor.
pub proof fn lemma_char_floor_exact(cs: Seq<char>, k: int)
    requires
        0 <= k <= cs.len(),
    ensures
        char_floor(cs, prefix_bytes(cs, k) as int) == k,
{
    if k < cs.len() {
        lemma_prefix_bytes_step(cs, k);
        lemma_width_matches_encoding(cs[k]);
    }
    assert(is_char_floor(cs, prefix_bytes(cs, k) as int, k));
    lemma_char_floor(cs, prefix_bytes(cs, k) as int, k);
}

/// Binary search for the last character boundary at or before `b`, given the
/// table of character start offsets.
pub fn floor_char(cs: &Vec<char>, starts: &Vec<usize>, b: usize) -> (k: usize)
    requires
        starts@.len() == cs@.len() + 1,
        forall|i: int| 0 <= i <= cs@.len() ==> #[trigger] starts@[i] == prefix_bytes(cs@, i),
    ensures
        k == char_floor(cs@, b as int),
        is_char_floor(cs@, b as int, k as int),
{
    proof {
        lemma_prefix_bytes_zero(cs@);
    }
    let mut lo: usize = 0;
    let mut hi: usize = cs.len();
    if starts[hi] <= b {
        proof {
            lemma_char_floor(cs@, b as int, hi as int);
        }
        return hi;
    }
    while hi - lo > 1
        invariant
            lo < hi <= cs@.len(),
            starts@.len() == cs@.len() + 1,
            forall|i: int| 0 <= i <= cs@.len() ==> #[trigger] starts@[i] == prefix_bytes(cs@, i),
            prefix_bytes(cs@, lo as int) <= b,
            b < prefix_bytes(cs@, hi as int),
        decreases hi - lo,
    {
        let mid = lo + (hi - lo) / 2;
        if starts[mid] <= b {
            lo = mid;
        } else {
            hi = mid;
        }
    }
    proof {
        assert(is_char_floor(cs@, b as int, lo as int));
        lemma_char_floor(cs@, b as int, lo as int);
    }
    lo
}

// === Character windows (Unicode whitespace) ==============================

/// First index of `[lo, hi)` that is not whitespace (or `hi`).
pub open spec fn ws_fwd(v: Seq<char>, lo: int, hi: int) -> int
    decreases hi - lo,
{
    if lo < hi && is_unicode_ws(v[lo]) {
        ws_fwd(v, lo + 1, hi)
    } else {
        lo
    }
}

/// End of `[lo, hi)` once trailing whitespace is dropped.
pub open spec fn ws_back(v: Seq<char>, lo: int, hi: int) -> int
    decreases hi - lo,
{
    if hi > lo && is_unicode_ws(v[hi - 1]) {
        ws_back(v, lo, hi - 1)
    } else {
        hi
    }
}

/// The window `[lo, hi)` with whitespace trimmed from both ends.
pub open spec fn trim_chars(v: Seq<char>, lo: int, hi: int) -> (int, int) {
    let l = ws_fwd(v, lo, hi);
    (l, ws_back(v, l, hi))
}

} // verus!
