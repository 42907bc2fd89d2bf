//! Shared parsing for Thymeleaf fragment attributes.
//!
//! `th:fragment="name(args)"` *defines* a fragment; `th:insert` / `th:replace` /
//! `th:include` *reference* one via forms like `~{template :: name}`,
//! `template :: name`, `:: name`, or a bare `name`. Navigation, rename and
//! highlight all need to recognise these attributes and locate the fragment
//! *name token* inside the attribute value.
//!
//! The `*_range` functions return the byte range of the name token *within the
//! value string*; the `*_name` helpers return the corresponding slice.

use std::ops::Range;
use vstd::prelude::*;
use vstd::string::*;
use vstd::utf8::*;
use crate::text::{
    ascii_ws, chars_eq, chars_of, is_ascii_ws, lemma_ascii_boundaries, lemma_str_valid, lower_seq,
    substr, trim_seq, trimmed_lower,
};

verus! {

/// Whether `name` is `th:<local>` or `data-th-<local>`, ignoring ASCII case
/// and surrounding whitespace.
pub open spec fn matches_th_attr_spec(name: Seq<char>, local: Seq<char>) -> bool {
    let lower = lower_seq(trim_seq(name));
    lower == "th:"@ + local || lower == "data-th-"@ + local
}

pub open spec fn is_fragment_attr_spec(name: Seq<char>) -> bool {
    matches_th_attr_spec(name, "fragment"@)
}

pub open spec fn is_reference_attr_spec(name: Seq<char>) -> bool {
    matches_th_attr_spec(name, "insert"@) || matches_th_attr_spec(name, "replace"@)
        || matches_th_attr_spec(name, "include"@)
}

/// True if `name` denotes a `th:fragment` definition (accepts `data-th-`).
pub fn is_fragment_attr(name: &str) -> (r: bool)
    ensures
        r == is_fragment_attr_spec(name@),
{
    matches_th_attr(name, "fragment")
}

/// True if `name` denotes a fragment-reference attribute (`th:insert`,
/// `th:replace`, `th:include`; accepts the `data-th-` form).
pub fn is_reference_attr(name: &str) -> (r: bool)
    ensures
        r == is_reference_attr_spec(name@),
{
    matches_th_attr(name, "insert") || matches_th_attr(name, "replace") || matches_th_attr(
        name,
        "include",
    )
}

/// Case-insensitively matches `name` against `th:<local>` or `data-th-<local>`.
fn matches_th_attr(name: &str, local: &str) -> (r: bool)
    ensures
        r == matches_th_attr_spec(name@, local@),
{
    let lower = trimmed_lower(name);
    let loc = chars_of(local);
    let mut a = chars_of("th:");
    let mut tail = loc.clone();
    a.append(&mut tail);
    let mut b = chars_of("data-th-");
    let mut tail2 = loc.clone();
    b.append(&mut tail2);
    chars_eq(&lower, &a) || chars_eq(&lower, &b)
}

// === Byte-window scanning =================================================

/// First index of `[lo, hi)` whose byte is not ASCII whitespace (or `hi`).
pub open spec fn skip_ws_fwd(b: Seq<u8>, lo: int, hi: int) -> int
    decreases hi - lo,
{
    if lo < hi && is_ascii_ws(b[lo]) {
        skip_ws_fwd(b, lo + 1, hi)
    } else {
        lo
    }
}

/// End of `[lo, hi)` once trailing ASCII whitespace is dropped.
pub open spec fn skip_ws_back(b: Seq<u8>, lo: int, hi: int) -> int
    decreases hi - lo,
{
    if hi > lo && is_ascii_ws(b[hi - 1]) {
        skip_ws_back(b, lo, hi - 1)
    } else {
        hi
    }
}

/// The window `[lo, hi)` with ASCII whitespace trimmed from both ends.
pub open spec fn trim_window_spec(b: Seq<u8>, lo: int, hi: int) -> (int, int) {
    let l = skip_ws_fwd(b, lo, hi);
    (l, skip_ws_back(b, l, hi))
}

/// Position of the first byte `x` in `[lo, hi)`.
pub open spec fn find_byte(b: Seq<u8>, lo: int, hi: int, x: u8) -> Option<int>
    decreases hi - lo,
{
    if lo < hi {
        if b[lo] == x {
            Some(lo)
        } else {
            find_byte(b, lo + 1, hi, x)
        }
    } else {
        None
    }
}

/// Start of the last `::` lying wholly inside `[lo, hi)`.
pub open spec fn rfind_double_colon(b: Seq<u8>, lo: int, hi: int) -> Option<int>
    decreases hi - lo,
{
    if hi - lo >= 2 {
        if b[hi - 2] == 0x3au8 && b[hi - 1] == 0x3au8 {
            Some(hi - 2)
        } else {
            rfind_double_colon(b, lo, hi - 1)
        }
    } else {
        None
    }
}

/// Whether the window `[lo, hi)` ends with `}`.
pub open spec fn ends_with_brace(b: Seq<u8>, lo: int, hi: int) -> bool {
    hi > lo && b[hi - 1] == 0x7du8
}

/// Whether the window `[lo, hi)` starts with `~{`.
pub open spec fn starts_with_tilde_brace(b: Seq<u8>, lo: int, hi: int) -> bool {
    hi - lo >= 2 && b[lo] == 0x7eu8 && b[lo + 1] == 0x7bu8
}

/// Byte range of the name token of a `th:fragment` value: trim, cut at the
/// first `(`, trim again; `None` when nothing is left.
pub open spec fn definition_range_spec(b: Seq<u8>) -> Option<(int, int)> {
    let (lo, hi) = trim_window_spec(b, 0, b.len() as int);
    let end = match find_byte(b, lo, hi, 0x28u8) {
        Some(p) => p,
        None => hi,
    };
    let (lo2, hi2) = trim_window_spec(b, lo, end);
    if lo2 >= hi2 {
        None
    } else {
        Some((lo2, hi2))
    }
}

/// First stage of a reference: the trimmed value with an outer `~{ ... }`
/// wrapper removed.
pub open spec fn unwrap_reference(b: Seq<u8>) -> (int, int) {
    let (lo, hi) = trim_window_spec(b, 0, b.len() as int);
    if starts_with_tilde_brace(b, lo, hi) {
        let (lo1, hi1) = trim_window_spec(b, lo + 2, hi);
        let hi2 = if ends_with_brace(b, lo1, hi1) {
            hi1 - 1
        } else {
            hi1
        };
        trim_window_spec(b, lo1, hi2)
    } else {
        (lo, hi)
    }
}

/// Byte range of the referenced fragment name token of a
/// `th:insert`/`th:replace`/`th:include` value.
pub open spec fn reference_range_spec(b: Seq<u8>) -> Option<(int, int)> {
    let (lo0, hi0) = unwrap_reference(b);
    let lo1 = match rfind_double_colon(b, lo0, hi0) {
        Some(p) => p + 2,
        None => lo0,
    };
    let (lo2, hi2) = trim_window_spec(b, lo1, hi0);
    let hi3 = if ends_with_brace(b, lo2, hi2) {
        hi2 - 1
    } else {
        hi2
    };
    let hi4 = match find_byte(b, lo2, hi3, 0x28u8) {
        Some(p) => p,
        None => hi3,
    };
    let (lo5, hi5) = trim_window_spec(b, lo2, hi4);
    if lo5 >= hi5 {
        None
    } else {
        Some((lo5, hi5))
    }
}

proof fn lemma_skip_fwd(b: Seq<u8>, lo: int, hi: int)
    requires
        0 <= lo <= hi <= b.len(),
    ensures
        lo <= skip_ws_fwd(b, lo, hi) <= hi,
        skip_ws_fwd(b, lo, hi) < hi ==> !is_ascii_ws(b[skip_ws_fwd(b, lo, hi)]),
    decreases hi - lo,
{
    if lo < hi && is_ascii_ws(b[lo]) {
        lemma_skip_fwd(b, lo + 1, hi);
    }
}

proof fn lemma_skip_back(b: Seq<u8>, lo: int, hi: int)
    requires
        0 <= lo <= hi <= b.len(),
    ensures
        lo <= skip_ws_back(b, lo, hi) <= hi,
        skip_ws_back(b, lo, hi) > lo ==> !is_ascii_ws(b[skip_ws_back(b, lo, hi) - 1]),
    decreases hi - lo,
{
    if hi > lo && is_ascii_ws(b[hi - 1]) {
        lemma_skip_back(b, lo, hi - 1);
    }
}

proof fn lemma_trim_window(b: Seq<u8>, lo: int, hi: int)
    requires
        0 <= lo <= hi <= b.len(),
    ensures
        lo <= trim_window_spec(b, lo, hi).0 <= trim_window_spec(b, lo, hi).1 <= hi,
        trim_window_spec(b, lo, hi).0 < trim_window_spec(b, lo, hi).1 ==> !is_ascii_ws(
            b[trim_window_spec(b, lo, hi).0],
        ) && !is_ascii_ws(b[trim_window_spec(b, lo, hi).1 - 1]),
{
    lemma_skip_fwd(b, lo, hi);
    lemma_skip_back(b, skip_ws_fwd(b, lo, hi), hi);
}

proof fn lemma_find_byte(b: Seq<u8>, lo: int, hi: int, x: u8)
    requires
        0 <= lo <= hi <= b.len(),
    ensures
        find_byte(b, lo, hi, x) matches Some(p) ==> lo <= p < hi && b[p] == x && forall|t: int|
            lo <= t < p ==> b[t] != x,
        find_byte(b, lo, hi, x) is None ==> forall|t: int| lo <= t < hi ==> b[t] != x,
    decreases hi - lo,
{
    if lo < hi && b[lo] != x {
        lemma_find_byte(b, lo + 1, hi, x);
    }
}

proof fn lemma_rfind_double_colon(b: Seq<u8>, lo: int, hi: int)
    requires
        0 <= lo <= hi <= b.len(),
    ensures
        rfind_double_colon(b, lo, hi) matches Some(p) ==> lo <= p && p + 2 <= hi,
    decreases hi - lo,
{
    if hi - lo >= 2 && !(b[hi - 2] == 0x3au8 && b[hi - 1] == 0x3au8) {
        lemma_rfind_double_colon(b, lo, hi - 1);
    }
}

proof fn lemma_fwd_ws_prefix(b: Seq<u8>, lo: int, hi: int)
    requires
        0 <= lo <= hi <= b.len(),
    ensures
        forall|t: int| lo <= t < skip_ws_fwd(b, lo, hi) ==> is_ascii_ws(#[trigger] b[t]),
    decreases hi - lo,
{
    if lo < hi && is_ascii_ws(b[lo]) {
        lemma_fwd_ws_prefix(b, lo + 1, hi);
    }
}

proof fn lemma_back_ws_suffix(b: Seq<u8>, lo: int, hi: int)
    requires
        0 <= lo <= hi <= b.len(),
    ensures
        forall|t: int| skip_ws_back(b, lo, hi) <= t < hi ==> is_ascii_ws(#[trigger] b[t]),
    decreases hi - lo,
{
    if hi > lo && is_ascii_ws(b[hi - 1]) {
        lemma_back_ws_suffix(b, lo, hi - 1);
    }
}

/// Skipping over a stretch of whitespace first does not change where the
/// forward skip lands.
proof fn lemma_fwd_from(b: Seq<u8>, lo: int, m: int, hi: int)
    requires
        0 <= lo <= m <= hi <= b.len(),
        forall|t: int| lo <= t < m ==> is_ascii_ws(#[trigger] b[t]),
    ensures
        skip_ws_fwd(b, lo, hi) == skip_ws_fwd(b, m, hi),
    decreases m - lo,
{
    if lo < m {
        lemma_fwd_from(b, lo + 1, m, hi);
    }
}

pub proof fn lemma_find_from(b: Seq<u8>, lo: int, m: int, hi: int, x: u8)
    requires
        0 <= lo <= m <= hi <= b.len(),
        forall|t: int| lo <= t < m ==> b[t] != x,
    ensures
        find_byte(b, lo, hi, x) == find_byte(b, m, hi, x),
    decreases m - lo,
{
    if lo < m {
        lemma_find_from(b, lo + 1, m, hi, x);
    }
}

/// Where the text before the first `(` ends (the whole value when there is
/// none).
pub open spec fn before_paren(b: Seq<u8>) -> int {
    match find_byte(b, 0, b.len() as int, 0x28u8) {
        Some(p) => p,
        None => b.len() as int,
    }
}

/// A definition's name is the text before the first `(`, with ASCII
/// whitespace trimmed; none when that is blank.
pub proof fn law_definition_is_trimmed_prefix(b: Seq<u8>)
    ensures
        definition_range_spec(b) == ({
            let (lo, hi) = trim_window_spec(b, 0, before_paren(b));
            if lo >= hi {
                None
            } else {
                Some((lo, hi))
            }
        }),
{
    let n = b.len() as int;
    let (lo0, hi0) = trim_window_spec(b, 0, n);
    lemma_trim_window(b, 0, n);
    lemma_skip_fwd(b, 0, n);
    lemma_fwd_ws_prefix(b, 0, n);
    lemma_back_ws_suffix(b, lo0, n);
    lemma_find_byte(b, 0, n, 0x28u8);
    lemma_find_byte(b, lo0, hi0, 0x28u8);
    let p = before_paren(b);
    // No `(` among the leading whitespace.
    assert forall|t: int| 0 <= t < lo0 implies b[t] != 0x28u8 by {
        assert(is_ascii_ws(b[t]));
    }
    lemma_find_from(b, 0, lo0, n, 0x28u8);
    lemma_find_byte(b, lo0, n, 0x28u8);
    match find_byte(b, lo0, hi0, 0x28u8) {
        Some(q) => {
            // The first `(` of the trimmed window is the first of the value.
            lemma_find_from(b, lo0, q, n, 0x28u8);
            assert(find_byte(b, q, n, 0x28u8) == Some(q));
            assert(p == q);
            lemma_skip_fwd(b, 0, p);
            lemma_fwd_from(b, 0, lo0, p);
        },
        None => {
            // Any `(` would lie in the trailing whitespace, so there is none.
            if let Some(q) = find_byte(b, lo0, n, 0x28u8) {
                if q < hi0 {
                    assert(b[q] == 0x28u8);
                } else {
                    assert(is_ascii_ws(b[q]));
                }
            }
            assert(p == n);
            if lo0 < hi0 {
                assert(!is_ascii_ws(b[lo0]));
                assert(skip_ws_fwd(b, lo0, hi0) == lo0);
                assert(!is_ascii_ws(b[hi0 - 1]));
                assert(skip_ws_back(b, lo0, hi0) == hi0);
            } else {
                if lo0 < n {
                    assert(!is_ascii_ws(b[lo0]));
                    lemma_skip_back(b, lo0, n);
                    assert(skip_ws_back(b, lo0, lo0 + 1) == lo0 + 1);
                    lemma_back_stays(b, lo0, lo0 + 1, n);
                }
            }
        },
    }
}

/// The backward skip never passes a non-whitespace byte.
proof fn lemma_back_stays(b: Seq<u8>, lo: int, m: int, hi: int)
    requires
        0 <= lo < m <= hi <= b.len(),
        !is_ascii_ws(b[m - 1]),
    ensures
        skip_ws_back(b, lo, hi) >= m,
    decreases hi - m,
{
    if hi > m && is_ascii_ws(b[hi - 1]) {
        lemma_back_stays(b, lo, m, hi - 1);
    }
}

/// A definition's name token lies within the value, is trimmed, and holds no
/// `(`: the argument list is never part of it.
pub proof fn law_definition_token(b: Seq<u8>)
    ensures
        definition_range_spec(b) matches Some(r) ==> {
            &&& 0 <= r.0 < r.1 <= b.len()
            &&& !is_ascii_ws(b[r.0]) && !is_ascii_ws(b[r.1 - 1])
            &&& forall|t: int| r.0 <= t < r.1 ==> b[t] != 0x28u8
        },
{
    let (lo, hi) = trim_window_spec(b, 0, b.len() as int);
    lemma_trim_window(b, 0, b.len() as int);
    lemma_find_byte(b, lo, hi, 0x28u8);
    let end = match find_byte(b, lo, hi, 0x28u8) {
        Some(p) => p,
        None => hi,
    };
    lemma_trim_window(b, lo, end);
}

/// No `::` starts after the one `rfind_double_colon` finds (anywhere in the
/// window when it finds none).
proof fn lemma_rfind_last(b: Seq<u8>, lo: int, hi: int)
    requires
        0 <= lo <= hi <= b.len(),
    ensures
        forall|t: int|
            lo <= t && t + 2 <= hi && (rfind_double_colon(b, lo, hi) matches Some(p) ==> p < t)
                ==> !(b[t] == 0x3au8 && #[trigger] b[t + 1] == 0x3au8),
    decreases hi - lo,
{
    if hi - lo >= 2 && !(b[hi - 2] == 0x3au8 && b[hi - 1] == 0x3au8) {
        lemma_rfind_last(b, lo, hi - 1);
        assert forall|t: int|
            lo <= t && t + 2 <= hi && (rfind_double_colon(b, lo, hi) matches Some(p) ==> p < t)
                implies !(b[t] == 0x3au8 && #[trigger] b[t + 1] == 0x3au8) by {
            if t + 2 <= hi - 1 {
                assert(rfind_double_colon(b, lo, hi) == rfind_double_colon(b, lo, hi - 1));
            }
        }
    }
}

/// A reference's name token lies within the value, is trimmed, and holds
/// neither `(` nor `::`: the argument list and the template part are never
/// part of it. A blank value names nothing.
pub proof fn law_reference_token(b: Seq<u8>)
    ensures
        reference_range_spec(b) matches Some(r) ==> {
            &&& 0 <= r.0 < r.1 <= b.len()
            &&& !is_ascii_ws(b[r.0]) && !is_ascii_ws(b[r.1 - 1])
            &&& forall|t: int| r.0 <= t < r.1 ==> b[t] != 0x28u8
            &&& forall|t: int|
                r.0 <= t && t + 1 < r.1 ==> !(b[t] == 0x3au8 && #[trigger] b[t + 1] == 0x3au8)
        },
        (forall|t: int| 0 <= t < b.len() ==> is_ascii_ws(#[trigger] b[t])) ==> reference_range_spec(
            b,
        ) is None,
{
    let n = b.len() as int;
    let (lo, hi) = trim_window_spec(b, 0, n);
    lemma_trim_window(b, 0, n);
    if starts_with_tilde_brace(b, lo, hi) {
        lemma_trim_window(b, lo + 2, hi);
        let (lo1, hi1) = trim_window_spec(b, lo + 2, hi);
        let hi2 = if ends_with_brace(b, lo1, hi1) {
            hi1 - 1
        } else {
            hi1
        };
        lemma_trim_window(b, lo1, hi2);
    }
    let (lo0, hi0) = unwrap_reference(b);
    lemma_rfind_double_colon(b, lo0, hi0);
    let lo1 = match rfind_double_colon(b, lo0, hi0) {
        Some(p) => p + 2,
        None => lo0,
    };
    lemma_trim_window(b, lo1, hi0);
    let (lo2, hi2) = trim_window_spec(b, lo1, hi0);
    let hi3 = if ends_with_brace(b, lo2, hi2) {
        hi2 - 1
    } else {
        hi2
    };
    lemma_find_byte(b, lo2, hi3, 0x28u8);
    let hi4 = match find_byte(b, lo2, hi3, 0x28u8) {
        Some(p) => p,
        None => hi3,
    };
    lemma_trim_window(b, lo2, hi4);
    lemma_rfind_last(b, lo0, hi0);
    if forall|t: int| 0 <= t < n ==> is_ascii_ws(#[trigger] b[t]) {
        lemma_fwd_ws_prefix(b, 0, n);
        lemma_skip_fwd(b, 0, n);
        assert(lo == n);
        assert(lo0 == lo1);
    }
}

/// `w` holds `b` starting at position `k`.
pub open spec fn holds_at(w: Seq<u8>, b: Seq<u8>, k: int) -> bool {
    &&& 0 <= k
    &&& b.len() + k <= w.len()
    &&& forall|t: int| 0 <= t < b.len() ==> w[t + k] == #[trigger] b[t]
}

proof fn lemma_shift_fwd(w: Seq<u8>, b: Seq<u8>, k: int, lo: int, hi: int)
    requires
        holds_at(w, b, k),
        0 <= lo <= hi <= b.len(),
    ensures
        skip_ws_fwd(w, lo + k, hi + k) == skip_ws_fwd(b, lo, hi) + k,
    decreases hi - lo,
{
    if lo < hi {
        assert(w[lo + k] == b[lo]);
        lemma_shift_fwd(w, b, k, lo + 1, hi);
    }
}

proof fn lemma_shift_back(w: Seq<u8>, b: Seq<u8>, k: int, lo: int, hi: int)
    requires
        holds_at(w, b, k),
        0 <= lo <= hi <= b.len(),
    ensures
        skip_ws_back(w, lo + k, hi + k) == skip_ws_back(b, lo, hi) + k,
    decreases hi - lo,
{
    if hi > lo {
        assert(w[hi - 1 + k] == b[hi - 1]);
        lemma_shift_back(w, b, k, lo, hi - 1);
    }
}

proof fn lemma_shift_trim(w: Seq<u8>, b: Seq<u8>, k: int, lo: int, hi: int)
    requires
        holds_at(w, b, k),
        0 <= lo <= hi <= b.len(),
    ensures
        trim_window_spec(w, lo + k, hi + k).0 == trim_window_spec(b, lo, hi).0 + k,
        trim_window_spec(w, lo + k, hi + k).1 == trim_window_spec(b, lo, hi).1 + k,
        lo <= trim_window_spec(b, lo, hi).0 <= trim_window_spec(b, lo, hi).1 <= hi,
{
    lemma_shift_fwd(w, b, k, lo, hi);
    lemma_skip_fwd(b, lo, hi);
    lemma_shift_back(w, b, k, skip_ws_fwd(b, lo, hi), hi);
    lemma_trim_window(b, lo, hi);
}

proof fn lemma_shift_find(w: Seq<u8>, b: Seq<u8>, k: int, lo: int, hi: int, x: u8)
    requires
        holds_at(w, b, k),
        0 <= lo <= hi <= b.len(),
    ensures
        find_byte(w, lo + k, hi + k, x) == (match find_byte(b, lo, hi, x) {
            Some(p) => Some(p + k),
            None => None,
        }),
    decreases hi - lo,
{
    if lo < hi {
        assert(w[lo + k] == b[lo]);
        lemma_shift_find(w, b, k, lo + 1, hi, x);
    }
}

proof fn lemma_shift_rfind(w: Seq<u8>, b: Seq<u8>, k: int, lo: int, hi: int)
    requires
        holds_at(w, b, k),
        0 <= lo <= hi <= b.len(),
    ensures
        rfind_double_colon(w, lo + k, hi + k) == (match rfind_double_colon(b, lo, hi) {
            Some(p) => Some(p + k),
            None => None,
        }),
    decreases hi - lo,
{
    if hi - lo >= 2 {
        assert(w[hi - 2 + k] == b[hi - 2]);
        assert(w[hi - 1 + k] == b[hi - 1]);
        lemma_shift_rfind(w, b, k, lo, hi - 1);
    }
}

/// The forward skip stops at a non-whitespace byte, wherever the window ends
/// beyond it.
proof fn lemma_fwd_stop(b: Seq<u8>, lo: int, m: int, hi: int)
    requires
        0 <= lo <= m < hi <= b.len(),
        !is_ascii_ws(b[m]),
    ensures
        skip_ws_fwd(b, lo, hi) == skip_ws_fwd(b, lo, m),
    decreases m - lo,
{
    if lo < m && is_ascii_ws(b[lo]) {
        lemma_fwd_stop(b, lo + 1, m, hi);
    }
}

/// The reference with `~{` and `}` around it.
pub open spec fn wrapped(b: Seq<u8>) -> Seq<u8> {
    seq![0x7eu8, 0x7bu8] + b + seq![0x7du8]
}

/// Wrapping a reference in `~{ ... }` selects the same name token, two bytes
/// further on (unless the trimmed reference already starts with `~{`).
pub proof fn law_wrapper_shifts(b: Seq<u8>)
    requires
        !starts_with_tilde_brace(b, trim_window_spec(b, 0, b.len() as int).0, trim_window_spec(b, 0, b.len() as int).1),
    ensures
        reference_range_spec(wrapped(b)) == (match reference_range_spec(b) {
            Some(r) => Some((r.0 + 2, r.1 + 2)),
            None => None,
        }),
{
    let w = wrapped(b);
    let nb = b.len() as int;
    let n = w.len() as int;
    assert(n == nb + 3);
    assert(holds_at(w, b, 2)) by {
        assert forall|t: int| 0 <= t < b.len() implies w[t + 2] == #[trigger] b[t] by {}
    }
    // The outer trim keeps the whole wrapped value.
    assert(w[0] == 0x7eu8 && w[1] == 0x7bu8 && w[n - 1] == 0x7du8);
    assert(skip_ws_fwd(w, 0, n) == 0);
    assert(skip_ws_back(w, 0, n) == n);
    assert(trim_window_spec(w, 0, n) == (0int, n));
    assert(starts_with_tilde_brace(w, 0, n));
    // Inside the braces.
    lemma_shift_trim(w, b, 2, 0, nb);
    let (l, h) = trim_window_spec(b, 0, nb);
    lemma_fwd_stop(w, 2, nb + 2, n);
    lemma_shift_fwd(w, b, 2, 0, nb);
    let lo1 = skip_ws_fwd(w, 2, n);
    assert(lo1 == l + 2);
    assert(skip_ws_back(w, lo1, n) == n);
    assert(trim_window_spec(w, 2, n) == (lo1, n));
    assert(ends_with_brace(w, lo1, n));
    lemma_skip_fwd(b, 0, nb);
    if l < nb {
        assert(skip_ws_fwd(b, l, nb) == l);
    }
    lemma_shift_trim(w, b, 2, l, nb);
    assert(trim_window_spec(b, l, nb) == (l, h));
    assert(unwrap_reference(w) == (l + 2, h + 2));
    assert(unwrap_reference(b) == (l, h));
    // The remaining steps see the same bytes, two positions on.
    lemma_shift_rfind(w, b, 2, l, h);
    lemma_rfind_double_colon(b, l, h);
    let lo1b = match rfind_double_colon(b, l, h) {
        Some(p) => p + 2,
        None => l,
    };
    lemma_shift_trim(w, b, 2, lo1b, h);
    let (lo2, hi2) = trim_window_spec(b, lo1b, h);
    assert(ends_with_brace(w, lo2 + 2, hi2 + 2) == ends_with_brace(b, lo2, hi2)) by {
        if hi2 > lo2 {
            assert(w[hi2 - 1 + 2] == b[hi2 - 1]);
        }
    }
    let hi3 = if ends_with_brace(b, lo2, hi2) {
        hi2 - 1
    } else {
        hi2
    };
    lemma_shift_find(w, b, 2, lo2, hi3, 0x28u8);
    lemma_find_byte(b, lo2, hi3, 0x28u8);
    let hi4 = match find_byte(b, lo2, hi3, 0x28u8) {
        Some(p) => p,
        None => hi3,
    };
    lemma_shift_trim(w, b, 2, lo2, hi4);
}

/// `n` is a usable fragment name: not empty, no ASCII whitespace at either
/// end, and no `(`.
pub open spec fn plain_name(n: Seq<u8>) -> bool {
    &&& n.len() > 0
    &&& !is_ascii_ws(n[0]) && !is_ascii_ws(n[n.len() - 1])
    &&& forall|t: int| 0 <= t < n.len() ==> #[trigger] n[t] != 0x28u8
}

/// The backward skip stops at once before a non-whitespace byte.
proof fn lemma_back_at(b: Seq<u8>, lo: int, hi: int)
    requires
        0 <= lo < hi <= b.len(),
        !is_ascii_ws(b[hi - 1]),
    ensures
        skip_ws_back(b, lo, hi) == hi,
{
}

/// Where the first `(` of `b` is, when none comes before position `m`.
proof fn lemma_first_paren_at(b: Seq<u8>, m: int)
    requires
        0 <= m < b.len(),
        b[m] == 0x28u8,
        forall|t: int| 0 <= t < m ==> #[trigger] b[t] != 0x28u8,
    ensures
        before_paren(b) == m,
{
    lemma_find_from(b, 0, m, b.len() as int, 0x28u8);
}

/// The bytes of the name `definition_name` returns for the value `b`.
pub open spec fn definition_token(b: Seq<u8>) -> Option<Seq<u8>> {
    match definition_range_spec(b) {
        Some(r) => Some(b.subrange(r.0, r.1)),
        None => None,
    }
}

/// The bytes of the name `reference_name` returns for the value `b`.
pub open spec fn reference_token(b: Seq<u8>) -> Option<Seq<u8>> {
    match reference_range_spec(b) {
        Some(r) => Some(b.subrange(r.0, r.1)),
        None => None,
    }
}

/// A definition names `n` whether it is written `n`, `n(a)` or padded as
/// `  n (a)`: the argument list and the surrounding whitespace are dropped.
pub proof fn law_definition_forms(n: Seq<u8>, a: Seq<u8>)
    requires
        plain_name(n),
    ensures
        definition_range_spec(n) == Some((0int, n.len() as int)),
        definition_range_spec(n + seq![0x28u8] + a + seq![0x29u8]) == Some((0int, n.len() as int)),
        definition_range_spec(seq![0x20u8, 0x20u8] + n + seq![0x20u8, 0x28u8] + a + seq![0x29u8])
            == Some((2int, n.len() + 2int)),
        definition_token(n) == Some(n),
        definition_token(n + seq![0x28u8] + a + seq![0x29u8]) == Some(n),
        definition_token(seq![0x20u8, 0x20u8] + n + seq![0x20u8, 0x28u8] + a + seq![0x29u8]) == Some(n),
{
    let k = n.len() as int;
    // `n` alone.
    law_definition_is_trimmed_prefix(n);
    lemma_find_byte(n, 0, k, 0x28u8);
    assert(before_paren(n) == k);
    lemma_back_at(n, 0, k);
    // `n(a)`.
    let v = n + seq![0x28u8] + a + seq![0x29u8];
    law_definition_is_trimmed_prefix(v);
    assert forall|t: int| 0 <= t < k implies #[trigger] v[t] != 0x28u8 by {
        assert(v[t] == n[t]);
    }
    lemma_first_paren_at(v, k);
    assert(v[0] == n[0] && v[k - 1] == n[k - 1]);
    lemma_back_at(v, 0, k);
    // `  n (a)`.
    let u = seq![0x20u8, 0x20u8] + n + seq![0x20u8, 0x28u8] + a + seq![0x29u8];
    law_definition_is_trimmed_prefix(u);
    assert forall|t: int| 0 <= t < k + 3 implies #[trigger] u[t] != 0x28u8 by {
        if 2 <= t < k + 2 {
            assert(u[t] == n[t - 2]);
        }
    }
    lemma_first_paren_at(u, k + 3);
    assert(u[2] == n[0] && u[k + 1] == n[k - 1]);
    assert(u[0] == 0x20u8 && u[1] == 0x20u8);
    assert(skip_ws_fwd(u, 2, k + 3) == 2);
    assert(skip_ws_fwd(u, 1, k + 3) == 2);
    assert(skip_ws_fwd(u, 0, k + 3) == 2);
    lemma_back_at(u, 2, k + 2);
    assert(skip_ws_back(u, 2, k + 3) == k + 2);
    assert(n.subrange(0, k) =~= n);
    assert(v.subrange(0, k) =~= n);
    assert(u.subrange(2, k + 2) =~= n);
}

/// A name or template part of a reference: not empty, and no ASCII
/// whitespace, `:`, `(`, `)`, `{`, `}` or `~` in it.
pub open spec fn selector_part(x: Seq<u8>) -> bool {
    &&& x.len() > 0
    &&& forall|t: int|
        0 <= t < x.len() ==> {
            let c = #[trigger] x[t];
            &&& !is_ascii_ws(c)
            &&& c != 0x3au8 && c != 0x28u8 && c != 0x29u8
            &&& c != 0x7bu8 && c != 0x7du8 && c != 0x7eu8
        }
}

/// An argument list's inside: no `:`, `{` or `}` in it.
pub open spec fn argument_part(a: Seq<u8>) -> bool {
    forall|t: int| 0 <= t < a.len() ==> {
        let c = #[trigger] a[t];
        c != 0x3au8 && c != 0x7bu8 && c != 0x7du8
    }
}

proof fn lemma_rfind_at(b: Seq<u8>, lo: int, hi: int, p: int)
    requires
        0 <= lo <= p,
        p + 2 <= hi <= b.len(),
        b[p] == 0x3au8 && b[p + 1] == 0x3au8,
        forall|t: int| p < t && t + 2 <= hi ==> !(b[t] == 0x3au8 && #[trigger] b[t + 1] == 0x3au8),
    ensures
        rfind_double_colon(b, lo, hi) == Some(p),
    decreases hi,
{
    if hi - 2 != p {
        assert(!(b[hi - 2] == 0x3au8 && b[(hi - 2) + 1] == 0x3au8));
        lemma_rfind_at(b, lo, hi - 1, p);
    }
}

proof fn lemma_rfind_none(b: Seq<u8>, lo: int, hi: int)
    requires
        0 <= lo <= hi <= b.len(),
        forall|t: int| lo <= t < hi ==> #[trigger] b[t] != 0x3au8,
    ensures
        rfind_double_colon(b, lo, hi) is None,
    decreases hi - lo,
{
    if hi - lo >= 2 {
        assert(b[hi - 1] != 0x3au8);
        lemma_rfind_none(b, lo, hi - 1);
    }
}

/// The name after the last `::` of a reference, as the remaining steps find
/// it: `b` holds `:: ` at `p`, then the name (`k` bytes), then either nothing
/// or an argument list in brackets.
proof fn lemma_after_colons(b: Seq<u8>, p: int, k: int)
    requires
        unwrap_reference(b).1 == b.len(),
        0 <= unwrap_reference(b).0 <= p,
        0 < k,
        p + 3 + k <= b.len(),
        b[p] == 0x3au8 && b[p + 1] == 0x3au8 && b[p + 2] == 0x20u8,
        forall|t: int|
            p < t && t + 2 <= b.len() ==> !(b[t] == 0x3au8 && #[trigger] b[t + 1] == 0x3au8),
        selector_part(b.subrange(p + 3, p + 3 + k)),
        p + 3 + k == b.len() || (b[p + 3 + k] == 0x28u8 && b[b.len() - 1] == 0x29u8),
    ensures
        reference_range_spec(b) == Some((p + 3, p + 3 + k)),
{
    let n = b.len() as int;
    let s0 = p + 3;
    let e0 = p + 3 + k;
    let nm = b.subrange(s0, e0);
    assert forall|t: int| s0 <= t < e0 implies {
        let c = #[trigger] b[t];
        &&& !is_ascii_ws(c)
        &&& c != 0x3au8 && c != 0x28u8 && c != 0x29u8
        &&& c != 0x7bu8 && c != 0x7du8 && c != 0x7eu8
    } by {
        assert(b[t] == nm[t - s0]);
    }
    let (lo0, hi0) = unwrap_reference(b);
    lemma_rfind_at(b, lo0, hi0, p);
    assert(!is_ascii_ws(b[s0]));
    assert(skip_ws_fwd(b, s0, n) == s0);
    assert(skip_ws_fwd(b, p + 2, n) == s0);
    assert(!is_ascii_ws(b[n - 1]));
    lemma_back_at(b, s0, n);
    assert(trim_window_spec(b, p + 2, n) == (s0, n));
    assert(!ends_with_brace(b, s0, n));
    lemma_find_byte(b, s0, n, 0x28u8);
    if e0 < n {
        lemma_find_from(b, s0, e0, n, 0x28u8);
        assert(find_byte(b, s0, n, 0x28u8) == Some(e0));
    } else {
        assert(find_byte(b, s0, n, 0x28u8) is None);
    }
    lemma_back_at(b, s0, e0);
    assert(trim_window_spec(b, s0, e0) == (s0, e0));
}

/// The separator ` :: ` between template and name.
pub open spec fn sep() -> Seq<u8> {
    seq![0x20u8, 0x3au8, 0x3au8, 0x20u8]
}

/// An argument list `(a)`.
pub open spec fn in_brackets(a: Seq<u8>) -> Seq<u8> {
    seq![0x28u8] + a + seq![0x29u8]
}

/// Every form of a reference names the fragment `n`: `~{t :: n}`, `t :: n`,
/// `:: n`, a bare `n`, `~{t :: n(a)}` and `t :: n(a)`; the name token sits
/// right where `n` was written.
pub proof fn law_reference_forms(t: Seq<u8>, n: Seq<u8>, a: Seq<u8>)
    requires
        selector_part(t),
        selector_part(n),
        argument_part(a),
    ensures
        reference_range_spec(t + sep() + n) == Some((t.len() + 4int, t.len() + 4int + n.len())),
        reference_range_spec(seq![0x3au8, 0x3au8, 0x20u8] + n) == Some((3int, 3int + n.len())),
        reference_range_spec(n) == Some((0int, n.len() as int)),
        reference_range_spec(t + sep() + n + in_brackets(a)) == Some(
            (t.len() + 4int, t.len() + 4int + n.len()),
        ),
        reference_range_spec(wrapped(t + sep() + n)) == Some(
            (t.len() + 6int, t.len() + 6int + n.len()),
        ),
        reference_range_spec(wrapped(t + sep() + n + in_brackets(a))) == Some(
            (t.len() + 6int, t.len() + 6int + n.len()),
        ),
        reference_token(t + sep() + n) == Some(n),
        reference_token(seq![0x3au8, 0x3au8, 0x20u8] + n) == Some(n),
        reference_token(n) == Some(n),
        reference_token(t + sep() + n + in_brackets(a)) == Some(n),
        reference_token(wrapped(t + sep() + n)) == Some(n),
        reference_token(wrapped(t + sep() + n + in_brackets(a))) == Some(n),
{
    let kt = t.len() as int;
    let kn = n.len() as int;
    let p = kt + 1;
    // `t :: n` and `t :: n(a)`.
    let f2 = t + sep() + n;
    let f6 = t + sep() + n + in_brackets(a);
    assert(f2.subrange(p + 3, p + 3 + kn) =~= n);
    assert(f6.subrange(p + 3, p + 3 + kn) =~= n);
    assert(f2[0] == t[0] && f6[0] == t[0]);
    assert(f2[f2.len() - 1] == n[kn - 1]);
    assert(f6[f6.len() - 1] == 0x29u8);
    assert(f2[p] == 0x3au8 && f2[p + 1] == 0x3au8 && f2[p + 2] == 0x20u8);
    assert(f6[p] == 0x3au8 && f6[p + 1] == 0x3au8 && f6[p + 2] == 0x20u8);
    assert(f6[p + 3 + kn] == 0x28u8);
    assert forall|j: int| p < j && j + 2 <= f2.len() implies !(f2[j] == 0x3au8 && #[trigger] f2[j + 1] == 0x3au8) by {
        if j + 1 >= p + 3 {
            assert(f2[j + 1] == n[j + 1 - (p + 3)]);
        }
    }
    assert forall|j: int| p < j && j + 2 <= f6.len() implies !(f6[j] == 0x3au8 && #[trigger] f6[j + 1] == 0x3au8) by {
        if p + 3 <= j + 1 < p + 3 + kn {
            assert(f6[j + 1] == n[j + 1 - (p + 3)]);
        } else if p + 3 + kn + 1 <= j + 1 < p + 3 + kn + 1 + a.len() {
            assert(f6[j + 1] == a[j + 1 - (p + 3 + kn + 1)]);
        }
    }
    assert(skip_ws_fwd(f2, 0, f2.len() as int) == 0);
    lemma_back_at(f2, 0, f2.len() as int);
    assert(unwrap_reference(f2) == (0int, f2.len() as int));
    assert(skip_ws_fwd(f6, 0, f6.len() as int) == 0);
    lemma_back_at(f6, 0, f6.len() as int);
    assert(unwrap_reference(f6) == (0int, f6.len() as int));
    lemma_after_colons(f2, p, kn);
    lemma_after_colons(f6, p, kn);
    // `:: n`.
    let f3 = seq![0x3au8, 0x3au8, 0x20u8] + n;
    assert(f3.subrange(3, 3 + kn) =~= n);
    assert(f3[f3.len() - 1] == n[kn - 1]);
    assert forall|j: int| 0 < j && j + 2 <= f3.len() implies !(f3[j] == 0x3au8 && #[trigger] f3[j + 1] == 0x3au8) by {
        if j + 1 >= 3 {
            assert(f3[j + 1] == n[j + 1 - 3]);
        }
    }
    assert(skip_ws_fwd(f3, 0, f3.len() as int) == 0);
    lemma_back_at(f3, 0, f3.len() as int);
    assert(unwrap_reference(f3) == (0int, f3.len() as int));
    lemma_after_colons(f3, 0, kn);
    // A bare `n`.
    assert(skip_ws_fwd(n, 0, kn) == 0);
    lemma_back_at(n, 0, kn);
    assert(unwrap_reference(n) == (0int, kn));
    lemma_rfind_none(n, 0, kn);
    assert(!ends_with_brace(n, 0, kn));
    lemma_find_byte(n, 0, kn, 0x28u8);
    assert(find_byte(n, 0, kn, 0x28u8) is None);
    // The wrapped forms.
    law_wrapper_shifts(f2);
    law_wrapper_shifts(f6);
    assert(n.subrange(0, kn) =~= n);
    assert(f3.subrange(3, 3 + kn) =~= n);
    assert(wrapped(f2).subrange(kt + 6, kt + 6 + kn) =~= n);
    assert(wrapped(f6).subrange(kt + 6, kt + 6 + kn) =~= n);
}

/// Positions that are character boundaries of `b`, inside `[0, len]`.
pub open spec fn bnd(b: Seq<u8>, i: int) -> bool {
    0 <= i <= b.len() && is_char_boundary(b, i)
}

/// Trims ASCII whitespace from both ends of the window `[lo, hi)` of `s`.
fn trim_window(s: &str, lo: usize, hi: usize) -> (r: (usize, usize))
    requires
        lo <= hi <= s.spec_bytes().len(),
        bnd(s.spec_bytes(), lo as int),
        bnd(s.spec_bytes(), hi as int),
    ensures
        (r.0 as int, r.1 as int) == trim_window_spec(s.spec_bytes(), lo as int, hi as int),
        lo <= r.0 <= r.1 <= hi,
        bnd(s.spec_bytes(), r.0 as int),
        bnd(s.spec_bytes(), r.1 as int),
{
    let bytes = s.as_bytes();
    let ghost b = s.spec_bytes();
    proof {
        lemma_str_valid(s);
    }
    let ghost lo0 = lo;
    let ghost hi0 = hi;
    let mut lo = lo;
    let mut hi = hi;
    while lo < hi && ascii_ws(bytes[lo])
        invariant
            lo <= hi <= b.len(),
            bytes@ == b,
            b == s.spec_bytes(),
            valid_utf8(b),
            bnd(b, lo as int),
            skip_ws_fwd(b, lo as int, hi as int) == skip_ws_fwd(b, lo0 as int, hi as int),
            lo0 <= lo,
            hi == hi0,
        decreases hi - lo,
    {
        proof {
            lemma_ascii_boundaries(b, lo as int);
        }
        lo += 1;
    }
    let ghost l = lo;
    while hi > lo && ascii_ws(bytes[hi - 1])
        invariant
            l == lo,
            lo <= hi <= b.len(),
            bytes@ == b,
            b == s.spec_bytes(),
            valid_utf8(b),
            bnd(b, hi as int),
            skip_ws_back(b, lo as int, hi as int) == skip_ws_back(b, l as int, hi0 as int),
            hi <= hi0,
            lo0 <= lo,
            l == skip_ws_fwd(b, lo0 as int, hi0 as int),
        decreases hi - lo,
    {
        proof {
            lemma_ascii_boundaries(b, hi - 1);
        }
        hi -= 1;
    }
    (lo, hi)
}

/// First position of byte `x` (ASCII) in `[lo, hi)`.
fn find_byte_in(s: &str, lo: usize, hi: usize, x: u8) -> (r: Option<usize>)
    requires
        lo <= hi <= s.spec_bytes().len(),
        x < 0x80,
    ensures
        r matches Some(p) ==> find_byte(s.spec_bytes(), lo as int, hi as int, x) == Some(p as int)
            && lo <= p < hi && bnd(s.spec_bytes(), p as int) && bnd(s.spec_bytes(), p + 1),
        r is None ==> find_byte(s.spec_bytes(), lo as int, hi as int, x) is None,
{
    let bytes = s.as_bytes();
    let ghost b = s.spec_bytes();
    proof {
        lemma_str_valid(s);
    }
    let mut i = lo;
    while i < hi
        invariant
            lo <= i <= hi <= b.len(),
            bytes@ == b,
            b == s.spec_bytes(),
            valid_utf8(b),
            x < 0x80,
            find_byte(b, i as int, hi as int, x) == find_byte(b, lo as int, hi as int, x),
        decreases hi - i,
    {
        if bytes[i] == x {
            proof {
                lemma_ascii_boundaries(b, i as int);
                assert(find_byte(b, i as int, hi as int, x) == Some(i as int));
            }
            return Some(i);
        }
        i += 1;
    }
    None
}

/// Start of the last `::` within `[lo, hi)`.
fn rfind_colons(s: &str, lo: usize, hi: usize) -> (r: Option<usize>)
    requires
        lo <= hi <= s.spec_bytes().len(),
    ensures
        r matches Some(p) ==> rfind_double_colon(s.spec_bytes(), lo as int, hi as int) == Some(
            p as int,
        ) && lo <= p && p + 2 <= hi && bnd(s.spec_bytes(), p + 2),
        r is None ==> rfind_double_colon(s.spec_bytes(), lo as int, hi as int) is None,
{
    let bytes = s.as_bytes();
    let ghost b = s.spec_bytes();
    proof {
        lemma_str_valid(s);
    }
    let mut j = hi;
    while j >= 2 && j - 2 >= lo
        invariant
            lo <= j <= hi <= b.len(),
            bytes@ == b,
            b == s.spec_bytes(),
            valid_utf8(b),
            rfind_double_colon(b, lo as int, j as int) == rfind_double_colon(
                b,
                lo as int,
                hi as int,
            ),
        decreases j,
    {
        if bytes[j - 2] == 0x3a && bytes[j - 1] == 0x3a {
            proof {
                lemma_ascii_boundaries(b, j - 1);
            }
            return Some(j - 2);
        }
        j -= 1;
    }
    None
}

/// Byte range (within `value`) of the name token of a `th:fragment` value,
/// e.g. `"header(title)"` -> the range spanning `header`. `None` if empty.
pub fn definition_name_range(value: &str) -> (r: Option<Range<usize>>)
    ensures
        r matches Some(rg) ==> definition_range_spec(value.spec_bytes()) == Some(
            (rg.start as int, rg.end as int),
        ) && bnd(value.spec_bytes(), rg.start as int) && bnd(value.spec_bytes(), rg.end as int),
        r is None ==> definition_range_spec(value.spec_bytes()) is None,
{
    proof {
        lemma_str_valid(value);
    }
    let bytes = value.as_bytes();
    let (lo, hi) = trim_window(value, 0, bytes.len());
    let end = match find_byte_in(value, lo, hi, 0x28) {
        Some(idx) => idx,
        None => hi,
    };
    let (lo, hi) = trim_window(value, lo, end);
    if lo >= hi {
        None
    } else {
        Some(lo..hi)
    }
}

/// Byte range (within `value`) of the referenced fragment name token of a
/// `th:insert`/`th:replace`/`th:include` value. Handles `~{tpl :: name}`,
/// `tpl :: name`, `:: name`, and bare `name`, stripping any argument list.
pub fn reference_name_range(value: &str) -> (r: Option<Range<usize>>)
    ensures
        r matches Some(rg) ==> reference_range_spec(value.spec_bytes()) == Some(
            (rg.start as int, rg.end as int),
        ) && bnd(value.spec_bytes(), rg.start as int) && bnd(value.spec_bytes(), rg.end as int),
        r is None ==> reference_range_spec(value.spec_bytes()) is None,
{
    let ghost b = value.spec_bytes();
    proof {
        lemma_str_valid(value);
    }
    let bytes = value.as_bytes();
    let (mut lo, mut hi) = trim_window(value, 0, bytes.len());

    // Strip an outer `~{ ... }` fragment-expression wrapper if present.
    if hi - lo >= 2 && bytes[lo] == 0x7e && bytes[lo + 1] == 0x7b {
        proof {
            lemma_ascii_boundaries(b, lo + 1);
        }
        lo += 2;
        let t = trim_window(value, lo, hi);
        lo = t.0;
        hi = t.1;
        if hi > lo && bytes[hi - 1] == 0x7d {
            proof {
                lemma_ascii_boundaries(b, hi - 1);
            }
            hi -= 1;
        }
        let t = trim_window(value, lo, hi);
        lo = t.0;
        hi = t.1;
    }
    assert((lo as int, hi as int) == unwrap_reference(b));

    // The fragment selector is the segment after the last `::`.
    if let Some(idx) = rfind_colons(value, lo, hi) {
        lo = idx + 2;
    }
    let t = trim_window(value, lo, hi);
    lo = t.0;
    hi = t.1;

    // Drop a stray trailing `}` and any argument list.
    if hi > lo && bytes[hi - 1] == 0x7d {
        proof {
            lemma_ascii_boundaries(b, hi - 1);
        }
        hi -= 1;
    }
    if let Some(idx) = find_byte_in(value, lo, hi, 0x28) {
        hi = idx;
    }
    let (lo, hi) = trim_window(value, lo, hi);
    if lo >= hi {
        None
    } else {
        Some(lo..hi)
    }
}

/// The fragment name defined by a `th:fragment` value, e.g.
/// `"header(title)"` -> `Some("header")`.
pub fn definition_name(value: &str) -> (r: Option<&str>)
    ensures
        r matches Some(n) ==> definition_range_spec(value.spec_bytes()) matches Some(rg)
            && n.spec_bytes() == value.spec_bytes().subrange(rg.0, rg.1),
        r is None ==> definition_range_spec(value.spec_bytes()) is None,
{
    match definition_name_range(value) {
        Some(r) => Some(substr(value, r.start, r.end)),
        None => None,
    }
}

/// The fragment name referenced by a `th:insert`/`th:replace`/`th:include`
/// value, e.g. `"~{tpl :: header('Home')}"` -> `Some("header")`.
pub fn reference_name(value: &str) -> (r: Option<&str>)
    ensures
        r matches Some(n) ==> reference_range_spec(value.spec_bytes()) matches Some(rg)
            && n.spec_bytes() == value.spec_bytes().subrange(rg.0, rg.1),
        r is None ==> reference_range_spec(value.spec_bytes()) is None,
{
    match reference_name_range(value) {
        Some(r) => Some(substr(value, r.start, r.end)),
        None => None,
    }
}

} // verus!
