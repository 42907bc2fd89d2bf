//! Quick-fix code actions for Thymeleaf attributes.
//!
//! For each `th:*` / `data-th-*` attribute whose name overlaps the requested
//! range and is *not* part of the known Standard Dialect catalog, this module
//! offers:
//!  * a "Change to `th:xxx`" quick fix that rewrites the name to the closest
//!    known attribute (by Levenshtein distance, only when distance <= 3), and
//!  * a "Remove `name`" quick fix that deletes the whole attribute.

use vstd::prelude::*;
use vstd::string::*;
use crate::document::{
    attributes_spec, offset_char_index, range_at, views, AttrView, Document, LspRange,
};
use crate::text::{chars_of, has_prefix, is_unicode_ws, lower_char, lower_seq, prefix_bytes, trim_seq, trimmed_lower};
use crate::thymeleaf::{
    all_attrs, catalog, entry, is_thymeleaf_name, is_thymeleaf_name_spec, lookup, lookup_spec,
    normalize, normalize_spec, ThymeleafAttr,
};

verus! {

/// Maximum Levenshtein distance at which a "change to" suggestion is offered.
pub const MAX_SUGGESTION_DISTANCE: usize = 3;

pub open spec fn min_nat(x: nat, y: nat) -> nat {
    if x <= y {
        x
    } else {
        y
    }
}

/// The Levenshtein (edit) distance between two character sequences, counting
/// insertions, deletions and substitutions.
pub open spec fn edit_distance(a: Seq<char>, b: Seq<char>) -> nat
    decreases a.len() + b.len(),
{
    if a.len() == 0 {
        b.len()
    } else if b.len() == 0 {
        a.len()
    } else {
        let del = edit_distance(a.drop_last(), b) + 1;
        let ins = edit_distance(a, b.drop_last()) + 1;
        let sub = edit_distance(a.drop_last(), b.drop_last()) + if a.last() == b.last() {
            0nat
        } else {
            1nat
        };
        min_nat(min_nat(del, ins), sub)
    }
}

/// The distance never exceeds the longer of the two lengths.
pub proof fn lemma_edit_distance_bound(a: Seq<char>, b: Seq<char>)
    ensures
        edit_distance(a, b) <= if a.len() >= b.len() {
            a.len()
        } else {
            b.len()
        },
    decreases a.len() + b.len(),
{
    if a.len() > 0 && b.len() > 0 {
        lemma_edit_distance_bound(a.drop_last(), b.drop_last());
    }
}

/// A sequence is at distance zero from itself, and only from itself.
pub proof fn law_edit_distance_zero(a: Seq<char>, b: Seq<char>)
    ensures
        (edit_distance(a, b) == 0) == (a == b),
    decreases a.len() + b.len(),
{
    if a.len() > 0 && b.len() > 0 {
        law_edit_distance_zero(a.drop_last(), b.drop_last());
        if a == b {
            assert(a.drop_last() == b.drop_last());
        } else if edit_distance(a, b) == 0 {
            assert(a.drop_last() =~= b.drop_last());
            assert(a =~= a.drop_last().push(a.last()));
            assert(b =~= b.drop_last().push(b.last()));
        }
    } else if a.len() == 0 && b.len() == 0 {
        assert(a =~= b);
    }
}

/// The distance is symmetric.
pub proof fn law_edit_distance_symmetric(a: Seq<char>, b: Seq<char>)
    ensures
        edit_distance(a, b) == edit_distance(b, a),
    decreases a.len() + b.len(),
{
    if a.len() > 0 && b.len() > 0 {
        law_edit_distance_symmetric(a.drop_last(), b);
        law_edit_distance_symmetric(a, b.drop_last());
        law_edit_distance_symmetric(a.drop_last(), b.drop_last());
    }
}

/// The distance is at least the difference of the lengths.
pub proof fn law_edit_distance_length_gap(a: Seq<char>, b: Seq<char>)
    ensures
        edit_distance(a, b) >= a.len() - b.len(),
        edit_distance(a, b) >= b.len() - a.len(),
    decreases a.len() + b.len(),
{
    if a.len() > 0 && b.len() > 0 {
        law_edit_distance_length_gap(a.drop_last(), b);
        law_edit_distance_length_gap(a, b.drop_last());
        law_edit_distance_length_gap(a.drop_last(), b.drop_last());
    }
}

/// The distance obeys the triangle inequality.
pub proof fn law_edit_distance_triangle(a: Seq<char>, b: Seq<char>, c: Seq<char>)
    ensures
        edit_distance(a, c) <= edit_distance(a, b) + edit_distance(b, c),
    decreases a.len() + b.len() + c.len(),
{
    if a.len() == 0 || c.len() == 0 {
        law_edit_distance_length_gap(b, c);
        law_edit_distance_length_gap(a, b);
    } else if b.len() == 0 {
        lemma_edit_distance_bound(a, c);
    } else {
        let (a1, b1, c1) = (a.drop_last(), b.drop_last(), c.drop_last());
        law_edit_distance_triangle(a1, b, c);
        law_edit_distance_triangle(a, b, c1);
        law_edit_distance_triangle(a, b1, c);
        law_edit_distance_triangle(a, b1, c1);
        law_edit_distance_triangle(a1, b1, c);
        law_edit_distance_triangle(a1, b1, c1);
    }
}

/// `x` with `c` inserted before position `p`.
pub open spec fn inserted(x: Seq<char>, p: int, c: char) -> Seq<char> {
    x.take(p).push(c) + x.skip(p)
}

/// `x` without its character at position `p`.
pub open spec fn deleted(x: Seq<char>, p: int) -> Seq<char> {
    x.take(p) + x.skip(p + 1)
}

/// `x` with its character at position `p` replaced by `c`.
pub open spec fn replaced(x: Seq<char>, p: int, c: char) -> Seq<char> {
    x.update(p, c)
}

/// `y` is `x` after one single-character edit: an insertion, a deletion or a
/// substitution.
pub open spec fn one_edit(x: Seq<char>, y: Seq<char>) -> bool {
    ||| exists|p: int, c: char| 0 <= p <= x.len() && y == #[trigger] inserted(x, p, c)
    ||| exists|p: int| 0 <= p < x.len() && y == #[trigger] deleted(x, p)
    ||| exists|p: int, c: char| 0 <= p < x.len() && y == #[trigger] replaced(x, p, c)
}

/// `b` is reached from `a` by `k` single-character edits.
pub open spec fn edits_reach(a: Seq<char>, b: Seq<char>, k: nat) -> bool
    decreases k,
{
    if k == 0 {
        a == b
    } else {
        exists|y: Seq<char>| #[trigger] one_edit(a, y) && edits_reach(y, b, (k - 1) as nat)
    }
}

/// A common suffix does not add to the distance.
proof fn lemma_common_suffix(x: Seq<char>, y: Seq<char>, w: Seq<char>)
    ensures
        edit_distance(x + w, y + w) <= edit_distance(x, y),
    decreases w.len(),
{
    if w.len() == 0 {
        assert(x + w =~= x);
        assert(y + w =~= y);
    } else {
        let w1 = w.drop_last();
        lemma_common_suffix(x, y, w1);
        assert((x + w).drop_last() =~= x + w1);
        assert((y + w).drop_last() =~= y + w1);
        assert((x + w).last() == w.last() && (y + w).last() == w.last());
    }
}

proof fn lemma_push_close(u: Seq<char>, d: char, c: char)
    ensures
        edit_distance(u, u.push(c)) <= 1,
        edit_distance(u.push(d), u.push(c)) <= 1,
{
    law_edit_distance_zero(u, u);
    assert(u.push(c).drop_last() =~= u);
    assert(u.push(d).drop_last() =~= u);
}

/// One edit moves a sequence by at most one.
proof fn lemma_one_edit_close(x: Seq<char>, y: Seq<char>)
    requires
        one_edit(x, y),
    ensures
        edit_distance(x, y) <= 1,
{
    if exists|p: int, c: char| 0 <= p <= x.len() && y == #[trigger] inserted(x, p, c) {
        let (p, c) = choose|p: int, c: char| 0 <= p <= x.len() && y == #[trigger] inserted(x, p, c);
        let (u, v) = (x.take(p), x.skip(p));
        assert(x =~= u + v);
        lemma_common_suffix(u, u.push(c), v);
        lemma_push_close(u, c, c);
    } else if exists|p: int| 0 <= p < x.len() && y == #[trigger] deleted(x, p) {
        let p = choose|p: int| 0 <= p < x.len() && y == #[trigger] deleted(x, p);
        let (u, w) = (x.take(p), x.skip(p + 1));
        assert(y =~= u + w);
        assert(x =~= u.push(x[p]) + w);
        lemma_common_suffix(u, u.push(x[p]), w);
        lemma_push_close(u, x[p], x[p]);
        law_edit_distance_symmetric(x, y);
    } else {
        let (p, c) = choose|p: int, c: char| 0 <= p < x.len() && y == #[trigger] replaced(x, p, c);
        let (u, w) = (x.take(p), x.skip(p + 1));
        assert(x =~= u.push(x[p]) + w);
        assert(y =~= u.push(c) + w);
        lemma_common_suffix(u.push(x[p]), u.push(c), w);
        lemma_push_close(u, x[p], c);
    }
}

proof fn lemma_reach_trans(a: Seq<char>, m: Seq<char>, b: Seq<char>, k1: nat, k2: nat)
    requires
        edits_reach(a, m, k1),
        edits_reach(m, b, k2),
    ensures
        edits_reach(a, b, k1 + k2),
    decreases k1,
{
    if k1 > 0 {
        let y = choose|y: Seq<char>| #[trigger] one_edit(a, y) && edits_reach(y, m, (k1 - 1) as nat);
        lemma_reach_trans(y, m, b, (k1 - 1) as nat, k2);
        assert(((k1 + k2) - 1) as nat == ((k1 - 1) as nat + k2) as nat);
        assert(one_edit(a, y) && edits_reach(y, b, ((k1 + k2) - 1) as nat));
    }
}

proof fn lemma_reach_one(a: Seq<char>, y: Seq<char>)
    requires
        one_edit(a, y),
    ensures
        edits_reach(a, y, 1),
{
    assert(edits_reach(y, y, 0));
    assert(one_edit(a, y) && edits_reach(y, y, (1 - 1) as nat));
}

/// An edit still applies with a character appended to both sides.
proof fn lemma_one_edit_push(x: Seq<char>, y: Seq<char>, z: char)
    requires
        one_edit(x, y),
    ensures
        one_edit(x.push(z), y.push(z)),
{
    if exists|p: int, c: char| 0 <= p <= x.len() && y == #[trigger] inserted(x, p, c) {
        let (p, c) = choose|p: int, c: char| 0 <= p <= x.len() && y == #[trigger] inserted(x, p, c);
        assert(y.push(z) =~= inserted(x.push(z), p, c));
    } else if exists|p: int| 0 <= p < x.len() && y == #[trigger] deleted(x, p) {
        let p = choose|p: int| 0 <= p < x.len() && y == #[trigger] deleted(x, p);
        assert(y.push(z) =~= deleted(x.push(z), p));
    } else {
        let (p, c) = choose|p: int, c: char| 0 <= p < x.len() && y == #[trigger] replaced(x, p, c);
        assert(y.push(z) =~= replaced(x.push(z), p, c));
    }
}

proof fn lemma_reach_push(a: Seq<char>, b: Seq<char>, k: nat, z: char)
    requires
        edits_reach(a, b, k),
    ensures
        edits_reach(a.push(z), b.push(z), k),
    decreases k,
{
    if k > 0 {
        let y = choose|y: Seq<char>| #[trigger] one_edit(a, y) && edits_reach(y, b, (k - 1) as nat);
        lemma_reach_push(y, b, (k - 1) as nat, z);
        lemma_one_edit_push(a, y, z);
        assert(one_edit(a.push(z), y.push(z)) && edits_reach(y.push(z), b.push(z), (k - 1) as nat));
    }
}

/// Appending a character is one edit, and so is dropping the last one.
proof fn lemma_edit_at_end(u: Seq<char>, c: char)
    ensures
        one_edit(u, u.push(c)),
        one_edit(u.push(c), u),
{
    assert(u.push(c) =~= inserted(u, u.len() as int, c));
    assert(u =~= deleted(u.push(c), u.len() as int));
}

proof fn lemma_distance_reached(a: Seq<char>, b: Seq<char>)
    ensures
        edits_reach(a, b, edit_distance(a, b)),
    decreases a.len() + b.len(),
{
    if a.len() == 0 && b.len() == 0 {
        assert(a =~= b);
    } else if a.len() == 0 || (b.len() > 0 && edit_distance(a, b) == edit_distance(a, b.drop_last()) + 1) {
        let b1 = b.drop_last();
        lemma_distance_reached(a, b1);
        assert(b1.push(b.last()) =~= b);
        lemma_edit_at_end(b1, b.last());
        lemma_reach_one(b1, b);
        lemma_reach_trans(a, b1, b, edit_distance(a, b1), 1);
        if a.len() == 0 {
            assert(edit_distance(a, b1) + 1 == edit_distance(a, b));
        }
    } else if b.len() == 0 || edit_distance(a, b) == edit_distance(a.drop_last(), b) + 1 {
        let a1 = a.drop_last();
        lemma_distance_reached(a1, b);
        assert(a1.push(a.last()) =~= a);
        lemma_edit_at_end(a1, a.last());
        lemma_reach_one(a, a1);
        lemma_reach_trans(a, a1, b, 1, edit_distance(a1, b));
    } else {
        let (a1, b1) = (a.drop_last(), b.drop_last());
        lemma_distance_reached(a1, b1);
        lemma_reach_push(a1, b1, edit_distance(a1, b1), a.last());
        assert(a1.push(a.last()) =~= a);
        let m = b1.push(a.last());
        if a.last() == b.last() {
            assert(m =~= b);
        } else {
            assert(b =~= replaced(m, b1.len() as int, b.last()));
            lemma_reach_one(m, b);
            lemma_reach_trans(a, m, b, edit_distance(a1, b1), 1);
        }
    }
}

proof fn lemma_reach_bounds_distance(a: Seq<char>, b: Seq<char>, k: nat)
    requires
        edits_reach(a, b, k),
    ensures
        edit_distance(a, b) <= k,
    decreases k,
{
    if k == 0 {
        law_edit_distance_zero(a, b);
    } else {
        let y = choose|y: Seq<char>| #[trigger] one_edit(a, y) && edits_reach(y, b, (k - 1) as nat);
        lemma_one_edit_close(a, y);
        lemma_reach_bounds_distance(y, b, (k - 1) as nat);
        law_edit_distance_triangle(a, y, b);
    }
}

/// The distance is the least number of single-character insertions,
/// deletions and substitutions that turn `a` into `b`: that many edits
/// suffice, and no fewer do.
pub proof fn law_edit_distance_least_edits(a: Seq<char>, b: Seq<char>, k: nat)
    ensures
        edits_reach(a, b, edit_distance(a, b)),
        edits_reach(a, b, k) ==> edit_distance(a, b) <= k,
{
    lemma_distance_reached(a, b);
    if edits_reach(a, b, k) {
        lemma_reach_bounds_distance(a, b, k);
    }
}

/// Classic dynamic-programming Levenshtein distance between two strings,
/// over Unicode scalar values.
pub fn levenshtein(a: &str, b: &str) -> (r: usize)
    ensures
        r == edit_distance(a@, b@),
{
    let a = chars_of(a);
    let b = chars_of(b);
    distance(&a, &b)
}

/// Levenshtein distance between two character vectors.
fn distance(a: &Vec<char>, b: &Vec<char>) -> (r: usize)
    ensures
        r == edit_distance(a@, b@),
{
    proof {
        lemma_edit_distance_bound(a@, b@);
    }
    if a.len() == 0 {
        return b.len();
    }
    if b.len() == 0 {
        return a.len();
    }
    let bl = b.len();
    // Single-row rolling buffer of previous distances.
    let mut prev: Vec<u128> = Vec::new();
    let mut j: usize = 0;
    while j < bl
        invariant
            j <= bl,
            bl == b@.len(),
            prev@.len() == j,
            forall|k: int| 0 <= k < j ==> prev@[k] == k,
        decreases bl - j,
    {
        prev.push(j as u128);
        j += 1;
    }
    prev.push(bl as u128);
    proof {
        assert forall|k: int| 0 <= k <= bl implies prev@[k] == edit_distance(
            a@.take(0),
            b@.take(k),
        ) by {
            assert(a@.take(0).len() == 0);
        }
    }
    let mut cur: Vec<u128> = Vec::new();
    let mut k: usize = 0;
    while k < bl
        invariant
            k <= bl,
            cur@.len() == k,
        decreases bl - k,
    {
        cur.push(0);
        k += 1;
    }
    cur.push(0);

    let mut i: usize = 0;
    while i < a.len()
        invariant
            i <= a@.len(),
            bl == b@.len(),
            prev@.len() == bl + 1,
            cur@.len() == bl + 1,
            forall|k: int| 0 <= k <= bl ==> prev@[k] == edit_distance(a@.take(i as int), b@.take(k)),
        decreases a@.len() - i,
    {
        let ca = a[i];
        cur.set(0, (i as u128) + 1);
        proof {
            assert(a@.take(i + 1).len() == i + 1);
            assert(b@.take(0).len() == 0);
        }
        let mut j: usize = 0;
        while j < bl
            invariant
                i < a@.len(),
                ca == a@[i as int],
                j <= bl,
                bl == b@.len(),
                prev@.len() == bl + 1,
                cur@.len() == bl + 1,
                forall|k: int| 0 <= k <= bl ==> prev@[k] == edit_distance(a@.take(i as int), b@.take(k)),
                forall|k: int| 0 <= k <= j ==> cur@[k] == edit_distance(a@.take(i + 1), b@.take(k)),
            decreases bl - j,
        {
            proof {
                lemma_edit_distance_bound(a@.take(i as int), b@.take(j + 1));
                lemma_edit_distance_bound(a@.take(i + 1), b@.take(j as int));
                lemma_edit_distance_bound(a@.take(i as int), b@.take(j as int));
            }
            let cb = b[j];
            let cost: u128 = if ca == cb { 0 } else { 1 };
            let del = prev[j + 1] + 1;
            let ins = cur[j] + 1;
            let sub = prev[j] + cost;
            let m1 = if del <= ins { del } else { ins };
            let m = if m1 <= sub { m1 } else { sub };
            proof {
                let aa = a@.take(i + 1);
                let bb = b@.take(j + 1);
                assert(aa.drop_last() =~= a@.take(i as int));
                assert(bb.drop_last() =~= b@.take(j as int));
                assert(aa.last() == a@[i as int]);
                assert(bb.last() == b@[j as int]);
                assert(m == edit_distance(aa, bb));
            }
            cur.set(j + 1, m);
            j += 1;
        }
        std::mem::swap(&mut prev, &mut cur);
        i += 1;
    }
    proof {
        assert(a@.take(a@.len() as int) =~= a@);
        assert(b@.take(bl as int) =~= b@);
        lemma_edit_distance_bound(a@, b@);
    }
    prev[bl] as usize
}


/// The attribute name in canonical `th:xxx` form for comparison, falling back
/// to the trimmed, lowercased name when it is in neither Thymeleaf form.
pub open spec fn canonical_spec(name: Seq<char>) -> Seq<char> {
    match normalize_spec(name) {
        Some(n) => n,
        None => lower_seq(trim_seq(name)),
    }
}

/// Normalizes an attribute name to canonical `th:xxx` form for comparison.
fn canonical(name: &str) -> (r: Vec<char>)
    ensures
        r@ == canonical_spec(name@),
{
    match normalize(name) {
        Some(n) => n,
        None => trimmed_lower(name),
    }
}

/// Index of the closest catalog entry among the first `n`, considering only
/// those within `MAX_SUGGESTION_DISTANCE`; ties keep the earlier entry.
pub open spec fn best_within(t: Seq<char>, n: nat) -> Option<int>
    decreases n,
{
    if n == 0 {
        None
    } else {
        let prev = best_within(t, (n - 1) as nat);
        let d = edit_distance(t, catalog()[n - 1].0);
        if d > MAX_SUGGESTION_DISTANCE {
            prev
        } else {
            match prev {
                None => Some(n - 1),
                Some(p) => if d < edit_distance(t, catalog()[p].0) {
                    Some(n - 1)
                } else {
                    prev
                },
            }
        }
    }
}

pub proof fn lemma_best_within_range(t: Seq<char>, n: nat)
    requires
        n <= catalog().len(),
    ensures
        best_within(t, n) matches Some(p) ==> 0 <= p < n && edit_distance(t, catalog()[p].0)
            <= MAX_SUGGESTION_DISTANCE,
    decreases n,
{
    if n > 0 {
        lemma_best_within_range(t, (n - 1) as nat);
    }
}

/// The catalog name `closest_known(name)` suggests.
pub open spec fn closest_known_spec(name: Seq<char>) -> Option<Seq<char>> {
    match best_within(canonical_spec(name), catalog().len()) {
        Some(p) => Some(catalog()[p].0),
        None => None,
    }
}

/// Returns the canonical name of the closest known attribute to `name`, if it
/// is within `MAX_SUGGESTION_DISTANCE` edits.
pub fn closest_known(name: &str) -> (r: Option<&'static str>)
    ensures
        r matches Some(n) ==> closest_known_spec(name@) == Some(n@),
        r is None ==> closest_known_spec(name@) is None,
{
    let target = canonical(name);
    let attrs = all_attrs();
    let ghost t = target@;
    let mut best: Option<(&'static str, usize)> = None;
    let mut i: usize = 0;
    while i < attrs.len()
        invariant
            i <= attrs@.len(),
            attrs@.map_values(|a: ThymeleafAttr| entry(a)) == catalog(),
            t == target@,
            match best {
                None => best_within(t, i as nat) is None,
                Some((n, d)) => best_within(t, i as nat) matches Some(p) && n@ == catalog()[p].0
                    && d == edit_distance(t, catalog()[p].0),
            },
        decreases attrs@.len() - i,
    {
        let a = attrs[i];
        let an = chars_of(a.name);
        let d = distance(&target, &an);
        proof {
            assert(entry(attrs@[i as int]) == catalog()[i as int]);
        }
        if d <= MAX_SUGGESTION_DISTANCE {
            match best {
                None => {
                    best = Some((a.name, d));
                },
                Some((_, bd)) => {
                    if d < bd {
                        best = Some((a.name, d));
                    }
                },
            }
        }
        i += 1;
    }
    proof {
        assert(attrs@.len() == catalog().len());
    }
    match best {
        Some((n, _)) => Some(n),
        None => None,
    }
}

} // verus!

verus! {

/// A single text replacement.
#[derive(Debug)]
pub struct TextEdit {
    pub range: LspRange,
    pub new_text: String,
}

/// The spec view of a text edit.
pub struct TextEditView {
    pub range: LspRange,
    pub new_text: Seq<char>,
}

impl View for TextEdit {
    type V = TextEditView;

    open spec fn view(&self) -> TextEditView {
        TextEditView { range: self.range, new_text: self.new_text@ }
    }
}

/// A quick fix: one edit of the document at `uri`.
#[derive(Debug)]
pub struct CodeAction {
    pub title: String,
    /// Always `"quickfix"`.
    pub kind: &'static str,
    pub uri: String,
    pub edit: TextEdit,
    pub is_preferred: Option<bool>,
}

pub struct CodeActionView {
    pub title: Seq<char>,
    pub kind: Seq<char>,
    pub uri: Seq<char>,
    pub range: LspRange,
    pub new_text: Seq<char>,
    pub is_preferred: Option<bool>,
}

impl View for CodeAction {
    type V = CodeActionView;

    open spec fn view(&self) -> CodeActionView {
        CodeActionView {
            title: self.title@,
            kind: self.kind@,
            uri: self.uri@,
            range: self.edit.range,
            new_text: self.edit.new_text@,
            is_preferred: self.is_preferred,
        }
    }
}

pub open spec fn action_views(s: Seq<CodeAction>) -> Seq<CodeActionView> {
    s.map_values(|a: CodeAction| a@)
}

/// The actions offered for `attrs` (attributes of the text `cs`) whose names
/// overlap the byte range `[req_start, req_end]`: for each unknown `th:*`
/// attribute, a preferred "Change to" fix when a close catalog name exists,
/// then a "Remove" fix deleting the name through the character after the
/// value (the closing quote), clamped to the text.
pub open spec fn actions_for(
    cs: Seq<char>,
    uri: Seq<char>,
    attrs: Seq<AttrView>,
    req_start: int,
    req_end: int,
) -> Seq<CodeActionView>
    decreases attrs.len(),
{
    if attrs.len() == 0 {
        Seq::empty()
    } else {
        let prev = actions_for(cs, uri, attrs.drop_last(), req_start, req_end);
        let a = attrs.last();
        let n_start = a.name_range.start as int;
        let n_end = a.name_range.end as int;
        let total = prefix_bytes(cs, cs.len() as int) as int;
        if !is_thymeleaf_name_spec(a.name) || lookup_spec(a.name) is Some || !(n_start <= req_end
            && req_start <= n_end) {
            prev
        } else {
            let with_change = match closest_known_spec(a.name) {
                Some(sugg) => prev.push(
                    CodeActionView {
                        title: "Change to `"@ + sugg + "`"@,
                        kind: "quickfix"@,
                        uri,
                        range: range_at(cs, n_start, n_end),
                        new_text: sugg,
                        is_preferred: Some(true),
                    },
                ),
                None => prev,
            };
            let capped = if a.value_range.end + 1 <= total {
                a.value_range.end + 1
            } else {
                total
            };
            let del_end = if capped >= n_end {
                capped
            } else {
                n_end
            };
            with_change.push(
                CodeActionView {
                    title: "Remove `"@ + a.name + "`"@,
                    kind: "quickfix"@,
                    uri,
                    range: range_at(cs, n_start, del_end),
                    new_text: Seq::empty(),
                    is_preferred: None,
                },
            )
        }
    }
}

/// `prefix` + `middle` + "`".
fn titled(prefix: &str, middle: &str) -> (r: String)
    ensures
        r@ == prefix@ + middle@ + "`"@,
{
    let mut t = String::from_str(prefix);
    t.append(middle);
    t.append("`");
    t
}

/// Computes the code actions available for `range` in `doc`: quick fixes for
/// the unknown Thymeleaf attributes whose name range overlaps the requested
/// `range` (touching counts, so a zero-width cursor works).
pub fn code_actions(doc: &Document, uri: &str, range: LspRange) -> (r: Vec<CodeAction>)
    ensures
        action_views(r@) == actions_for(
            doc.chars_view(),
            uri@,
            attributes_spec(doc.chars_view(), doc.nodes_view()),
            prefix_bytes(
                doc.chars_view(),
                offset_char_index(doc.chars_view(), range.start.line as nat, range.start.character as nat),
            ) as int,
            prefix_bytes(
                doc.chars_view(),
                offset_char_index(doc.chars_view(), range.end.line as nat, range.end.character as nat),
            ) as int,
        ),
{
    let req_start = doc.offset_at(range.start);
    let req_end = doc.offset_at(range.end);
    let text_len = doc.text().as_bytes().len();
    proof {
        crate::text::lemma_prefix_bytes_all(doc.chars_view());
    }
    let attrs = doc.attributes();
    let ghost av = views(attrs@);
    let ghost cs = doc.chars_view();
    let mut out: Vec<CodeAction> = Vec::new();
    let mut k: usize = 0;
    proof {
        assert(action_views(out@) =~= actions_for(cs, uri@, av.take(0), req_start as int, req_end as int));
    }
    while k < attrs.len()
        invariant
            k <= attrs@.len(),
            av == views(attrs@),
            cs == doc.chars_view(),
            text_len == prefix_bytes(cs, cs.len() as int),
            action_views(out@) == actions_for(cs, uri@, av.take(k as int), req_start as int, req_end as int),
        decreases attrs@.len() - k,
    {
        let attr = &attrs[k];
        proof {
            assert(av.take(k + 1).drop_last() =~= av.take(k as int));
            assert(av.take(k + 1).last() == attr@);
        }
        let n_start = attr.name_range.start;
        let n_end = attr.name_range.end;
        if is_thymeleaf_name(attr.name.as_str()) && lookup(attr.name.as_str()).is_none()
            && n_start <= req_end && req_start <= n_end {
            let ghost before = out@;
            // a) "Change to" the closest known attribute name.
            if let Some(suggestion) = closest_known(attr.name.as_str()) {
                let name_lsp = doc.range_of(n_start, n_end);
                out.push(
                    CodeAction {
                        title: titled("Change to `", suggestion),
                        kind: "quickfix",
                        uri: String::from_str(uri),
                        edit: TextEdit { range: name_lsp, new_text: String::from_str(suggestion) },
                        is_preferred: Some(true),
                    },
                );
            }
            let ghost mid = out@;
            // b) "Remove attribute": delete the name through the end of the
            // value including the closing quote, clamped to the text.
            let capped = if attr.value_range.end < text_len {
                attr.value_range.end + 1
            } else {
                text_len
            };
            let del_end = if capped >= n_end {
                capped
            } else {
                n_end
            };
            let remove_lsp = doc.range_of(n_start, del_end);
            out.push(
                CodeAction {
                    title: titled("Remove `", attr.name.as_str()),
                    kind: "quickfix",
                    uri: String::from_str(uri),
                    edit: TextEdit { range: remove_lsp, new_text: String::new() },
                    is_preferred: None,
                },
            );
            proof {
                assert(action_views(out@) =~= action_views(mid).push(out@.last()@));
                if closest_known_spec(attr.name@) is Some {
                    assert(action_views(mid) =~= action_views(before).push(mid.last()@));
                } else {
                    assert(mid == before);
                }
            }
        }
        k += 1;
    }
    proof {
        assert(av.take(attrs@.len() as int) =~= av);
    }
    out
}

} // verus!

verus! {

proof fn lemma_best_within_minimal(t: Seq<char>, n: nat)
    requires
        n <= catalog().len(),
    ensures
        best_within(t, n) matches Some(p) ==> forall|q: int|
            0 <= q < n && #[trigger] edit_distance(t, catalog()[q].0) <= MAX_SUGGESTION_DISTANCE
                ==> edit_distance(t, catalog()[p].0) <= edit_distance(t, catalog()[q].0),
        best_within(t, n) matches Some(p) ==> forall|q: int|
            0 <= q < p ==> #[trigger] edit_distance(t, catalog()[q].0) > edit_distance(t, catalog()[p].0),
        best_within(t, n) is None ==> forall|q: int|
            0 <= q < n ==> #[trigger] edit_distance(t, catalog()[q].0) > MAX_SUGGESTION_DISTANCE,
    decreases n,
{
    if n > 0 {
        lemma_best_within_minimal(t, (n - 1) as nat);
        lemma_best_within_range(t, (n - 1) as nat);
    }
}

/// The suggestion for a name is a catalog entry within
/// `MAX_SUGGESTION_DISTANCE` edits of its canonical form and at least as close
/// as every other entry, the first such in catalog order (every earlier entry
/// is farther); there is none only when no entry is that close.
pub proof fn law_closest_known_is_nearest(name: Seq<char>)
    ensures
        closest_known_spec(name) matches Some(n) ==> exists|p: int|
            0 <= p < catalog().len() && catalog()[p].0 == n && #[trigger] edit_distance(
                canonical_spec(name),
                catalog()[p].0,
            ) <= MAX_SUGGESTION_DISTANCE && (forall|q: int|
                0 <= q < catalog().len() ==> edit_distance(canonical_spec(name), catalog()[p].0)
                    <= #[trigger] edit_distance(canonical_spec(name), catalog()[q].0)
                    || edit_distance(canonical_spec(name), catalog()[q].0) > MAX_SUGGESTION_DISTANCE)
                && (forall|q: int|
                0 <= q < p ==> #[trigger] edit_distance(canonical_spec(name), catalog()[q].0)
                    > edit_distance(canonical_spec(name), catalog()[p].0)),
        closest_known_spec(name) is None ==> forall|q: int|
            0 <= q < catalog().len() ==> #[trigger] edit_distance(canonical_spec(name), catalog()[q].0)
                > MAX_SUGGESTION_DISTANCE,
{
    let t = canonical_spec(name);
    lemma_best_within_range(t, catalog().len());
    lemma_best_within_minimal(t, catalog().len());
    if let Some(p) = best_within(t, catalog().len()) {
        assert(edit_distance(t, catalog()[p].0) <= MAX_SUGGESTION_DISTANCE);
    }
}

} // verus!

verus! {

/// The canonical form of a name is its trimmed lowercase form, with a
/// `data-th-` prefix rewritten to `th:`; canonicalizing it again changes
/// nothing.
pub proof fn law_canonical_idempotent(name: Seq<char>)
    ensures
        canonical_spec(name) == ({
            let l = lower_seq(trim_seq(name));
            if has_prefix(l, "data-th-"@) {
                "th:"@ + l.skip(8)
            } else {
                l
            }
        }),
        canonical_spec(canonical_spec(name)) == canonical_spec(name),
{
    reveal_strlit("th:");
    reveal_strlit("data-th-");
    let l = lower_seq(trim_seq(name));
    crate::thymeleaf::lemma_lower_trim_fixed(name);
    crate::thymeleaf::lemma_trim_ends(name);
    assert(lower_seq(trim_seq(l)) == l);
    if !has_prefix(l, "th:"@) && has_prefix(l, "data-th-"@) {
        let m = "th:"@ + l.skip(8);
        assert forall|i: int| 0 <= i < l.len() implies #[trigger] lower_char(l[i]) == l[i] by {
            crate::thymeleaf::lemma_lower_ws(trim_seq(name)[i]);
        }
        assert(lower_seq(m) =~= m) by {
            assert forall|i: int| 0 <= i < m.len() implies #[trigger] lower_seq(m)[i] == m[i] by {
                if i >= 3 {
                    assert(m[i] == l[i + 5]);
                }
            }
        }
        if l.len() > 8 {
            crate::thymeleaf::lemma_lower_ws(trim_seq(name).last());
            assert(m.last() == l.last());
        }
        assert(!is_unicode_ws(m[0]));
        crate::thymeleaf::lemma_trim_fixed(m);
        assert(m.take(3) =~= "th:"@);
    }
}

/// The quick fix removing attribute `a`, if it covers the bytes from `a`'s
/// name start to `e`.
pub open spec fn removes_through(cs: Seq<char>, uri: Seq<char>, a: AttrView, act: CodeActionView, e: int) -> bool {
    &&& act.title == "Remove `"@ + a.name + "`"@
    &&& act.uri == uri
    &&& act.new_text.len() == 0
    &&& act.range == range_at(cs, a.name_range.start as int, e)
}

/// Every unknown `th:*` attribute whose name meets the requested range gets a
/// fix removing the whole attribute: its edit deletes from the start of the
/// name through the character after the value (the closing quote), never
/// stopping before the end of the name and never running past the text.
pub proof fn law_remove_fix_deletes_whole_attribute(
    cs: Seq<char>,
    uri: Seq<char>,
    attrs: Seq<AttrView>,
    req_start: int,
    req_end: int,
    k: int,
)
    requires
        0 <= k < attrs.len(),
        is_thymeleaf_name_spec(attrs[k].name),
        lookup_spec(attrs[k].name) is None,
        attrs[k].name_range.start <= req_end,
        req_start <= attrs[k].name_range.end,
    ensures
        exists|j: int, e: int|
            0 <= j < actions_for(cs, uri, attrs, req_start, req_end).len() && #[trigger] removes_through(
                cs,
                uri,
                attrs[k],
                actions_for(cs, uri, attrs, req_start, req_end)[j],
                e,
            ) && attrs[k].name_range.end <= e && (e <= prefix_bytes(cs, cs.len() as int)
                || e == attrs[k].name_range.end) && (attrs[k].name_range.end <= attrs[k].value_range.end
                < prefix_bytes(cs, cs.len() as int) ==> e == attrs[k].value_range.end + 1),
    decreases attrs.len(),
{
    let a1 = attrs.drop_last();
    let prev = actions_for(cs, uri, a1, req_start, req_end);
    let cur = actions_for(cs, uri, attrs, req_start, req_end);
    let total = prefix_bytes(cs, cs.len() as int) as int;
    if k < attrs.len() - 1 {
        assert(a1[k] == attrs[k]);
        law_remove_fix_deletes_whole_attribute(cs, uri, a1, req_start, req_end, k);
        let (j, e) = choose|j: int, e: int|
            0 <= j < prev.len() && #[trigger] removes_through(cs, uri, a1[k], prev[j], e)
                && a1[k].name_range.end <= e && (e <= total || e == a1[k].name_range.end)
                && (a1[k].name_range.end <= a1[k].value_range.end < total ==> e == a1[k].value_range.end
                + 1);
        assert(prev.len() <= cur.len() && cur.take(prev.len() as int) =~= prev) by {
            lemma_actions_extend(cs, uri, attrs, req_start, req_end);
        }
        assert(cur[j] == cur.take(prev.len() as int)[j]);
    } else {
        let a = attrs.last();
        assert(a == attrs[k]);
        let n_end = a.name_range.end as int;
        let capped = if a.value_range.end + 1 <= total {
            a.value_range.end + 1
        } else {
            total
        };
        let del_end = if capped >= n_end {
            capped
        } else {
            n_end
        };
        let with_change = match closest_known_spec(a.name) {
            Some(sugg) => prev.push(
                CodeActionView {
                    title: "Change to `"@ + sugg + "`"@,
                    kind: "quickfix"@,
                    uri,
                    range: range_at(cs, a.name_range.start as int, n_end),
                    new_text: sugg,
                    is_preferred: Some(true),
                },
            ),
            None => prev,
        };
        assert(cur == with_change.push(
            CodeActionView {
                title: "Remove `"@ + a.name + "`"@,
                kind: "quickfix"@,
                uri,
                range: range_at(cs, a.name_range.start as int, del_end),
                new_text: Seq::empty(),
                is_preferred: None,
            },
        ));
        assert(removes_through(cs, uri, attrs[k], cur[with_change.len() as int], del_end));
    }
}

/// The actions for a prefix of the attributes begin the actions for all of
/// them.
proof fn lemma_actions_extend(cs: Seq<char>, uri: Seq<char>, attrs: Seq<AttrView>, req_start: int, req_end: int)
    requires
        attrs.len() > 0,
    ensures
        ({
            let prev = actions_for(cs, uri, attrs.drop_last(), req_start, req_end);
            let cur = actions_for(cs, uri, attrs, req_start, req_end);
            prev.len() <= cur.len() && cur.take(prev.len() as int) =~= prev
        }),
{
}

} // verus!
