//! Diagnostics for Thymeleaf attributes.
//!
//!  * flags `th:*` / `data-th-*` attributes that are not part of the known
//!    Standard Dialect catalog (WARNING), and
//!  * runs a lightweight, low-false-positive bracket/paren balance check on the
//!    values of *known* Thymeleaf attributes (ERROR).

use vstd::prelude::*;
use vstd::string::*;
use crate::document::{attributes_spec, range_at, views, AttrView, Document, LspRange};
use crate::text::{chars_of, has_prefix, push_char};
use crate::thymeleaf::{
    is_thymeleaf_name, is_thymeleaf_name_spec, lookup, lookup_spec, normalize, normalize_spec,
};

verus! {

/// The `source` every diagnostic carries.
pub const SOURCE: &'static str = "thymeleaf_ls";

/// How serious a diagnostic is.
#[derive(Debug, Clone, Copy, PartialEq, Eq, Structural)]
pub enum Severity {
    Warning,
    Error,
}

/// A diagnostic for a range of the document.
#[derive(Debug)]
pub struct Diagnostic {
    pub range: LspRange,
    pub severity: Option<Severity>,
    pub source: Option<String>,
    pub message: String,
}

pub struct DiagnosticView {
    pub range: LspRange,
    pub severity: Option<Severity>,
    pub source: Option<Seq<char>>,
    pub message: Seq<char>,
}

impl View for Diagnostic {
    type V = DiagnosticView;

    open spec fn view(&self) -> DiagnosticView {
        DiagnosticView {
            range: self.range,
            severity: self.severity,
            source: match self.source {
                Some(s) => Some(s@),
                None => None,
            },
            message: self.message@,
        }
    }
}

pub open spec fn diag_views(s: Seq<Diagnostic>) -> Seq<DiagnosticView> {
    s.map_values(|d: Diagnostic| d@)
}

pub open spec fn unknown_msg(name: Seq<char>) -> Seq<char> {
    "Unknown Thymeleaf attribute '"@ + canonical_display_spec(name) + "'"@
}

/// The diagnostics for `attrs`, the attributes of the text `cs`, in order: a
/// warning on the name of every `th:*` / `data-th-*` attribute missing from
/// the catalog, and an error on the value of a known one whose expression is
/// unbalanced.
pub open spec fn diagnostics_for(cs: Seq<char>, attrs: Seq<AttrView>) -> Seq<DiagnosticView>
    decreases attrs.len(),
{
    if attrs.len() == 0 {
        Seq::empty()
    } else {
        let prev = diagnostics_for(cs, attrs.drop_last());
        let a = attrs.last();
        if !is_thymeleaf_name_spec(a.name) {
            prev
        } else if lookup_spec(a.name) is None {
            prev.push(
                DiagnosticView {
                    range: range_at(cs, a.name_range.start as int, a.name_range.end as int),
                    severity: Some(Severity::Warning),
                    source: Some(SOURCE@),
                    message: unknown_msg(a.name),
                },
            )
        } else {
            match unbalanced_spec(a.value) {
                Some(m) => prev.push(
                    DiagnosticView {
                        range: range_at(cs, a.value_range.start as int, a.value_range.end as int),
                        severity: Some(Severity::Error),
                        source: Some(SOURCE@),
                        message: m,
                    },
                ),
                None => prev,
            }
        }
    }
}

/// Computes diagnostics for a single document.
pub fn diagnostics(document: &Document) -> (r: Vec<Diagnostic>)
    ensures
        diag_views(r@) == diagnostics_for(
            document.chars_view(),
            attributes_spec(document.chars_view(), document.nodes_view()),
        ),
{
    let attrs = document.attributes();
    let ghost av = views(attrs@);
    let ghost cs = document.chars_view();
    let mut out: Vec<Diagnostic> = Vec::new();
    let mut k: usize = 0;
    proof {
        assert(diag_views(out@) =~= diagnostics_for(cs, av.take(0)));
    }
    while k < attrs.len()
        invariant
            k <= attrs@.len(),
            av == views(attrs@),
            cs == document.chars_view(),
            diag_views(out@) == diagnostics_for(cs, av.take(k as int)),
        decreases attrs@.len() - k,
    {
        let attr = &attrs[k];
        proof {
            assert(av.take(k + 1).drop_last() =~= av.take(k as int));
            assert(av.take(k + 1).last() == attr@);
        }
        if is_thymeleaf_name(attr.name.as_str()) {
            let ghost before = out@;
            match lookup(attr.name.as_str()) {
                None => {
                    // Unknown Thymeleaf attribute -> warning at the name range.
                    let range = document.range_of(attr.name_range.start, attr.name_range.end);
                    let mut message = String::from_str("Unknown Thymeleaf attribute '");
                    let display = canonical_display(attr.name.as_str());
                    let mut i: usize = 0;
                    while i < display.len()
                        invariant
                            i <= display@.len(),
                            message@ == "Unknown Thymeleaf attribute '"@ + display@.take(i as int),
                        decreases display@.len() - i,
                    {
                        push_char(&mut message, display[i]);
                        proof {
                            assert(display@.take(i + 1) =~= display@.take(i as int).push(display@[i as int]));
                        }
                        i += 1;
                    }
                    message.append("'");
                    proof {
                        assert(display@.take(display@.len() as int) =~= display@);
                    }
                    out.push(
                        Diagnostic {
                            range,
                            severity: Some(Severity::Warning),
                            source: Some(String::from_str(SOURCE)),
                            message,
                        },
                    );
                    proof {
                        assert(diag_views(out@) =~= diag_views(before).push(out@.last()@));
                    }
                },
                Some(_) => {
                    // Known attribute: sanity-check the expression value.
                    if let Some(msg) = unbalanced_message(attr.value.as_str()) {
                        let range = document.range_of(attr.value_range.start, attr.value_range.end);
                        out.push(
                            Diagnostic {
                                range,
                                severity: Some(Severity::Error),
                                source: Some(String::from_str(SOURCE)),
                                message: msg,
                            },
                        );
                        proof {
                            assert(diag_views(out@) =~= diag_views(before).push(out@.last()@));
                        }
                    }
                },
            }
        }
        k += 1;
    }
    proof {
        assert(av.take(attrs@.len() as int) =~= av);
    }
    out
}

/// The closer matching an opener (`(` → `)`, `[` → `]`, anything else → `}`).
pub open spec fn closer_of(open: char) -> char {
    if open == '(' {
        ')'
    } else if open == '[' {
        ']'
    } else {
        '}'
    }
}

/// The opener a closer must match.
pub open spec fn opener_of(close: char) -> char {
    if close == ')' {
        '('
    } else if close == ']' {
        '['
    } else {
        '{'
    }
}

pub open spec fn unexpected_msg(c: char) -> Seq<char> {
    "Unbalanced expression: unexpected '"@ + seq![c] + "'"@
}

pub open spec fn missing_msg(close: char) -> Seq<char> {
    "Unbalanced expression: missing '"@ + seq![close] + "'"@
}

/// The balance scan from position `i` with the given opener stack and
/// string-literal state. A backslash inside a quoted literal skips the next
/// character. Unclosed literals are tolerated; a mismatched or unmatched
/// closer is reported immediately; at the end the *outermost* unclosed opener
/// is reported.
pub open spec fn scan(s: Seq<char>, i: int, stack: Seq<char>, in_single: bool, in_double: bool) -> Option<
    Seq<char>,
>
    decreases s.len() + 1 - i,
{
    if i >= s.len() {
        if stack.len() > 0 {
            Some(missing_msg(closer_of(stack[0])))
        } else {
            None
        }
    } else {
        let c = s[i];
        if in_single {
            if c == '\\' {
                scan(s, i + 2, stack, true, in_double)
            } else if c == '\'' {
                scan(s, i + 1, stack, false, in_double)
            } else {
                scan(s, i + 1, stack, true, in_double)
            }
        } else if in_double {
            if c == '\\' {
                scan(s, i + 2, stack, in_single, true)
            } else if c == '"' {
                scan(s, i + 1, stack, in_single, false)
            } else {
                scan(s, i + 1, stack, in_single, true)
            }
        } else if c == '\'' {
            scan(s, i + 1, stack, true, in_double)
        } else if c == '"' {
            scan(s, i + 1, stack, in_single, true)
        } else if c == '(' || c == '[' || c == '{' {
            scan(s, i + 1, stack.push(c), in_single, in_double)
        } else if c == ')' || c == ']' || c == '}' {
            if stack.len() > 0 && stack.last() == opener_of(c) {
                scan(s, i + 1, stack.drop_last(), in_single, in_double)
            } else {
                Some(unexpected_msg(c))
            }
        } else {
            scan(s, i + 1, stack, in_single, in_double)
        }
    }
}

/// The message `unbalanced_message(value)` reports, if any.
pub open spec fn unbalanced_spec(value: Seq<char>) -> Option<Seq<char>> {
    scan(value, 0, seq![], false, false)
}

/// `prefix` + `c` + `'`.
fn quoted_message(prefix: &str, c: char) -> (r: String)
    ensures
        r@ == prefix@ + seq![c] + "'"@,
{
    let mut out = String::from_str(prefix);
    push_char(&mut out, c);
    out.append("'");
    out
}

/// Performs a conservative balance check over a Thymeleaf expression value.
///
/// Returns `Some(message)` only when brackets/parentheses are *clearly*
/// unbalanced: characters inside single- or double-quoted string literals are
/// skipped, and `(` `)`, `[` `]`, `{` `}` are tracked with a type-aware stack.
pub fn unbalanced_message(value: &str) -> (r: Option<String>)
    ensures
        r matches Some(m) ==> unbalanced_spec(value@) == Some(m@),
        r is None ==> unbalanced_spec(value@) is None,
{
    let s = chars_of(value);
    let mut stack: Vec<char> = Vec::new();
    let mut in_single = false;
    let mut in_double = false;
    let mut i: usize = 0;
    while i < s.len()
        invariant
            s@ == value@,
            i <= s@.len(),
            scan(s@, i as int, stack@, in_single, in_double) == unbalanced_spec(value@),
        decreases s@.len() - i,
    {
        let c = s[i];
        if in_single {
            if c == '\\' {
                let ghost i0 = i;
                i += 1;
                if i < s.len() {
                    i += 1;
                } else {
                    assert(scan(s@, i0 + 2, stack@, true, in_double) == scan(s@, i as int, stack@, true, in_double));
                }
            } else {
                if c == '\'' {
                    in_single = false;
                }
                i += 1;
            }
            continue;
        }
        if in_double {
            if c == '\\' {
                let ghost i0 = i;
                i += 1;
                if i < s.len() {
                    i += 1;
                } else {
                    assert(scan(s@, i0 + 2, stack@, in_single, true) == scan(s@, i as int, stack@, in_single, true));
                }
            } else {
                if c == '"' {
                    in_double = false;
                }
                i += 1;
            }
            continue;
        }
        if c == '\'' {
            in_single = true;
        } else if c == '"' {
            in_double = true;
        } else if c == '(' || c == '[' || c == '{' {
            stack.push(c);
        } else if c == ')' || c == ']' || c == '}' {
            let expected = if c == ')' {
                '('
            } else if c == ']' {
                '['
            } else {
                '{'
            };
            let n = stack.len();
            if n > 0 && stack[n - 1] == expected {
                stack.pop();
            } else {
                return Some(quoted_message("Unbalanced expression: unexpected '", c));
            }
        }
        i += 1;
    }
    if stack.len() > 0 {
        let open = stack[0];
        let close = if open == '(' {
            ')'
        } else if open == '[' {
            ']'
        } else {
            '}'
        };
        return Some(quoted_message("Unbalanced expression: missing '", close));
    }
    None
}

/// The brackets of `s` from position `i` on that stand outside string
/// literals (a quote opens a literal that the same quote closes; inside one a
/// backslash escapes the next character).
pub open spec fn bracket_word(s: Seq<char>, i: int, in_single: bool, in_double: bool) -> Seq<char>
    decreases s.len() + 1 - i,
{
    if i >= s.len() {
        seq![]
    } else {
        let c = s[i];
        if in_single {
            if c == '\\' {
                bracket_word(s, i + 2, true, in_double)
            } else if c == '\'' {
                bracket_word(s, i + 1, false, in_double)
            } else {
                bracket_word(s, i + 1, true, in_double)
            }
        } else if in_double {
            if c == '\\' {
                bracket_word(s, i + 2, in_single, true)
            } else if c == '"' {
                bracket_word(s, i + 1, in_single, false)
            } else {
                bracket_word(s, i + 1, in_single, true)
            }
        } else if c == '\'' {
            bracket_word(s, i + 1, true, in_double)
        } else if c == '"' {
            bracket_word(s, i + 1, in_single, true)
        } else if c == '(' || c == '[' || c == '{' || c == ')' || c == ']' || c == '}' {
            seq![c] + bracket_word(s, i + 1, in_single, in_double)
        } else {
            bracket_word(s, i + 1, in_single, in_double)
        }
    }
}

/// The bracket word `w` closes, innermost first, exactly the brackets left
/// open in `open`, each with the closer of its own type, and leaves nothing
/// open.
pub open spec fn closes(w: Seq<char>, open: Seq<char>) -> bool
    decreases w.len(),
{
    if w.len() == 0 {
        open.len() == 0
    } else {
        let c = w[0];
        if c == '(' || c == '[' || c == '{' {
            closes(w.drop_first(), open.push(c))
        } else {
            open.len() > 0 && open.last() == opener_of(c) && closes(w.drop_first(), open.drop_last())
        }
    }
}

/// A word of brackets is well nested, every closer matching the type of the
/// opener it closes.
pub open spec fn well_nested(w: Seq<char>) -> bool {
    closes(w, seq![])
}

/// Every message the scan reports starts with `Unbalanced expression: `.
pub open spec fn unbalanced_prefix() -> Seq<char> {
    "Unbalanced expression: "@
}

proof fn lemma_scan_brackets(s: Seq<char>, i: int, stack: Seq<char>, in_single: bool, in_double: bool)
    requires
        0 <= i,
    ensures
        scan(s, i, stack, in_single, in_double) is None <==> closes(
            bracket_word(s, i, in_single, in_double),
            stack,
        ),
        scan(s, i, stack, in_single, in_double) matches Some(m) ==> has_prefix(m, unbalanced_prefix()),
    decreases s.len() + 1 - i,
{
    reveal_strlit("Unbalanced expression: ");
    reveal_strlit("Unbalanced expression: unexpected '");
    reveal_strlit("Unbalanced expression: missing '");
    if i >= s.len() {
        if stack.len() > 0 {
            let m = missing_msg(closer_of(stack[0]));
            assert(m.take(23) =~= unbalanced_prefix());
        }
    } else {
        let c = s[i];
        if in_single {
            if c == '\\' {
                lemma_scan_brackets(s, i + 2, stack, true, in_double);
            } else if c == '\'' {
                lemma_scan_brackets(s, i + 1, stack, false, in_double);
            } else {
                lemma_scan_brackets(s, i + 1, stack, true, in_double);
            }
        } else if in_double {
            if c == '\\' {
                lemma_scan_brackets(s, i + 2, stack, in_single, true);
            } else if c == '"' {
                lemma_scan_brackets(s, i + 1, stack, in_single, false);
            } else {
                lemma_scan_brackets(s, i + 1, stack, in_single, true);
            }
        } else if c == '\'' {
            lemma_scan_brackets(s, i + 1, stack, true, in_double);
        } else if c == '"' {
            lemma_scan_brackets(s, i + 1, stack, in_single, true);
        } else if c == '(' || c == '[' || c == '{' {
            let rest = bracket_word(s, i + 1, in_single, in_double);
            assert((seq![c] + rest).drop_first() =~= rest);
            assert((seq![c] + rest)[0] == c);
            lemma_scan_brackets(s, i + 1, stack.push(c), in_single, in_double);
        } else if c == ')' || c == ']' || c == '}' {
            let rest = bracket_word(s, i + 1, in_single, in_double);
            assert((seq![c] + rest).drop_first() =~= rest);
            assert((seq![c] + rest)[0] == c);
            if stack.len() > 0 && stack.last() == opener_of(c) {
                lemma_scan_brackets(s, i + 1, stack.drop_last(), in_single, in_double);
            } else {
                assert(unexpected_msg(c).take(23) =~= unbalanced_prefix());
            }
        } else {
            lemma_scan_brackets(s, i + 1, stack, in_single, in_double);
        }
    }
}

/// `unbalanced_message` finds nothing exactly when the brackets outside
/// string literals form a well-nested word with matching types; whatever it
/// reports starts with `Unbalanced expression: `.
pub proof fn law_unbalanced_iff_not_nested(value: Seq<char>)
    ensures
        unbalanced_spec(value) is None <==> well_nested(bracket_word(value, 0, false, false)),
        unbalanced_spec(value) matches Some(m) ==> has_prefix(m, unbalanced_prefix()),
{
    lemma_scan_brackets(value, 0, seq![], false, false);
}

/// The attribute name rendered for messages: canonical `th:xxx` form when it
/// is in a Thymeleaf form, the verbatim name otherwise.
pub open spec fn canonical_display_spec(name: Seq<char>) -> Seq<char> {
    match normalize_spec(name) {
        Some(n) => n,
        None => name,
    }
}

/// Renders the attribute name in canonical `th:xxx` form for messages.
fn canonical_display(name: &str) -> (r: Vec<char>)
    ensures
        r@ == canonical_display_spec(name@),
{
    match normalize(name) {
        Some(n) => n,
        None => chars_of(name),
    }
}

/// `name` is in a Thymeleaf form but names no catalog attribute.
pub open spec fn is_unknown_attr(name: Seq<char>) -> bool {
    is_thymeleaf_name_spec(name) && lookup_spec(name) is None
}

/// The warning for an unknown attribute: on its name, naming it.
pub open spec fn unknown_warning(cs: Seq<char>, a: AttrView) -> DiagnosticView {
    DiagnosticView {
        range: range_at(cs, a.name_range.start as int, a.name_range.end as int),
        severity: Some(Severity::Warning),
        source: Some(SOURCE@),
        message: unknown_msg(a.name),
    }
}

/// How many of `attrs` are unknown Thymeleaf attributes.
pub open spec fn unknown_count(attrs: Seq<AttrView>) -> nat
    decreases attrs.len(),
{
    if attrs.len() == 0 {
        0
    } else {
        unknown_count(attrs.drop_last()) + if is_unknown_attr(attrs.last().name) {
            1nat
        } else {
            0nat
        }
    }
}

/// How many of `ds` are warnings.
pub open spec fn warning_count(ds: Seq<DiagnosticView>) -> nat
    decreases ds.len(),
{
    if ds.len() == 0 {
        0
    } else {
        warning_count(ds.drop_last()) + if ds.last().severity == Some(Severity::Warning) {
            1nat
        } else {
            0nat
        }
    }
}

/// Every unknown `th:*` / `data-th-*` attribute gets a warning on its name,
/// and there are exactly as many warnings as unknown attributes.
pub proof fn law_every_unknown_attribute_warned(cs: Seq<char>, attrs: Seq<AttrView>)
    ensures
        forall|k: int|
            0 <= k < attrs.len() && is_unknown_attr(#[trigger] attrs[k].name) ==> diagnostics_for(
                cs,
                attrs,
            ).contains(unknown_warning(cs, attrs[k])),
        warning_count(diagnostics_for(cs, attrs)) == unknown_count(attrs),
    decreases attrs.len(),
{
    if attrs.len() > 0 {
        let a1 = attrs.drop_last();
        law_every_unknown_attribute_warned(cs, a1);
        let prev = diagnostics_for(cs, a1);
        let cur = diagnostics_for(cs, attrs);
        let a = attrs.last();
        if cur != prev {
            assert(cur.drop_last() =~= prev);
        }
        assert forall|k: int|
            0 <= k < attrs.len() && is_unknown_attr(#[trigger] attrs[k].name) implies cur.contains(
                unknown_warning(cs, attrs[k]),
            ) by {
            if k < a1.len() {
                assert(a1[k] == attrs[k]);
                let m = choose|m: int| 0 <= m < prev.len() && prev[m] == unknown_warning(cs, a1[k]);
                if cur != prev {
                    assert(cur[m] == prev[m]);
                }
            } else {
                assert(attrs[k] == a);
                assert(cur[prev.len() as int] == unknown_warning(cs, a));
            }
        }
    }
}

} // verus!
