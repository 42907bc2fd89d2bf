use thymeleaf_ls::code_actions::levenshtein;
use thymeleaf_ls::diagnostics::unbalanced_message;
use thymeleaf_ls::vault::parse_fragment_name;
use thymeleaf_ls::fragmentref::{
    definition_name, definition_name_range, is_fragment_attr, is_reference_attr, reference_name,
    reference_name_range,
};
use thymeleaf_ls::thymeleaf::{all_attrs, expression_syntaxes, is_thymeleaf_name, lookup, normalize};

#[test]
fn lookup_canonical_th_form() {
    let attr = lookup("th:text").expect("th:text should be in the catalog");
    assert_eq!(attr.name, "th:text");
}

#[test]
fn lookup_normalizes_data_th_form() {
    let attr = lookup("data-th-text").expect("data-th-text should normalize to th:text");
    assert_eq!(attr.name, "th:text");
}

#[test]
fn lookup_is_case_insensitive() {
    let attr = lookup("TH:TEXT").expect("lookup should be case-insensitive");
    assert_eq!(attr.name, "th:text");
}

#[test]
fn lookup_unknown_returns_none() {
    assert!(lookup("th:bogus").is_none());
    assert!(lookup("class").is_none());
}

#[test]
fn catalog_is_non_empty_and_canonical() {
    assert!(!all_attrs().is_empty());
    assert!(all_attrs().iter().all(|a| a.name.starts_with("th:")));
}

#[test]
fn classifies_attributes() {
    assert!(is_fragment_attr("th:fragment"));
    assert!(is_fragment_attr("data-th-fragment"));
    assert!(is_reference_attr("th:replace"));
    assert!(is_reference_attr("TH:INSERT"));
    assert!(!is_reference_attr("th:text"));
    assert!(!is_fragment_attr("th:insert"));
}

#[test]
fn definition_name_drops_parameter_list() {
    assert_eq!(definition_name("header(title)"), Some("header"));
    assert_eq!(definition_name("footer"), Some("footer"));
    assert_eq!(definition_name("  spaced  "), Some("spaced"));
    assert_eq!(definition_name("   "), None);
}

#[test]
fn reference_name_handles_all_forms() {
    assert_eq!(reference_name("~{tpl :: frag}"), Some("frag"));
    assert_eq!(reference_name("template :: name"), Some("name"));
    assert_eq!(reference_name(":: name"), Some("name"));
    assert_eq!(reference_name("bare"), Some("bare"));
    assert_eq!(reference_name("~{fragments :: header('Home')}"), Some("header"));
}

#[test]
fn ranges_point_at_the_name_token() {
    let v = "~{tpl :: header}";
    let r = reference_name_range(v).unwrap();
    assert_eq!(&v[r], "header");

    let v = "header(title)";
    let r = definition_name_range(v).unwrap();
    assert_eq!(&v[r], "header");
}

#[test]
fn levenshtein_basic() {
    assert_eq!(levenshtein("th:txt", "th:text"), 1);
    assert_eq!(levenshtein("", "abc"), 3);
    assert_eq!(levenshtein("abc", "abc"), 0);
}

// --- Further cases ---------------------------------------------------------

#[test]
fn lookup_spellings_agree() {
    for a in all_attrs() {
        let rest = &a.name[3..];
        let data = format!("data-th-{}", rest);
        let upper = a.name.to_ascii_uppercase();
        assert_eq!(lookup(&data).map(|x| x.name), Some(a.name));
        assert_eq!(lookup(&upper).map(|x| x.name), Some(a.name));
        assert_eq!(lookup(a.name).map(|x| x.name), Some(a.name));
    }
    assert_eq!(lookup("  Data-Th-Each  ").map(|x| x.name), Some("th:each"));
}

#[test]
fn normalize_rewrites_data_prefix() {
    let n: String = normalize(" DATA-TH-Text ").unwrap().into_iter().collect();
    assert_eq!(n, "th:text");
    assert!(normalize("class").is_none());
    assert!(is_thymeleaf_name("data-th-whatever"));
    assert!(!is_thymeleaf_name("href"));
}

#[test]
fn expression_reference_has_braces_first() {
    let syn = expression_syntaxes();
    assert_eq!(syn.len(), 17);
    assert_eq!(syn[0].0, "${...}");
    assert_eq!(syn[5].0, "#dates");
}

#[test]
fn levenshtein_is_symmetric_and_zero_only_on_equal() {
    let words = ["", "a", "th:if", "th:each", "kitten", "sitting", "naïve", "naive"];
    for a in words.iter() {
        for b in words.iter() {
            let d1 = levenshtein(a, b);
            assert_eq!(d1, levenshtein(b, a));
            assert_eq!(d1 == 0, a == b);
        }
    }
    assert_eq!(levenshtein("kitten", "sitting"), 3);
    assert_eq!(levenshtein("naïve", "naive"), 1);
}

#[test]
fn definition_tokens_are_trimmed_and_argument_free() {
    let v = "\t main (a, b) ";
    let r = definition_name_range(v).unwrap();
    assert_eq!(&v[r], "main");
    let v = " ( x )";
    assert_eq!(definition_name_range(v), None);
    let v = "~{ a :: b (c) }";
    let r = reference_name_range(v).unwrap();
    assert_eq!(&v[r], "b");
    assert_eq!(reference_name("~{ tpl :: }"), None);
    assert_eq!(reference_name("a::b::c"), Some("c"));
}

#[test]
fn catalog_names_are_distinct_and_documented() {
    let attrs = all_attrs();
    assert_eq!(attrs.len(), 42);
    for (i, a) in attrs.iter().enumerate() {
        assert_eq!(a.name, a.name.trim().to_ascii_lowercase());
        assert!(!a.summary.is_empty() && !a.doc.is_empty());
        for b in attrs.iter().skip(i + 1) {
            assert_ne!(a.name, b.name);
        }
    }
    let syn = expression_syntaxes();
    for (i, (t, md)) in syn.iter().enumerate() {
        assert!(!md.is_empty());
        assert_eq!(t.ends_with("{...}"), md.starts_with("**"));
        assert!(t.ends_with("{...}") || t.starts_with('#'));
        for (u, _) in syn.iter().skip(i + 1) {
            assert_ne!(t, u);
        }
    }
}

#[test]
fn lookup_accepts_padding_and_upper_case() {
    assert_eq!(lookup("  TH:FRAGMENT\t").map(|a| a.name), Some("th:fragment"));
    assert_eq!(lookup(" data-th-Inline ").map(|a| a.name), Some("th:inline"));
}

#[test]
fn wrapping_shifts_the_reference_token() {
    assert_eq!(reference_name_range("tpl :: name"), Some(7..11));
    assert_eq!(reference_name_range("~{tpl :: name}"), Some(9..13));
    assert_eq!(reference_name_range("~{:: name}"), Some(5..9));
    assert_eq!(reference_name_range("   "), None);
    assert_eq!(reference_name_range("a :: b :: c"), Some(10..11));
}

#[test]
fn definition_forms_name_the_same_fragment() {
    assert_eq!(definition_name_range("hdr"), Some(0..3));
    assert_eq!(definition_name_range("hdr(a, b)"), Some(0..3));
    assert_eq!(definition_name_range("  hdr (a)"), Some(2..5));
    assert_eq!(reference_name("tpl :: hdr(a)"), Some("hdr"));
    assert_eq!(reference_name("~{tpl :: hdr(a)}"), Some("hdr"));
}

#[test]
fn fragment_name_parsers_agree_without_unicode_spaces() {
    for v in ["header(title)", "  footer ", "   ", "x (y)", "(a)", " h\u{e9}ader (\u{2603})", "\u{1F600}"] {
        assert_eq!(parse_fragment_name(v), definition_name(v).unwrap_or(""));
    }
}

#[test]
fn balance_check_follows_bracket_nesting() {
    assert_eq!(unbalanced_message("${a[(b)]}"), None);
    assert_eq!(unbalanced_message("${'(' + x}"), None);
    let m = unbalanced_message("${a(]}").unwrap();
    assert!(m.starts_with("Unbalanced expression: "));
    assert_eq!(m, "Unbalanced expression: unexpected ']'");
    assert_eq!(
        unbalanced_message("${a(b}").unwrap(),
        "Unbalanced expression: unexpected '}'"
    );
    assert_eq!(unbalanced_message("(["), Some("Unbalanced expression: missing ')'".to_string()));
}

#[test]
fn levenshtein_triangle_and_length_gap() {
    let words = ["", "a", "th:text", "th:txt", "th:utext", "kitten", "sitting", "naïve"];
    for a in words {
        for b in words {
            let d = levenshtein(a, b);
            let (la, lb) = (a.chars().count(), b.chars().count());
            assert!(d >= la.max(lb) - la.min(lb));
            for c in words {
                assert!(levenshtein(a, c) <= d + levenshtein(b, c));
            }
        }
    }
}
