use std::path::PathBuf;

use thymeleaf_ls::code_actions::{code_actions, CodeAction};
use thymeleaf_ls::completion::completion;
use thymeleaf_ls::diagnostics::{diagnostics, unbalanced_message, Severity};
use thymeleaf_ls::document::{Document, LspRange, Position};
use thymeleaf_ls::fragmentref::{definition_name_range, reference_name_range};
use thymeleaf_ls::hover::hover;
use thymeleaf_ls::navigation::{goto, references};
use thymeleaf_ls::rename::{definition_name_span, prepare_rename, reference_name_span, rename};
use thymeleaf_ls::server::{choose_root_uri, is_html_extension, parse_log_level};
use thymeleaf_ls::symbols::{workspace_symbols, SymbolKind};
use thymeleaf_ls::vault::Vault;

fn new_doc(s: &str) -> Document {
    Document::new(s.to_string())
}

fn test_uri() -> String {
    "file:///test.html".to_string()
}

/// A range covering the whole document, so every attribute overlaps.
fn whole(d: &Document) -> LspRange {
    LspRange { start: d.position_at(0), end: d.position_at(d.text().len()) }
}

fn titles(actions: &[CodeAction]) -> Vec<String> {
    actions.iter().map(|a| a.title.clone()).collect()
}

fn single_vault(src: &str) -> (Vault, String) {
    let uri = test_uri();
    let mut vault = Vault::new(None);
    vault.upsert(uri.clone(), src.to_string());
    (vault, uri)
}

/// Position at a byte offset on the (single) first line.
fn line0(offset: usize) -> Position {
    Position { line: 0, character: offset as u32 }
}

fn vault_with(entries: &[(&str, &str)]) -> (Vault, Vec<String>) {
    let mut vault = Vault::new(None);
    let mut uris = Vec::new();
    for (path, text) in entries {
        vault.upsert(path.to_string(), text.to_string());
        uris.push(path.to_string());
    }
    (vault, uris)
}

/// Position of the middle of the first occurrence of `needle`.
fn mid_pos(vault: &Vault, uri: &str, text: &str, needle: &str) -> Position {
    let start = text.find(needle).expect("needle present");
    let off = start + needle.len() / 2;
    vault.get(uri).unwrap().position_at(off)
}

fn url(path: &str) -> String {
    format!("file:///{path}")
}

/// Position just after the first occurrence of `marker`.
fn pos_after(doc: &Document, text: &str, marker: &str) -> Position {
    let offset = text.find(marker).expect("marker present") + marker.len();
    doc.position_at(offset)
}

/// Position inside the first occurrence of `marker`.
fn pos_inside(doc: &Document, text: &str, marker: &str) -> Position {
    let offset = text.find(marker).expect("marker present") + 1;
    doc.position_at(offset)
}

// --- code actions ------------------------------------------------------------

#[test]
fn unknown_attr_yields_suggestion_and_remove() {
    let d = new_doc("<p th:txt=\"hi\">Z</p>");
    let actions = code_actions(&d, &test_uri(), whole(&d));
    let ts = titles(&actions);
    assert!(ts.iter().any(|t| t == "Change to `th:text`"), "expected a suggestion to th:text, got {:?}", ts);
    assert!(ts.iter().any(|t| t == "Remove `th:txt`"), "expected a remove action, got {:?}", ts);
}

#[test]
fn suggestion_is_preferred_and_quickfix() {
    let d = new_doc("<p th:txt=\"hi\">Z</p>");
    let actions = code_actions(&d, &test_uri(), whole(&d));
    let change = actions.iter().find(|a| a.title == "Change to `th:text`").expect("change action present");
    assert_eq!(change.kind, "quickfix");
    assert_eq!(change.is_preferred, Some(true));
    assert_eq!(change.edit.new_text, "th:text");
}

#[test]
fn known_attr_yields_no_actions() {
    let d = new_doc("<p th:text=\"hi\">Z</p>");
    let actions = code_actions(&d, &test_uri(), whole(&d));
    assert!(actions.is_empty(), "unexpected actions: {:?}", titles(&actions));
}

#[test]
fn far_off_name_has_no_suggestion_but_still_removable() {
    let d = new_doc("<p th:completelywrong=\"x\">Z</p>");
    let actions = code_actions(&d, &test_uri(), whole(&d));
    let ts = titles(&actions);
    assert!(!ts.iter().any(|t| t.starts_with("Change to")));
    assert!(ts.iter().any(|t| t == "Remove `th:completelywrong`"));
}

#[test]
fn range_outside_attribute_yields_nothing() {
    let d = new_doc("<p th:txt=\"hi\">Z</p>");
    let z = d.text().find('Z').unwrap();
    let range = LspRange { start: d.position_at(z), end: d.position_at(z + 1) };
    let actions = code_actions(&d, &test_uri(), range);
    assert!(actions.is_empty(), "unexpected actions: {:?}", titles(&actions));
}

// --- completion --------------------------------------------------------------

#[test]
fn attr_name_context_returns_thymeleaf_attrs() {
    let src = "<div  ></div>";
    let (vault, uri) = single_vault(src);
    let off = src.find("  ").unwrap() + 1;
    let items = completion(&vault, &uri, line0(off));
    assert!(!items.is_empty());
    assert!(items.iter().any(|i| i.label == "th:text"));
    assert!(items.iter().any(|i| i.label == "th:if"));
    assert!(items.iter().all(|i| i.label.starts_with("th:")));
}

#[test]
fn attr_name_context_filters_by_partial() {
    let src = "<div th:title></div>";
    let (vault, uri) = single_vault(src);
    let off = src.find("th:title").unwrap() + 4;
    let items = completion(&vault, &uri, line0(off));
    assert!(!items.is_empty());
    assert!(items.iter().all(|i| i.label.starts_with("th:t")));
    assert!(items.iter().any(|i| i.label == "th:text"));
    assert!(items.iter().any(|i| i.label == "th:title"));
    assert!(!items.iter().any(|i| i.label == "th:if"));
}

#[test]
fn text_context_returns_no_completions() {
    let src = "<p>Z</p>";
    let (vault, uri) = single_vault(src);
    let off = src.find('Z').unwrap();
    assert!(completion(&vault, &uri, line0(off)).is_empty());
}

// --- diagnostics -------------------------------------------------------------

#[test]
fn valid_thymeleaf_attr_is_not_flagged() {
    let d = new_doc("<p th:text=\"${user.name}\">x</p>");
    let diags = diagnostics(&d);
    assert!(diags.is_empty(), "unexpected diagnostics: {:?}", diags);
}

#[test]
fn unknown_thymeleaf_attr_is_flagged() {
    let d = new_doc("<p th:bogus=\"x\">y</p>");
    let diags = diagnostics(&d);
    assert_eq!(diags.len(), 1);
    assert_eq!(diags[0].severity, Some(Severity::Warning));
    assert!(diags[0].message.contains("th:bogus"));
}

#[test]
fn plain_html_attrs_are_ignored() {
    let d = new_doc("<div class=\"box\" id=\"main\">x</div>");
    assert!(diagnostics(&d).is_empty());
}

#[test]
fn unbalanced_expression_is_flagged() {
    let d = new_doc("<p th:text=\"${a\">x</p>");
    let diags = diagnostics(&d);
    assert_eq!(diags.len(), 1);
    assert_eq!(diags[0].severity, Some(Severity::Error));
}

// --- navigation --------------------------------------------------------------

#[test]
fn references_finds_reference_only_documents() {
    let def_uri = "file:///fragments.html".to_string();
    let ref_uri = "file:///page.html".to_string();
    let mut vault = Vault::new(None);
    vault.upsert(def_uri.clone(), "<div th:fragment=\"header\">h</div>".to_string());
    vault.upsert(ref_uri.clone(), "<div th:replace=\"~{fragments :: header}\"></div>".to_string());
    let doc = vault.get(&def_uri).unwrap();
    let off = "<div th:fragment=\"".len() + 1;
    let pos = doc.position_at(off);
    let locs = references(&vault, &def_uri, pos);
    assert!(locs.iter().any(|l| l.uri == ref_uri), "expected reference in page.html, got {:?}", locs);
}

// --- rename ------------------------------------------------------------------

#[test]
fn definition_name_span_drops_args() {
    assert_eq!(definition_name_span("header(title)"), Some(0..6));
    assert_eq!(definition_name_span("  footer "), Some(2..8));
    assert_eq!(definition_name_span("   "), None);
}

#[test]
fn reference_name_span_wrapped() {
    let v = "~{tpl :: header}";
    assert_eq!(&v[reference_name_span(v).unwrap()], "header");
}

#[test]
fn reference_name_span_various_forms() {
    let v = "template :: name";
    assert_eq!(&v[reference_name_span(v).unwrap()], "name");
    let v = ":: name";
    assert_eq!(&v[reference_name_span(v).unwrap()], "name");
    let v = "~{fragments :: header('Home')}";
    assert_eq!(&v[reference_name_span(v).unwrap()], "header");
    let v = "bare";
    assert_eq!(&v[reference_name_span(v).unwrap()], "bare");
}

#[test]
fn rename_spans_follow_fragment_parsing() {
    // A no-break space is not ASCII whitespace, so it stays part of the name.
    let v = "\u{a0}x";
    assert_eq!(reference_name_span(v), Some(0..3));
    assert_eq!(reference_name_span(v), reference_name_range(v));
    assert_eq!(definition_name_span(v), Some(0..3));
    assert_eq!(definition_name_span(v), definition_name_range(v));
    let w = "~{tpl :: \u{a0}name(a)}";
    assert_eq!(reference_name_span(w), reference_name_range(w));
}

#[test]
fn prepare_rename_on_definition() {
    let text = "<div th:fragment=\"header(title)\">h</div>";
    let (vault, uris) = vault_with(&[("file:///a.html", text)]);
    let pos = mid_pos(&vault, &uris[0], text, "header");
    let range = prepare_rename(&vault, &uris[0], pos).expect("some on definition");
    let doc = vault.get(&uris[0]).unwrap();
    let start = doc.offset_at(range.start);
    let end = doc.offset_at(range.end);
    assert_eq!(&text[start..end], "header");
}

#[test]
fn prepare_rename_on_reference() {
    let text = "<div th:replace=\"~{tpl :: header}\"></div>";
    let (vault, uris) = vault_with(&[("file:///a.html", text)]);
    let pos = mid_pos(&vault, &uris[0], text, "header");
    let range = prepare_rename(&vault, &uris[0], pos).expect("some on reference");
    let doc = vault.get(&uris[0]).unwrap();
    let start = doc.offset_at(range.start);
    let end = doc.offset_at(range.end);
    assert_eq!(&text[start..end], "header");
}

#[test]
fn prepare_rename_none_on_plain_text() {
    let text = "<div>hello header world</div>";
    let (vault, uris) = vault_with(&[("file:///a.html", text)]);
    let pos = mid_pos(&vault, &uris[0], text, "header");
    assert!(prepare_rename(&vault, &uris[0], pos).is_none());
}

#[test]
fn rename_across_two_docs() {
    let def_text = "<div th:fragment=\"header(title)\">h</div>";
    let ref_text = "<div th:replace=\"~{tpl :: header}\"></div>";
    let (vault, uris) = vault_with(&[("file:///frag.html", def_text), ("file:///page.html", ref_text)]);
    let def_uri = &uris[0];
    let ref_uri = &uris[1];

    let pos = mid_pos(&vault, def_uri, def_text, "header");
    let ws = rename(&vault, def_uri, pos, "banner").expect("some workspace edit");
    let changes = ws.changes;
    assert!(!changes.is_empty(), "changes present");

    let def_edits = &changes.iter().find(|c| &c.uri == def_uri).expect("edit in def doc").edits;
    assert_eq!(def_edits.len(), 1);
    assert_eq!(def_edits[0].new_text, "banner");
    let dd = vault.get(def_uri).unwrap();
    let s = dd.offset_at(def_edits[0].range.start);
    let e = dd.offset_at(def_edits[0].range.end);
    assert_eq!(&def_text[s..e], "header");

    let ref_edits = &changes.iter().find(|c| &c.uri == ref_uri).expect("edit in ref doc").edits;
    assert_eq!(ref_edits.len(), 1);
    assert_eq!(ref_edits[0].new_text, "banner");
    let rd = vault.get(ref_uri).unwrap();
    let s = rd.offset_at(ref_edits[0].range.start);
    let e = rd.offset_at(ref_edits[0].range.end);
    assert_eq!(&ref_text[s..e], "header");
}

#[test]
fn rename_none_when_no_fragment_under_cursor() {
    let text = "<div>plain</div>";
    let (vault, uris) = vault_with(&[("file:///a.html", text)]);
    let pos = mid_pos(&vault, &uris[0], text, "plain");
    assert!(rename(&vault, &uris[0], pos, "x").is_none());
}

// --- symbols -----------------------------------------------------------------

#[test]
fn workspace_symbols_filters_by_query() {
    let mut vault = Vault::new(Some(PathBuf::from("/ws")));
    vault.upsert("file:///a.html".to_string(), r#"<div th:fragment="header">h</div>"#.to_string());
    vault.upsert("file:///b.html".to_string(), r#"<div th:fragment="footer">f</div>"#.to_string());
    assert_eq!(workspace_symbols(&vault, "").len(), 2);
    let hits = workspace_symbols(&vault, "HEAD");
    assert_eq!(hits.len(), 1);
    assert_eq!(hits[0].name, "header");
    assert_eq!(hits[0].kind, SymbolKind::Function);
    assert!(workspace_symbols(&vault, "nope").is_empty());
}

// --- end to end through a populated vault ------------------------------------

#[test]
fn completion_offers_thymeleaf_attrs_in_attr_name_context() {
    let src = "<p th:t></p>";
    let uri = url("c.html");
    let mut vault = Vault::new(None);
    vault.upsert(uri.clone(), src.to_string());
    let pos = pos_after(vault.get(&uri).unwrap(), src, "th:t");
    let items = completion(&vault, &uri, pos);
    assert!(!items.is_empty(), "expected completions in attr-name context");
    assert!(items.iter().all(|i| i.label.starts_with("th:")));
    assert!(items.iter().any(|i| i.label == "th:text"));
    assert!(items.iter().all(|i| i.documentation.is_some()));
}

#[test]
fn completion_empty_in_plain_text() {
    let src = "<p>hello</p>";
    let uri = url("t.html");
    let mut vault = Vault::new(None);
    vault.upsert(uri.clone(), src.to_string());
    let pos = pos_inside(vault.get(&uri).unwrap(), src, "hello");
    assert!(completion(&vault, &uri, pos).is_empty());
}

#[test]
fn hover_returns_docs_on_known_attribute() {
    let src = "<p th:text=\"x\">hi</p>";
    let uri = url("h.html");
    let mut vault = Vault::new(None);
    vault.upsert(uri.clone(), src.to_string());
    let pos = pos_inside(vault.get(&uri).unwrap(), src, "th:text");
    let h = hover(&vault, &uri, pos).expect("hover on known attr");
    assert!(!h.value.is_empty());
}

#[test]
fn diagnostics_flag_unknown_attr_only() {
    let uri = url("d.html");
    let mut vault = Vault::new(None);
    vault.upsert(uri.clone(), "<p th:bogus=\"x\">hi</p>".to_string());
    let diags = diagnostics(vault.get(&uri).unwrap());
    assert_eq!(diags.len(), 1, "unknown th:* should produce one diagnostic");
    assert_eq!(diags[0].severity, Some(Severity::Warning));
    assert!(diags[0].message.contains("th:bogus"));
    vault.upsert(uri.clone(), "<p th:text=\"x\">hi</p>".to_string());
    assert!(diagnostics(vault.get(&uri).unwrap()).is_empty(), "valid th:text must not be flagged");
}

#[test]
fn navigation_goto_and_references_span_files() {
    let frag_uri = url("fragments.html");
    let page_uri = url("page.html");
    let frag_src = "<div th:fragment=\"header\">Site header</div>";
    let page_src = "<div th:replace=\"~{fragments :: header}\">placeholder</div>";
    let mut vault = Vault::new(None);
    vault.upsert(frag_uri.clone(), frag_src.to_string());
    vault.upsert(page_uri.clone(), page_src.to_string());

    let goto_pos = pos_inside(vault.get(&page_uri).unwrap(), page_src, "header}");
    let defs = goto(&vault, &page_uri, goto_pos).expect("goto resolves");
    assert!(defs.iter().any(|l| l.uri == frag_uri), "definition in fragments.html");

    let ref_pos = pos_inside(vault.get(&frag_uri).unwrap(), frag_src, "header\"");
    let refs = references(&vault, &frag_uri, ref_pos);
    assert!(refs.iter().any(|l| l.uri == page_uri), "usage site found across files");
}

// --- further cases -----------------------------------------------------------

#[test]
fn vault_reads_back_what_was_written() {
    let mut vault = Vault::new(None);
    vault.upsert("a".to_string(), "<p>one</p>".to_string());
    vault.upsert("b".to_string(), "<p>two</p>".to_string());
    vault.upsert("a".to_string(), "<p>three</p>".to_string());
    assert_eq!(vault.get("a").unwrap().text(), "<p>three</p>");
    assert_eq!(vault.get("b").unwrap().text(), "<p>two</p>");
    assert_eq!(vault.uris().len(), 2);
    vault.remove("a");
    assert!(vault.get("a").is_none());
    assert_eq!(vault.get("b").unwrap().text(), "<p>two</p>");
    // A change to an unknown document is refused.
    assert!(!vault.apply_change("zzz", None, None, "x"));
    let p = Position { line: 0, character: 3 };
    let q = Position { line: 0, character: 6 };
    assert!(vault.apply_change("b", Some(p), Some(q), "2"));
    assert_eq!(vault.get("b").unwrap().text(), "<p>2</p>");
    assert!(vault.root().is_none());
}

#[test]
fn hover_explains_expressions_and_utilities() {
    let src = "<p th:text=\"${#dates.format(d)} + *{x}\" class=\"${y}\">hi</p>";
    let (vault, uri) = single_vault(src);
    let doc = vault.get(&uri).unwrap();
    // On the utility object: its own description wins over the enclosing `${...}`.
    let h = hover(&vault, &uri, doc.position_at(src.find("dates").unwrap())).expect("utility help");
    assert!(h.value.starts_with("Utility object for `java.util.Date`"));
    let r = h.range.unwrap();
    assert_eq!(&src[doc.offset_at(r.start)..doc.offset_at(r.end)], "#dates");
    // On the selection expression.
    let h = hover(&vault, &uri, doc.position_at(src.find("*{").unwrap() + 1)).expect("selection help");
    assert!(h.value.starts_with("**Selection expression**"));
    let r = h.range.unwrap();
    assert_eq!(&src[doc.offset_at(r.start)..doc.offset_at(r.end)], "*{x}");
    // Not a Thymeleaf attribute: no help.
    assert!(hover(&vault, &uri, doc.position_at(src.find("${y}").unwrap() + 1)).is_none());
    // The name hover carries the markdown heading.
    let h = hover(&vault, &uri, doc.position_at(4)).unwrap();
    assert!(h.value.starts_with("## `th:text`\n\n"));
    // Unknown documents have no hover.
    assert!(hover(&vault, "file:///none.html", doc.position_at(4)).is_none());
}

#[test]
fn code_actions_edit_exactly_the_name() {
    let src = "<p data-th-iff=\"x\">Z</p>";
    let d = new_doc(src);
    let actions = code_actions(&d, &test_uri(), whole(&d));
    let change = actions.iter().find(|a| a.title.starts_with("Change to")).expect("suggestion");
    assert_eq!(change.title, "Change to `th:if`");
    let s = d.offset_at(change.edit.range.start);
    let e = d.offset_at(change.edit.range.end);
    assert_eq!(&src[s..e], "data-th-iff");
    let remove = actions.iter().find(|a| a.title.starts_with("Remove")).expect("removal");
    assert_eq!(remove.edit.new_text, "");
    assert_eq!(remove.uri, test_uri());
}

#[test]
fn unbalanced_messages_name_the_bracket() {
    assert_eq!(unbalanced_message("${a"), Some("Unbalanced expression: missing '}'".to_string()));
    assert_eq!(unbalanced_message("([x)"), Some("Unbalanced expression: unexpected ')'".to_string()));
    assert_eq!(unbalanced_message("[(x"), Some("Unbalanced expression: missing ']'".to_string()));
    assert!(unbalanced_message("${a}").is_none());
    assert!(unbalanced_message("'(' + ${a}").is_none());
    assert!(unbalanced_message("\"a\\\"(\" + ${b}").is_none());
}

#[test]
fn server_settings() {
    let args: Vec<String> = ["bin", "--level", "DEBUG"].iter().map(|s| s.to_string()).collect();
    assert_eq!(parse_log_level(&args), "DEBUG");
    let args: Vec<String> = ["bin", "--level=warn"].iter().map(|s| s.to_string()).collect();
    assert_eq!(parse_log_level(&args), "warn");
    let args: Vec<String> = ["bin", "--level"].iter().map(|s| s.to_string()).collect();
    assert_eq!(parse_log_level(&args), "INFO");
    let args: Vec<String> = ["--level=x"].iter().map(|s| s.to_string()).collect();
    assert_eq!(parse_log_level(&args), "INFO");
    let folders = vec!["file:///a".to_string(), "file:///b".to_string()];
    assert_eq!(choose_root_uri(&folders, Some("file:///r".to_string())), Some("file:///a".to_string()));
    assert_eq!(choose_root_uri(&Vec::new(), Some("file:///r".to_string())), Some("file:///r".to_string()));
    assert_eq!(choose_root_uri(&Vec::new(), None), None);
    assert!(is_html_extension("HTML"));
    assert!(!is_html_extension("htm"));
}

#[test]
fn references_list_definitions_first() {
    let (vault, uris) = vault_with(&[
        ("file:///p.html", "<div th:insert=\"lib :: card(1)\"></div>"),
        ("file:///lib.html", "<div th:fragment=\"card(n)\">c</div><span th:replace=\"card\"></span>"),
    ]);
    let doc = vault.get(&uris[0]).unwrap();
    let pos = doc.position_at("<div th:insert=\"lib :: c".len());
    let locs = references(&vault, &uris[0], pos);
    assert_eq!(locs.len(), 3);
    assert_eq!(locs[0].uri, uris[1]);
    assert_eq!(locs[1].uri, uris[0]);
    assert_eq!(locs[2].uri, uris[1]);
    // goto from outside any reference value finds nothing.
    assert!(goto(&vault, &uris[0], doc.position_at(0)).is_none());
    assert!(goto(&vault, "file:///missing.html", doc.position_at(0)).is_none());
}
