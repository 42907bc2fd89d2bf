use thymeleaf_ls::document::{fits, CursorContext, Document, LspRange, Position};
use thymeleaf_ls::folding::{folding_ranges, FoldingRangeKind};
use thymeleaf_ls::fragmentref::{definition_name_range, reference_name_range};
use thymeleaf_ls::highlight::{document_highlight, HighlightKind};
use thymeleaf_ls::links::{build_link, document_links};
use thymeleaf_ls::semantic_tokens::{
    legend, semantic_tokens_full, TYPE_MACRO, TYPE_PROPERTY, TYPE_STRING, TYPE_VARIABLE,
};
use thymeleaf_ls::symbols::{document_symbols, SymbolKind};
use thymeleaf_ls::syntax::NodeKind;

fn parse(s: &str) -> Document {
    Document::new(s.to_string())
}

/// Byte offset of the middle of the first occurrence of `needle`.
fn mid(text: &str, needle: &str) -> usize {
    let start = text.find(needle).expect("needle present");
    start + needle.len() / 2
}

#[test]
fn context_at_attr_name() {
    let src = "<p th:text=\"hi\">Z</p>";
    let d = parse(src);
    match d.context_at(mid(src, "th:text")) {
        CursorContext::AttrName { tag, .. } => assert_eq!(tag, "p"),
        other => panic!("expected AttrName, got {:?}", other),
    }
}

#[test]
fn context_at_attr_value() {
    let src = "<p th:text=\"hi\">Z</p>";
    let d = parse(src);
    match d.context_at(mid(src, "hi")) {
        CursorContext::AttrValue { tag, attr, value } => {
            assert_eq!(tag, "p");
            assert_eq!(attr, "th:text");
            assert_eq!(value, "hi");
        }
        other => panic!("expected AttrValue, got {:?}", other),
    }
}

#[test]
fn context_at_text() {
    let src = "<p th:text=\"hi\">Z</p>";
    let d = parse(src);
    let off = src.find('Z').unwrap();
    assert_eq!(d.context_at(off), CursorContext::Text);
}

#[test]
fn context_at_empty_tag_is_attr_name_site() {
    let src = "<div  ></div>";
    let d = parse(src);
    let off = src.find("  ").unwrap() + 1;
    match d.context_at(off) {
        CursorContext::AttrName { tag, partial } => {
            assert_eq!(tag, "div");
            assert!(partial.is_empty());
        }
        other => panic!("expected AttrName, got {:?}", other),
    }
}

#[test]
fn offset_position_roundtrip() {
    let src = "<p>\n  <span>hi</span>\n</p>";
    let d = parse(src);
    let pos = Position { line: 1, character: 3 };
    let off = d.offset_at(pos);
    assert_eq!(d.position_at(off), pos);
}

#[test]
fn offset_at_uses_utf16_code_units() {
    let src = "<p title=\"café\" th:text=\"x\">y</p>";
    let d = parse(src);
    let byte_idx = src.find("th:text").unwrap();
    let utf16_char = src[..byte_idx].chars().map(|c| c.len_utf16()).sum::<usize>() as u32;
    let off = d.offset_at(Position { line: 0, character: utf16_char });
    assert_eq!(off, byte_idx, "offset_at should map UTF-16 units to byte offset");
    assert_eq!(d.position_at(byte_idx), Position { line: 0, character: utf16_char });
}

#[test]
fn attributes_collects_name_and_value() {
    let src = "<p th:text=\"${a}\">x</p>";
    let d = parse(src);
    let attrs = d.attributes();
    assert_eq!(attrs.len(), 1);
    assert_eq!(attrs[0].name, "th:text");
    assert_eq!(attrs[0].value, "${a}");
}

#[test]
fn multiline_element_produces_a_fold() {
    let src = "<div>\n  <span>hi</span>\n</div>";
    let d = parse(src);
    let ranges = folding_ranges(&d);
    let div_fold = ranges
        .iter()
        .find(|r| r.start_line == 0)
        .expect("expected a fold starting at the <div>");
    assert_eq!(div_fold.kind, FoldingRangeKind::Region);
    assert!(div_fold.end_line > div_fold.start_line, "fold should span multiple lines, got {:?}", div_fold);
    assert_eq!(div_fold.end_line, 1);
}

#[test]
fn single_line_element_produces_no_fold() {
    let src = "<div><span>hi</span></div>";
    let d = parse(src);
    let ranges = folding_ranges(&d);
    assert!(ranges.is_empty(), "single-line elements should not fold, got {:?}", ranges);
}

#[test]
fn multiline_comment_is_tagged_comment() {
    let src = "<!--\n  a comment\n-->";
    let d = parse(src);
    let ranges = folding_ranges(&d);
    let comment_fold = ranges
        .iter()
        .find(|r| r.kind == FoldingRangeKind::Comment)
        .expect("expected a comment fold");
    assert!(comment_fold.end_line > comment_fold.start_line);
}

#[test]
fn ranges_are_deduplicated() {
    let src = "<div>\n  <span>hi</span>\n</div>";
    let d = parse(src);
    let ranges = folding_ranges(&d);
    for i in 0..ranges.len() {
        for j in (i + 1)..ranges.len() {
            assert!(ranges[i] != ranges[j], "found duplicate ranges: {:?}", ranges[i]);
        }
    }
}

#[test]
fn fragment_name_highlights_definition_and_reference() {
    let src = "<div th:fragment=\"header\">h</div>\n<div th:replace=\"~{self :: header}\"></div>";
    let d = parse(src);
    let idx = src.find("header").unwrap();
    let pos = d.position_at(idx + 2);
    let hls = document_highlight(&d, pos);
    assert_eq!(hls.len(), 2, "expected one def + one ref, got {:?}", hls);
    let writes = hls.iter().filter(|h| h.kind == Some(HighlightKind::Write)).count();
    let reads = hls.iter().filter(|h| h.kind == Some(HighlightKind::Read)).count();
    assert_eq!(writes, 1, "expected one WRITE (definition)");
    assert_eq!(reads, 1, "expected one READ (reference)");
}

#[test]
fn fragment_reference_cursor_also_highlights_both() {
    let src = "<div th:fragment=\"header\">h</div>\n<div th:replace=\"~{self :: header}\"></div>";
    let d = parse(src);
    let ref_idx = src.rfind("header").unwrap();
    let pos = d.position_at(ref_idx + 2);
    let hls = document_highlight(&d, pos);
    assert_eq!(hls.len(), 2, "expected def + ref from a reference cursor");
}

#[test]
fn attribute_name_highlights_repeated_occurrences() {
    let src = "<p th:text=\"a\">x</p>\n<span th:text=\"b\">y</span>";
    let d = parse(src);
    let idx = src.find("th:text").unwrap();
    let pos = d.position_at(idx + 2);
    let hls = document_highlight(&d, pos);
    assert_eq!(hls.len(), 2, "expected both th:text names highlighted");
    assert!(hls.iter().all(|h| h.kind == Some(HighlightKind::Text)));
}

#[test]
fn cursor_elsewhere_returns_empty() {
    let src = "<p th:text=\"a\">zz</p>";
    let d = parse(src);
    let idx = src.find("zz").unwrap();
    let pos = d.position_at(idx);
    assert!(document_highlight(&d, pos).is_empty());
}

#[test]
fn definition_name_range_drops_params() {
    assert_eq!(definition_name_range("header(title)"), Some(0..6));
    assert_eq!(definition_name_range("  footer "), Some(2..8));
}

#[test]
fn reference_name_range_handles_forms() {
    let v = "~{fragments :: header('Home')}";
    let r = reference_name_range(v).unwrap();
    assert_eq!(&v[r], "header");
    let v = "template :: name";
    let r = reference_name_range(v).unwrap();
    assert_eq!(&v[r], "name");
    let v = ":: name";
    let r = reference_name_range(v).unwrap();
    assert_eq!(&v[r], "name");
}

#[test]
fn thymeleaf_absolute_url_gets_http_target() {
    let src = "<a th:href=\"@{https://example.com/x}\">L</a>";
    let d = parse(src);
    let links = document_links(&d);
    assert_eq!(links.len(), 1);
    let link = &links[0];
    assert_eq!(link.target.as_deref(), Some("https://example.com/x"));
    let start = d.offset_at(link.range.start);
    let end = d.offset_at(link.range.end);
    assert_eq!(&src[start..end], "https://example.com/x");
}

#[test]
fn thymeleaf_site_absolute_path_gets_untargeted_link() {
    let src = "<a th:href=\"@{/local/path}\">L</a>";
    let d = parse(src);
    let links = document_links(&d);
    assert_eq!(links.len(), 1);
    let link = &links[0];
    assert!(link.target.is_none());
    assert!(link.tooltip.is_some());
    let start = d.offset_at(link.range.start);
    let end = d.offset_at(link.range.end);
    assert_eq!(&src[start..end], "/local/path");
}

#[test]
fn thymeleaf_link_drops_param_suffix() {
    let src = "<a th:href=\"@{/o/{id}(id=3)}\">L</a>";
    let d = parse(src);
    let links = document_links(&d);
    assert_eq!(links.len(), 1);
    let link = &links[0];
    let start = d.offset_at(link.range.start);
    let end = d.offset_at(link.range.end);
    assert_eq!(&src[start..end], "/o/{id}");
}

#[test]
fn plain_href_http_url_gets_target() {
    let src = "<a href=\"https://example.com/y\">L</a>";
    let d = parse(src);
    let links = document_links(&d);
    assert_eq!(links.len(), 1);
    assert_eq!(links[0].target.as_deref(), Some("https://example.com/y"));
}

#[test]
fn no_link_expression_yields_none() {
    let src = "<a th:text=\"hi\">Z</a>";
    let d = parse(src);
    assert!(document_links(&d).is_empty());
}

#[test]
fn legend_has_four_types_and_no_modifiers() {
    let l = legend();
    assert_eq!(l.token_types.len(), 4);
    assert!(l.token_modifiers.is_empty());
    assert_eq!(l.token_types[TYPE_PROPERTY as usize], "property");
    assert_eq!(l.token_types[TYPE_MACRO as usize], "macro");
    assert_eq!(l.token_types[TYPE_STRING as usize], "string");
    assert_eq!(l.token_types[TYPE_VARIABLE as usize], "variable");
}

#[test]
fn emits_property_and_macro_tokens() {
    let d = parse("<p th:text=\"${name}\">x</p>");
    let toks = semantic_tokens_full(&d);
    assert!(toks.data.len() >= 2, "expected >= 2 tokens");
    let types: Vec<u32> = toks.data.iter().map(|t| t.token_type).collect();
    assert!(types.contains(&TYPE_PROPERTY));
    assert!(types.contains(&TYPE_MACRO));
}

#[test]
fn tokens_are_delta_encoded_with_non_negative_deltas() {
    let d = parse("<p th:text=\"${name}\">x</p>");
    let toks = semantic_tokens_full(&d);
    assert_eq!(toks.data[0].delta_line, 0);
}

#[test]
fn ignores_unrecognized_attributes() {
    let d = parse("<p class=\"${name}\">x</p>");
    let toks = semantic_tokens_full(&d);
    assert!(toks.data.is_empty(), "non-th attributes produce no tokens");
}

#[test]
fn covers_all_expression_markers() {
    let d = parse(
        "<a th:href=\"@{/u}\" th:text=\"${a}\" th:with=\"x=*{b}\" th:alt=\"#{c}\" th:insert=\"~{d}\">z</a>",
    );
    let toks = semantic_tokens_full(&d);
    let macros = toks.data.iter().filter(|t| t.token_type == TYPE_MACRO).count();
    assert_eq!(macros, 5, "one MACRO token per expression marker");
}

#[test]
fn data_th_form_is_recognized() {
    let d = parse("<p data-th-text=\"${name}\">x</p>");
    let toks = semantic_tokens_full(&d);
    let types: Vec<u32> = toks.data.iter().map(|t| t.token_type).collect();
    assert!(types.contains(&TYPE_PROPERTY));
    assert!(types.contains(&TYPE_MACRO));
}

#[test]
fn document_symbols_finds_fragment_and_id() {
    let src = r#"<div th:fragment="header(title)"><span id="logo">x</span></div>"#;
    let d = parse(src);
    let syms = document_symbols(&d, "file:///test.html");
    let frag = syms.iter().find(|s| s.kind == SymbolKind::Function).expect("fragment symbol present");
    assert_eq!(frag.name, "header");
    assert_eq!(frag.detail.as_deref(), Some("th:fragment"));
    let id = syms.iter().find(|s| s.kind == SymbolKind::Field).expect("id symbol present");
    assert_eq!(id.name, "#logo");
    assert_eq!(syms.len(), 2);
}

#[test]
fn document_symbols_sorted_by_position() {
    let src = r#"<a id="first">1</a><b id="second">2</b>"#;
    let d = parse(src);
    let syms = document_symbols(&d, "file:///test.html");
    assert_eq!(syms.len(), 2);
    assert_eq!(syms[0].name, "#first");
    assert_eq!(syms[1].name, "#second");
    let a = &syms[0].range.start;
    let b = &syms[1].range.start;
    assert!((a.line, a.character) <= (b.line, b.character));
}

// --- Further cases ---------------------------------------------------------

#[test]
fn roundtrip_holds_at_every_character_boundary() {
    let src = "<p title=\"héllo 𝄞\">\n\t<b th:text=\"¿qué?\">ü</b>\r\n</p>\n";
    let d = parse(src);
    for (b, _) in src.char_indices().chain(std::iter::once((src.len(), ' '))) {
        let p = d.position_at(b);
        assert_eq!(d.offset_at(p), b, "round trip at byte {}", b);
    }
    // Offsets inside a multi-byte character fall back to its start.
    let clef = src.find('𝄞').unwrap();
    assert_eq!(d.position_at(clef + 2), d.position_at(clef));
    // Past the end clamps to the end.
    assert_eq!(d.position_at(src.len() + 10), d.position_at(src.len()));
    // A character beyond the line's end clamps to the line's end.
    let end_of_line0 = src.find('\n').unwrap();
    assert_eq!(d.offset_at(Position { line: 0, character: 500 }), end_of_line0);
    assert_eq!(d.offset_at(Position { line: 99, character: 0 }), src.len());
}

#[test]
fn surrogate_pairs_count_two_units() {
    let src = "<p>𝄞x</p>";
    let d = parse(src);
    let x = src.find('x').unwrap();
    assert_eq!(d.position_at(x), Position { line: 0, character: 5 });
    // A position in the middle of the pair stays before it.
    assert_eq!(d.offset_at(Position { line: 0, character: 4 }), src.find('𝄞').unwrap());
}

#[test]
fn apply_change_edits_in_place_and_replaces_whole() {
    let mut d = parse("<p th:text=\"a\">x</p>");
    d.apply_change(Some(Position { line: 0, character: 12 }), Some(Position { line: 0, character: 13 }), "bcd");
    assert_eq!(d.text(), "<p th:text=\"bcd\">x</p>");
    // The positions may come in either order.
    d.apply_change(Some(Position { line: 0, character: 15 }), Some(Position { line: 0, character: 12 }), "");
    assert_eq!(d.text(), "<p th:text=\"\">x</p>");
    d.apply_change(None, None, "<b>new</b>");
    assert_eq!(d.text(), "<b>new</b>");
    assert_eq!(d.attributes().len(), 0);
    assert!(fits("abc"));
}

#[test]
fn folds_are_distinct_and_multiline() {
    let src = "<div>\n<p>\n</p>\n<!-- a\n b -->\n<script>\n1\n</script>\n</div>\n<span>\nx</span>";
    let d = parse(src);
    let ranges = folding_ranges(&d);
    assert!(!ranges.is_empty());
    for (i, r) in ranges.iter().enumerate() {
        assert!(r.start_line < r.end_line);
        for s in ranges.iter().skip(i + 1) {
            assert!(r != s);
        }
    }
    // A two-line element keeps its last line as the fold end.
    assert!(ranges.iter().any(|r| r.start_line == 1 && r.end_line == 2));
    assert!(ranges.iter().any(|r| r.kind == FoldingRangeKind::Comment && r.start_line == 3));
}

#[test]
fn semantic_tokens_decode_in_order_without_overlap() {
    let src = "<a th:href=\"@{/u/${id}}\" th:text=\"${a} and #{b}\">z</a>\n<p data-th-if=\"${x}\">y</p>";
    let d = parse(src);
    let toks = semantic_tokens_full(&d);
    let mut line = 0u32;
    let mut start = 0u32;
    let mut prev_end: Option<(u32, u32)> = None;
    let mut decoded = Vec::new();
    for t in &toks.data {
        if t.delta_line == 0 {
            start += t.delta_start;
        } else {
            line += t.delta_line;
            start = t.delta_start;
        }
        if let Some((l, e)) = prev_end {
            assert!(line > l || start >= e, "tokens overlap");
        }
        prev_end = Some((line, start + t.length));
        decoded.push((line, start, t.length, t.token_type));
    }
    assert_eq!(decoded[0], (0, 3, 7, TYPE_PROPERTY));
    assert_eq!(decoded[1], (0, 12, 11, TYPE_MACRO));
    assert!(decoded.iter().any(|&(l, _, _, ty)| l == 1 && ty == TYPE_PROPERTY));
}

#[test]
fn highlight_kinds_follow_definition_and_reference() {
    let src = "<div data-th-fragment=\"card (x)\"></div><div th:insert=\"card\"></div><div th:include=\":: card\"></div><div th:replace=\"other\"></div>";
    let d = parse(src);
    let hls = document_highlight(&d, d.position_at(src.find("card").unwrap()));
    assert_eq!(hls.len(), 3);
    assert_eq!(hls[0].kind, Some(HighlightKind::Write));
    assert_eq!(hls[1].kind, Some(HighlightKind::Read));
    assert_eq!(hls[2].kind, Some(HighlightKind::Read));
    let start = d.offset_at(hls[0].range.start);
    let end = d.offset_at(hls[0].range.end);
    assert_eq!(&src[start..end], "card");
}

#[test]
fn links_parse_urls_and_keep_tooltips() {
    // The target is the parsed URL's serialization, not the raw text.
    let src = "<a href=\"  HTTPS://Example.com \">L</a><a href=\"https://example.com\">M</a><img src=\"/x.png\">";
    let d = parse(src);
    let links = document_links(&d);
    assert_eq!(links.len(), 1);
    assert_eq!(links[0].target.as_deref(), Some("https://example.com/"));
    let r = LspRange { start: d.position_at(0), end: d.position_at(1) };
    assert!(build_link(r, "https://x", None).is_none());
    let l = build_link(r, "/p", None).unwrap();
    assert_eq!(l.tooltip.as_deref(), Some("Thymeleaf link expression"));
    let l = build_link(r, "https://x", Some("https://x/".to_string())).unwrap();
    assert_eq!(l.target.as_deref(), Some("https://x/"));
    // Several expressions in one value, one of them empty.
    let src = "<a th:attr=\"a=@{/one},b=@{ },c=@{ /two (p=1) }\">L</a>";
    let d = parse(src);
    let texts: Vec<String> = document_links(&d)
        .iter()
        .map(|l| src[d.offset_at(l.range.start)..d.offset_at(l.range.end)].to_string())
        .collect();
    assert_eq!(texts, vec!["/one".to_string(), "/two".to_string()]);
}

#[test]
fn decoded_tokens_move_forward() {
    let d = parse("<p th:text=\"${a} *{b}\" th:if=\"${c}\">x</p>\n<div th:each=\"i : ${xs}\"></div>");
    let toks = semantic_tokens_full(&d);
    assert!(toks.data.len() >= 5);
    for (i, t) in toks.data.iter().enumerate() {
        assert!(t.length > 0);
        assert!(t.token_type == TYPE_PROPERTY || t.token_type == TYPE_MACRO);
        if i > 0 {
            assert!(t.delta_line > 0 || t.delta_start > 0);
        }
    }
}

#[test]
fn offset_stops_at_the_end_of_its_line() {
    let d = parse("ab\ncd");
    assert_eq!(d.offset_at(Position { line: 0, character: 10 }), 2);
    assert_eq!(d.offset_at(Position { line: 1, character: 1 }), 4);
    assert_eq!(d.offset_at(Position { line: 7, character: 0 }), 5);
}

#[test]
fn outline_is_sorted_by_start() {
    let d = parse("<div id=\"b\"></div>\n<p th:fragment=\"a()\" id=\"c\"></p>");
    let syms = document_symbols(&d, "file:///t.html");
    assert_eq!(syms.len(), 3);
    for w in syms.windows(2) {
        let (a, b) = (&w[0].range.start, &w[1].range.start);
        assert!(a.line < b.line || (a.line == b.line && a.character <= b.character));
    }
}

#[test]
fn attribute_ranges_pick_out_names_and_values() {
    let text = "<p class=\"x\" th:text='${é}' hidden data-v=plain th:if=\"\">z</p>";
    let d = parse(text);
    let attrs = d.attributes();
    assert_eq!(attrs.len(), 5);
    for w in attrs.windows(2) {
        assert!(w[0].name_range.start <= w[1].name_range.start);
    }
    for a in &attrs {
        assert_eq!(&text[a.name_range.clone()], a.name);
        assert_eq!(&text[a.value_range.clone()], a.value);
    }
}

#[test]
fn node_at_finds_the_smallest_named_node() {
    let text = "<p th:text=\"hi\">Z</p>";
    let d = parse(text);
    let (_, _, nodes) = d.parts();
    let i = d.node_at(13).expect("a node spans the value");
    assert_eq!(nodes[i].kind, NodeKind::AttributeValue);
    assert_eq!(&text[nodes[i].start_byte..nodes[i].end_byte], "hi");
    let j = d.node_at(16).expect("a node spans the text");
    assert_eq!(nodes[j].kind, NodeKind::Text);
    let k = d.node_at(4).expect("a node spans the attribute name");
    assert_eq!(nodes[k].kind, NodeKind::AttributeName);
    let root = d.node_at(500).expect("the root is the fallback");
    assert_eq!(root, 0);
    for n in nodes.iter() {
        assert_eq!(n.start_row, text[..n.start_byte].matches('\n').count());
    }
}
