//! Static catalog of the Thymeleaf Standard Dialect.
//!
//! Pure data plus lookup helpers: attribute names, human-readable summaries
//! and markdown documentation, and a small reference of the Thymeleaf
//! expression syntaxes and utility objects.

use vstd::prelude::*;
use crate::text::{
    chars_eq, chars_of, has_prefix, is_unicode_ws, lead_ws, lemma_lead_ws_bound, lemma_trail_ws_bound,
    lower_char, lower_seq, starts_with_chars, trail_ws, trim_end_seq, trim_seq, trim_start_seq,
    trimmed_lower,
};

verus! {

/// A single Thymeleaf standard-dialect attribute.
///
/// `name` is always stored in the canonical `th:xxx` form. Lookups accept both
/// the `th:xxx` and the HTML5-valid `data-th-xxx` forms (see [`lookup`]).
#[derive(Debug, Clone, Copy)]
pub struct ThymeleafAttr {
    /// Canonical attribute name, e.g. `"th:text"`.
    pub name: &'static str,
    /// One-line summary suitable for a completion detail / signature line.
    pub summary: &'static str,
    /// Markdown documentation, including a short usage example.
    pub doc: &'static str,
}

/// The character views of an attribute's name, summary and documentation.
pub open spec fn entry(a: ThymeleafAttr) -> (Seq<char>, Seq<char>, Seq<char>) {
    (a.name@, a.summary@, a.doc@)
}

/// The full catalog of standard-dialect attributes, in catalog order.
pub open spec fn catalog() -> Seq<(Seq<char>, Seq<char>, Seq<char>)> {
    seq![
        ("th:text"@, "Sets the escaped text content of an element."@, "Sets the (HTML-escaped) text body of the tag, replacing its content.\n\n```html\n<p th:text=\"${user.name}\">placeholder</p>\n```"@),
        ("th:utext"@, "Sets the unescaped text content of an element."@, "Sets the tag body to *unescaped* text — raw HTML is rendered as markup.\nUse with care (XSS risk).\n\n```html\n<div th:utext=\"${htmlSnippet}\">...</div>\n```"@),
        ("th:if"@, "Renders the element only if the expression is true."@, "Conditionally includes the element (and its content) when the expression\nevaluates truthy.\n\n```html\n<span th:if=\"${user.admin}\">Admin</span>\n```"@),
        ("th:unless"@, "Renders the element only if the expression is false."@, "The negated counterpart of `th:if`.\n\n```html\n<span th:unless=\"${user.admin}\">Regular user</span>\n```"@),
        ("th:each"@, "Iterates over a collection, repeating the element."@, "Iterates a collection/array/map/iterable, repeating the host tag for each\nitem. Supports an optional status variable.\n\n```html\n<li th:each=\"item : ${items}\" th:text=\"${item.name}\">item</li>\n```"@),
        ("th:switch"@, "Selects one of several th:case branches."@, "Structural switch statement; used together with `th:case`.\n\n```html\n<div th:switch=\"${user.role}\">\n  <p th:case=\"'admin'\">Administrator</p>\n  <p th:case=\"*\">Unknown</p>\n</div>\n```"@),
        ("th:case"@, "A branch of an enclosing th:switch."@, "Marks a case within a `th:switch`. `th:case=\"*\"` is the default branch.\n\n```html\n<p th:case=\"'admin'\">Administrator</p>\n```"@),
        ("th:object"@, "Selects an object for *{...} selection expressions."@, "Sets the selection target so descendant `*{...}` expressions resolve\nagainst it.\n\n```html\n<div th:object=\"${user}\">\n  <span th:text=\"*{name}\">name</span>\n</div>\n```"@),
        ("th:with"@, "Declares local variables for the element's scope."@, "Defines one or more local variables visible within the element subtree.\n\n```html\n<div th:with=\"total=${a + b}\">\n  <span th:text=\"${total}\">0</span>\n</div>\n```"@),
        ("th:attr"@, "Sets arbitrary attributes from expressions."@, "Generic attribute setter; can set several attributes at once.\n\n```html\n<img th:attr=\"src=@{/img/logo.png},title=${title}\" />\n```"@),
        ("th:attrappend"@, "Appends a value to an existing attribute."@, "Appends the computed value to the end of an attribute.\n\n```html\n<div class=\"base\" th:attrappend=\"class=${' ' + extra}\">...</div>\n```"@),
        ("th:attrprepend"@, "Prepends a value to an existing attribute."@, "Prepends the computed value to the start of an attribute.\n\n```html\n<div class=\"base\" th:attrprepend=\"class=${extra + ' '}\">...</div>\n```"@),
        ("th:value"@, "Sets the value attribute."@, "Shorthand for setting the `value` attribute of an input.\n\n```html\n<input type=\"text\" th:value=\"${user.name}\" />\n```"@),
        ("th:href"@, "Sets the href attribute (usually a link expression)."@, "Sets `href`, typically with a link `@{...}` expression that handles\ncontext paths and URL parameters.\n\n```html\n<a th:href=\"@{/users/{id}(id=${user.id})}\">profile</a>\n```"@),
        ("th:src"@, "Sets the src attribute."@, "Sets `src`, typically with a link `@{...}` expression.\n\n```html\n<img th:src=\"@{/images/logo.png}\" />\n```"@),
        ("th:action"@, "Sets a form's action attribute."@, "Sets the `action` of a form, usually via a link `@{...}` expression.\n\n```html\n<form th:action=\"@{/login}\" method=\"post\">...</form>\n```"@),
        ("th:method"@, "Sets a form's method attribute."@, "Sets the HTTP `method` of a form.\n\n```html\n<form th:method=\"${'post'}\">...</form>\n```"@),
        ("th:field"@, "Binds an input to a form-backing bean field."@, "Binds the input to a property of the `th:object`/command bean, setting\n`id`, `name` and `value` (or checked/selected) automatically.\n\n```html\n<input type=\"text\" th:field=\"*{email}\" />\n```"@),
        ("th:errors"@, "Renders validation errors for a bound field."@, "Outputs the accumulated validation error messages for a field.\n\n```html\n<span th:errors=\"*{email}\">error</span>\n```"@),
        ("th:errorclass"@, "Adds a CSS class when the bound field has errors."@, "Appends the given CSS class to the element only if the field has errors.\n\n```html\n<input th:field=\"*{email}\" th:errorclass=\"invalid\" />\n```"@),
        ("th:fragment"@, "Declares a reusable fragment."@, "Defines a named, optionally parameterized fragment for reuse via\n`th:insert`/`th:replace`.\n\n```html\n<div th:fragment=\"header(title)\">\n  <h1 th:text=\"${title}\">Title</h1>\n</div>\n```"@),
        ("th:insert"@, "Inserts a fragment inside the host tag."@, "Inserts the referenced fragment as *content* of the host tag (host tag is\nkept).\n\n```html\n<div th:insert=\"~{fragments :: header}\"></div>\n```"@),
        ("th:replace"@, "Replaces the host tag with a fragment."@, "Replaces the host tag entirely with the referenced fragment.\n\n```html\n<div th:replace=\"~{fragments :: header('Home')}\"></div>\n```"@),
        ("th:include"@, "Includes a fragment's content (deprecated; use th:insert)."@, "Includes the *contents* of a fragment. Deprecated since Thymeleaf 3 in\nfavour of `th:insert`.\n\n```html\n<div th:include=\"~{fragments :: header}\"></div>\n```"@),
        ("th:remove"@, "Removes the element/content at render time."@, "Removes the tag, its body, or repeated occurrences. Values: `all`,\n`body`, `tag`, `all-but-first`, `none`.\n\n```html\n<tr th:remove=\"all\">prototype row</tr>\n```"@),
        ("th:class"@, "Sets the class attribute."@, "Sets the `class` attribute from an expression.\n\n```html\n<div th:class=\"${active} ? 'on' : 'off'\">...</div>\n```"@),
        ("th:classappend"@, "Appends CSS classes to the existing class attribute."@, "Appends computed CSS class(es) without discarding static ones.\n\n```html\n<div class=\"box\" th:classappend=\"${active} ? 'active'\">...</div>\n```"@),
        ("th:style"@, "Sets the style attribute."@, "Sets the inline `style` attribute from an expression.\n\n```html\n<div th:style=\"'color:' + ${color}\">...</div>\n```"@),
        ("th:styleappend"@, "Appends to the existing style attribute."@, "Appends computed inline styles without discarding static ones.\n\n```html\n<div style=\"margin:0\" th:styleappend=\"'color:' + ${color}\">...</div>\n```"@),
        ("th:id"@, "Sets the id attribute."@, "Sets the `id` attribute from an expression.\n\n```html\n<div th:id=\"'row-' + ${item.id}\">...</div>\n```"@),
        ("th:name"@, "Sets the name attribute."@, "Sets the `name` attribute from an expression.\n\n```html\n<input th:name=\"${fieldName}\" />\n```"@),
        ("th:selected"@, "Fixed-value boolean attribute: selected."@, "Sets/removes the `selected` boolean attribute based on the expression.\n\n```html\n<option th:selected=\"${item.id == current}\">...</option>\n```"@),
        ("th:checked"@, "Fixed-value boolean attribute: checked."@, "Sets/removes the `checked` boolean attribute based on the expression.\n\n```html\n<input type=\"checkbox\" th:checked=\"${user.active}\" />\n```"@),
        ("th:disabled"@, "Fixed-value boolean attribute: disabled."@, "Sets/removes the `disabled` boolean attribute based on the expression.\n\n```html\n<button th:disabled=\"${!form.valid}\">Save</button>\n```"@),
        ("th:readonly"@, "Fixed-value boolean attribute: readonly."@, "Sets/removes the `readonly` boolean attribute based on the expression.\n\n```html\n<input th:readonly=\"${locked}\" />\n```"@),
        ("th:multiple"@, "Fixed-value boolean attribute: multiple."@, "Sets/removes the `multiple` boolean attribute based on the expression.\n\n```html\n<select th:multiple=\"${allowMany}\">...</select>\n```"@),
        ("th:placeholder"@, "Sets the placeholder attribute."@, "Sets the `placeholder` attribute, often from a message expression.\n\n```html\n<input th:placeholder=\"#{form.email}\" />\n```"@),
        ("th:alt"@, "Sets the alt attribute."@, "Sets the `alt` attribute of an image.\n\n```html\n<img th:alt=\"#{logo.alt}\" th:src=\"@{/logo.png}\" />\n```"@),
        ("th:title"@, "Sets the title attribute."@, "Sets the `title` attribute.\n\n```html\n<a th:title=\"#{link.help}\">?</a>\n```"@),
        ("th:lang"@, "Sets the lang attribute."@, "Sets the `lang` attribute.\n\n```html\n<html th:lang=\"${#locale.language}\">...</html>\n```"@),
        ("th:block"@, "A synthetic container element (<th:block>)."@, "The `th:block` element is a non-rendered container, useful to apply\niteration/conditions without introducing a wrapping tag.\n\n```html\n<th:block th:each=\"i : ${items}\">\n  <td th:text=\"${i}\">0</td>\n</th:block>\n```"@),
        ("th:inline"@, "Enables inline expression processing in text/JS/CSS."@, "Enables inlined expressions (`[[...]]` / `[(...)]`) within the element.\nValues: `text`, `javascript`, `css`, `none`.\n\n```html\n<script th:inline=\"javascript\">\n  var user = /*[[${user.name}]]*/ 'default';\n</script>\n```"@),
    ]
}

/// Returns the full catalog of standard-dialect attributes.
pub fn all_attrs() -> (r: Vec<ThymeleafAttr>)
    ensures
        r@.map_values(|a: ThymeleafAttr| entry(a)) == catalog(),
{
    let mut v: Vec<ThymeleafAttr> = Vec::new();
    v.push(ThymeleafAttr { name: "th:text", summary: "Sets the escaped text content of an element.", doc: "Sets the (HTML-escaped) text body of the tag, replacing its content.\n\n```html\n<p th:text=\"${user.name}\">placeholder</p>\n```" });
    v.push(ThymeleafAttr { name: "th:utext", summary: "Sets the unescaped text content of an element.", doc: "Sets the tag body to *unescaped* text — raw HTML is rendered as markup.\nUse with care (XSS risk).\n\n```html\n<div th:utext=\"${htmlSnippet}\">...</div>\n```" });
    v.push(ThymeleafAttr { name: "th:if", summary: "Renders the element only if the expression is true.", doc: "Conditionally includes the element (and its content) when the expression\nevaluates truthy.\n\n```html\n<span th:if=\"${user.admin}\">Admin</span>\n```" });
    v.push(ThymeleafAttr { name: "th:unless", summary: "Renders the element only if the expression is false.", doc: "The negated counterpart of `th:if`.\n\n```html\n<span th:unless=\"${user.admin}\">Regular user</span>\n```" });
    v.push(ThymeleafAttr { name: "th:each", summary: "Iterates over a collection, repeating the element.", doc: "Iterates a collection/array/map/iterable, repeating the host tag for each\nitem. Supports an optional status variable.\n\n```html\n<li th:each=\"item : ${items}\" th:text=\"${item.name}\">item</li>\n```" });
    v.push(ThymeleafAttr { name: "th:switch", summary: "Selects one of several th:case branches.", doc: "Structural switch statement; used together with `th:case`.\n\n```html\n<div th:switch=\"${user.role}\">\n  <p th:case=\"'admin'\">Administrator</p>\n  <p th:case=\"*\">Unknown</p>\n</div>\n```" });
    v.push(ThymeleafAttr { name: "th:case", summary: "A branch of an enclosing th:switch.", doc: "Marks a case within a `th:switch`. `th:case=\"*\"` is the default branch.\n\n```html\n<p th:case=\"'admin'\">Administrator</p>\n```" });
    v.push(ThymeleafAttr { name: "th:object", summary: "Selects an object for *{...} selection expressions.", doc: "Sets the selection target so descendant `*{...}` expressions resolve\nagainst it.\n\n```html\n<div th:object=\"${user}\">\n  <span th:text=\"*{name}\">name</span>\n</div>\n```" });
    v.push(ThymeleafAttr { name: "th:with", summary: "Declares local variables for the element's scope.", doc: "Defines one or more local variables visible within the element subtree.\n\n```html\n<div th:with=\"total=${a + b}\">\n  <span th:text=\"${total}\">0</span>\n</div>\n```" });
    v.push(ThymeleafAttr { name: "th:attr", summary: "Sets arbitrary attributes from expressions.", doc: "Generic attribute setter; can set several attributes at once.\n\n```html\n<img th:attr=\"src=@{/img/logo.png},title=${title}\" />\n```" });
    v.push(ThymeleafAttr { name: "th:attrappend", summary: "Appends a value to an existing attribute.", doc: "Appends the computed value to the end of an attribute.\n\n```html\n<div class=\"base\" th:attrappend=\"class=${' ' + extra}\">...</div>\n```" });
    v.push(ThymeleafAttr { name: "th:attrprepend", summary: "Prepends a value to an existing attribute.", doc: "Prepends the computed value to the start of an attribute.\n\n```html\n<div class=\"base\" th:attrprepend=\"class=${extra + ' '}\">...</div>\n```" });
    v.push(ThymeleafAttr { name: "th:value", summary: "Sets the value attribute.", doc: "Shorthand for setting the `value` attribute of an input.\n\n```html\n<input type=\"text\" th:value=\"${user.name}\" />\n```" });
    v.push(ThymeleafAttr { name: "th:href", summary: "Sets the href attribute (usually a link expression).", doc: "Sets `href`, typically with a link `@{...}` expression that handles\ncontext paths and URL parameters.\n\n```html\n<a th:href=\"@{/users/{id}(id=${user.id})}\">profile</a>\n```" });
    v.push(ThymeleafAttr { name: "th:src", summary: "Sets the src attribute.", doc: "Sets `src`, typically with a link `@{...}` expression.\n\n```html\n<img th:src=\"@{/images/logo.png}\" />\n```" });
    v.push(ThymeleafAttr { name: "th:action", summary: "Sets a form's action attribute.", doc: "Sets the `action` of a form, usually via a link `@{...}` expression.\n\n```html\n<form th:action=\"@{/login}\" method=\"post\">...</form>\n```" });
    v.push(ThymeleafAttr { name: "th:method", summary: "Sets a form's method attribute.", doc: "Sets the HTTP `method` of a form.\n\n```html\n<form th:method=\"${'post'}\">...</form>\n```" });
    v.push(ThymeleafAttr { name: "th:field", summary: "Binds an input to a form-backing bean field.", doc: "Binds the input to a property of the `th:object`/command bean, setting\n`id`, `name` and `value` (or checked/selected) automatically.\n\n```html\n<input type=\"text\" th:field=\"*{email}\" />\n```" });
    v.push(ThymeleafAttr { name: "th:errors", summary: "Renders validation errors for a bound field.", doc: "Outputs the accumulated validation error messages for a field.\n\n```html\n<span th:errors=\"*{email}\">error</span>\n```" });
    v.push(ThymeleafAttr { name: "th:errorclass", summary: "Adds a CSS class when the bound field has errors.", doc: "Appends the given CSS class to the element only if the field has errors.\n\n```html\n<input th:field=\"*{email}\" th:errorclass=\"invalid\" />\n```" });
    v.push(ThymeleafAttr { name: "th:fragment", summary: "Declares a reusable fragment.", doc: "Defines a named, optionally parameterized fragment for reuse via\n`th:insert`/`th:replace`.\n\n```html\n<div th:fragment=\"header(title)\">\n  <h1 th:text=\"${title}\">Title</h1>\n</div>\n```" });
    v.push(ThymeleafAttr { name: "th:insert", summary: "Inserts a fragment inside the host tag.", doc: "Inserts the referenced fragment as *content* of the host tag (host tag is\nkept).\n\n```html\n<div th:insert=\"~{fragments :: header}\"></div>\n```" });
    v.push(ThymeleafAttr { name: "th:replace", summary: "Replaces the host tag with a fragment.", doc: "Replaces the host tag entirely with the referenced fragment.\n\n```html\n<div th:replace=\"~{fragments :: header('Home')}\"></div>\n```" });
    v.push(ThymeleafAttr { name: "th:include", summary: "Includes a fragment's content (deprecated; use th:insert).", doc: "Includes the *contents* of a fragment. Deprecated since Thymeleaf 3 in\nfavour of `th:insert`.\n\n```html\n<div th:include=\"~{fragments :: header}\"></div>\n```" });
    v.push(ThymeleafAttr { name: "th:remove", summary: "Removes the element/content at render time.", doc: "Removes the tag, its body, or repeated occurrences. Values: `all`,\n`body`, `tag`, `all-but-first`, `none`.\n\n```html\n<tr th:remove=\"all\">prototype row</tr>\n```" });
    v.push(ThymeleafAttr { name: "th:class", summary: "Sets the class attribute.", doc: "Sets the `class` attribute from an expression.\n\n```html\n<div th:class=\"${active} ? 'on' : 'off'\">...</div>\n```" });
    v.push(ThymeleafAttr { name: "th:classappend", summary: "Appends CSS classes to the existing class attribute.", doc: "Appends computed CSS class(es) without discarding static ones.\n\n```html\n<div class=\"box\" th:classappend=\"${active} ? 'active'\">...</div>\n```" });
    v.push(ThymeleafAttr { name: "th:style", summary: "Sets the style attribute.", doc: "Sets the inline `style` attribute from an expression.\n\n```html\n<div th:style=\"'color:' + ${color}\">...</div>\n```" });
    v.push(ThymeleafAttr { name: "th:styleappend", summary: "Appends to the existing style attribute.", doc: "Appends computed inline styles without discarding static ones.\n\n```html\n<div style=\"margin:0\" th:styleappend=\"'color:' + ${color}\">...</div>\n```" });
    v.push(ThymeleafAttr { name: "th:id", summary: "Sets the id attribute.", doc: "Sets the `id` attribute from an expression.\n\n```html\n<div th:id=\"'row-' + ${item.id}\">...</div>\n```" });
    v.push(ThymeleafAttr { name: "th:name", summary: "Sets the name attribute.", doc: "Sets the `name` attribute from an expression.\n\n```html\n<input th:name=\"${fieldName}\" />\n```" });
    v.push(ThymeleafAttr { name: "th:selected", summary: "Fixed-value boolean attribute: selected.", doc: "Sets/removes the `selected` boolean attribute based on the expression.\n\n```html\n<option th:selected=\"${item.id == current}\">...</option>\n```" });
    v.push(ThymeleafAttr { name: "th:checked", summary: "Fixed-value boolean attribute: checked.", doc: "Sets/removes the `checked` boolean attribute based on the expression.\n\n```html\n<input type=\"checkbox\" th:checked=\"${user.active}\" />\n```" });
    v.push(ThymeleafAttr { name: "th:disabled", summary: "Fixed-value boolean attribute: disabled.", doc: "Sets/removes the `disabled` boolean attribute based on the expression.\n\n```html\n<button th:disabled=\"${!form.valid}\">Save</button>\n```" });
    v.push(ThymeleafAttr { name: "th:readonly", summary: "Fixed-value boolean attribute: readonly.", doc: "Sets/removes the `readonly` boolean attribute based on the expression.\n\n```html\n<input th:readonly=\"${locked}\" />\n```" });
    v.push(ThymeleafAttr { name: "th:multiple", summary: "Fixed-value boolean attribute: multiple.", doc: "Sets/removes the `multiple` boolean attribute based on the expression.\n\n```html\n<select th:multiple=\"${allowMany}\">...</select>\n```" });
    v.push(ThymeleafAttr { name: "th:placeholder", summary: "Sets the placeholder attribute.", doc: "Sets the `placeholder` attribute, often from a message expression.\n\n```html\n<input th:placeholder=\"#{form.email}\" />\n```" });
    v.push(ThymeleafAttr { name: "th:alt", summary: "Sets the alt attribute.", doc: "Sets the `alt` attribute of an image.\n\n```html\n<img th:alt=\"#{logo.alt}\" th:src=\"@{/logo.png}\" />\n```" });
    v.push(ThymeleafAttr { name: "th:title", summary: "Sets the title attribute.", doc: "Sets the `title` attribute.\n\n```html\n<a th:title=\"#{link.help}\">?</a>\n```" });
    v.push(ThymeleafAttr { name: "th:lang", summary: "Sets the lang attribute.", doc: "Sets the `lang` attribute.\n\n```html\n<html th:lang=\"${#locale.language}\">...</html>\n```" });
    v.push(ThymeleafAttr { name: "th:block", summary: "A synthetic container element (<th:block>).", doc: "The `th:block` element is a non-rendered container, useful to apply\niteration/conditions without introducing a wrapping tag.\n\n```html\n<th:block th:each=\"i : ${items}\">\n  <td th:text=\"${i}\">0</td>\n</th:block>\n```" });
    v.push(ThymeleafAttr { name: "th:inline", summary: "Enables inline expression processing in text/JS/CSS.", doc: "Enables inlined expressions (`[[...]]` / `[(...)]`) within the element.\nValues: `text`, `javascript`, `css`, `none`.\n\n```html\n<script th:inline=\"javascript\">\n  var user = /*[[${user.name}]]*/ 'default';\n</script>\n```" });
    proof {
        assert(v@.map_values(|a: ThymeleafAttr| entry(a)) =~= catalog());
    }
    v
}

/// The expression-syntax reference: `(token, markdown-description)` pairs.
pub open spec fn expression_catalog() -> Seq<(Seq<char>, Seq<char>)> {
    seq![
        ("${...}"@, "**Variable expression** — evaluates against the context variables (the model).\n\n```html\n<span th:text=\"${user.name}\">name</span>\n```"@),
        ("*{...}"@, "**Selection expression** — evaluates against the current `th:object` selection.\n\n```html\n<div th:object=\"${user}\"><span th:text=\"*{name}\">name</span></div>\n```"@),
        ("#{...}"@, "**Message (i18n) expression** — resolves externalized text from message bundles.\n\n```html\n<p th:text=\"#{home.welcome}\">Welcome</p>\n```"@),
        ("@{...}"@, "**Link (URL) expression** — builds context-aware URLs and query parameters.\n\n```html\n<a th:href=\"@{/users/{id}(id=${id})}\">link</a>\n```"@),
        ("~{...}"@, "**Fragment expression** — references a fragment for inclusion.\n\n```html\n<div th:insert=\"~{footer :: copy}\"></div>\n```"@),
        ("#dates"@, "Utility object for `java.util.Date` formatting and creation.\n\n`${#dates.format(date, 'dd/MMM/yyyy HH:mm')}`"@),
        ("#calendars"@, "Utility object analogous to `#dates` but for `java.util.Calendar`."@),
        ("#numbers"@, "Utility object for formatting numeric values.\n\n`${#numbers.formatDecimal(n, 3, 2)}`"@),
        ("#strings"@, "Utility object for `String` operations.\n\n`${#strings.isEmpty(name)}`, `${#strings.abbreviate(s, 10)}`"@),
        ("#objects"@, "Utility object for general object operations, e.g. defaults.\n\n`${#objects.nullSafe(obj, default)}`"@),
        ("#bools"@, "Utility object for boolean evaluation.\n\n`${#bools.isTrue(cond)}`"@),
        ("#arrays"@, "Utility object for arrays.\n\n`${#arrays.length(arr)}`, `${#arrays.contains(arr, x)}`"@),
        ("#lists"@, "Utility object for lists.\n\n`${#lists.size(list)}`, `${#lists.isEmpty(list)}`"@),
        ("#sets"@, "Utility object for sets.\n\n`${#sets.size(set)}`, `${#sets.contains(set, x)}`"@),
        ("#maps"@, "Utility object for maps.\n\n`${#maps.size(map)}`, `${#maps.containsKey(map, k)}`"@),
        ("#aggregates"@, "Utility object for aggregation over arrays/collections.\n\n`${#aggregates.sum(list)}`, `${#aggregates.avg(list)}`"@),
        ("#ids"@, "Utility object for generating unique `id` attributes in iterations.\n\n`${#ids.seq('itemId')}`"@),
    ]
}

/// The character views of an expression-syntax entry.
pub open spec fn syntax_entry(e: (&'static str, &'static str)) -> (Seq<char>, Seq<char>) {
    (e.0@, e.1@)
}

/// Returns reference data for expression syntaxes and utility objects.
pub fn expression_syntaxes() -> (r: Vec<(&'static str, &'static str)>)
    ensures
        r@.map_values(|e: (&'static str, &'static str)| syntax_entry(e)) == expression_catalog(),
{
    let mut v: Vec<(&'static str, &'static str)> = Vec::new();
    v.push(("${...}", "**Variable expression** — evaluates against the context variables (the model).\n\n```html\n<span th:text=\"${user.name}\">name</span>\n```"));
    v.push(("*{...}", "**Selection expression** — evaluates against the current `th:object` selection.\n\n```html\n<div th:object=\"${user}\"><span th:text=\"*{name}\">name</span></div>\n```"));
    v.push(("#{...}", "**Message (i18n) expression** — resolves externalized text from message bundles.\n\n```html\n<p th:text=\"#{home.welcome}\">Welcome</p>\n```"));
    v.push(("@{...}", "**Link (URL) expression** — builds context-aware URLs and query parameters.\n\n```html\n<a th:href=\"@{/users/{id}(id=${id})}\">link</a>\n```"));
    v.push(("~{...}", "**Fragment expression** — references a fragment for inclusion.\n\n```html\n<div th:insert=\"~{footer :: copy}\"></div>\n```"));
    v.push(("#dates", "Utility object for `java.util.Date` formatting and creation.\n\n`${#dates.format(date, 'dd/MMM/yyyy HH:mm')}`"));
    v.push(("#calendars", "Utility object analogous to `#dates` but for `java.util.Calendar`."));
    v.push(("#numbers", "Utility object for formatting numeric values.\n\n`${#numbers.formatDecimal(n, 3, 2)}`"));
    v.push(("#strings", "Utility object for `String` operations.\n\n`${#strings.isEmpty(name)}`, `${#strings.abbreviate(s, 10)}`"));
    v.push(("#objects", "Utility object for general object operations, e.g. defaults.\n\n`${#objects.nullSafe(obj, default)}`"));
    v.push(("#bools", "Utility object for boolean evaluation.\n\n`${#bools.isTrue(cond)}`"));
    v.push(("#arrays", "Utility object for arrays.\n\n`${#arrays.length(arr)}`, `${#arrays.contains(arr, x)}`"));
    v.push(("#lists", "Utility object for lists.\n\n`${#lists.size(list)}`, `${#lists.isEmpty(list)}`"));
    v.push(("#sets", "Utility object for sets.\n\n`${#sets.size(set)}`, `${#sets.contains(set, x)}`"));
    v.push(("#maps", "Utility object for maps.\n\n`${#maps.size(map)}`, `${#maps.containsKey(map, k)}`"));
    v.push(("#aggregates", "Utility object for aggregation over arrays/collections.\n\n`${#aggregates.sum(list)}`, `${#aggregates.avg(list)}`"));
    v.push(("#ids", "Utility object for generating unique `id` attributes in iterations.\n\n`${#ids.seq('itemId')}`"));
    proof {
        assert(v@.map_values(|e: (&'static str, &'static str)| syntax_entry(e)) =~= expression_catalog());
    }
    v
}
/// Canonical `th:xxx` form of an attribute name: trimmed, ASCII-lowercased,
/// with a `data-th-` prefix rewritten to `th:`. `None` when the name is in
/// neither Thymeleaf form.
pub open spec fn normalize_spec(name: Seq<char>) -> Option<Seq<char>> {
    let lower = lower_seq(trim_seq(name));
    if has_prefix(lower, "th:"@) {
        Some(lower)
    } else if has_prefix(lower, "data-th-"@) {
        Some("th:"@ + lower.skip(8))
    } else {
        None
    }
}

/// Whether `name` looks like a Thymeleaf attribute (`th:*` or `data-th-*`),
/// ignoring ASCII case and surrounding whitespace.
pub open spec fn is_thymeleaf_name_spec(name: Seq<char>) -> bool {
    let lower = lower_seq(trim_seq(name));
    has_prefix(lower, "th:"@) || has_prefix(lower, "data-th-"@)
}

/// Whether `name` looks like a Thymeleaf attribute (`th:*` or `data-th-*`),
/// case-insensitively, whether or not it is in the catalog.
pub fn is_thymeleaf_name(name: &str) -> (r: bool)
    ensures
        r == is_thymeleaf_name_spec(name@),
{
    let lower = trimmed_lower(name);
    starts_with_chars(&lower, &chars_of("th:")) || starts_with_chars(&lower, &chars_of("data-th-"))
}

/// Index of the first catalog entry named `n`, if any.
pub open spec fn catalog_position(n: Seq<char>) -> Option<int> {
    if exists|i: int| 0 <= i < catalog().len() && #[trigger] catalog()[i].0 == n {
        Some(choose|i: int| 0 <= i < catalog().len() && #[trigger] catalog()[i].0 == n
            && forall|j: int| 0 <= j < i ==> #[trigger] catalog()[j].0 != n)
    } else {
        None
    }
}

/// The catalog entry that `lookup(name)` resolves to.
pub open spec fn lookup_spec(name: Seq<char>) -> Option<(Seq<char>, Seq<char>, Seq<char>)> {
    match normalize_spec(name) {
        Some(n) => match catalog_position(n) {
            Some(i) => Some(catalog()[i]),
            None => None,
        },
        None => None,
    }
}

/// Normalizes an attribute name to the canonical `th:xxx` form.
pub fn normalize(name: &str) -> (r: Option<Vec<char>>)
    ensures
        r matches Some(v) ==> normalize_spec(name@) == Some(v@),
        r is None ==> normalize_spec(name@) is None,
{
    let lower = trimmed_lower(name);
    let th = chars_of("th:");
    if starts_with_chars(&lower, &th) {
        return Some(lower);
    }
    let data_th = chars_of("data-th-");
    if starts_with_chars(&lower, &data_th) {
        proof {
            reveal_strlit("data-th-");
        }
        let mut out = th;
        let mut i: usize = 8;
        while i < lower.len()
            invariant
                8 <= i <= lower@.len(),
                out@ == "th:"@ + lower@.subrange(8, i as int),
            decreases lower@.len() - i,
        {
            out.push(lower[i]);
            proof {
                assert(lower@.subrange(8, i + 1) =~= lower@.subrange(8, i as int).push(lower@[i as int]));
                assert(("th:"@ + lower@.subrange(8, i as int)).push(lower@[i as int]) =~= "th:"@ + lower@.subrange(8, i + 1));
            }
            i += 1;
        }
        proof {
            assert(lower@.subrange(8, lower@.len() as int) =~= lower@.skip(8));
        }
        return Some(out);
    }
    None
}

/// Looks up an attribute by name, accepting both `th:text` and
/// `data-th-text` spellings, case-insensitively.
pub fn lookup(name: &str) -> (r: Option<ThymeleafAttr>)
    ensures
        r matches Some(a) ==> lookup_spec(name@) == Some(entry(a)),
        r is None ==> lookup_spec(name@) is None,
{
    let canonical = match normalize(name) {
        Some(c) => c,
        None => return None,
    };
    let attrs = all_attrs();
    let ghost cat = catalog();
    let mut i: usize = 0;
    while i < attrs.len()
        invariant
            i <= attrs@.len(),
            attrs@.map_values(|a: ThymeleafAttr| entry(a)) == cat,
            cat == catalog(),
            normalize_spec(name@) == Some(canonical@),
            forall|j: int| 0 <= j < i ==> #[trigger] cat[j].0 != canonical@,
        decreases attrs@.len() - i,
    {
        let a = attrs[i];
        let an = chars_of(a.name);
        proof {
            assert(cat[i as int] == entry(attrs@[i as int]));
        }
        if chars_eq(&an, &canonical) {
            proof {
                let n = canonical@;
                assert(cat[i as int].0 == n);
                let k = catalog_position(n)->0;
                assert(catalog_position(n) is Some);
                if k < i {
                } else if k > i {
                }
                assert(k == i);
            }
            return Some(a);
        }
        i += 1;
    }
    proof {
        assert(attrs@.len() == cat.len());
    }
    None
}

} // verus!

verus! {

pub proof fn lemma_lower_ws(c: char)
    ensures
        is_unicode_ws(lower_char(c)) == is_unicode_ws(c),
        lower_char(lower_char(c)) == lower_char(c),
{
}

proof fn lemma_lead_ws_lower(s: Seq<char>)
    ensures
        lead_ws(lower_seq(s)) == lead_ws(s),
    decreases s.len(),
{
    if s.len() > 0 {
        lemma_lower_ws(s[0]);
        assert(lower_seq(s).drop_first() =~= lower_seq(s.drop_first()));
        lemma_lead_ws_lower(s.drop_first());
    }
}

proof fn lemma_trail_ws_lower(s: Seq<char>)
    ensures
        trail_ws(lower_seq(s)) == trail_ws(s),
    decreases s.len(),
{
    if s.len() > 0 {
        lemma_lower_ws(s.last());
        assert(lower_seq(s).drop_last() =~= lower_seq(s.drop_last()));
        lemma_trail_ws_lower(s.drop_last());
    }
}

/// Lowercasing commutes with trimming and is idempotent.
pub proof fn lemma_lower_trim(s: Seq<char>)
    ensures
        lower_seq(trim_seq(lower_seq(s))) == lower_seq(trim_seq(s)),
{
    lemma_lead_ws_lower(s);
    lemma_lead_ws_bound(s);
    let a = lead_ws(s) as int;
    assert(trim_start_seq(lower_seq(s)) =~= lower_seq(trim_start_seq(s)));
    let t = trim_start_seq(s);
    lemma_trail_ws_lower(t);
    lemma_trail_ws_bound(t);
    assert(trim_seq(lower_seq(s)) =~= lower_seq(trim_seq(s)));
    assert forall|i: int| 0 <= i < trim_seq(s).len() implies #[trigger] lower_seq(lower_seq(trim_seq(s)))[i]
        == lower_seq(trim_seq(s))[i] by {
        lemma_lower_ws(trim_seq(s)[i]);
    }
    assert(lower_seq(lower_seq(trim_seq(s))) =~= lower_seq(trim_seq(s)));
}

/// Lookup ignores ASCII case: a name and its lowercase form resolve to the
/// same catalog entry.
pub proof fn law_lookup_case_insensitive(name: Seq<char>)
    ensures
        lookup_spec(lower_seq(name)) == lookup_spec(name),
{
    lemma_lower_trim(name);
}

/// Trimming text whose first character is not whitespace only trims its end.
pub proof fn lemma_trim_after_word(p: Seq<char>, x: Seq<char>)
    requires
        p.len() > 0,
        forall|i: int| 0 <= i < p.len() ==> !is_unicode_ws(#[trigger] p[i]),
    ensures
        trim_seq(p + x) == p + trim_end_seq(x),
    decreases x.len(),
{
    assert((p + x)[0] == p[0]);
    assert(lead_ws(p + x) == 0);
    assert(trim_start_seq(p + x) =~= p + x);
    lemma_trail_concat(p, x);
    lemma_trail_ws_bound(x);
    assert((p + x).take((p + x).len() - trail_ws(x)) =~= p + x.take(x.len() - trail_ws(x)));
}

proof fn lemma_trail_concat(p: Seq<char>, x: Seq<char>)
    requires
        p.len() > 0,
        forall|i: int| 0 <= i < p.len() ==> !is_unicode_ws(#[trigger] p[i]),
    ensures
        trail_ws(p + x) == trail_ws(x),
    decreases x.len(),
{
    if x.len() == 0 {
        assert(p + x =~= p);
        assert(p.last() == p[p.len() - 1]);
    } else {
        assert((p + x).last() == x.last());
        assert((p + x).drop_last() =~= p + x.drop_last());
        lemma_trail_concat(p, x.drop_last());
    }
}

/// The `data-th-` spelling of an attribute resolves exactly as its `th:`
/// spelling does.
pub proof fn law_lookup_data_th_form(x: Seq<char>)
    ensures
        lookup_spec("data-th-"@ + x) == lookup_spec("th:"@ + x),
{
    reveal_strlit("data-th-");
    reveal_strlit("th:");
    let d = "data-th-"@;
    let t = "th:"@;
    lemma_trim_after_word(d, x);
    lemma_trim_after_word(t, x);
    let e = trim_end_seq(x);
    let ld = lower_seq(d + e);
    let lt = lower_seq(t + e);
    assert(ld =~= d + lower_seq(e));
    assert(lt =~= t + lower_seq(e));
    assert(ld.take(3) != t) by {
        assert(ld.take(3)[0] == 'd');
    }
    assert(ld.take(8) =~= d);
    assert(lt.take(3) =~= t);
    assert(ld.skip(8) =~= lower_seq(e));
    assert(normalize_spec(d + x) == Some(t + lower_seq(e)));
    assert(normalize_spec(t + x) == Some(t + lower_seq(e)));
}

} // verus!

verus! {

/// Every catalog entry is named in the canonical `th:` form.
pub proof fn law_catalog_canonical()
    ensures
        forall|i: int| 0 <= i < catalog().len() ==> #[trigger] has_prefix(catalog()[i].0, "th:"@),
{
    reveal_strlit("th:");
    reveal_strlit("th:text");
    reveal_strlit("th:utext");
    reveal_strlit("th:if");
    reveal_strlit("th:unless");
    reveal_strlit("th:each");
    reveal_strlit("th:switch");
    reveal_strlit("th:case");
    reveal_strlit("th:object");
    reveal_strlit("th:with");
    reveal_strlit("th:attr");
    reveal_strlit("th:attrappend");
    reveal_strlit("th:attrprepend");
    reveal_strlit("th:value");
    reveal_strlit("th:href");
    reveal_strlit("th:src");
    reveal_strlit("th:action");
    reveal_strlit("th:method");
    reveal_strlit("th:field");
    reveal_strlit("th:errors");
    reveal_strlit("th:errorclass");
    reveal_strlit("th:fragment");
    reveal_strlit("th:insert");
    reveal_strlit("th:replace");
    reveal_strlit("th:include");
    reveal_strlit("th:remove");
    reveal_strlit("th:class");
    reveal_strlit("th:classappend");
    reveal_strlit("th:style");
    reveal_strlit("th:styleappend");
    reveal_strlit("th:id");
    reveal_strlit("th:name");
    reveal_strlit("th:selected");
    reveal_strlit("th:checked");
    reveal_strlit("th:disabled");
    reveal_strlit("th:readonly");
    reveal_strlit("th:multiple");
    reveal_strlit("th:placeholder");
    reveal_strlit("th:alt");
    reveal_strlit("th:title");
    reveal_strlit("th:lang");
    reveal_strlit("th:block");
    reveal_strlit("th:inline");
    assert forall|i: int| 0 <= i < catalog().len() implies #[trigger] has_prefix(catalog()[i].0, "th:"@) by {
        assert(catalog()[i].0.take(3) =~= "th:"@);
    }
}

} // verus!

verus! {


/// The key that tells catalog names apart: length, first letter after
/// `th:`, last letter.
spec fn name_key(n: Seq<char>) -> (int, char, char) {
    (n.len() as int, n[3], n[n.len() - 1])
}

proof fn lemma_catalog_keys()
    ensures
        catalog().map_values(|e: (Seq<char>, Seq<char>, Seq<char>)| name_key(e.0)) == seq![(7int, 't', 't'), (8int, 'u', 't'), (5int, 'i', 'f'), (9int, 'u', 's'), (7int, 'e', 'h'), (9int, 's', 'h'), (7int, 'c', 'e'), (9int, 'o', 't'), (7int, 'w', 'h'), (7int, 'a', 'r'), (13int, 'a', 'd'), (14int, 'a', 'd'), (8int, 'v', 'e'), (7int, 'h', 'f'), (6int, 's', 'c'), (9int, 'a', 'n'), (9int, 'm', 'd'), (8int, 'f', 'd'), (9int, 'e', 's'), (13int, 'e', 's'), (11int, 'f', 't'), (9int, 'i', 't'), (10int, 'r', 'e'), (10int, 'i', 'e'), (9int, 'r', 'e'), (8int, 'c', 's'), (14int, 'c', 'd'), (8int, 's', 'e'), (14int, 's', 'd'), (5int, 'i', 'd'), (7int, 'n', 'e'), (11int, 's', 'd'), (10int, 'c', 'd'), (11int, 'd', 'd'), (11int, 'r', 'y'), (11int, 'm', 'e'), (14int, 'p', 'r'), (6int, 'a', 't'), (8int, 't', 'e'), (7int, 'l', 'g'), (8int, 'b', 'k'), (9int, 'i', 'e')],
{
    reveal_strlit("th:text");
    reveal_strlit("th:utext");
    reveal_strlit("th:if");
    reveal_strlit("th:unless");
    reveal_strlit("th:each");
    reveal_strlit("th:switch");
    reveal_strlit("th:case");
    reveal_strlit("th:object");
    reveal_strlit("th:with");
    reveal_strlit("th:attr");
    reveal_strlit("th:attrappend");
    reveal_strlit("th:attrprepend");
    reveal_strlit("th:value");
    reveal_strlit("th:href");
    reveal_strlit("th:src");
    reveal_strlit("th:action");
    reveal_strlit("th:method");
    reveal_strlit("th:field");
    reveal_strlit("th:errors");
    reveal_strlit("th:errorclass");
    reveal_strlit("th:fragment");
    reveal_strlit("th:insert");
    reveal_strlit("th:replace");
    reveal_strlit("th:include");
    reveal_strlit("th:remove");
    reveal_strlit("th:class");
    reveal_strlit("th:classappend");
    reveal_strlit("th:style");
    reveal_strlit("th:styleappend");
    reveal_strlit("th:id");
    reveal_strlit("th:name");
    reveal_strlit("th:selected");
    reveal_strlit("th:checked");
    reveal_strlit("th:disabled");
    reveal_strlit("th:readonly");
    reveal_strlit("th:multiple");
    reveal_strlit("th:placeholder");
    reveal_strlit("th:alt");
    reveal_strlit("th:title");
    reveal_strlit("th:lang");
    reveal_strlit("th:block");
    reveal_strlit("th:inline");
    assert(catalog().map_values(|e: (Seq<char>, Seq<char>, Seq<char>)| name_key(e.0)) =~= seq![(7int, 't', 't'), (8int, 'u', 't'), (5int, 'i', 'f'), (9int, 'u', 's'), (7int, 'e', 'h'), (9int, 's', 'h'), (7int, 'c', 'e'), (9int, 'o', 't'), (7int, 'w', 'h'), (7int, 'a', 'r'), (13int, 'a', 'd'), (14int, 'a', 'd'), (8int, 'v', 'e'), (7int, 'h', 'f'), (6int, 's', 'c'), (9int, 'a', 'n'), (9int, 'm', 'd'), (8int, 'f', 'd'), (9int, 'e', 's'), (13int, 'e', 's'), (11int, 'f', 't'), (9int, 'i', 't'), (10int, 'r', 'e'), (10int, 'i', 'e'), (9int, 'r', 'e'), (8int, 'c', 's'), (14int, 'c', 'd'), (8int, 's', 'e'), (14int, 's', 'd'), (5int, 'i', 'd'), (7int, 'n', 'e'), (11int, 's', 'd'), (10int, 'c', 'd'), (11int, 'd', 'd'), (11int, 'r', 'y'), (11int, 'm', 'e'), (14int, 'p', 'r'), (6int, 'a', 't'), (8int, 't', 'e'), (7int, 'l', 'g'), (8int, 'b', 'k'), (9int, 'i', 'e')]);
}


/// A lowercase ASCII letter or `:`.
spec fn canon_char(c: char) -> bool {
    ('a' <= c && c <= 'z') || c == ':'
}

proof fn lemma_catalog_chars()
    ensures
        forall|i: int, k: int|
            0 <= i < catalog().len() && 0 <= k < catalog()[i].0.len() ==> canon_char(
                #[trigger] catalog()[i].0[k],
            ),
        forall|i: int| 0 <= i < catalog().len() ==> #[trigger] catalog()[i].0.len() > 0,
{
    reveal_strlit("th:text");
    reveal_strlit("th:utext");
    reveal_strlit("th:if");
    reveal_strlit("th:unless");
    reveal_strlit("th:each");
    reveal_strlit("th:switch");
    reveal_strlit("th:case");
    reveal_strlit("th:object");
    reveal_strlit("th:with");
    reveal_strlit("th:attr");
    reveal_strlit("th:attrappend");
    reveal_strlit("th:attrprepend");
    reveal_strlit("th:value");
    reveal_strlit("th:href");
    reveal_strlit("th:src");
    reveal_strlit("th:action");
    reveal_strlit("th:method");
    reveal_strlit("th:field");
    reveal_strlit("th:errors");
    reveal_strlit("th:errorclass");
    reveal_strlit("th:fragment");
    reveal_strlit("th:insert");
    reveal_strlit("th:replace");
    reveal_strlit("th:include");
    reveal_strlit("th:remove");
    reveal_strlit("th:class");
    reveal_strlit("th:classappend");
    reveal_strlit("th:style");
    reveal_strlit("th:styleappend");
    reveal_strlit("th:id");
    reveal_strlit("th:name");
    reveal_strlit("th:selected");
    reveal_strlit("th:checked");
    reveal_strlit("th:disabled");
    reveal_strlit("th:readonly");
    reveal_strlit("th:multiple");
    reveal_strlit("th:placeholder");
    reveal_strlit("th:alt");
    reveal_strlit("th:title");
    reveal_strlit("th:lang");
    reveal_strlit("th:block");
    reveal_strlit("th:inline");
    assert forall|i: int, k: int|
        0 <= i < catalog().len() && 0 <= k < catalog()[i].0.len() implies canon_char(
            #[trigger] catalog()[i].0[k],
        ) by {
        assert(0 <= i < catalog().len());
    }
}

proof fn lemma_canon_fixed(s: Seq<char>)
    requires
        s.len() > 0,
        forall|k: int| 0 <= k < s.len() ==> canon_char(#[trigger] s[k]),
    ensures
        lower_seq(trim_seq(s)) == s,
{
    assert(canon_char(s[0]) && canon_char(s[s.len() - 1]));
    lemma_trim_fixed(s);
    assert(lower_seq(s) =~= s) by {
        assert forall|k: int| 0 <= k < s.len() implies #[trigger] lower_seq(s)[k] == s[k] by {
            assert(canon_char(s[k]));
        }
    }
}


proof fn lemma_catalog_texts()
    ensures
        forall|i: int|
            0 <= i < catalog().len() ==> #[trigger] catalog()[i].1.len() > 0 && catalog()[i].2.len() > 0,
{
    reveal_strlit("Sets the escaped text content of an element.");
    reveal_strlit("Sets the (HTML-escaped) text body of the tag, replacing its content.\n\n```html\n<p th:text=\"${user.name}\">placeholder</p>\n```");
    reveal_strlit("Sets the unescaped text content of an element.");
    reveal_strlit("Sets the tag body to *unescaped* text — raw HTML is rendered as markup.\nUse with care (XSS risk).\n\n```html\n<div th:utext=\"${htmlSnippet}\">...</div>\n```");
    reveal_strlit("Renders the element only if the expression is true.");
    reveal_strlit("Conditionally includes the element (and its content) when the expression\nevaluates truthy.\n\n```html\n<span th:if=\"${user.admin}\">Admin</span>\n```");
    reveal_strlit("Renders the element only if the expression is false.");
    reveal_strlit("The negated counterpart of `th:if`.\n\n```html\n<span th:unless=\"${user.admin}\">Regular user</span>\n```");
    reveal_strlit("Iterates over a collection, repeating the element.");
    reveal_strlit("Iterates a collection/array/map/iterable, repeating the host tag for each\nitem. Supports an optional status variable.\n\n```html\n<li th:each=\"item : ${items}\" th:text=\"${item.name}\">item</li>\n```");
    reveal_strlit("Selects one of several th:case branches.");
    reveal_strlit("Structural switch statement; used together with `th:case`.\n\n```html\n<div th:switch=\"${user.role}\">\n  <p th:case=\"'admin'\">Administrator</p>\n  <p th:case=\"*\">Unknown</p>\n</div>\n```");
    reveal_strlit("A branch of an enclosing th:switch.");
    reveal_strlit("Marks a case within a `th:switch`. `th:case=\"*\"` is the default branch.\n\n```html\n<p th:case=\"'admin'\">Administrator</p>\n```");
    reveal_strlit("Selects an object for *{...} selection expressions.");
    reveal_strlit("Sets the selection target so descendant `*{...}` expressions resolve\nagainst it.\n\n```html\n<div th:object=\"${user}\">\n  <span th:text=\"*{name}\">name</span>\n</div>\n```");
    reveal_strlit("Declares local variables for the element's scope.");
    reveal_strlit("Defines one or more local variables visible within the element subtree.\n\n```html\n<div th:with=\"total=${a + b}\">\n  <span th:text=\"${total}\">0</span>\n</div>\n```");
    reveal_strlit("Sets arbitrary attributes from expressions.");
    reveal_strlit("Generic attribute setter; can set several attributes at once.\n\n```html\n<img th:attr=\"src=@{/img/logo.png},title=${title}\" />\n```");
    reveal_strlit("Appends a value to an existing attribute.");
    reveal_strlit("Appends the computed value to the end of an attribute.\n\n```html\n<div class=\"base\" th:attrappend=\"class=${' ' + extra}\">...</div>\n```");
    reveal_strlit("Prepends a value to an existing attribute.");
    reveal_strlit("Prepends the computed value to the start of an attribute.\n\n```html\n<div class=\"base\" th:attrprepend=\"class=${extra + ' '}\">...</div>\n```");
    reveal_strlit("Sets the value attribute.");
    reveal_strlit("Shorthand for setting the `value` attribute of an input.\n\n```html\n<input type=\"text\" th:value=\"${user.name}\" />\n```");
    reveal_strlit("Sets the href attribute (usually a link expression).");
    reveal_strlit("Sets `href`, typically with a link `@{...}` expression that handles\ncontext paths and URL parameters.\n\n```html\n<a th:href=\"@{/users/{id}(id=${user.id})}\">profile</a>\n```");
    reveal_strlit("Sets the src attribute.");
    reveal_strlit("Sets `src`, typically with a link `@{...}` expression.\n\n```html\n<img th:src=\"@{/images/logo.png}\" />\n```");
    reveal_strlit("Sets a form's action attribute.");
    reveal_strlit("Sets the `action` of a form, usually via a link `@{...}` expression.\n\n```html\n<form th:action=\"@{/login}\" method=\"post\">...</form>\n```");
    reveal_strlit("Sets a form's method attribute.");
    reveal_strlit("Sets the HTTP `method` of a form.\n\n```html\n<form th:method=\"${'post'}\">...</form>\n```");
    reveal_strlit("Binds an input to a form-backing bean field.");
    reveal_strlit("Binds the input to a property of the `th:object`/command bean, setting\n`id`, `name` and `value` (or checked/selected) automatically.\n\n```html\n<input type=\"text\" th:field=\"*{email}\" />\n```");
    reveal_strlit("Renders validation errors for a bound field.");
    reveal_strlit("Outputs the accumulated validation error messages for a field.\n\n```html\n<span th:errors=\"*{email}\">error</span>\n```");
    reveal_strlit("Adds a CSS class when the bound field has errors.");
    reveal_strlit("Appends the given CSS class to the element only if the field has errors.\n\n```html\n<input th:field=\"*{email}\" th:errorclass=\"invalid\" />\n```");
    reveal_strlit("Declares a reusable fragment.");
    reveal_strlit("Defines a named, optionally parameterized fragment for reuse via\n`th:insert`/`th:replace`.\n\n```html\n<div th:fragment=\"header(title)\">\n  <h1 th:text=\"${title}\">Title</h1>\n</div>\n```");
    reveal_strlit("Inserts a fragment inside the host tag.");
    reveal_strlit("Inserts the referenced fragment as *content* of the host tag (host tag is\nkept).\n\n```html\n<div th:insert=\"~{fragments :: header}\"></div>\n```");
    reveal_strlit("Replaces the host tag with a fragment.");
    reveal_strlit("Replaces the host tag entirely with the referenced fragment.\n\n```html\n<div th:replace=\"~{fragments :: header('Home')}\"></div>\n```");
    reveal_strlit("Includes a fragment's content (deprecated; use th:insert).");
    reveal_strlit("Includes the *contents* of a fragment. Deprecated since Thymeleaf 3 in\nfavour of `th:insert`.\n\n```html\n<div th:include=\"~{fragments :: header}\"></div>\n```");
    reveal_strlit("Removes the element/content at render time.");
    reveal_strlit("Removes the tag, its body, or repeated occurrences. Values: `all`,\n`body`, `tag`, `all-but-first`, `none`.\n\n```html\n<tr th:remove=\"all\">prototype row</tr>\n```");
    reveal_strlit("Sets the class attribute.");
    reveal_strlit("Sets the `class` attribute from an expression.\n\n```html\n<div th:class=\"${active} ? 'on' : 'off'\">...</div>\n```");
    reveal_strlit("Appends CSS classes to the existing class attribute.");
    reveal_strlit("Appends computed CSS class(es) without discarding static ones.\n\n```html\n<div class=\"box\" th:classappend=\"${active} ? 'active'\">...</div>\n```");
    reveal_strlit("Sets the style attribute.");
    reveal_strlit("Sets the inline `style` attribute from an expression.\n\n```html\n<div th:style=\"'color:' + ${color}\">...</div>\n```");
    reveal_strlit("Appends to the existing style attribute.");
    reveal_strlit("Appends computed inline styles without discarding static ones.\n\n```html\n<div style=\"margin:0\" th:styleappend=\"'color:' + ${color}\">...</div>\n```");
    reveal_strlit("Sets the id attribute.");
    reveal_strlit("Sets the `id` attribute from an expression.\n\n```html\n<div th:id=\"'row-' + ${item.id}\">...</div>\n```");
    reveal_strlit("Sets the name attribute.");
    reveal_strlit("Sets the `name` attribute from an expression.\n\n```html\n<input th:name=\"${fieldName}\" />\n```");
    reveal_strlit("Fixed-value boolean attribute: selected.");
    reveal_strlit("Sets/removes the `selected` boolean attribute based on the expression.\n\n```html\n<option th:selected=\"${item.id == current}\">...</option>\n```");
    reveal_strlit("Fixed-value boolean attribute: checked.");
    reveal_strlit("Sets/removes the `checked` boolean attribute based on the expression.\n\n```html\n<input type=\"checkbox\" th:checked=\"${user.active}\" />\n```");
    reveal_strlit("Fixed-value boolean attribute: disabled.");
    reveal_strlit("Sets/removes the `disabled` boolean attribute based on the expression.\n\n```html\n<button th:disabled=\"${!form.valid}\">Save</button>\n```");
    reveal_strlit("Fixed-value boolean attribute: readonly.");
    reveal_strlit("Sets/removes the `readonly` boolean attribute based on the expression.\n\n```html\n<input th:readonly=\"${locked}\" />\n```");
    reveal_strlit("Fixed-value boolean attribute: multiple.");
    reveal_strlit("Sets/removes the `multiple` boolean attribute based on the expression.\n\n```html\n<select th:multiple=\"${allowMany}\">...</select>\n```");
    reveal_strlit("Sets the placeholder attribute.");
    reveal_strlit("Sets the `placeholder` attribute, often from a message expression.\n\n```html\n<input th:placeholder=\"#{form.email}\" />\n```");
    reveal_strlit("Sets the alt attribute.");
    reveal_strlit("Sets the `alt` attribute of an image.\n\n```html\n<img th:alt=\"#{logo.alt}\" th:src=\"@{/logo.png}\" />\n```");
    reveal_strlit("Sets the title attribute.");
    reveal_strlit("Sets the `title` attribute.\n\n```html\n<a th:title=\"#{link.help}\">?</a>\n```");
    reveal_strlit("Sets the lang attribute.");
    reveal_strlit("Sets the `lang` attribute.\n\n```html\n<html th:lang=\"${#locale.language}\">...</html>\n```");
    reveal_strlit("A synthetic container element (<th:block>).");
    reveal_strlit("The `th:block` element is a non-rendered container, useful to apply\niteration/conditions without introducing a wrapping tag.\n\n```html\n<th:block th:each=\"i : ${items}\">\n  <td th:text=\"${i}\">0</td>\n</th:block>\n```");
    reveal_strlit("Enables inline expression processing in text/JS/CSS.");
    reveal_strlit("Enables inlined expressions (`[[...]]` / `[(...)]`) within the element.\nValues: `text`, `javascript`, `css`, `none`.\n\n```html\n<script th:inline=\"javascript\">\n  var user = /*[[${user.name}]]*/ 'default';\n</script>\n```");
}

/// The catalog holds 42 attributes and names each once, in its canonical spelling:
/// lowercase, without surrounding whitespace, starting with `th:`; every
/// entry has a summary and documentation.
#[verifier::rlimit(100)]
pub proof fn law_catalog_names()
    ensures
        catalog().len() == 42,
        forall|i: int, j: int|
            0 <= i < j < catalog().len() ==> #[trigger] catalog()[i].0 != #[trigger] catalog()[j].0,
        forall|i: int|
            0 <= i < catalog().len() ==> lower_seq(trim_seq(#[trigger] catalog()[i].0)) == catalog()[i].0,
        forall|i: int| 0 <= i < catalog().len() ==> #[trigger] has_prefix(catalog()[i].0, "th:"@),
        forall|i: int|
            0 <= i < catalog().len() ==> #[trigger] catalog()[i].1.len() > 0 && catalog()[i].2.len() > 0,
{
    lemma_catalog_texts();
    lemma_catalog_keys();
    let keys = seq![(7int, 't', 't'), (8int, 'u', 't'), (5int, 'i', 'f'), (9int, 'u', 's'), (7int, 'e', 'h'), (9int, 's', 'h'), (7int, 'c', 'e'), (9int, 'o', 't'), (7int, 'w', 'h'), (7int, 'a', 'r'), (13int, 'a', 'd'), (14int, 'a', 'd'), (8int, 'v', 'e'), (7int, 'h', 'f'), (6int, 's', 'c'), (9int, 'a', 'n'), (9int, 'm', 'd'), (8int, 'f', 'd'), (9int, 'e', 's'), (13int, 'e', 's'), (11int, 'f', 't'), (9int, 'i', 't'), (10int, 'r', 'e'), (10int, 'i', 'e'), (9int, 'r', 'e'), (8int, 'c', 's'), (14int, 'c', 'd'), (8int, 's', 'e'), (14int, 's', 'd'), (5int, 'i', 'd'), (7int, 'n', 'e'), (11int, 's', 'd'), (10int, 'c', 'd'), (11int, 'd', 'd'), (11int, 'r', 'y'), (11int, 'm', 'e'), (14int, 'p', 'r'), (6int, 'a', 't'), (8int, 't', 'e'), (7int, 'l', 'g'), (8int, 'b', 'k'), (9int, 'i', 'e')];
    assert forall|i: int, j: int| 0 <= i < j < keys.len() implies keys[i] != keys[j] by {
        assert(0 <= i < keys.len());
    }
    assert forall|i: int, j: int| 0 <= i < j < catalog().len() implies #[trigger] catalog()[i].0 != #[trigger] catalog()[j].0 by {
        let m = catalog().map_values(|e: (Seq<char>, Seq<char>, Seq<char>)| name_key(e.0));
        assert(m[i] == keys[i] && m[j] == keys[j]);
    }
    law_catalog_canonical();
    lemma_catalog_chars();
    assert forall|i: int| 0 <= i < catalog().len() implies lower_seq(trim_seq(#[trigger] catalog()[i].0))
        == catalog()[i].0 by {
        let n = catalog()[i].0;
        assert forall|k: int| 0 <= k < n.len() implies canon_char(#[trigger] n[k]) by {
            assert(canon_char(catalog()[i].0[k]));
        }
        lemma_canon_fixed(n);
    }
}

/// Every catalog entry is found by lookup: under its own name, under its
/// `data-th-` spelling, and under any spelling whose trimmed lowercase form
/// is its name (upper case, padding).
pub proof fn law_lookup_finds_every_entry(i: int, s: Seq<char>)
    requires
        0 <= i < catalog().len(),
    ensures
        lookup_spec(catalog()[i].0) == Some(catalog()[i]),
        lookup_spec("data-th-"@ + catalog()[i].0.skip(3)) == Some(catalog()[i]),
        lower_seq(trim_seq(s)) == catalog()[i].0 ==> lookup_spec(s) == Some(catalog()[i]),
{
    law_catalog_names();
    let n = catalog()[i].0;
    assert(has_prefix(n, "th:"@));
    assert(catalog_position(n) == Some(i)) by {
        assert(catalog()[i].0 == n);
        let j = choose|j: int| 0 <= j < catalog().len() && #[trigger] catalog()[j].0 == n
            && forall|k: int| 0 <= k < j ==> #[trigger] catalog()[k].0 != n;
        assert(exists|j: int| 0 <= j < catalog().len() && #[trigger] catalog()[j].0 == n
            && forall|k: int| 0 <= k < j ==> #[trigger] catalog()[k].0 != n) by {
            assert forall|k: int| 0 <= k < i implies #[trigger] catalog()[k].0 != n by {}
        }
        if j < i {
            assert(catalog()[j].0 != catalog()[i].0);
        } else if j > i {
            assert(catalog()[i].0 != n);
        }
    }
    assert(normalize_spec(n) == Some(n));
    reveal_strlit("th:");
    law_lookup_data_th_form(n.skip(3));
    assert("th:"@ + n.skip(3) =~= n);
}


/// The key that tells expression tokens apart: length and first two
/// characters.
spec fn token_key(t: Seq<char>) -> (int, char, char) {
    (t.len() as int, t[0], t[1])
}

/// Whether `t` is written `X{...}`.
pub open spec fn braced_token(t: Seq<char>) -> bool {
    t.len() >= 5 && t.skip(t.len() - 5) == "{...}"@
}

proof fn lemma_expression_tokens()
    ensures
        expression_catalog().map_values(|e: (Seq<char>, Seq<char>)| token_key(e.0)) == seq![(6int, '$', '{'), (6int, '*', '{'), (6int, '#', '{'), (6int, '@', '{'), (6int, '~', '{'), (6int, '#', 'd'), (10int, '#', 'c'), (8int, '#', 'n'), (8int, '#', 's'), (8int, '#', 'o'), (6int, '#', 'b'), (7int, '#', 'a'), (6int, '#', 'l'), (5int, '#', 's'), (5int, '#', 'm'), (11int, '#', 'a'), (4int, '#', 'i')],
        forall|i: int|
            0 <= i < expression_catalog().len() ==> (braced_token(#[trigger] expression_catalog()[i].0)
                || expression_catalog()[i].0[0] == '#'),
        forall|i: int|
            0 <= i < expression_catalog().len() ==> (braced_token(#[trigger] expression_catalog()[i].0)
                <==> has_prefix(expression_catalog()[i].1, "**"@)),
        forall|i: int| 0 <= i < expression_catalog().len() ==> #[trigger] expression_catalog()[i].1.len() > 0,
        expression_catalog()[0].0 == "${...}"@,
        expression_catalog()[1].0 == "*{...}"@,
        expression_catalog()[2].0 == "#{...}"@,
        expression_catalog()[3].0 == "@{...}"@,
        expression_catalog()[4].0 == "~{...}"@,
{
    reveal_strlit("${...}");
    reveal_strlit("*{...}");
    reveal_strlit("#{...}");
    reveal_strlit("@{...}");
    reveal_strlit("~{...}");
    reveal_strlit("#dates");
    reveal_strlit("#calendars");
    reveal_strlit("#numbers");
    reveal_strlit("#strings");
    reveal_strlit("#objects");
    reveal_strlit("#bools");
    reveal_strlit("#arrays");
    reveal_strlit("#lists");
    reveal_strlit("#sets");
    reveal_strlit("#maps");
    reveal_strlit("#aggregates");
    reveal_strlit("#ids");
    reveal_strlit("**Variable expression** — evaluates against the context variables (the model).\n\n```html\n<span th:text=\"${user.name}\">name</span>\n```");
    reveal_strlit("**Selection expression** — evaluates against the current `th:object` selection.\n\n```html\n<div th:object=\"${user}\"><span th:text=\"*{name}\">name</span></div>\n```");
    reveal_strlit("**Message (i18n) expression** — resolves externalized text from message bundles.\n\n```html\n<p th:text=\"#{home.welcome}\">Welcome</p>\n```");
    reveal_strlit("**Link (URL) expression** — builds context-aware URLs and query parameters.\n\n```html\n<a th:href=\"@{/users/{id}(id=${id})}\">link</a>\n```");
    reveal_strlit("**Fragment expression** — references a fragment for inclusion.\n\n```html\n<div th:insert=\"~{footer :: copy}\"></div>\n```");
    reveal_strlit("Utility object for `java.util.Date` formatting and creation.\n\n`${#dates.format(date, 'dd/MMM/yyyy HH:mm')}`");
    reveal_strlit("Utility object analogous to `#dates` but for `java.util.Calendar`.");
    reveal_strlit("Utility object for formatting numeric values.\n\n`${#numbers.formatDecimal(n, 3, 2)}`");
    reveal_strlit("Utility object for `String` operations.\n\n`${#strings.isEmpty(name)}`, `${#strings.abbreviate(s, 10)}`");
    reveal_strlit("Utility object for general object operations, e.g. defaults.\n\n`${#objects.nullSafe(obj, default)}`");
    reveal_strlit("Utility object for boolean evaluation.\n\n`${#bools.isTrue(cond)}`");
    reveal_strlit("Utility object for arrays.\n\n`${#arrays.length(arr)}`, `${#arrays.contains(arr, x)}`");
    reveal_strlit("Utility object for lists.\n\n`${#lists.size(list)}`, `${#lists.isEmpty(list)}`");
    reveal_strlit("Utility object for sets.\n\n`${#sets.size(set)}`, `${#sets.contains(set, x)}`");
    reveal_strlit("Utility object for maps.\n\n`${#maps.size(map)}`, `${#maps.containsKey(map, k)}`");
    reveal_strlit("Utility object for aggregation over arrays/collections.\n\n`${#aggregates.sum(list)}`, `${#aggregates.avg(list)}`");
    reveal_strlit("Utility object for generating unique `id` attributes in iterations.\n\n`${#ids.seq('itemId')}`");
    reveal_strlit("{...}");
    reveal_strlit("**");
    assert(expression_catalog().map_values(|e: (Seq<char>, Seq<char>)| token_key(e.0)) =~= seq![(6int, '$', '{'), (6int, '*', '{'), (6int, '#', '{'), (6int, '@', '{'), (6int, '~', '{'), (6int, '#', 'd'), (10int, '#', 'c'), (8int, '#', 'n'), (8int, '#', 's'), (8int, '#', 'o'), (6int, '#', 'b'), (7int, '#', 'a'), (6int, '#', 'l'), (5int, '#', 's'), (5int, '#', 'm'), (11int, '#', 'a'), (4int, '#', 'i')]);
    assert forall|i: int| 0 <= i < expression_catalog().len() implies (braced_token(#[trigger] expression_catalog()[i].0)
        || expression_catalog()[i].0[0] == '#') && (braced_token(expression_catalog()[i].0)
        <==> has_prefix(expression_catalog()[i].1, "**"@)) by {
        let t = expression_catalog()[i].0;
        let m = expression_catalog()[i].1;
        if i < 5 {
            assert(t.skip(t.len() - 5) =~= "{...}"@);
            assert(m.take(2) =~= "**"@);
        } else {
            if t.len() >= 5 {
                assert(t.skip(t.len() - 5)[4] == t[t.len() - 1]);
                assert(t[t.len() - 1] != '}');
                assert(t.skip(t.len() - 5) != "{...}"@);
            }
            assert(m.take(2) != "**"@) by {
                assert(m.take(2)[0] != '*');
            }
        }
    }
}

/// The expression catalog lists 17 tokens, each once, starting with the five
/// core expression forms; each token is a braced form or a `#` utility
/// object, its documentation is never empty, and exactly the braced forms
/// are documented with a bold title.
pub proof fn law_expression_catalog()
    ensures
        expression_catalog().len() == 17,
        forall|i: int, j: int|
            0 <= i < j < expression_catalog().len() ==> #[trigger] expression_catalog()[i].0
                != #[trigger] expression_catalog()[j].0,
        expression_catalog()[0].0 == "${...}"@,
        expression_catalog()[1].0 == "*{...}"@,
        expression_catalog()[2].0 == "#{...}"@,
        expression_catalog()[3].0 == "@{...}"@,
        expression_catalog()[4].0 == "~{...}"@,
        forall|i: int|
            0 <= i < expression_catalog().len() ==> (braced_token(#[trigger] expression_catalog()[i].0)
                || expression_catalog()[i].0[0] == '#'),
        forall|i: int|
            0 <= i < expression_catalog().len() ==> (braced_token(#[trigger] expression_catalog()[i].0)
                <==> has_prefix(expression_catalog()[i].1, "**"@)),
        forall|i: int| 0 <= i < expression_catalog().len() ==> #[trigger] expression_catalog()[i].1.len() > 0,
{
    lemma_expression_tokens();
    let keys = seq![(6int, '$', '{'), (6int, '*', '{'), (6int, '#', '{'), (6int, '@', '{'), (6int, '~', '{'), (6int, '#', 'd'), (10int, '#', 'c'), (8int, '#', 'n'), (8int, '#', 's'), (8int, '#', 'o'), (6int, '#', 'b'), (7int, '#', 'a'), (6int, '#', 'l'), (5int, '#', 's'), (5int, '#', 'm'), (11int, '#', 'a'), (4int, '#', 'i')];
    assert forall|i: int, j: int| 0 <= i < j < keys.len() implies keys[i] != keys[j] by {
        assert(0 <= i < keys.len());
    }
    assert forall|i: int, j: int| 0 <= i < j < expression_catalog().len() implies #[trigger] expression_catalog()[i].0
        != #[trigger] expression_catalog()[j].0 by {
        let m = expression_catalog().map_values(|e: (Seq<char>, Seq<char>)| token_key(e.0));
        assert(m[i] == keys[i] && m[j] == keys[j]);
    }
}

/// Lookup takes the trimmed, lowercased name, reads `data-th-x` as `th:x`,
/// and returns the first catalog entry of that name; it finds nothing when
/// the name is in neither form or no entry carries it.
#[verifier::rlimit(100)]
#[verifier::spinoff_prover]
pub proof fn law_lookup_first_entry(name: Seq<char>)
    ensures
        lookup_spec(name) matches Some(e) ==> normalize_spec(name) == Some(e.0) && exists|i: int|
            0 <= i < catalog().len() && #[trigger] catalog()[i] == e && forall|j: int|
                0 <= j < i ==> #[trigger] catalog()[j].0 != e.0,
        lookup_spec(name) is None <==> (normalize_spec(name) is None || forall|i: int|
            0 <= i < catalog().len() ==> #[trigger] catalog()[i].0 != normalize_spec(name)->0),
        normalize_spec(name) == ({
            let l = lower_seq(trim_seq(name));
            if has_prefix(l, "th:"@) {
                Some(l)
            } else if has_prefix(l, "data-th-"@) {
                Some("th:"@ + l.skip(8))
            } else {
                None
            }
        }),
{
    if let Some(n) = normalize_spec(name) {
        if exists|i: int| 0 <= i < catalog().len() && #[trigger] catalog()[i].0 == n {
            let p = catalog_position(n)->0;
            assert(catalog()[p].0 == n);
        }
    }
}

/// A sequence without whitespace at either end is its own trim.
pub proof fn lemma_trim_fixed(x: Seq<char>)
    requires
        x.len() == 0 || (!is_unicode_ws(x[0]) && !is_unicode_ws(x.last())),
    ensures
        trim_seq(x) == x,
{
    if x.len() > 0 {
        assert(lead_ws(x) == 0);
        assert(trim_start_seq(x) =~= x);
        assert(trail_ws(x) == 0);
        assert(x.take(x.len() as int) =~= x);
    } else {
        assert(trim_start_seq(x) =~= x);
        assert(x.take(0) =~= x);
    }
}

/// A trimmed sequence has no whitespace at either end.
pub proof fn lemma_trim_ends(s: Seq<char>)
    ensures
        trim_seq(s).len() == 0 || (!is_unicode_ws(trim_seq(s)[0]) && !is_unicode_ws(trim_seq(s).last())),
{
    lemma_lead_ws_bound(s);
    let u = trim_start_seq(s);
    lemma_trail_ws_bound(u);
    let t = trim_seq(s);
    if t.len() > 0 {
        assert(t[0] == u[0]);
        assert(u[0] == s[lead_ws(s) as int]);
        assert(t.last() == u[u.len() - trail_ws(u) - 1]);
    }
}

/// The trimmed, lowercased form of a name is its own trimmed, lowercased
/// form.
pub proof fn lemma_lower_trim_fixed(s: Seq<char>)
    ensures
        lower_seq(trim_seq(lower_seq(trim_seq(s)))) == lower_seq(trim_seq(s)),
{
    lemma_trim_ends(s);
    lemma_trim_fixed(trim_seq(s));
    lemma_lower_trim(trim_seq(s));
}

} // verus!
