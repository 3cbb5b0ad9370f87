use greymd::markdown::table::Alignment;
use greymd::markdown::{
    escape_html, extract_title, heading_run_overflows, is_table_separator, parse_alignment, render,
    render_body, split_table_cells, wrap_html_page,
};

// === Foundational tests ===

#[test]
fn test_escape_html_angle_brackets() {
    assert_eq!(escape_html("<div>"), "&lt;div&gt;");
}

#[test]
fn test_escape_html_ampersand() {
    assert_eq!(escape_html("a & b"), "a &amp; b");
}

#[test]
fn test_escape_html_quote() {
    assert_eq!(escape_html(r#"say "hello""#), "say &quot;hello&quot;");
}

#[test]
fn test_escape_html_mixed() {
    assert_eq!(escape_html("<a>&\""), "&lt;a&gt;&amp;&quot;");
}

#[test]
fn test_escape_html_no_escaping_needed() {
    assert_eq!(escape_html("hello world"), "hello world");
}

#[test]
fn test_wrap_html_page() {
    let page = wrap_html_page("My Title", "<p>hello</p>", false);
    assert!(page.starts_with("<!DOCTYPE html>"));
    assert!(page.contains("<title>My Title</title>"));
    assert!(page.contains("<p>hello</p>"));
    assert!(page.contains("<meta charset=\"utf-8\">"));
    assert!(page.contains("</html>"));
    // Asset link
    assert!(page.contains("<link rel=\"stylesheet\" href=\"/?css\">"));
    assert!(page.contains(
        "<meta name=\"viewport\" content=\"width=device-width, initial-scale=1\">"
    ));
}

#[test]
fn test_wrap_html_page_empty_body() {
    let page = wrap_html_page("Empty", "", false);
    assert!(page.contains("<div class=\"content\">"));
    assert!(page.contains("<link"));
}

#[test]
fn test_wrap_html_page_contains_link_tag() {
    let page = wrap_html_page("Test", "<p>hi</p>", false);
    assert!(page.contains("<link"));
    assert!(page.contains("/?css"));
}

#[test]
fn test_wrap_html_page_contains_viewport_meta() {
    let page = wrap_html_page("Test", "", false);
    assert!(page.contains("width=device-width"));
}

#[test]
fn test_wrap_html_page_uses_link_not_inline() {
    let page = wrap_html_page("Test", "", false);
    assert!(page.contains("<link"));
    assert!(!page.contains("<style>"));
    assert!(!page.contains("@import"));
}

#[test]
fn test_wrap_html_page_with_custom_css_includes_css2_link() {
    let page = wrap_html_page("Test", "<p>hi</p>", true);
    assert!(page.contains("<link rel=\"stylesheet\" href=\"/?css\">"));
    assert!(page.contains("<link rel=\"stylesheet\" href=\"/?css2\">"));
}

#[test]
fn test_wrap_html_page_without_custom_css_no_css2_link() {
    let page = wrap_html_page("Test", "<p>hi</p>", false);
    assert!(page.contains("<link rel=\"stylesheet\" href=\"/?css\">"));
    assert!(!page.contains("/?css2"));
}

#[test]
fn test_extract_title_from_heading() {
    assert_eq!(
        extract_title("# Hello World\nsome text", "file.md"),
        "Hello World"
    );
}

#[test]
fn test_extract_title_fallback_to_filename() {
    assert_eq!(extract_title("no heading here", "notes.md"), "notes");
}

#[test]
fn test_extract_title_strips_md_extension() {
    assert_eq!(extract_title("just text", "README.md"), "README");
}

// === US1: Heading rendering ===

#[test]
fn test_heading_h1() {
    let body = render_body("# Hello");
    assert!(body.contains("id=\"hello\""));
    assert!(body.contains("Hello</h1>"));
    assert!(body.contains("href=\"#hello\""));
}

#[test]
fn test_heading_with_angle_brackets() {
    let body = render_body("# rd::expected<void, E>");
    assert!(body.contains("id=\"rdexpectedvoid-e\""), "got: {}", body);
    // Must NOT double-escape to &amp;lt;
    assert!(!body.contains("&amp;"), "double-escaped: {}", body);
}

#[test]
fn test_render_no_double_escape() {
    let page = render(
        "# rd::expected<void, E>\n\nSome text with <html> & \"quotes\"",
        "test.md",
        false,
    );
    // Title should be escaped once
    assert!(
        page.contains("<title>rd::expected&lt;void, E&gt;</title>"),
        "title: {}",
        page
    );
    // Body heading should be escaped once
    assert!(page.contains("id=\"rdexpectedvoid-e\""), "heading: {}", page);
    // Paragraph should be escaped once
    assert!(page.contains("&lt;html&gt;"), "html in para: {}", page);
    assert!(page.contains("&amp;"), "amp in para: {}", page);
    // Must NOT have &amp;lt; anywhere (double escape)
    assert!(!page.contains("&amp;lt;"), "double-escaped: {}", page);
    assert!(!page.contains("&amp;gt;"), "double-escaped: {}", page);
    assert!(!page.contains("&amp;amp;"), "double-escaped: {}", page);
}

#[test]
fn test_heading_h2_through_h6() {
    assert!(render_body("## Sub").contains("id=\"sub\">"));
    assert!(render_body("### Sub").contains("id=\"sub\">"));
    assert!(render_body("#### Sub").contains("id=\"sub\">"));
    assert!(render_body("##### Sub").contains("id=\"sub\">"));
    assert!(render_body("###### Sub").contains("id=\"sub\">"));
}

// === US1: Paragraph rendering ===

#[test]
fn test_paragraph_single() {
    let body = render_body("Hello world");
    assert_eq!(body.trim(), "<p>Hello world</p>");
}

#[test]
fn test_paragraph_separated_by_blank_line() {
    let body = render_body("First para\n\nSecond para");
    assert!(body.contains("<p>First para</p>"));
    assert!(body.contains("<p>Second para</p>"));
}

// === US1: Inline formatting ===

#[test]
fn test_inline_bold() {
    let body = render_body("**bold text**");
    assert!(body.contains("<strong>bold text</strong>"));
}

#[test]
fn test_inline_italic() {
    let body = render_body("*italic text*");
    assert!(body.contains("<em>italic text</em>"));
}

#[test]
fn test_inline_combined_bold_italic() {
    let body = render_body("***both***");
    assert!(body.contains("<strong><em>both</em></strong>"));
}

#[test]
fn test_inline_code() {
    let body = render_body("`some code`");
    assert!(body.contains("<code>some code</code>"));
}

#[test]
fn test_inline_code_escapes_html() {
    let body = render_body("`<div>`");
    assert!(body.contains("<code>&lt;div&gt;</code>"));
}

#[test]
fn test_double_backtick_inline_code() {
    let body = render_body("`` `code` ``");
    assert!(body.contains("<code>`code`</code>"));
}

// === US1: Link rendering ===

#[test]
fn test_link() {
    let body = render_body("[click here](https://example.com)");
    assert!(body.contains("<a href=\"https://example.com\">click here</a>"));
}

// === Strikethrough ===

#[test]
fn test_strikethrough() {
    let body = render_body("~~deleted~~");
    assert!(body.contains("<del>deleted</del>"));
}

#[test]
fn test_strikethrough_with_inline() {
    let body = render_body("~~**bold** deleted~~");
    assert!(body.contains("<del><strong>bold</strong> deleted</del>"));
}

// === Auto-linking ===

#[test]
fn test_autolink_https() {
    let body = render_body("Visit https://example.com for info");
    assert!(body.contains("<a href=\"https://example.com\">https://example.com</a>"));
}

#[test]
fn test_autolink_strips_trailing_punctuation() {
    let body = render_body("See https://example.com.");
    assert!(body.contains("<a href=\"https://example.com\">https://example.com</a>."));
}

#[test]
fn test_autolink_http() {
    let body = render_body("http://example.com works too");
    assert!(body.contains("<a href=\"http://example.com\">http://example.com</a>"));
}

// === Task lists ===

#[test]
fn test_task_list_unchecked() {
    let body = render_body("- [ ] todo item");
    assert!(body.contains("<input type=\"checkbox\" disabled> todo item"));
}

#[test]
fn test_task_list_checked() {
    let body = render_body("- [x] done item");
    assert!(body.contains("<input type=\"checkbox\" checked disabled> done item"));
}

#[test]
fn test_task_list_mixed() {
    let body = render_body("- [x] done\n- [ ] pending");
    assert!(body.contains("checked disabled> done"));
    assert!(body.contains("checkbox\" disabled> pending"));
}

// === US1: Fenced code block ===

#[test]
fn test_fenced_code_block_with_language() {
    let body = render_body("```rust\nfn main() {}\n```");
    assert!(body.contains("<pre><code class=\"language-rust\">"));
    assert!(body.contains("fn main() {}"));
    assert!(body.contains("</code></pre>"));
}

#[test]
fn test_fenced_code_block_no_language() {
    let body = render_body("```\nhello\n```");
    assert!(body.contains("<pre><code>hello</code></pre>"));
}

#[test]
fn test_fenced_code_block_escapes_html() {
    let body = render_body("```\n<div>&</div>\n```");
    assert!(body.contains("&lt;div&gt;&amp;&lt;/div&gt;"));
}

// === US1: Indented code block ===

#[test]
fn test_indented_code_block() {
    let body = render_body("    let x = 1;\n    let y = 2;");
    assert!(body.contains("<pre><code>let x = 1;\nlet y = 2;</code></pre>"));
}

// === US1: Full render ===

#[test]
fn test_render_produces_html_page() {
    let page = render("# Test\n\nHello world", "test.md", false);
    assert!(page.starts_with("<!DOCTYPE html>"));
    assert!(page.contains("<title>Test</title>"));
    assert!(page.contains("id=\"test\""));
    assert!(page.contains("<p>Hello world</p>"));
}

// === US3: Unordered lists ===

#[test]
fn test_unordered_list() {
    let body = render_body("- item one\n- item two");
    assert!(body.contains("<ul>"));
    assert!(body.contains("<li>item one</li>"));
    assert!(body.contains("<li>item two</li>"));
    assert!(body.contains("</ul>"));
}

// === US3: Ordered lists ===

#[test]
fn test_ordered_list() {
    let body = render_body("1. first\n2. second");
    assert!(body.contains("<ol>"));
    assert!(body.contains("<li>first</li>"));
    assert!(body.contains("<li>second</li>"));
    assert!(body.contains("</ol>"));
}

// === US3: Nested lists ===

#[test]
fn test_nested_list() {
    let body = render_body("- outer\n  - inner\n    - deep");
    assert!(body.contains("<ul>"));
    assert!(body.contains("<li>outer</li>"));
    assert!(body.contains("<li>inner</li>"));
    assert!(body.contains("<li>deep</li>"));
    // Should have nested ul elements
    let ul_count = body.matches("<ul>").count();
    assert!(ul_count >= 2, "expected nested <ul>, got body: {}", body);
}

// === US3: Blockquote ===

#[test]
fn test_blockquote() {
    let body = render_body("> quoted text");
    assert!(body.contains("<blockquote>"));
    assert!(body.contains("<p>quoted text</p>"));
    assert!(body.contains("</blockquote>"));
}

// === US3: Horizontal rule ===

#[test]
fn test_horizontal_rule_dashes() {
    let body = render_body("---");
    assert!(body.contains("<hr>"));
}

#[test]
fn test_horizontal_rule_asterisks() {
    let body = render_body("***");
    // *** could be hr or empty bold+italic; we treat standalone line as hr
    assert!(body.contains("<hr>"));
}

#[test]
fn test_horizontal_rule_underscores() {
    let body = render_body("___");
    assert!(body.contains("<hr>"));
}

// === US4: Images ===

#[test]
fn test_image() {
    let body = render_body("![alt text](image.png)");
    assert!(body.contains("<img src=\"image.png\" alt=\"alt text\">"));
}

#[test]
fn test_image_escapes_alt_text() {
    let body = render_body("![a <b> & c](pic.jpg)");
    assert!(body.contains("alt=\"a &lt;b&gt; &amp; c\""));
}

// === Edge cases ===

#[test]
fn test_empty_markdown() {
    let page = render("", "empty.md", false);
    assert!(page.contains("<title>empty</title>"));
    assert!(page.contains("<body>"));
}

#[test]
fn test_crlf_line_endings() {
    let body_lf = render_body("# Hello\n\nWorld");
    let body_crlf = render_body("# Hello\r\n\r\nWorld");
    assert_eq!(body_lf, body_crlf);
}

#[test]
fn test_html_escaping_in_heading() {
    let body = render_body("# Hello <world> & \"friends\"");
    assert!(body.contains("id=\"hello-world--friends\""));
    assert!(body.contains("Hello &lt;world&gt; &amp; &quot;friends&quot;</h1>"));
}

#[test]
fn test_html_escaping_in_list_item() {
    let body = render_body("- item with <html> & stuff");
    assert!(body.contains("<li>item with &lt;html&gt; &amp; stuff</li>"));
}

// ===== Table Tests =====

#[test]
fn test_is_table_separator_valid() {
    assert!(is_table_separator("|---|---|"));
    assert!(is_table_separator("| :--- | ---: | :---: |"));
    assert!(is_table_separator("---|---"));
    assert!(is_table_separator("|:---|:---:|---:|"));
}

#[test]
fn test_is_table_separator_invalid() {
    assert!(!is_table_separator("| no dashes |"));
    assert!(!is_table_separator("just some text"));
    assert!(!is_table_separator("| |"));
    assert!(!is_table_separator("||"));
}

#[test]
fn test_split_table_cells_basic() {
    let cells = split_table_cells("| a | b | c |");
    assert_eq!(cells, vec!["a", "b", "c"]);
}

#[test]
fn test_split_table_cells_no_outer_pipes() {
    let cells = split_table_cells("a | b | c");
    assert_eq!(cells, vec!["a", "b", "c"]);
}

#[test]
fn test_split_table_cells_pipe_in_code() {
    let cells = split_table_cells("| `a|b` | c |");
    assert_eq!(cells, vec!["`a|b`", "c"]);
}

#[test]
fn test_split_table_cells_empty_cell() {
    let cells = split_table_cells("| a || c |");
    assert_eq!(cells, vec!["a", "", "c"]);
}

#[test]
fn test_parse_alignment() {
    let aligns = parse_alignment("| :--- | ---: | :---: | --- |");
    assert_eq!(aligns.len(), 4);
    assert_eq!(aligns[0], Alignment::Left);
    assert_eq!(aligns[1], Alignment::Right);
    assert_eq!(aligns[2], Alignment::Center);
    assert_eq!(aligns[3], Alignment::Left);
}

#[test]
fn test_table_basic() {
    let body = render_body("| A | B | C |\n|---|---|---|\n| 1 | 2 | 3 |\n| 4 | 5 | 6 |");
    assert!(body.contains("<table>"));
    assert!(body.contains("<thead>"));
    assert!(body.contains("<tbody>"));
    assert!(body.contains("<th>A</th>"));
    assert!(body.contains("<th>B</th>"));
    assert!(body.contains("<th>C</th>"));
    assert!(body.contains("<td>1</td>"));
    assert!(body.contains("<td>6</td>"));
}

#[test]
fn test_table_inline_formatting() {
    let body = render_body("| H |\n|---|\n| **bold** |\n| `code` |\n| [link](url) |");
    assert!(body.contains("<td><strong>bold</strong></td>"));
    assert!(body.contains("<td><code>code</code></td>"));
    assert!(body.contains("<td><a href=\"url\">link</a></td>"));
}

#[test]
fn test_table_header_only() {
    let body = render_body("| A | B |\n|---|---|");
    assert!(body.contains("<table>"));
    assert!(body.contains("<th>A</th>"));
    assert!(body.contains("<th>B</th>"));
    assert!(body.contains("<tbody>"));
}

#[test]
fn test_no_table_without_separator() {
    let body = render_body("| A | B |\n| 1 | 2 |");
    assert!(!body.contains("<table>"));
    assert!(body.contains("<p>"));
}

#[test]
fn test_table_followed_by_paragraph() {
    let body = render_body("| A |\n|---|\n| 1 |\n\nSome text after.");
    assert!(body.contains("<table>"));
    assert!(body.contains("</table>"));
    assert!(body.contains("<p>Some text after.</p>"));
}

#[test]
fn test_table_preceded_by_heading() {
    let body = render_body("# Title\n\n| A |\n|---|\n| 1 |");
    assert!(body.contains("id=\"title\""));
    assert!(body.contains("<table>"));
    assert!(body.contains("<td>1</td>"));
}

#[test]
fn test_table_alignment() {
    let body = render_body("| L | C | R |\n| :--- | :---: | ---: |\n| a | b | c |");
    assert!(body.contains("<th>L</th>"));
    assert!(body.contains("<th style=\"text-align: center\">C</th>"));
    assert!(body.contains("<th style=\"text-align: right\">R</th>"));
    assert!(body.contains("<td style=\"text-align: center\">b</td>"));
    assert!(body.contains("<td style=\"text-align: right\">c</td>"));
}

#[test]
fn test_table_default_alignment_no_style() {
    let body = render_body("| A |\n|---|\n| 1 |");
    // Default (left) alignment should not have style attribute
    assert!(body.contains("<th>A</th>"));
    assert!(body.contains("<td>1</td>"));
    assert!(!body.contains("text-align: left"));
}

#[test]
fn test_table_fewer_columns_pads() {
    let body = render_body("| A | B | C |\n|---|---|---|\n| 1 |");
    // Row has 1 column, header has 3 — should pad with empty cells
    assert!(body.contains("<td>1</td>"));
    let td_count = body.matches("<td>").count();
    assert_eq!(td_count, 3); // 1 content + 2 empty
}

#[test]
fn test_table_more_columns_truncates() {
    let body = render_body("| A | B |\n|---|---|\n| 1 | 2 | 3 | 4 |");
    // Row has 4 columns, header has 2 — should truncate to 2
    let td_count = body.matches("<td>").count();
    assert_eq!(td_count, 2);
    assert!(!body.contains("<td>3</td>"));
}

#[test]
fn test_table_empty_cells() {
    let body = render_body("| A | B | C |\n|---|---|---|\n| 1 || 3 |");
    assert!(body.contains("<td>1</td>"));
    assert!(body.contains("<td></td>")); // empty cell
    assert!(body.contains("<td>3</td>"));
}

#[test]
fn test_table_pipe_in_code_cell() {
    let body = render_body("| Code |\n|---|\n| `a|b` |");
    assert!(body.contains("<code>a|b</code>"));
    // Should be one cell, not split at the pipe
    let td_count = body.matches("<td>").count();
    assert_eq!(td_count, 1);
}

#[test]
fn test_table_no_outer_pipes() {
    let body = render_body("A | B\n---|---\n1 | 2");
    assert!(body.contains("<table>"));
    assert!(body.contains("<th>A</th>"));
    assert!(body.contains("<td>2</td>"));
}

#[test]
fn test_wrap_html_page_uses_query_string_assets() {
    let page = wrap_html_page("Title", "<p>hi</p>", false);
    assert!(page.contains("<link rel=\"stylesheet\" href=\"/?css\">"));
    assert!(!page.contains("<style>"));
}

#[test]
fn test_wrap_html_page_includes_highlight_js() {
    let page = wrap_html_page("Title", "<p>hi</p>", false);
    assert!(page.contains("<script src=\"/?js\"></script>"));
    assert!(page.contains("hljs.highlightAll()"));
}

// === Further cases ===

#[test]
fn escaped_text_holds_no_markup() {
    let e = escape_html("<script>alert(\"x\")</script> & more");
    assert_eq!(e, "&lt;script&gt;alert(&quot;x&quot;)&lt;/script&gt; &amp; more");
    assert!(!e.contains('<') && !e.contains('>') && !e.contains('"'));
}

#[test]
fn crlf_document_renders_as_lf_document() {
    let lf = "# T\n\n- a\n- b\n\n```\ncode\n```\n| A |\n|---|\n| 1 |";
    let crlf = lf.replace('\n', "\r\n");
    assert_eq!(render_body(lf), render_body(&crlf));
}

#[test]
fn paragraph_lines_are_joined() {
    assert_eq!(render_body("one\ntwo"), "<p>one\ntwo</p>\n");
}

#[test]
fn heading_exact_output() {
    assert_eq!(
        render_body("## Hi there"),
        "<h2 id=\"hi-there\"><a class=\"anchor\" href=\"#hi-there\">\u{1F517}</a>Hi there</h2>\n"
    );
}

#[test]
fn seven_hashes_is_a_paragraph() {
    assert_eq!(render_body("####### x"), "<p>####### x</p>\n");
    assert_eq!(render_body("#x"), "<p>#x</p>\n");
}

#[test]
fn unclosed_constructs_stay_literal() {
    assert_eq!(render_body("`open"), "<p>`open</p>\n");
    assert_eq!(render_body("[text](url"), "<p>[text](url</p>\n");
    assert_eq!(render_body("~~x"), "<p>~~x</p>\n");
}

#[test]
fn autolink_needs_more_than_the_scheme() {
    assert_eq!(render_body("http:// x"), "<p>http:// x</p>\n");
    assert_eq!(render_body("https://"), "<p>https://</p>\n");
}

#[test]
fn blockquote_lines_share_one_quote() {
    assert_eq!(
        render_body("> a\n> b"),
        "<blockquote>\n<p>a</p>\n<p>b</p>\n</blockquote>\n"
    );
    assert_eq!(render_body(">"), "<blockquote>\n<p></p>\n</blockquote>\n");
}

#[test]
fn nested_list_closes_in_order() {
    assert_eq!(
        render_body("- a\n  - b\nc"),
        "<ul>\n<li>a</li>\n<ul>\n<li>b</li>\n</ul>\n</ul>\n<p>c</p>\n"
    );
}

#[test]
fn unterminated_fence_is_closed_at_end() {
    assert_eq!(render_body("```\nx < y"), "<pre><code>x &lt; y</code></pre>\n");
}

#[test]
fn indented_code_keeps_blank_lines_before_more_code() {
    assert_eq!(
        render_body("    a\n\n    b\nend"),
        "<pre><code>a\n\nb</code></pre>\n<p>end</p>\n"
    );
}

#[test]
fn ordered_item_needs_dot_and_space() {
    assert_eq!(render_body("1) x"), "<p>1) x</p>\n");
    assert_eq!(render_body("3. x"), "<ol>\n<li>x</li>\n</ol>\n");
}

#[test]
fn title_fallback_keeps_other_names() {
    assert_eq!(extract_title("", "notes.txt"), "notes.txt");
    assert_eq!(extract_title("text\n  #  Spaced  \n# Real", "a.md"), "Spaced");
    assert_eq!(extract_title("#NoSpace\n## Two\n# Real", "a.md"), "Real");
    assert_eq!(extract_title("  # Spaced  ", "a.md"), "Spaced");
}

#[test]
fn long_heading_runs_are_reported() {
    let long = "#".repeat(256);
    assert!(heading_run_overflows(&long));
    assert!(!heading_run_overflows(&"#".repeat(255)));
    assert!(!heading_run_overflows(&format!("```\n{}\n```", long)));
}

#[test]
fn exact_table_html() {
    assert_eq!(
        render_body("| A | B |\n|:-:|--:|\n| 1 |"),
        "<table>\n<thead>\n<tr>\n<th style=\"text-align: center\">A</th>\n<th style=\"text-align: right\">B</th>\n</tr>\n</thead>\n<tbody>\n<tr>\n<td style=\"text-align: center\">1</td>\n<td style=\"text-align: right\"></td>\n</tr>\n</tbody>\n</table>\n"
    );
}

#[test]
fn inline_nesting_and_images() {
    assert_eq!(
        render_body("[**b** *i*](u \"q\")"),
        "<p><a href=\"u &quot;q&quot;\"><strong>b</strong> <em>i</em></a></p>\n"
    );
    assert_eq!(
        render_body("![x](y) ** a"),
        "<p><img src=\"y\" alt=\"x\"> <em></em> a</p>\n"
    );
}

#[test]
fn heading_ids_hold_only_safe_characters() {
    let body = render_body("# Héllo <World> & \"x\"_y-z");
    assert!(body.contains("id=\"hllo-world--x_y-z\""), "{}", body);
}

#[test]
fn crlf_with_blank_lines_and_trailing_newline() {
    let lf = "para one\nstill one\n\n> quote\n\n    indented\n\n1. x\n2. y\n";
    let crlf = lf.replace('\n', "\r\n");
    assert_eq!(render_body(lf), render_body(&crlf));
}

#[test]
fn crlf_page_keeps_title_and_body() {
    let lf = "intro\n  # The Title  \n\ntext";
    let crlf = lf.replace('\n', "\r\n");
    assert_eq!(render(lf, "x.md", true), render(&crlf, "x.md", true));
    assert_eq!(extract_title(&crlf, "x.md"), "The Title");
}

#[test]
fn carriage_returns_inside_code_are_kept() {
    // A `\r` before a line's own `\r\n` ending stays in a code block.
    let with_cr = "```\nx\r\n```";
    let doubled = with_cr.replace('\n', "\r\n");
    assert_ne!(render_body(with_cr), render_body(&doubled));
}

#[test]
fn lists_nest_by_increasing_indent() {
    assert_eq!(
        render_body("- a\n    - b\n  - c\n"),
        "<ul>\n<li>a</li>\n<ul>\n<li>b</li>\n</ul>\n<ul>\n<li>c</li>\n</ul>\n</ul>\n"
    );
    // An item less indented than the outermost list stays in it.
    assert_eq!(
        render_body("  - a\n- b"),
        "<ul>\n<li>a</li>\n<li>b</li>\n</ul>\n"
    );
}

#[test]
fn bare_url_with_non_ascii_keeps_following_text() {
    assert_eq!(
        render_body("https://é.fr x"),
        "<p><a href=\"https://é.fr\">https://é.fr</a> x</p>\n"
    );
    assert_eq!(
        render_body("see https://例え.jp/パス, then more"),
        "<p>see <a href=\"https://例え.jp/パス\">https://例え.jp/パス</a>, then more</p>\n"
    );
}

#[test]
fn markup_free_text_is_only_escaped() {
    assert_eq!(render_body("Inline $x^2$ and <b> & \"q\""), "<p>Inline $x^2$ and &lt;b&gt; &amp; &quot;q&quot;</p>\n");
}

#[test]
fn css2_link_sits_right_after_css_link() {
    let with = wrap_html_page("T", "<p>b</p>", true);
    let without = wrap_html_page("T", "<p>b</p>", false);
    let link = "\n<link rel=\"stylesheet\" href=\"/?css2\">";
    let at = with.find(link).unwrap();
    assert!(with[..at].ends_with("<link rel=\"stylesheet\" href=\"/?css\">"));
    assert_eq!(format!("{}{}", &with[..at], &with[at + link.len()..]), without);
    assert!(with.contains("<div class=\"content\"><p>b</p></div>"));
}

#[test]
fn body_block_tags_balanced() {
    let src = "- a\n  - b\n    1. c\n- d\n\n| x | y |\n|---|:-:|\n| 1 | 2 |\n\n```rust\nlet a = 1;\n```\n\n    indented\n    more\n\n1. one\n2. two\n\n```\nunclosed";
    let body = render_body(src);
    for (open, close) in [("<ul>", "</ul>"), ("<ol>", "</ol>"), ("<table>", "</table>"), ("<pre><code", "</code></pre>")] {
        assert_eq!(body.matches(open).count(), body.matches(close).count(), "{} in {}", open, body);
    }
    assert_eq!(body.matches("<pre><code").count(), 3);
    assert_eq!(body.matches("<ul>").count(), 2);
    assert_eq!(body.matches("<ol>").count(), 2);
    assert_eq!(body.matches("<table>").count(), 1);
}

#[test]
fn unclosed_fence_is_closed_at_end() {
    let body = render_body("```\ncode `x` here");
    assert_eq!(body, "<pre><code>code `x` here</code></pre>\n");
}

#[test]
fn inline_code_is_not_a_code_block() {
    let body = render_body("`a` and `b`");
    assert_eq!(body.matches("<pre><code").count(), 0);
    assert_eq!(body.matches("</code></pre>").count(), 0);
    assert_eq!(body, "<p><code>a</code> and <code>b</code></p>\n");
}

#[test]
fn title_is_first_hash_line_trimmed() {
    assert_eq!(extract_title("intro\n   #  Spaced Title  \n# Second", "doc.md"), "Spaced Title");
    assert_eq!(extract_title("#NoSpace\n##Two", "notes.md"), "notes");
}

#[test]
fn custom_css_link_exactly_when_asked() {
    let title = "About /?css and \"quotes\"";
    let body = "<p>see /?js</p>";
    let with = wrap_html_page(title, body, true);
    let without = wrap_html_page(title, body, false);
    assert_eq!(with.matches("<link rel=\"stylesheet\" href=\"/?css2\">").count(), 1);
    assert!(!without.contains("<link rel=\"stylesheet\" href=\"/?css2\">"));
    assert!(!without.contains("/?css2"));
    assert!(with.find("href=\"/?css\"").unwrap() < with.find("href=\"/?css2\"").unwrap());
}
