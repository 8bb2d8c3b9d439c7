//! HTML rendering of whole documents.
use marki::MarkdownFile;

fn html(input: &str) -> String {
    MarkdownFile::parse(input).to_html()
}

#[test]
fn render_heading_and_paragraph() {
    assert_eq!(
        html("# Hello\n\nSome **bold** and *em* text."),
        "<h1>Hello</h1>\n<p>Some <strong>bold</strong> and <em>em</em> text.</p>\n"
    );
}

#[test]
fn render_setext_heading_level_two() {
    assert_eq!(html("Title\n-----"), "<h2>Title</h2>\n");
}

#[test]
fn render_escapes_text() {
    assert_eq!(html("a < b & \"c\" > d"), "<p>a &lt; b &amp; &quot;c&quot; &gt; d</p>\n");
}

#[test]
fn render_decimal_reference() {
    assert_eq!(html("&#65;&#66;"), "<p>AB</p>\n");
}

#[test]
fn render_hex_reference_of_markup_char() {
    assert_eq!(html("&#x3C;tag&#x3e;"), "<p>&lt;tag&gt;</p>\n");
}

#[test]
fn render_invalid_references_become_replacement_char() {
    assert_eq!(html("&#0;"), "<p>\u{FFFD}</p>\n");
    assert_eq!(html("&#xD800;"), "<p>\u{FFFD}</p>\n");
}

#[test]
fn render_non_ascii_reference() {
    assert_eq!(html("&#233;t&#xE9;"), "<p>\u{e9}t\u{e9}</p>\n");
}

#[test]
fn render_too_long_reference_is_text() {
    assert_eq!(html("&#12345678;"), "<p>&amp;#12345678;</p>\n");
}

#[test]
fn render_code_span_keeps_references() {
    assert_eq!(html("`&#65; <x>`"), "<p><code>&amp;#65; &lt;x&gt;</code></p>\n");
}

#[test]
fn render_tight_list() {
    assert_eq!(html("- one\n- two"), "<ul>\n<li>one</li>\n<li>two</li>\n</ul>\n");
}

#[test]
fn render_loose_list() {
    assert_eq!(
        html("- one\n\n- two"),
        "<ul>\n<li>\n<p>one</p>\n</li>\n<li>\n<p>two</p>\n</li>\n</ul>\n"
    );
}

#[test]
fn render_ordered_list_with_start() {
    assert_eq!(html("3. a\n4. b"), "<ol start=\"3\">\n<li>a</li>\n<li>b</li>\n</ol>\n");
}

#[test]
fn render_ordered_list_from_one() {
    assert_eq!(html("1. a"), "<ol>\n<li>a</li>\n</ol>\n");
}

#[test]
fn render_nested_list() {
    assert_eq!(
        html("- a\n  - b"),
        "<ul>\n<li>a\n<ul>\n<li>b</li>\n</ul>\n</li>\n</ul>\n"
    );
}

#[test]
fn render_blockquote() {
    assert_eq!(html("> quoted"), "<blockquote>\n<p>quoted</p>\n</blockquote>\n");
}

#[test]
fn render_thematic_break() {
    assert_eq!(html("***"), "<hr />\n");
}

#[test]
fn render_fenced_code_with_language() {
    assert_eq!(
        html("```rust extra\nfn main() {}\n```"),
        "<pre><code class=\"language-rust\">fn main() {}\n</code></pre>\n"
    );
}

#[test]
fn render_fenced_code_in_list_uses_line_pool() {
    assert_eq!(
        html("- ```\n  x < y\n  ```"),
        "<ul>\n<li>\n<pre><code>x &lt; y\n</code></pre>\n</li>\n</ul>\n"
    );
}

#[test]
fn render_link_with_title() {
    assert_eq!(
        html("[a](/u \"t\")"),
        "<p><a href=\"/u\" title=\"t\">a</a></p>\n"
    );
}

#[test]
fn render_image_alt_is_plain_text() {
    assert_eq!(
        html("![*a* b](/i.png)"),
        "<p><img src=\"/i.png\" alt=\"a b\" /></p>\n"
    );
}

#[test]
fn render_autolinks() {
    assert_eq!(
        html("<https://x.org> <me@x.org>"),
        "<p><a href=\"https://x.org\">https://x.org</a> <a href=\"mailto:me@x.org\">me@x.org</a></p>\n"
    );
}

#[test]
fn render_hard_and_soft_breaks() {
    assert_eq!(html("a  \nb\nc"), "<p>a<br />\nb\nc</p>\n");
}

#[test]
fn render_html_block() {
    assert_eq!(html("<div>\nhi\n</div>"), "<div>\nhi\n</div>\n");
}

#[test]
fn render_reference_link_case_insensitive() {
    assert_eq!(
        html("[FOO]: /url\n\n[foo]"),
        "<p><a href=\"/url\">foo</a></p>\n"
    );
}

#[test]
fn render_empty_document() {
    assert_eq!(html(""), "");
}
