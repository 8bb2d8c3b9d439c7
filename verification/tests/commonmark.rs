//! CommonMark example documents rendered to HTML, checked as one corpus.
use std::collections::HashMap;

use marki::MarkdownFile;

/// One example: its Markdown, the HTML it must render to, its number in this
/// corpus and the part of the `CommonMark` spec it comes from.
struct Case {
    markdown: &'static str,
    html: &'static str,
    example: u32,
    section: &'static str,
}

/// Per-section pass counts, in first-seen order.
#[derive(Default)]
struct SectionStats {
    order: Vec<String>,
    passed: HashMap<String, u32>,
    total: HashMap<String, u32>,
}

impl SectionStats {
    fn record(&mut self, section: &str, ok: bool) {
        if !self.total.contains_key(section) {
            self.order.push(section.to_string());
        }
        *self.total.entry(section.to_string()).or_default() += 1;
        if ok {
            *self.passed.entry(section.to_string()).or_default() += 1;
        } else {
            self.passed.entry(section.to_string()).or_default();
        }
    }
}

fn case(markdown: &'static str, html: &'static str, example: u32, section: &'static str) -> Case {
    Case { markdown, html, example, section }
}

fn cases() -> Vec<Case> {
    vec![
        case("- a\n- ```\n  b\n\n\n  ```\n- c\n", "<ul>\n<li>a</li>\n<li>\n<pre><code>b\n\n\n</code></pre>\n</li>\n<li>c</li>\n</ul>\n", 1, "lists"),
        case("-\n  foo\n-\n  ```\n  bar\n  ```\n-\n      baz\n", "<ul>\n<li>foo</li>\n<li>\n<pre><code>bar\n</code></pre>\n</li>\n<li>\n<pre><code>baz\n</code></pre>\n</li>\n</ul>\n", 2, "lists"),
        case("-\n\n  foo\n", "<ul>\n<li></li>\n</ul>\n<p>foo</p>\n", 3, "lists"),
        case("- foo\n-\n- bar\n", "<ul>\n<li>foo</li>\n<li></li>\n<li>bar</li>\n</ul>\n", 4, "lists"),
        case("- foo\n-   \n- bar\n", "<ul>\n<li>foo</li>\n<li></li>\n<li>bar</li>\n</ul>\n", 5, "lists"),
        case("1. foo\n2.\n3. bar\n", "<ol>\n<li>foo</li>\n<li></li>\n<li>bar</li>\n</ol>\n", 6, "lists"),
        case("*\n", "<ul>\n<li></li>\n</ul>\n", 7, "lists"),
        case("foo\n*\n\nfoo\n1.\n", "<p>foo\n*</p>\n<p>foo\n1.</p>\n", 8, "lists"),
        case("- foo\n\n\t\tbar\n", "<ul>\n<li>\n<p>foo</p>\n<pre><code>  bar\n</code></pre>\n</li>\n</ul>\n", 9, "lists"),
        case(" - foo\n   - bar\n\t - baz\n", "<ul>\n<li>foo\n<ul>\n<li>bar\n<ul>\n<li>baz</li>\n</ul>\n</li>\n</ul>\n</li>\n</ul>\n", 10, "lists"),
        case("- a\n - b\n  - c\n   - d\n    - e\n", "<ul>\n<li>a</li>\n<li>b</li>\n<li>c</li>\n<li>d\n- e</li>\n</ul>\n", 11, "lists"),
        case("1. a\n\n  2. b\n\n    3. c\n", "<ol>\n<li>\n<p>a</p>\n</li>\n<li>\n<p>b</p>\n</li>\n</ol>\n<pre><code>3. c\n</code></pre>\n", 12, "lists"),
        case("- a\n- b\n\n- c\n", "<ul>\n<li>\n<p>a</p>\n</li>\n<li>\n<p>b</p>\n</li>\n<li>\n<p>c</p>\n</li>\n</ul>\n", 13, "lists"),
        case("- a\n- b\n\n  [ref]: /url\n- d\n", "<ul>\n<li>\n<p>a</p>\n</li>\n<li>\n<p>b</p>\n</li>\n<li>\n<p>d</p>\n</li>\n</ul>\n", 14, "lists"),
        case("- a\n  - b\n\n    c\n- d\n", "<ul>\n<li>a\n<ul>\n<li>\n<p>b</p>\n<p>c</p>\n</li>\n</ul>\n</li>\n<li>d</li>\n</ul>\n", 15, "lists"),
        case("* a\n  > b\n  >\n* c\n", "<ul>\n<li>a\n<blockquote>\n<p>b</p>\n</blockquote>\n</li>\n<li>c</li>\n</ul>\n", 16, "lists"),
        case("- a\n  > b\n  ```\n  c\n  ```\n- d\n", "<ul>\n<li>a\n<blockquote>\n<p>b</p>\n</blockquote>\n<pre><code>c\n</code></pre>\n</li>\n<li>d</li>\n</ul>\n", 17, "lists"),
        case("1. ```\n   foo\n   ```\n\n   bar\n", "<ol>\n<li>\n<pre><code>foo\n</code></pre>\n<p>bar</p>\n</li>\n</ol>\n", 18, "lists"),
        case("- one\n\n two\n", "<ul>\n<li>one</li>\n</ul>\n<p>two</p>\n", 19, "lists"),
        case("- one\n\n  two\n", "<ul>\n<li>\n<p>one</p>\n<p>two</p>\n</li>\n</ul>\n", 20, "lists"),
        case(" -    one\n\n     two\n", "<ul>\n<li>one</li>\n</ul>\n<pre><code> two\n</code></pre>\n", 21, "lists"),
        case(" -    one\n\n      two\n", "<ul>\n<li>\n<p>one</p>\n<p>two</p>\n</li>\n</ul>\n", 22, "lists"),
        case("- foo\n\n\n  bar\n", "<ul>\n<li>\n<p>foo</p>\n<p>bar</p>\n</li>\n</ul>\n", 23, "lists"),
        case("> 1. > Blockquote\ncontinued here.\n", "<blockquote>\n<ol>\n<li>\n<blockquote>\n<p>Blockquote\ncontinued here.</p>\n</blockquote>\n</li>\n</ol>\n</blockquote>\n", 24, "lists"),
        case("- foo\n  - bar\n    - baz\n\n\n      bim\n", "<ul>\n<li>foo\n<ul>\n<li>bar\n<ul>\n<li>\n<p>baz</p>\n<p>bim</p>\n</li>\n</ul>\n</li>\n</ul>\n</li>\n</ul>\n", 25, "lists"),
        case("- a\n- b\n- c\n\n- d\n- e\n- f\n", "<ul>\n<li>\n<p>a</p>\n</li>\n<li>\n<p>b</p>\n</li>\n<li>\n<p>c</p>\n</li>\n<li>\n<p>d</p>\n</li>\n<li>\n<p>e</p>\n</li>\n<li>\n<p>f</p>\n</li>\n</ul>\n", 26, "lists"),
        case("1. a\n\n   b\n2. c\n", "<ol>\n<li>\n<p>a</p>\n<p>b</p>\n</li>\n<li>\n<p>c</p>\n</li>\n</ol>\n", 27, "lists"),
        case("> - a\n>\n> - b\n", "<blockquote>\n<ul>\n<li>\n<p>a</p>\n</li>\n<li>\n<p>b</p>\n</li>\n</ul>\n</blockquote>\n", 28, "lists"),
        case("- a\n  ```\n  b\n\n  c\n  ```\n", "<ul>\n<li>a\n<pre><code>b\n\nc\n</code></pre>\n</li>\n</ul>\n", 29, "lists"),
        case("10) foo\n    - bar\n", "<ol start=\"10\">\n<li>foo\n<ul>\n<li>bar</li>\n</ul>\n</li>\n</ol>\n", 30, "lists"),
        case("- # Foo\n- Bar\n  ---\n  baz\n", "<ul>\n<li>\n<h1>Foo</h1>\n</li>\n<li>\n<h2>Bar</h2>\nbaz</li>\n</ul>\n", 31, "lists"),
        case("  1.  A paragraph\nwith two lines.\n", "<ol>\n<li>A paragraph\nwith two lines.</li>\n</ol>\n", 32, "lists"),
        case("> - a\n- b\n", "<blockquote>\n<ul>\n<li>a</li>\n</ul>\n</blockquote>\n<ul>\n<li>b</li>\n</ul>\n", 33, "lists"),
        case("- a\n    - b\n        - c\n", "<ul>\n<li>a\n<ul>\n<li>b\n<ul>\n<li>c</li>\n</ul>\n</li>\n</ul>\n</li>\n</ul>\n", 34, "lists"),
        case(">\t\tfoo\n", "<blockquote>\n<pre><code>  foo\n</code></pre>\n</blockquote>\n", 35, "lists"),
        case("-\t\tfoo\n", "<ul>\n<li>\n<pre><code>  foo\n</code></pre>\n</li>\n</ul>\n", 36, "lists"),
        case("1.  A paragraph\n    with two lines.\n\n        indented code\n\n    > A block quote.\n", "<ol>\n<li>\n<p>A paragraph\nwith two lines.</p>\n<pre><code>indented code\n</code></pre>\n<blockquote>\n<p>A block quote.</p>\n</blockquote>\n</li>\n</ol>\n", 37, "lists"),
        case("> # Foo\n> bar\n> baz\n", "<blockquote>\n<h1>Foo</h1>\n<p>bar\nbaz</p>\n</blockquote>\n", 38, "block_quotes"),
        case("># Foo\n>bar\n> baz\n", "<blockquote>\n<h1>Foo</h1>\n<p>bar\nbaz</p>\n</blockquote>\n", 39, "block_quotes"),
        case("   > # Foo\n   > bar\n > baz\n", "<blockquote>\n<h1>Foo</h1>\n<p>bar\nbaz</p>\n</blockquote>\n", 40, "block_quotes"),
        case("    > # Foo\n    > bar\n    > baz\n", "<pre><code>&gt; # Foo\n&gt; bar\n&gt; baz\n</code></pre>\n", 41, "block_quotes"),
        case("> # Foo\n> bar\nbaz\n", "<blockquote>\n<h1>Foo</h1>\n<p>bar\nbaz</p>\n</blockquote>\n", 42, "block_quotes"),
        case("> bar\nbaz\n> foo\n", "<blockquote>\n<p>bar\nbaz\nfoo</p>\n</blockquote>\n", 43, "block_quotes"),
        case("> foo\n---\n", "<blockquote>\n<p>foo</p>\n</blockquote>\n<hr />\n", 44, "block_quotes"),
        case("> - foo\n- bar\n", "<blockquote>\n<ul>\n<li>foo</li>\n</ul>\n</blockquote>\n<ul>\n<li>bar</li>\n</ul>\n", 45, "block_quotes"),
        case(">     foo\n    bar\n", "<blockquote>\n<pre><code>foo\n</code></pre>\n</blockquote>\n<pre><code>bar\n</code></pre>\n", 46, "block_quotes"),
        case("> ```\nfoo\n```\n", "<blockquote>\n<pre><code></code></pre>\n</blockquote>\n<p>foo</p>\n<pre><code></code></pre>\n", 47, "block_quotes"),
        case("> foo\n    - bar\n", "<blockquote>\n<p>foo\n- bar</p>\n</blockquote>\n", 48, "block_quotes"),
        case(">\n", "<blockquote>\n</blockquote>\n", 49, "block_quotes"),
        case(">\n>  \n> \n", "<blockquote>\n</blockquote>\n", 50, "block_quotes"),
        case(">\n> foo\n>  \n", "<blockquote>\n<p>foo</p>\n</blockquote>\n", 51, "block_quotes"),
        case("> foo\n\n> bar\n", "<blockquote>\n<p>foo</p>\n</blockquote>\n<blockquote>\n<p>bar</p>\n</blockquote>\n", 52, "block_quotes"),
        case("> foo\n> bar\n", "<blockquote>\n<p>foo\nbar</p>\n</blockquote>\n", 53, "block_quotes"),
        case("> foo\n>\n> bar\n", "<blockquote>\n<p>foo</p>\n<p>bar</p>\n</blockquote>\n", 54, "block_quotes"),
        case("foo\n> bar\n", "<p>foo</p>\n<blockquote>\n<p>bar</p>\n</blockquote>\n", 55, "block_quotes"),
        case("> aaa\n***\n> bbb\n", "<blockquote>\n<p>aaa</p>\n</blockquote>\n<hr />\n<blockquote>\n<p>bbb</p>\n</blockquote>\n", 56, "block_quotes"),
        case("> bar\nbaz\n", "<blockquote>\n<p>bar\nbaz</p>\n</blockquote>\n", 57, "block_quotes"),
        case("> bar\n\nbaz\n", "<blockquote>\n<p>bar</p>\n</blockquote>\n<p>baz</p>\n", 58, "block_quotes"),
        case("> bar\n>\nbaz\n", "<blockquote>\n<p>bar</p>\n</blockquote>\n<p>baz</p>\n", 59, "block_quotes"),
        case("> > > foo\nbar\n", "<blockquote>\n<blockquote>\n<blockquote>\n<p>foo\nbar</p>\n</blockquote>\n</blockquote>\n</blockquote>\n", 60, "block_quotes"),
        case(">>> foo\n> bar\n>>baz\n", "<blockquote>\n<blockquote>\n<blockquote>\n<p>foo\nbar\nbaz</p>\n</blockquote>\n</blockquote>\n</blockquote>\n", 61, "block_quotes"),
        case(">     code\n\n>    not code\n", "<blockquote>\n<pre><code>code\n</code></pre>\n</blockquote>\n<blockquote>\n<p>not code</p>\n</blockquote>\n", 62, "block_quotes"),
        case("\tfoo\tbaz\t\tbim\n", "<pre><code>foo\tbaz\t\tbim\n</code></pre>\n", 63, "tabs"),
        case("  \tfoo\tbaz\t\tbim\n", "<pre><code>foo\tbaz\t\tbim\n</code></pre>\n", 64, "tabs"),
        case("    a\ta\n    \u{1f50}\ta\n", "<pre><code>a\ta\n\u{1f50}\ta\n</code></pre>\n", 65, "tabs"),
        case("  - foo\n\n\tbar\n", "<ul>\n<li>\n<p>foo</p>\n<p>bar</p>\n</li>\n</ul>\n", 66, "tabs"),
        case("#\tFoo\n", "<h1>Foo</h1>\n", 67, "tabs"),
        case("*\t*\t*\t\n", "<hr />\n", 68, "tabs"),
        case("```\n<\n >\n```\n", "<pre><code>&lt;\n &gt;\n</code></pre>\n", 69, "fenced_code"),
        case("``\nfoo\n``\n", "<p><code>foo</code></p>\n", 70, "fenced_code"),
        case("```\naaa\n~~~\n```\n", "<pre><code>aaa\n~~~\n</code></pre>\n", 71, "fenced_code"),
        case("````\naaa\n```\n``````\n", "<pre><code>aaa\n```\n</code></pre>\n", 72, "fenced_code"),
        case("```\n", "<pre><code></code></pre>\n", 73, "fenced_code"),
        case("`````\n\n```\naaa\n", "<pre><code>\n```\naaa\n</code></pre>\n", 74, "fenced_code"),
        case("> ```\n> aaa\n\nbbb\n", "<blockquote>\n<pre><code>aaa\n</code></pre>\n</blockquote>\n<p>bbb</p>\n", 75, "fenced_code"),
        case("```\n\n  \n```\n", "<pre><code>\n  \n</code></pre>\n", 76, "fenced_code"),
        case(" ```\n aaa\naaa\n```\n", "<pre><code>aaa\naaa\n</code></pre>\n", 77, "fenced_code"),
        case("  ```\naaa\n  aaa\naaa\n  ```\n", "<pre><code>aaa\naaa\naaa\n</code></pre>\n", 78, "fenced_code"),
        case("   ```\n   aaa\n    aaa\n  aaa\n   ```\n", "<pre><code>aaa\n aaa\naaa\n</code></pre>\n", 79, "fenced_code"),
        case("```\naaa\n  ```\n", "<pre><code>aaa\n</code></pre>\n", 80, "fenced_code"),
        case("```\naaa\n    ```\n", "<pre><code>aaa\n    ```\n</code></pre>\n", 81, "fenced_code"),
        case("foo\n```\nbar\n```\nbaz\n", "<p>foo</p>\n<pre><code>bar\n</code></pre>\n<p>baz</p>\n", 82, "fenced_code"),
        case("```ruby\ndef foo(x)\n  return 3\nend\n```\n", "<pre><code class=\"language-ruby\">def foo(x)\n  return 3\nend\n</code></pre>\n", 83, "fenced_code"),
        case("``` aa ```\nfoo\n", "<p><code>aa</code>\nfoo</p>\n", 84, "fenced_code"),
        case("~~~ aa ``` ~~~\nfoo\n~~~\n", "<pre><code class=\"language-aa\">foo\n</code></pre>\n", 85, "fenced_code"),
        case("    a simple\n      indented code block\n", "<pre><code>a simple\n  indented code block\n</code></pre>\n", 86, "indented_code"),
        case("    chunk1\n\n    chunk2\n  \n \n \n    chunk3\n", "<pre><code>chunk1\n\nchunk2\n\n\n\nchunk3\n</code></pre>\n", 87, "indented_code"),
        case("    chunk1\n      \n      chunk2\n", "<pre><code>chunk1\n  \n  chunk2\n</code></pre>\n", 88, "indented_code"),
        case("Foo\n    bar\n", "<p>Foo\nbar</p>\n", 89, "indented_code"),
        case("    foo\nbar\n", "<pre><code>foo\n</code></pre>\n<p>bar</p>\n", 90, "indented_code"),
        case("\n    \n    foo\n    \n\n", "<pre><code>foo\n</code></pre>\n", 91, "indented_code"),
        case("    foo  \n", "<pre><code>foo  \n</code></pre>\n", 92, "indented_code"),
        case("*foo bar*", "<p><em>foo bar</em></p>\n", 93, "emphasis"),
        case("a * foo bar*", "<p>a * foo bar*</p>\n", 94, "emphasis"),
        case("a*\"foo\"*", "<p>a*&quot;foo&quot;*</p>\n", 95, "emphasis"),
        case("foo*bar*", "<p>foo<em>bar</em></p>\n", 96, "emphasis"),
        case("_foo bar_", "<p><em>foo bar</em></p>\n", 97, "emphasis"),
        case("foo_bar_", "<p>foo_bar_</p>\n", 98, "emphasis"),
        case("*foo*bar", "<p><em>foo</em>bar</p>\n", 99, "emphasis"),
        case("**foo bar**", "<p><strong>foo bar</strong></p>\n", 100, "emphasis"),
        case("*(**foo**)*", "<p><em>(<strong>foo</strong>)</em></p>\n", 101, "emphasis"),
        case("***foo***", "<p><em><strong>foo</strong></em></p>\n", 102, "emphasis"),
        case("*foo**bar**baz*", "<p><em>foo<strong>bar</strong>baz</em></p>\n", 103, "emphasis"),
        case("foo***bar***baz", "<p>foo<em><strong>bar</strong></em>baz</p>\n", 104, "emphasis"),
        case("**foo*", "<p>*<em>foo</em></p>\n", 105, "emphasis"),
        case("*foo**", "<p><em>foo</em>*</p>\n", 106, "emphasis"),
        case("*foo _bar* baz_", "<p><em>foo _bar</em> baz_</p>\n", 107, "emphasis"),
        case("**a<http://foo.bar/?q=**>", "<p>**a<a href=\"http://foo.bar/?q=**\">http://foo.bar/?q=**</a></p>\n", 108, "emphasis"),
        case("*[bar*](/url)", "<p>*<a href=\"/url\">bar*</a></p>\n", 109, "emphasis"),
        case("[link](/uri \"title\")", "<p><a href=\"/uri\" title=\"title\">link</a></p>\n", 110, "links"),
        case("[link]()", "<p><a href=\"\">link</a></p>\n", 111, "links"),
        case("[link](<>)", "<p><a href=\"\">link</a></p>\n", 112, "links"),
        case("[link](/my uri)", "<p>[link](/my uri)</p>\n", 113, "links"),
        case("[link](foo(and(bar)))", "<p><a href=\"foo(and(bar))\">link</a></p>\n", 114, "links"),
        case("[link [foo [bar]]](/uri)", "<p><a href=\"/uri\">link [foo [bar]]</a></p>\n", 115, "links"),
        case("[link *foo **bar** `#`*](/uri)", "<p><a href=\"/uri\">link <em>foo <strong>bar</strong> <code>#</code></em></a></p>\n", 116, "links"),
        case("[foo]: /url \"title\"\n\n[foo]", "<p><a href=\"/url\" title=\"title\">foo</a></p>\n", 117, "links"),
        case("[FOO]: /url\n\n[Foo]", "<p><a href=\"/url\">Foo</a></p>\n", 118, "links"),
        case("![foo](/url \"title\")", "<p><img src=\"/url\" alt=\"foo\" title=\"title\" /></p>\n", 119, "links"),
        case("![foo *bar*]\n\n[foo *bar*]: train.jpg \"train & tracks\"", "<p><img src=\"train.jpg\" alt=\"foo bar\" title=\"train &amp; tracks\" /></p>\n", 120, "links"),
        case("<http://foo.bar.baz>", "<p><a href=\"http://foo.bar.baz\">http://foo.bar.baz</a></p>\n", 121, "autolinks"),
        case("<foo@bar.example.com>", "<p><a href=\"mailto:foo@bar.example.com\">foo@bar.example.com</a></p>\n", 122, "autolinks"),
        case("<http://foo.bar/baz bim>", "<p>&lt;http://foo.bar/baz bim&gt;</p>\n", 123, "autolinks"),
        case("<a><bab><c2c>", "<p><a><bab><c2c></p>\n", 124, "raw_html"),
        case("<a  /><b2\ndata=\"foo\" >", "<p><a  /><b2\ndata=\"foo\" ></p>\n", 125, "raw_html"),
        case("foo <!-- this is a\ncomment - with hyphen -->", "<p>foo <!-- this is a\ncomment - with hyphen --></p>\n", 126, "raw_html"),
        case("`foo`", "<p><code>foo</code></p>\n", 127, "code_spans"),
        case("`` foo ` bar ``", "<p><code>foo ` bar</code></p>\n", 128, "code_spans"),
        case("` `` `", "<p><code>``</code></p>\n", 129, "code_spans"),
        case("`  ``  `", "<p><code> `` </code></p>\n", 130, "code_spans"),
        case("` a`", "<p><code> a</code></p>\n", 131, "code_spans"),
        case("` `\n`  `", "<p><code> </code>\n<code>  </code></p>\n", 132, "code_spans"),
        case("`foo\\`bar`", "<p><code>foo\\</code>bar`</p>\n", 133, "code_spans"),
        case("```foo``", "<p>```foo``</p>\n", 134, "code_spans"),
        case("foo  \nbaz", "<p>foo<br />\nbaz</p>\n", 135, "line_breaks"),
        case("foo\\\nbaz", "<p>foo<br />\nbaz</p>\n", 136, "line_breaks"),
        case("foo       \nbaz", "<p>foo<br />\nbaz</p>\n", 137, "line_breaks"),
        case("foo  \n     bar", "<p>foo<br />\nbar</p>\n", 138, "line_breaks"),
        case("`code  \nspan`", "<p><code>code   span</code></p>\n", 139, "line_breaks"),
        case("foo\\", "<p>foo\\</p>\n", 140, "line_breaks"),
        case("foo  ", "<p>foo</p>\n", 141, "line_breaks"),
        case("### foo\\", "<h3>foo\\</h3>\n", 142, "line_breaks"),
        case("\\*not emphasized*", "<p>*not emphasized*</p>\n", 143, "escapes"),
        case("\\\\*emphasis*", "<p>\\<em>emphasis</em></p>\n", 144, "escapes"),
        case("`` \\[\\` ``", "<p><code>\\[\\`</code></p>\n", 145, "escapes"),
        case("&#35; &#1234; &#992; &#0;", "<p># \u{4d2} \u{3e0} \u{fffd}</p>\n", 146, "char_refs"),
        case("&#X22; &#XD06; &#xcab;", "<p>&quot; \u{d06} \u{cab}</p>\n", 147, "char_refs"),
        case("# foo *bar* \\*baz\\*", "<h1>foo <em>bar</em> *baz*</h1>\n", 148, "headings"),
        case("#5 bolt\n\n#hashtag", "<p>#5 bolt</p>\n<p>#hashtag</p>\n", 149, "headings"),
        case("## foo ##\n  ###   bar    ###", "<h2>foo</h2>\n<h3>bar</h3>\n", 150, "headings"),
        case("### foo ### b", "<h3>foo ### b</h3>\n", 151, "headings"),
        case("Foo *bar*\n=========\n\nFoo *bar*\n---------", "<h1>Foo <em>bar</em></h1>\n<h2>Foo <em>bar</em></h2>\n", 152, "headings"),
        case("Foo\n= =\n\nFoo\n--- -", "<p>Foo\n= =</p>\n<p>Foo</p>\n<hr />\n", 153, "headings"),
        case("- foo\n-----", "<ul>\n<li>foo</li>\n</ul>\n<hr />\n", 154, "headings"),
        case("***\n---\n___", "<hr />\n<hr />\n<hr />\n", 155, "thematic_breaks"),
        case(" - - -", "<hr />\n", 156, "thematic_breaks"),
        case("_____________________________________", "<hr />\n", 157, "thematic_breaks"),
        case("Foo\n***\nbar", "<p>Foo</p>\n<hr />\n<p>bar</p>\n", 158, "thematic_breaks"),
        case("<table><tr><td>\n<pre>\n**Hello**,\n\n_world_.\n</pre>\n</td></tr></table>", "<table><tr><td>\n<pre>\n**Hello**,\n<p><em>world</em>.\n</pre></p>\n</td></tr></table>\n", 159, "html_blocks"),
        case("<div>\n*hello*\n         <foo><a>", "<div>\n*hello*\n         <foo><a>\n", 160, "html_blocks"),
        case("<!-- foo -->*bar*\n*baz*", "<!-- foo -->*bar*\n<p><em>baz</em></p>\n", 161, "html_blocks"),
        case("aaa\n\nbbb", "<p>aaa</p>\n<p>bbb</p>\n", 162, "paragraphs"),
        case("  aaa\n bbb", "<p>aaa\nbbb</p>\n", 163, "paragraphs"),
        case("aaa\n             bbb\n                                       ccc", "<p>aaa\nbbb\nccc</p>\n", 164, "paragraphs"),
        case("aaa     \nbbb     ", "<p>aaa<br />\nbbb</p>\n", 165, "paragraphs"),
        case("   [foo]: \n      /url  \n           'the title'  \n\n[foo]", "<p><a href=\"/url\" title=\"the title\">foo</a></p>\n", 166, "link_defs"),
        case("[foo]: /url 'title\n\nwith blank line'\n\n[foo]", "<p>[foo]: /url 'title</p>\n<p>with blank line'</p>\n<p>[foo]</p>\n", 167, "link_defs"),
        case("[foo]\n\n[foo]: url", "<p><a href=\"url\">foo</a></p>\n", 168, "link_defs"),
        case("[foo]\n\n[foo]: first\n[foo]: second", "<p><a href=\"first\">foo</a></p>\n", 169, "link_defs"),
        case("Foo\n[bar]: /baz\n\n[bar]", "<p>Foo\n[bar]: /baz</p>\n<p>[bar]</p>\n", 170, "link_defs"),
        case("[foo]: /url\n===\n[foo]", "<p>===\n<a href=\"/url\">foo</a></p>\n", 171, "link_defs"),
        case("A paragraph\nwith two lines.\n\n    indented code\n\n> A block quote.", "<p>A paragraph\nwith two lines.</p>\n<pre><code>indented code\n</code></pre>\n<blockquote>\n<p>A block quote.</p>\n</blockquote>\n", 172, "list_items"),
        case("   > > 1.  one\n>>\n>>     two", "<blockquote>\n<blockquote>\n<ol>\n<li>\n<p>one</p>\n<p>two</p>\n</li>\n</ol>\n</blockquote>\n</blockquote>\n", 173, "list_items"),
        case(">>- one\n>>\n  >  > two", "<blockquote>\n<blockquote>\n<ul>\n<li>one</li>\n</ul>\n<p>two</p>\n</blockquote>\n</blockquote>\n", 174, "list_items"),
        case("-one\n\n2.two", "<p>-one</p>\n<p>2.two</p>\n", 175, "list_items"),
        case("1.  foo\n\n    ```\n    bar\n    ```\n\n    baz\n\n    > bam", "<ol>\n<li>\n<p>foo</p>\n<pre><code>bar\n</code></pre>\n<p>baz</p>\n<blockquote>\n<p>bam</p>\n</blockquote>\n</li>\n</ol>\n", 176, "list_items"),
        case("- Foo\n\n      bar\n\n\n      baz", "<ul>\n<li>\n<p>Foo</p>\n<pre><code>bar\n\n\nbaz\n</code></pre>\n</li>\n</ul>\n", 177, "list_items"),
        case("123456789. ok", "<ol start=\"123456789\">\n<li>ok</li>\n</ol>\n", 178, "list_items"),
        case("1234567890. not ok", "<p>1234567890. not ok</p>\n", 179, "list_items"),
        case("0. ok", "<ol start=\"0\">\n<li>ok</li>\n</ol>\n", 180, "list_items"),
        case("-1. not ok", "<p>-1. not ok</p>\n", 181, "list_items"),
        case("- foo\n\n      bar", "<ul>\n<li>\n<p>foo</p>\n<pre><code>bar\n</code></pre>\n</li>\n</ul>\n", 182, "list_items"),
        case("  10.  foo\n\n           bar", "<ol start=\"10\">\n<li>\n<p>foo</p>\n<pre><code>bar\n</code></pre>\n</li>\n</ol>\n", 183, "list_items"),
        case("    indented code\n\nparagraph\n\n    more code", "<pre><code>indented code\n</code></pre>\n<p>paragraph</p>\n<pre><code>more code\n</code></pre>\n", 184, "list_items"),
        case("1.     indented code\n\n   paragraph\n\n       more code", "<ol>\n<li>\n<pre><code>indented code\n</code></pre>\n<p>paragraph</p>\n<pre><code>more code\n</code></pre>\n</li>\n</ol>\n", 185, "list_items"),
        case("1.      indented code\n\n   paragraph\n\n       more code", "<ol>\n<li>\n<pre><code> indented code\n</code></pre>\n<p>paragraph</p>\n<pre><code>more code\n</code></pre>\n</li>\n</ol>\n", 186, "list_items"),
        case("   foo\n\nbar", "<p>foo</p>\n<p>bar</p>\n", 187, "list_items"),
        case("-    foo\n\n  bar", "<ul>\n<li>foo</li>\n</ul>\n<p>bar</p>\n", 188, "list_items"),
        case("-  foo\n\n   bar", "<ul>\n<li>\n<p>foo</p>\n<p>bar</p>\n</li>\n</ul>\n", 189, "list_items"),
        case("- foo\n  - bar\n    - baz\n      - boo", "<ul>\n<li>foo\n<ul>\n<li>bar\n<ul>\n<li>baz\n<ul>\n<li>boo</li>\n</ul>\n</li>\n</ul>\n</li>\n</ul>\n</li>\n</ul>\n", 190, "list_items"),
        case("- foo\n - bar\n  - baz\n   - boo", "<ul>\n<li>foo</li>\n<li>bar</li>\n<li>baz</li>\n<li>boo</li>\n</ul>\n", 191, "list_items"),
        case("10) foo\n   - bar", "<ol start=\"10\">\n<li>foo</li>\n</ol>\n<ul>\n<li>bar</li>\n</ul>\n", 192, "list_items"),
        case("- - foo", "<ul>\n<li>\n<ul>\n<li>foo</li>\n</ul>\n</li>\n</ul>\n", 193, "list_items"),
        case("1. - 2. foo", "<ol>\n<li>\n<ul>\n<li>\n<ol start=\"2\">\n<li>foo</li>\n</ol>\n</li>\n</ul>\n</li>\n</ol>\n", 194, "list_items"),
        case("- foo\n- bar\n+ baz", "<ul>\n<li>foo</li>\n<li>bar</li>\n</ul>\n<ul>\n<li>baz</li>\n</ul>\n", 195, "list_items"),
        case("1. foo\n2. bar\n3) baz", "<ol>\n<li>foo</li>\n<li>bar</li>\n</ol>\n<ol start=\"3\">\n<li>baz</li>\n</ol>\n", 196, "list_items"),
        case("Foo\n- bar\n- baz", "<p>Foo</p>\n<ul>\n<li>bar</li>\n<li>baz</li>\n</ul>\n", 197, "list_items"),
        case("The number of windows in my house is\n14.  The number of doors is 6.", "<p>The number of windows in my house is\n14.  The number of doors is 6.</p>\n", 198, "list_items"),
        case("The number of windows in my house is\n1.  The number of doors is 6.", "<p>The number of windows in my house is</p>\n<ol>\n<li>The number of doors is 6.</li>\n</ol>\n", 199, "list_items"),
        case("- foo\n\n- bar\n\n\n- baz", "<ul>\n<li>\n<p>foo</p>\n</li>\n<li>\n<p>bar</p>\n</li>\n<li>\n<p>baz</p>\n</li>\n</ul>\n", 200, "list_items"),
        case("- foo\n- bar\n\n<!-- -->\n\n- baz\n- bim", "<ul>\n<li>foo</li>\n<li>bar</li>\n</ul>\n<!-- -->\n<ul>\n<li>baz</li>\n<li>bim</li>\n</ul>\n", 201, "list_items"),
        case("-   foo\n\n    notcode\n\n-   foo\n\n<!-- -->\n\n    code", "<ul>\n<li>\n<p>foo</p>\n<p>notcode</p>\n</li>\n<li>\n<p>foo</p>\n</li>\n</ul>\n<!-- -->\n<pre><code>code\n</code></pre>\n", 202, "list_items"),
        case("- a\n- b\n\n  c\n- d", "<ul>\n<li>\n<p>a</p>\n</li>\n<li>\n<p>b</p>\n<p>c</p>\n</li>\n<li>\n<p>d</p>\n</li>\n</ul>\n", 203, "list_items"),
        case("* foo\n  * bar\n\n  baz", "<ul>\n<li>\n<p>foo</p>\n<ul>\n<li>bar</li>\n</ul>\n<p>baz</p>\n</li>\n</ul>\n", 204, "list_items"),
        case("- a\n  - b\n  - c\n\n- d\n  - e\n  - f", "<ul>\n<li>\n<p>a</p>\n<ul>\n<li>b</li>\n<li>c</li>\n</ul>\n</li>\n<li>\n<p>d</p>\n<ul>\n<li>e</li>\n<li>f</li>\n</ul>\n</li>\n</ul>\n", 205, "list_items"),
        case("- a", "<ul>\n<li>a</li>\n</ul>\n", 206, "list_items"),
        case("- a\n  - b", "<ul>\n<li>a\n<ul>\n<li>b</li>\n</ul>\n</li>\n</ul>\n", 207, "list_items"),
        case("* a\n*\n\n* c", "<ul>\n<li>\n<p>a</p>\n</li>\n<li></li>\n<li>\n<p>c</p>\n</li>\n</ul>\n", 208, "list_items"),
        case("1. a\n\n  2. b\n\n   3. c", "<ol>\n<li>\n<p>a</p>\n</li>\n<li>\n<p>b</p>\n</li>\n<li>\n<p>c</p>\n</li>\n</ol>\n", 209, "list_items"),
        case("- a\n - b\n  - c\n   - d\n  - e\n - f\n- g", "<ul>\n<li>a</li>\n<li>b</li>\n<li>c</li>\n<li>d</li>\n<li>e</li>\n<li>f</li>\n<li>g</li>\n</ul>\n", 210, "list_items"),
        case("    foo\n\tbar", "<pre><code>foo\nbar\n</code></pre>\n", 211, "mixed_blocks"),
        case(" <div>\n  *hello*\n         <foo><a>", " <div>\n  *hello*\n         <foo><a>\n", 212, "mixed_blocks"),
        case("</div>\n*foo*", "</div>\n*foo*\n", 213, "mixed_blocks"),
        case("<DIV CLASS=\"foo\">\n\n*Markdown*\n\n</DIV>", "<DIV CLASS=\"foo\">\n<p><em>Markdown</em></p>\n</DIV>\n", 214, "mixed_blocks"),
        case("<div id=\"foo\"\n  class=\"bar\">\n</div>", "<div id=\"foo\"\n  class=\"bar\">\n</div>\n", 215, "mixed_blocks"),
        case("<div>\n*foo*\n\n*bar*", "<div>\n*foo*\n<p><em>bar</em></p>\n", 216, "mixed_blocks"),
        case("<a href=\"foo\">\n*bar*\n</a>", "<a href=\"foo\">\n*bar*\n</a>\n", 217, "mixed_blocks"),
        case("<Warning>\n*bar*\n</Warning>", "<Warning>\n*bar*\n</Warning>\n", 218, "mixed_blocks"),
        case("<del>*foo*</del>", "<p><del><em>foo</em></del></p>\n", 219, "mixed_blocks"),
        case("<pre language=\"haskell\"><code>\nimport Text.HTML.TagSoup\n\nmain :: IO ()\nmain = print $ parseTags tags\n</code></pre>\nokay", "<pre language=\"haskell\"><code>\nimport Text.HTML.TagSoup\n\nmain :: IO ()\nmain = print $ parseTags tags\n</code></pre>\n<p>okay</p>\n", 220, "mixed_blocks"),
        case("<style\n  type=\"text/css\">\nh1 {color:red;}\n\np {color:blue;}\n</style>\nokay", "<style\n  type=\"text/css\">\nh1 {color:red;}\n\np {color:blue;}\n</style>\n<p>okay</p>\n", 221, "mixed_blocks"),
        case("> <div>\n> foo\n\nbar", "<blockquote>\n<div>\nfoo\n</blockquote>\n<p>bar</p>\n", 222, "mixed_blocks"),
        case("- <div>\n- foo", "<ul>\n<li>\n<div>\n</li>\n<li>foo</li>\n</ul>\n", 223, "mixed_blocks"),
        case("<!-- Foo\n\nbar\n   baz -->\nokay", "<!-- Foo\n\nbar\n   baz -->\n<p>okay</p>\n", 224, "mixed_blocks"),
        case("  <!-- foo -->\n\n    <!-- foo -->", "  <!-- foo -->\n<pre><code>&lt;!-- foo --&gt;\n</code></pre>\n", 225, "mixed_blocks"),
        case("Foo\n<div>\nbar\n</div>", "<p>Foo</p>\n<div>\nbar\n</div>\n", 226, "mixed_blocks"),
        case("Foo\n<a href=\"bar\">\nbaz", "<p>Foo\n<a href=\"bar\">\nbaz</p>\n", 227, "mixed_blocks"),
        case("> Foo\n---", "<blockquote>\n<p>Foo</p>\n</blockquote>\n<hr />\n", 228, "mixed_blocks"),
        case("> foo\nbar\n===", "<blockquote>\n<p>foo\nbar\n===</p>\n</blockquote>\n", 229, "mixed_blocks"),
        case("- Foo\n---", "<ul>\n<li>Foo</li>\n</ul>\n<hr />\n", 230, "mixed_blocks"),
        case("Foo\nBar\n---", "<h2>Foo\nBar</h2>\n", 231, "mixed_blocks"),
        case("---\nFoo\n---\nBar\n---\nBaz", "<hr />\n<h2>Foo</h2>\n<h2>Bar</h2>\n<p>Baz</p>\n", 232, "mixed_blocks"),
        case("\n====", "<p>====</p>\n", 233, "mixed_blocks"),
        case("[foo]\n\n> [foo]: /url", "<p><a href=\"/url\">foo</a></p>\n<blockquote>\n</blockquote>\n", 234, "mixed_blocks"),
        case("> - a\n>   b\n\nc", "<blockquote>\n<ul>\n<li>a\nb</li>\n</ul>\n</blockquote>\n<p>c</p>\n", 235, "mixed_blocks"),
        case("- a\n  > b\n  c", "<ul>\n<li>a\n<blockquote>\n<p>b\nc</p>\n</blockquote>\n</li>\n</ul>\n", 236, "mixed_blocks"),
        case("> ```\n> a\n>\n> b\n> ```\nc", "<blockquote>\n<pre><code>a\n\nb\n</code></pre>\n</blockquote>\n<p>c</p>\n", 237, "mixed_blocks"),
        case("- ```\n  a\n  ```\n- b", "<ul>\n<li>\n<pre><code>a\n</code></pre>\n</li>\n<li>b</li>\n</ul>\n", 238, "mixed_blocks"),
        case("[foo][bar]\n\n[bar]: /url \"title\"", "<p><a href=\"/url\" title=\"title\">foo</a></p>\n", 239, "reference_links"),
        case("[link [foo [bar]]][ref]\n\n[ref]: /uri", "<p><a href=\"/uri\">link [foo [bar]]</a></p>\n", 240, "reference_links"),
        case("[foo][BaR]\n\n[bar]: /url \"title\"", "<p><a href=\"/url\" title=\"title\">foo</a></p>\n", 241, "reference_links"),
        case("[foo] [bar]\n\n[bar]: /url \"title\"", "<p>[foo] <a href=\"/url\" title=\"title\">bar</a></p>\n", 242, "reference_links"),
        case("[foo][]\n\n[foo]: /url \"title\"", "<p><a href=\"/url\" title=\"title\">foo</a></p>\n", 243, "reference_links"),
        case("[*foo* bar][]\n\n[*foo* bar]: /url \"title\"", "<p><a href=\"/url\" title=\"title\"><em>foo</em> bar</a></p>\n", 244, "reference_links"),
        case("[foo]bar\n\n[foo]: /url", "<p><a href=\"/url\">foo</a>bar</p>\n", 245, "reference_links"),
        case("\\[foo]\n\n[foo]: /url \"title\"", "<p>[foo]</p>\n", 246, "reference_links"),
        case("[foo*]: /url\n\n*[foo*]", "<p>*<a href=\"/url\">foo*</a></p>\n", 247, "reference_links"),
        case("[foo][bar][baz]\n\n[baz]: /url", "<p>[foo]<a href=\"/url\">bar</a></p>\n", 248, "reference_links"),
        case("[foo][bar][baz]\n\n[baz]: /url1\n[bar]: /url2", "<p><a href=\"/url2\">foo</a><a href=\"/url1\">baz</a></p>\n", 249, "reference_links"),
        case("![foo](/url)", "<p><img src=\"/url\" alt=\"foo\" /></p>\n", 250, "reference_links"),
        case("[![moon](moon.jpg)](/uri)", "<p><a href=\"/uri\"><img src=\"moon.jpg\" alt=\"moon\" /></a></p>\n", 251, "reference_links"),
        case("[foo [bar](/uri)](/uri)", "<p>[foo <a href=\"/uri\">bar</a>](/uri)</p>\n", 252, "reference_links"),
        case("[a](<b)c>)", "<p><a href=\"b)c\">a</a></p>\n", 253, "reference_links"),
        case("[Foo\n  bar]: /url\n\n[Baz][Foo bar]", "<p><a href=\"/url\">Baz</a></p>\n", 254, "reference_links"),
        case("[foo]: <bar>(baz)\n\n[foo]", "<p>[foo]: <bar>(baz)</p>\n<p>[foo]</p>\n", 255, "reference_links"),
        case("[foo]: /url\n\"title\" ok", "<p>&quot;title&quot; ok</p>\n", 256, "reference_links"),
        case("[foo]: /url \"title\" ok", "<p>[foo]: /url &quot;title&quot; ok</p>\n", 257, "reference_links"),
        case("# [Foo]\n[foo]: /url\n> bar", "<h1><a href=\"/url\">Foo</a></h1>\n<blockquote>\n<p>bar</p>\n</blockquote>\n", 258, "reference_links"),
        case("- foo\n\n\tbar", "<ul>\n<li>\n<p>foo</p>\n<p>bar</p>\n</li>\n</ul>\n", 259, "tabs"),
        case("[link](foo\\)\\:)", "<p><a href=\"foo):\">link</a></p>\n", 260, "destinations"),
        case("[link](foo\\bar)", "<p><a href=\"foo%5Cbar\">link</a></p>\n", 261, "destinations"),
        case("[link](<my uri>)", "<p><a href=\"my%20uri\">link</a></p>\n", 262, "destinations"),
        case("[link](#fragment)\n\n[link](http://example.com#fragment)\n\n[link](http://example.com?foo=3#frag)", "<p><a href=\"#fragment\">link</a></p>\n<p><a href=\"http://example.com#fragment\">link</a></p>\n<p><a href=\"http://example.com?foo=3#frag\">link</a></p>\n", 263, "destinations"),
        case("[foo](/bar\\* \"ti\\*tle\")", "<p><a href=\"/bar*\" title=\"ti*tle\">foo</a></p>\n", 264, "destinations"),
        case("[foo]\n\n[foo]: /bar\\* \"ti\\*tle\"", "<p><a href=\"/bar*\" title=\"ti*tle\">foo</a></p>\n", 265, "destinations"),
        case("[foo]: /url\\bar\\*baz \"foo\\\"bar\\baz\"\n\n[foo]", "<p><a href=\"/url%5Cbar*baz\" title=\"foo&quot;bar\\baz\">foo</a></p>\n", 266, "destinations"),
        case("<http://example.com/\\[\\>", "<p><a href=\"http://example.com/%5C%5B%5C\">http://example.com/\\[\\</a></p>\n", 267, "destinations"),
        case("<http://foo.bar.baz/test?q=hello&id=22&boolean>", "<p><a href=\"http://foo.bar.baz/test?q=hello&amp;id=22&amp;boolean\">http://foo.bar.baz/test?q=hello&amp;id=22&amp;boolean</a></p>\n", 268, "destinations"),
        case("[link](\"title\")", "<p><a href=\"%22title%22\">link</a></p>\n", 269, "destinations"),
        case("![foo](<url>)", "<p><img src=\"url\" alt=\"foo\" /></p>\n", 270, "destinations"),
        case("[foo](/\u{3c6}\u{3bf}\u{3c5})", "<p><a href=\"/%CF%86%CE%BF%CF%85\">foo</a></p>\n", 271, "destinations"),
        case("[foo](/f&#246;&#246; \"f&#246;&#246;\")", "<p><a href=\"/f%C3%B6%C3%B6\" title=\"f\u{f6}\u{f6}\">foo</a></p>\n", 272, "destinations"),
        case("[a](b%20c%zz)", "<p><a href=\"b%20c%25zz\">a</a></p>\n", 273, "destinations"),
        case("`<http://foo.bar.`baz>`", "<p><code>&lt;http://foo.bar.</code>baz&gt;`</p>\n", 274, "code_spans"),
        case("<a href=\"`\">`", "<p><a href=\"`\">`</p>\n", 275, "code_spans"),
        case("Foo\n    ---", "<p>Foo\n---</p>\n", 276, "setext_and_breaks"),
        case("Foo\n   ----      ", "<h2>Foo</h2>\n", 277, "setext_and_breaks"),
        case("Foo  \n-----", "<h2>Foo</h2>\n", 278, "setext_and_breaks"),
        case("Foo\\\n----", "<h2>Foo\\</h2>\n", 279, "setext_and_breaks"),
        case("`Foo\n----\n`\n\n<a title=\"a lot\n---\nof dashes\"/>", "<h2>`Foo</h2>\n<p>`</p>\n<h2>&lt;a title=&quot;a lot</h2>\n<p>of dashes&quot;/&gt;</p>\n", 280, "setext_and_breaks"),
        case("* Foo\n* * *\n* Bar", "<ul>\n<li>Foo</li>\n</ul>\n<hr />\n<ul>\n<li>Bar</li>\n</ul>\n", 281, "setext_and_breaks"),
        case("- Foo\n- * * *", "<ul>\n<li>Foo</li>\n<li>\n<hr />\n</li>\n</ul>\n", 282, "setext_and_breaks"),
        case("Foo\n---\nbar", "<h2>Foo</h2>\n<p>bar</p>\n", 283, "setext_and_breaks"),
        case("Foo\nbar\n---\nbaz", "<h2>Foo\nbar</h2>\n<p>baz</p>\n", 284, "setext_and_breaks"),
        case("Foo\nbar\n\n---\n\nbaz", "<p>Foo\nbar</p>\n<hr />\n<p>baz</p>\n", 285, "setext_and_breaks"),
        case("Foo\nbar\n* * *\nbaz", "<p>Foo\nbar</p>\n<hr />\n<p>baz</p>\n", 286, "setext_and_breaks"),
        case("Foo\nbar\n\\---\nbaz", "<p>Foo\nbar\n---\nbaz</p>\n", 287, "setext_and_breaks"),
        case("    Foo\n    ---\n\n    Foo\n---", "<pre><code>Foo\n---\n\nFoo\n</code></pre>\n<hr />\n", 288, "setext_and_breaks"),
        case("<script type=\"text/javascript\">\n// JavaScript example\n\ndocument.getElementById(\"demo\").innerHTML = \"Hello JavaScript!\";\n</script>\nokay", "<script type=\"text/javascript\">\n// JavaScript example\n\ndocument.getElementById(\"demo\").innerHTML = \"Hello JavaScript!\";\n</script>\n<p>okay</p>\n", 289, "html_block_kinds"),
        case("<textarea>\n\n*foo*\n\n_bar_\n\n</textarea>", "<textarea>\n\n*foo*\n\n_bar_\n\n</textarea>\n", 290, "html_block_kinds"),
        case("<style>p{color:red;}</style>\n*foo*", "<style>p{color:red;}</style>\n<p><em>foo</em></p>\n", 291, "html_block_kinds"),
        case("<script>\nfoo\n</script>1. *bar*", "<script>\nfoo\n</script>1. *bar*\n", 292, "html_block_kinds"),
        case("<?php\n\n  echo '>';\n\n?>\nokay", "<?php\n\n  echo '>';\n\n?>\n<p>okay</p>\n", 293, "html_block_kinds"),
        case("<!DOCTYPE html>", "<!DOCTYPE html>\n", 294, "html_block_kinds"),
        case("<![CDATA[\nfunction matchwo(a,b)\n{\n  if (a < b && a < 0) then {\n    return 1;\n\n  } else {\n\n    return 0;\n  }\n}\n]]>\nokay", "<![CDATA[\nfunction matchwo(a,b)\n{\n  if (a < b && a < 0) then {\n    return 1;\n\n  } else {\n\n    return 0;\n  }\n}\n]]>\n<p>okay</p>\n", 295, "html_block_kinds"),
        case("<div><a href=\"bar\">*foo*</a></div>", "<div><a href=\"bar\">*foo*</a></div>\n", 296, "html_block_kinds"),
        case("<table>\n\n  <tr>\n\n    <td>\n      Hi\n    </td>\n\n  </tr>\n\n</table>", "<table>\n  <tr>\n<pre><code>&lt;td&gt;\n  Hi\n&lt;/td&gt;\n</code></pre>\n  </tr>\n</table>\n", 297, "html_block_kinds"),
        case("<div>\nbar\n</div>\n*foo*", "<div>\nbar\n</div>\n*foo*\n", 298, "html_block_kinds"),
        case("<i class=\"foo\">\n*bar*\n</i>", "<i class=\"foo\">\n*bar*\n</i>\n", 299, "html_block_kinds"),
        case("</ins>\n*bar*", "</ins>\n*bar*\n", 300, "html_block_kinds"),
        case("<del>\n\n*foo*\n\n</del>", "<del>\n<p><em>foo</em></p>\n</del>\n", 301, "html_block_kinds"),
        case("[foo]: /url 'title\nline1\nline2'\n\n[foo]", "<p><a href=\"/url\" title=\"title\nline1\nline2\">foo</a></p>\n", 302, "definitions"),
        case("[foo]:\n/url\n\n[foo]", "<p><a href=\"/url\">foo</a></p>\n", 303, "definitions"),
        case("[foo]:\n\n[foo]", "<p>[foo]:</p>\n<p>[foo]</p>\n", 304, "definitions"),
        case("[foo]: <>\n\n[foo]", "<p><a href=\"\">foo</a></p>\n", 305, "definitions"),
        case("[\nfoo\n]: /url\nbar", "<p>bar</p>\n", 306, "definitions"),
        case("[foo]: /url\nbar\n===\n[foo]", "<h1>bar</h1>\n<p><a href=\"/url\">foo</a></p>\n", 307, "definitions"),
        case("[foo]: /foo-url \"foo\"\n[bar]: /bar-url\n  \"bar\"\n[baz]: /baz-url\n\n[foo],\n[bar],\n[baz]", "<p><a href=\"/foo-url\" title=\"foo\">foo</a>,\n<a href=\"/bar-url\" title=\"bar\">bar</a>,\n<a href=\"/baz-url\">baz</a></p>\n", 308, "definitions"),
        case("*foo**bar*", "<p><em>foo**bar</em></p>\n", 309, "delimiter_runs"),
        case("**foo*bar*baz**", "<p><strong>foo<em>bar</em>baz</strong></p>\n", 310, "delimiter_runs"),
        case("***foo** bar*", "<p><em><strong>foo</strong> bar</em></p>\n", 311, "delimiter_runs"),
        case("*foo **bar***", "<p><em>foo <strong>bar</strong></em></p>\n", 312, "delimiter_runs"),
        case("foo******bar*********baz", "<p>foo<strong><strong><strong>bar</strong></strong></strong>***baz</p>\n", 313, "delimiter_runs"),
        case("**foo \"*bar*\" foo**", "<p><strong>foo &quot;<em>bar</em>&quot; foo</strong></p>\n", 314, "delimiter_runs"),
        case("__foo, __bar__, baz__", "<p><strong>foo, <strong>bar</strong>, baz</strong></p>\n", 315, "delimiter_runs"),
        case("foo-__(bar)__", "<p>foo-<strong>(bar)</strong></p>\n", 316, "delimiter_runs"),
        case("_foo_bar_baz_", "<p><em>foo_bar_baz</em></p>\n", 317, "delimiter_runs"),
        case("_(bar)_.", "<p><em>(bar)</em>.</p>\n", 318, "delimiter_runs"),
        case("*foo *bar**", "<p><em>foo <em>bar</em></em></p>\n", 319, "delimiter_runs"),
        case("*foo****", "<p><em>foo</em>***</p>\n", 320, "delimiter_runs"),
        case("__foo_ bar_", "<p><em><em>foo</em> bar</em></p>\n", 321, "delimiter_runs"),
        case("*a `*`*", "<p><em>a <code>*</code></em></p>\n", 322, "delimiter_runs"),
        case("_a `_`_", "<p><em>a <code>_</code></em></p>\n", 323, "delimiter_runs"),
        case("__a<http://foo.bar/?q=__>", "<p>__a<a href=\"http://foo.bar/?q=__\">http://foo.bar/?q=__</a></p>\n", 324, "delimiter_runs"),
        case("*<img src=\"foo\" title=\"*\"/>", "<p>*<img src=\"foo\" title=\"*\"/></p>\n", 325, "delimiter_runs"),
        case("**<a href=\"**\">", "<p>**<a href=\"**\"></p>\n", 326, "delimiter_runs"),
        case("**foo **bar baz**", "<p>**foo <strong>bar baz</strong></p>\n", 327, "delimiter_runs"),
        case("*foo *bar baz*", "<p>*foo <em>bar baz</em></p>\n", 328, "delimiter_runs"),
        case("_foo [bar_](/url)", "<p>_foo <a href=\"/url\">bar_</a></p>\n", 329, "delimiter_runs"),
        case("*\u{a0}a\u{a0}*", "<p>*\u{a0}a\u{a0}*</p>\n", 330, "delimiter_runs"),
        case("*$*alpha.\n\n*\u{a3}*bravo.\n\n*\u{20ac}*charlie.", "<p>*$*alpha.</p>\n<p>*\u{a3}*bravo.</p>\n<p>*\u{20ac}*charlie.</p>\n", 331, "delimiter_runs"),
        case("\u{43f}\u{440}\u{438}\u{441}\u{442}\u{430}\u{43d}\u{44f}\u{43c}_\u{441}\u{442}\u{440}\u{435}\u{43c}\u{44f}\u{442}\u{441}\u{44f}_", "<p>\u{43f}\u{440}\u{438}\u{441}\u{442}\u{430}\u{43d}\u{44f}\u{43c}_\u{441}\u{442}\u{440}\u{435}\u{43c}\u{44f}\u{442}\u{441}\u{44f}_</p>\n", 332, "delimiter_runs"),
        case("_foo_bar", "<p>_foo_bar</p>\n", 333, "delimiter_runs"),
        case("**foo bar **", "<p>**foo bar **</p>\n", 334, "delimiter_runs"),
        case("__foo bar__", "<p><strong>foo bar</strong></p>\n", 335, "delimiter_runs"),
    ]
}

#[test]
fn commonmark_conformance() {
    let cases = cases();
    assert!(!cases.is_empty(), "fixture loaded zero cases");

    let mut passed = 0u32;
    let mut stats = SectionStats::default();
    let mut failures = Vec::new();

    for case in &cases {
        let normalized = MarkdownFile::normalize(case.markdown);
        let md: MarkdownFile<'_> = MarkdownFile::parse(&normalized);
        let got = md.to_html();
        let ok = got == case.html;
        stats.record(case.section, ok);
        if ok {
            passed += 1;
        } else {
            failures.push(format!(
                "example {} ({}):\n  input:    {:?}\n  expected: {:?}\n  got:      {:?}",
                case.example, case.section, case.markdown, case.html, got
            ));
        }
    }

    let total = u32::try_from(cases.len()).expect("fixture count fits in u32");
    let pct = f64::from(passed) / f64::from(total) * 100.0;

    println!("\n=== CommonMark conformance: {passed}/{total} ({pct:.1}%) ===\n");
    println!("Per-section breakdown:");
    for section in &stats.order {
        let p = stats.passed[section];
        let t = stats.total[section];
        let mark = if p == t { "OK " } else { "   " };
        println!("  [{mark}] {p:>3}/{t:<3}  {section}");
    }

    println!("\nFailures ({}):", failures.len());
    for f in &failures {
        println!("\nFAIL {f}");
    }

    assert_eq!(
        passed, total,
        "CommonMark conformance regressed: {passed}/{total} ({pct:.1}%); {} failing",
        failures.len()
    );
}

/// Every example must parse and render without panicking.
#[test]
fn no_panic_on_any_fixture() {
    for case in &cases() {
        let normalized = MarkdownFile::normalize(case.markdown);
        let md: MarkdownFile<'_> = MarkdownFile::parse(&normalized);
        let _ = md.to_html();
    }
}
