use marki::{MarkdownFile, OrderedListDelimiter, Section};

/// The kinds of the top-level sections, as short names.
fn kinds(input: &str) -> Vec<String> {
    let md = MarkdownFile::parse(input);
    md.sections
        .iter()
        .map(|s| match s {
            Section::Heading { level, .. } => format!("h{level}"),
            Section::Paragraph { .. } => "p".to_string(),
            Section::CodeBlock { .. } | Section::CodeLines { .. } | Section::IndentedCode { .. } => {
                "code".to_string()
            }
            Section::UnorderedList { tight, .. } => format!("ul tight={tight}"),
            Section::OrderedList { start, delimiter, tight, .. } => {
                let d = match delimiter {
                    OrderedListDelimiter::Dot => '.',
                    OrderedListDelimiter::Paren => ')',
                };
                format!("ol {start}{d} tight={tight}")
            }
            Section::ListItem { .. } => "li".to_string(),
            Section::Blockquote { .. } => "quote".to_string(),
            Section::HtmlBlock { .. } | Section::HtmlLines { .. } => "html".to_string(),
            Section::HorizontalRule => "hr".to_string(),
        })
        .collect()
}

#[test]
fn setext_underline_turns_paragraph_into_heading() {
    assert_eq!(kinds("Foo\n-----"), vec!["h2"]);
    assert_eq!(kinds("Foo\nbar\n==="), vec!["h1"]);
}

#[test]
fn dashes_without_paragraph_are_a_rule() {
    assert_eq!(kinds("-----"), vec!["hr"]);
    assert_eq!(kinds("Foo\n\n---"), vec!["p", "hr"]);
}

#[test]
fn ordered_marker_other_than_one_does_not_interrupt_paragraph() {
    assert_eq!(kinds("foo\n2. bar"), vec!["p"]);
    assert_eq!(kinds("foo\n1. bar"), vec!["p", "ol 1. tight=true"]);
}

#[test]
fn empty_bullet_does_not_interrupt_paragraph() {
    assert_eq!(kinds("foo\n*"), vec!["p"]);
    assert_eq!(kinds("foo\n* bar"), vec!["p", "ul tight=true"]);
}

#[test]
fn definitions_make_no_section() {
    assert_eq!(kinds("[foo]: /a\n[FOO]: /b"), Vec::<String>::new());
    assert_eq!(kinds("[foo]: /a\n\n[foo]"), vec!["p"]);
}

#[test]
fn blank_separated_items_make_a_loose_list() {
    assert_eq!(kinds("- a\n\n- b"), vec!["ul tight=false"]);
    assert_eq!(kinds("- a\n- b"), vec!["ul tight=true"]);
    assert_eq!(kinds("3) a\n4) b"), vec!["ol 3) tight=true"]);
}

#[test]
fn blank_line_in_fenced_item_keeps_list_tight() {
    assert_eq!(kinds("- ```\n  a\n\n  b\n  ```"), vec!["ul tight=true"]);
}

#[test]
fn indented_code_does_not_interrupt_paragraph() {
    assert_eq!(kinds("    code"), vec!["code"]);
    assert_eq!(kinds("para\n    more"), vec!["p"]);
}

#[test]
fn unclosed_fence_runs_to_the_end() {
    assert_eq!(kinds("```\nabc\n\n# not a heading"), vec!["code"]);
}

#[test]
fn blockquote_then_lazy_line_is_one_quote() {
    assert_eq!(kinds("> a\nb"), vec!["quote"]);
    assert_eq!(kinds("outer\n> inner"), vec!["p", "quote"]);
    assert_eq!(kinds("> a\n\nb"), vec!["quote", "p"]);
}

#[test]
fn html_block_and_atx_heading() {
    assert_eq!(kinds("<div>\nhi\n</div>\n\n# Title"), vec!["html", "h1"]);
    assert_eq!(kinds("#5 bolt"), vec!["p"]);
    assert_eq!(kinds("###### six\n####### seven"), vec!["h6", "p"]);
}

/// The kinds of the children of the first top-level section, in pool order
/// (a nested container is followed by its own children).
fn child_kinds(input: &str) -> Vec<String> {
    let md = MarkdownFile::parse(input);
    let mut out = Vec::new();
    let mut stack: Vec<Section> = Vec::new();
    match md.sections[0] {
        Section::Blockquote { children } | Section::ListItem { children } => {
            for s in md.child_sections(children) {
                stack.push(*s);
            }
        }
        _ => {}
    }
    for s in stack {
        out.push(match s {
            Section::Heading { level, .. } => format!("h{level}"),
            Section::Paragraph { .. } => "p".to_string(),
            Section::Blockquote { children } => format!("quote({})", children.len),
            Section::CodeLines { .. } => "code".to_string(),
            Section::HtmlLines { .. } => "html".to_string(),
            Section::HorizontalRule => "hr".to_string(),
            _ => "other".to_string(),
        });
    }
    out
}

#[test]
fn blockquote_children_in_order() {
    assert_eq!(child_kinds("> # a\n> b\n> ***\n>     code"), vec!["h1", "p", "hr", "code"]);
    assert_eq!(child_kinds("> > x\n> y"), vec!["quote(1)"]);
    assert_eq!(child_kinds("> a\n> ---"), vec!["h2"]);
}

#[test]
fn definition_inside_blockquote_makes_no_section() {
    assert_eq!(child_kinds("> [foo]: /url\n> text"), vec!["p"]);
    assert_eq!(child_kinds("> [foo]\n> bar"), vec!["p"]);
}

/// The URL of the first link of the last top-level paragraph.
fn first_link_url(input: &str) -> Option<String> {
    let md = MarkdownFile::parse(input);
    for s in md.sections.iter().rev() {
        if let Section::Paragraph { content } = s {
            for x in md.inlines(*content) {
                if let marki::Inline::Link { url, .. } = x {
                    return Some(url.to_string());
                }
            }
        }
    }
    None
}

#[test]
fn first_definition_of_a_label_wins() {
    assert_eq!(first_link_url("[foo]: /a\n[FOO]: /b\n\n[foo]"), Some("/a".to_string()));
    assert_eq!(first_link_url("[foo]\n\n[foo]: /a\n\n> [foo]: /b"), Some("/a".to_string()));
    assert_eq!(first_link_url("[foo]\n\n> [foo]: /url"), Some("/url".to_string()));
}

#[test]
fn code_and_html_text_is_the_source_slice() {
    let md = MarkdownFile::parse("    a\n      b\n\n```rust\nx\n```\n\n<div>\nhi\n</div>");
    let texts: Vec<&str> = md
        .sections
        .iter()
        .filter_map(|s| match s {
            Section::IndentedCode { code } => Some(*code),
            Section::CodeBlock { code, .. } => Some(*code),
            Section::HtmlBlock { html } => Some(*html),
            _ => None,
        })
        .collect();
    assert_eq!(texts.len(), 3);
    assert_eq!(texts[1], "x");
    assert_eq!(texts[2], "<div>\nhi\n</div>");
}

#[test]
fn plain_atx_heading_text_is_one_text_element() {
    let md = MarkdownFile::parse("## Hello world ##\n\n#   spaced   #\n");
    assert_eq!(md.sections.len(), 2);
    let expected: [&str; 2] = ["Hello world", "spaced"];
    for (k, want) in expected.iter().enumerate() {
        match &md.sections[k] {
            Section::Heading { content, .. } => {
                assert_eq!(content.len, 1);
                match &md.inlines(*content)[0] {
                    marki::Inline::Text(t) => assert_eq!(*t, *want),
                    other => panic!("expected text, got {other:?}"),
                }
            }
            other => panic!("expected heading, got {other:?}"),
        }
    }
}
