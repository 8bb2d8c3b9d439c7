//! Regression inputs found by fuzzing: each must parse, and every section
//! and inline span of the result must be reachable.
use marki::{MarkdownFile, Section};

/// Dereference every child range and inline span reachable from `sections`.
fn walk<'a, 'src: 'a>(md: &'a MarkdownFile<'src>, sections: impl Iterator<Item = &'a Section<'src>>) {
    for section in sections {
        match section {
            Section::UnorderedList { items, .. } | Section::OrderedList { items, .. } => {
                walk(md, md.child_sections(*items));
            }
            Section::Heading { content, .. } | Section::Paragraph { content } => {
                let _ = md.inlines(*content);
            }
            Section::Blockquote { children } | Section::ListItem { children } => {
                walk(md, md.child_sections(*children));
            }
            Section::CodeLines { lines, .. } | Section::HtmlLines { lines } => {
                let _ = md.code_lines(*lines);
            }
            Section::CodeBlock { .. }
            | Section::IndentedCode { .. }
            | Section::HtmlBlock { .. }
            | Section::HorizontalRule => {}
        }
    }
}

/// Deeply nested `*` emphasis once caused unbounded recursion.
#[test]
fn fuzz_deep_emphasis_recursion() {
    let md: MarkdownFile<'_> = MarkdownFile::parse(
        "\n\n\n****************************************************\\*************b*****************************************************\\*************b*****************\\********************b*****************\\*********\\{***\\{***\\{***********\\********************b*****************\\*********\\{***\\{***\\{***\\{*********\\",
    );
    walk(&md, md.sections.iter());
}
