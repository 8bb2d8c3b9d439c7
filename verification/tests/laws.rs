//! Concrete instances of the library's laws.
use std::borrow::Cow;

use marki::link_def::normalize_label;
use marki::simd::ByteSliceExt;
use marki::small_bool::SmallBoolVec;
use marki::{MarkdownFile, OrderedListDelimiter, Section, SpecialChar};

#[test]
fn normalize_bare_cr_and_crlf() {
    assert_eq!(&*MarkdownFile::normalize("a\rb\r\nc\n\r"), "a\nb\nc\n\n");
}

#[test]
fn normalize_is_idempotent() {
    let once = MarkdownFile::normalize("x\r\n\r\ny\rz");
    let twice = MarkdownFile::normalize(&once);
    assert!(matches!(twice, Cow::Borrowed(_)));
    assert_eq!(&*twice, &*once);
    assert!(!once.contains('\r'));
}

#[test]
fn normalize_keeps_non_ascii() {
    assert_eq!(&*MarkdownFile::normalize("\u{e9}\r\n\u{1F600}"), "\u{e9}\n\u{1F600}");
}

#[test]
fn parsed_text_borrows_from_input() {
    let input = String::from("para *em* `code`");
    let md = MarkdownFile::parse(&input);
    let range = input.as_ptr() as usize..input.as_ptr() as usize + input.len();
    match md.sections[0] {
        Section::Paragraph { content } => {
            for inline in md.inlines(content) {
                if let marki::Inline::Text(t) | marki::Inline::Code(t) = inline {
                    assert!(range.contains(&(t.as_ptr() as usize)));
                }
            }
        }
        other => panic!("expected paragraph, got {other:?}"),
    }
}

#[test]
fn child_sections_skip_subtrees() {
    let md = MarkdownFile::parse("- a\n  - b\n  - c\n- d");
    match md.sections[0] {
        Section::UnorderedList { items, .. } => {
            let kids: Vec<_> = md.child_sections(items).collect();
            assert_eq!(kids.len(), 2);
            assert!(kids.iter().all(|k| matches!(k, Section::ListItem { .. })));
        }
        other => panic!("expected list, got {other:?}"),
    }
}

#[test]
fn code_lines_hold_dedented_lines() {
    let md = MarkdownFile::parse("> ```\n> a\n>  b\n> ```");
    match md.sections[0] {
        Section::Blockquote { children } => {
            let kids: Vec<_> = md.child_sections(children).collect();
            match kids[0] {
                Section::CodeLines { lines, .. } => {
                    let texts: Vec<_> = md.code_lines(*lines).iter().map(|l| l.text).collect();
                    assert_eq!(texts, vec!["a", " b"]);
                }
                other => panic!("expected code lines, got {other:?}"),
            }
        }
        other => panic!("expected blockquote, got {other:?}"),
    }
}

#[test]
fn special_char_byte_roundtrip() {
    for b in 0u8..=255 {
        if let Some(c) = SpecialChar::from_byte(b) {
            assert_eq!(c.byte(), b);
        }
    }
    assert_eq!(SpecialChar::from_byte(SpecialChar::Asterisk.byte()), Some(SpecialChar::Asterisk));
}

#[test]
fn delimiter_byte_roundtrip() {
    assert_eq!(OrderedListDelimiter::from_byte(b'.'), Some(OrderedListDelimiter::Dot));
    assert_eq!(OrderedListDelimiter::from_byte(b')'), Some(OrderedListDelimiter::Paren));
    assert_eq!(OrderedListDelimiter::from_byte(b'x'), None);
    assert_eq!(OrderedListDelimiter::Paren.byte(), b')');
}

#[test]
fn small_bool_push_then_pop() {
    let mut v = SmallBoolVec::new();
    for i in 0..20 {
        v.push(i % 2 == 0);
        assert_eq!(v.pop(), Some(i % 2 == 0));
        v.push(i % 2 == 0);
    }
    assert_eq!(v.len(), 20);
}

#[test]
fn find_byte_first_occurrence() {
    let s = b"a*b*c";
    assert_eq!(s.find_byte(0, b'*'), Some(1));
    assert_eq!(s.find_byte(2, b'*'), Some(3));
    assert_eq!(s.find_byte(4, b'*'), None);
}

#[test]
fn normalize_label_folds_case_and_space() {
    assert_eq!(normalize_label("  Foo \t BAR\n baz "), "foo bar baz");
    assert_eq!(normalize_label("\u{C4}"), "\u{E4}");
}

#[test]
fn blank_document_has_no_sections() {
    for input in ["", "   ", "\n\n", " \t\n  \n\t"] {
        let md = MarkdownFile::parse(input);
        assert!(md.sections.is_empty(), "{input:?}");
        assert_eq!(md.to_html(), "");
    }
}

#[test]
fn deep_nesting_renders_every_level() {
    let md = MarkdownFile::parse("> > > > deep");
    assert_eq!(
        md.to_html(),
        "<blockquote>\n<blockquote>\n<blockquote>\n<blockquote>\n<p>deep</p>\n</blockquote>\n</blockquote>\n</blockquote>\n</blockquote>\n"
    );
}

#[test]
fn nested_list_in_quote_renders_every_level() {
    let md = MarkdownFile::parse("> - a\n>   - b");
    assert_eq!(
        md.to_html(),
        "<blockquote>\n<ul>\n<li>a\n<ul>\n<li>b</li>\n</ul>\n</li>\n</ul>\n</blockquote>\n"
    );
}
