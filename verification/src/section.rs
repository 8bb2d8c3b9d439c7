use vstd::prelude::*;

verus! {

/// A range of inline elements stored contiguously in the inline pool.
#[derive(Debug, Clone, Copy, PartialEq, Eq, Structural)]
pub struct InlineSpan {
    pub start: u32,
    pub len: u32,
}

impl InlineSpan {
    #[must_use]
    pub fn new(start: u32, len: u32) -> (s: Self)
        ensures
            s.start == start,
            s.len == len,
    {
        Self { start, len }
    }

    /// The span holding no elements.
    pub fn empty() -> (s: Self)
        ensures
            s.start == 0,
            s.len == 0,
    {
        Self { start: 0, len: 0 }
    }

    #[must_use]
    pub fn is_empty(self) -> (r: bool)
        ensures
            r == (self.len == 0),
    {
        self.len == 0
    }
}

/// A range of `InlineSpan` elements stored contiguously in a span pool.
#[derive(Debug, Clone, Copy, PartialEq, Eq, Structural)]
pub struct SpanSlice {
    pub start: u32,
    pub len: u32,
}

impl SpanSlice {
    #[must_use]
    pub fn new(start: u32, len: u32) -> (s: Self)
        ensures
            s.start == start,
            s.len == len,
    {
        Self { start, len }
    }

    #[must_use]
    pub fn is_empty(self) -> (r: bool)
        ensures
            r == (self.len == 0),
    {
        self.len == 0
    }
}

/// A range of [`Section`]s stored contiguously in the section pool.
#[derive(Debug, Clone, Copy, PartialEq, Eq, Structural)]
pub struct SectionRange {
    pub start: u32,
    pub len: u32,
}

impl SectionRange {
    #[must_use]
    pub fn new(start: u32, len: u32) -> (s: Self)
        ensures
            s.start == start,
            s.len == len,
    {
        Self { start, len }
    }

    /// The range holding no sections.
    pub fn empty() -> (s: Self)
        ensures
            s.start == 0,
            s.len == 0,
    {
        Self { start: 0, len: 0 }
    }

    #[must_use]
    pub fn is_empty(self) -> (r: bool)
        ensures
            r == (self.len == 0),
    {
        self.len == 0
    }
}

/// A range of code lines stored contiguously in the line pool.
#[derive(Debug, Clone, Copy, PartialEq, Eq, Structural)]
pub struct LineRange {
    pub start: u32,
    pub len: u32,
}

impl LineRange {
    #[must_use]
    pub fn new(start: u32, len: u32) -> (s: Self)
        ensures
            s.start == start,
            s.len == len,
    {
        Self { start, len }
    }
}

/// One line of a code or HTML block held in the line pool: `pad` synthetic
/// leading spaces (left over from a tab that straddled a stripped container
/// prefix) followed by the borrowed slice `text`.
#[derive(Debug, Clone, Copy, PartialEq, Eq)]
pub struct PoolLine<'src> {
    pub pad: u8,
    pub text: &'src str,
}

/// The delimiter used after the number in an ordered list item (`1.` vs `1)`).
#[derive(Debug, Clone, Copy, PartialEq, Eq, Structural)]
pub enum OrderedListDelimiter {
    Dot,
    Paren,
}

pub open spec fn delimiter_byte(d: OrderedListDelimiter) -> u8 {
    match d {
        OrderedListDelimiter::Dot => 46u8,
        OrderedListDelimiter::Paren => 41u8,
    }
}

impl OrderedListDelimiter {
    #[must_use]
    pub fn byte(self) -> (b: u8)
        ensures
            b == delimiter_byte(self),
    {
        match self {
            OrderedListDelimiter::Dot => 46u8,
            OrderedListDelimiter::Paren => 41u8,
        }
    }

    #[must_use]
    pub fn from_byte(b: u8) -> (r: Option<Self>)
        ensures
            r matches Some(d) ==> delimiter_byte(d) == b,
            r is None <==> (b != 46u8 && b != 41u8),
    {
        match b {
            46u8 => Some(OrderedListDelimiter::Dot),
            41u8 => Some(OrderedListDelimiter::Paren),
            _ => None,
        }
    }
}

/// Converting a delimiter to its byte and back is the identity, and the two
/// delimiters have distinct bytes.
pub proof fn lemma_delimiter_roundtrip(d: OrderedListDelimiter)
    ensures
        forall|e: OrderedListDelimiter| delimiter_byte(e) == delimiter_byte(d) ==> e == d,
        delimiter_byte(d) == 46u8 || delimiter_byte(d) == 41u8,
{
}

/// A block-level element of a Markdown document.
#[derive(Debug, Clone, Copy, PartialEq, Eq)]
pub enum Section<'src> {
    Heading { level: u8, content: InlineSpan },
    Paragraph { content: InlineSpan },
    /// A fenced code block whose content is one contiguous slice.
    CodeBlock { language: Option<&'src str>, code: &'src str },
    /// A fenced or indented code block whose lines had to be dedented; the
    /// lines live in the line pool.
    CodeLines { language: Option<&'src str>, lines: LineRange },
    /// A top-level indented code block (`CommonMark` §4.4); the slice still
    /// carries each line's indentation, which the renderer strips.
    IndentedCode { code: &'src str },
    UnorderedList { tight: bool, items: SectionRange },
    OrderedList { start: u32, delimiter: OrderedListDelimiter, tight: bool, items: SectionRange },
    /// One list item; `children` covers its child blocks and their subtrees.
    ListItem { children: SectionRange },
    Blockquote { children: SectionRange },
    /// A raw HTML block emitted verbatim.
    HtmlBlock { html: &'src str },
    /// A raw HTML block inside a container, held line by line.
    HtmlLines { lines: LineRange },
    HorizontalRule,
}

/// Number of section-pool slots a section's subtree occupies: itself plus the
/// descendants recorded in its child range.
pub open spec fn spec_pool_span(s: Section) -> int {
    if raw_pool_span(s) > usize::MAX { usize::MAX as int } else { raw_pool_span(s) }
}

pub open spec fn raw_pool_span(s: Section) -> int {
    match s {
        Section::UnorderedList { items, .. } => 1 + items.len,
        Section::OrderedList { items, .. } => 1 + items.len,
        Section::ListItem { children } => 1 + children.len,
        Section::Blockquote { children } => 1 + children.len,
        _ => 1,
    }
}

impl<'src> Section<'src> {
    /// Number of section-pool slots this section's subtree occupies.
    pub fn pool_span(&self) -> (n: usize)
        ensures
            n == spec_pool_span(*self),
    {
        let inner: u32 = match self {
            Section::UnorderedList { items, .. } => items.len,
            Section::OrderedList { items, .. } => items.len,
            Section::ListItem { children } => children.len,
            Section::Blockquote { children } => children.len,
            _ => 0,
        };
        let l = inner as usize;
        if l < usize::MAX {
            l + 1
        } else {
            usize::MAX
        }
    }
}

} // verus!
