use vstd::prelude::*;
use crate::inline::Inline;
use crate::section::{InlineSpan, LineRange, PoolLine, Section, SectionRange};
use crate::text::{borrowed_from, opt_borrowed_from};

verus! {

/// The span lies within the first `n` slots of its pool.
pub open spec fn span_within(s: InlineSpan, n: int) -> bool {
    s.start + s.len <= n
}

pub open spec fn range_within(r: SectionRange, n: int) -> bool {
    r.start + r.len <= n
}

pub open spec fn lines_within(r: LineRange, n: int) -> bool {
    r.start + r.len <= n
}

/// An inline element stored at pool index `idx`: its child spans lie strictly
/// before it (the pool is post-order) and its text borrows from `src`.
pub open spec fn inline_ok(x: Inline, idx: int, src: &str) -> bool {
    match x {
        Inline::Text(t) => borrowed_from(t, src),
        Inline::Code(t) => borrowed_from(t, src),
        Inline::RawHtml(t) => borrowed_from(t, src),
        Inline::Autolink { target, .. } => borrowed_from(target, src),
        Inline::Bold(s) => span_within(s, idx),
        Inline::Italic(s) => span_within(s, idx),
        Inline::Link { text, url, title } => span_within(text, idx) && borrowed_from(url, src)
            && opt_borrowed_from(title, src),
        Inline::Image { alt, url, title } => span_within(alt, idx) && borrowed_from(url, src)
            && opt_borrowed_from(title, src),
        Inline::SoftBreak => true,
        Inline::HardBreak => true,
    }
}

/// A section whose spans and ranges point into pools of the given lengths and
/// whose text borrows from `src`.
pub open spec fn section_ok(s: Section, plen: int, slen: int, llen: int, src: &str) -> bool {
    match s {
        Section::Heading { content, .. } => span_within(content, plen),
        Section::Paragraph { content } => span_within(content, plen),
        Section::CodeBlock { language, code } => opt_borrowed_from(language, src)
            && borrowed_from(code, src),
        Section::CodeLines { language, lines } => opt_borrowed_from(language, src)
            && lines_within(lines, llen),
        Section::IndentedCode { code } => borrowed_from(code, src),
        Section::UnorderedList { items, .. } => range_within(items, slen),
        Section::OrderedList { items, .. } => range_within(items, slen),
        Section::ListItem { children } => range_within(children, slen),
        Section::Blockquote { children } => range_within(children, slen),
        Section::HtmlBlock { html } => borrowed_from(html, src),
        Section::HtmlLines { lines } => lines_within(lines, llen),
        Section::HorizontalRule => true,
    }
}

/// A container stored at pool index `i` has its children right after it
/// (the section pool is pre-order).
pub open spec fn children_follow(s: Section, i: int) -> bool {
    match s {
        Section::UnorderedList { items, .. } => items.start == i + 1,
        Section::OrderedList { items, .. } => items.start == i + 1,
        Section::ListItem { children } => children.start == i + 1,
        Section::Blockquote { children } => children.start == i + 1,
        _ => true,
    }
}

/// Every container of the pool is immediately followed by its children.
pub open spec fn pool_preorder(secs: Seq<Section>) -> bool {
    forall|i: int| 0 <= i < secs.len() ==> children_follow(#[trigger] secs[i], i)
}

pub open spec fn line_ok(l: PoolLine, src: &str) -> bool {
    borrowed_from(l.text, src)
}

pub open spec fn inlines_ok(pool: Seq<Inline>, src: &str) -> bool {
    forall|i: int| 0 <= i < pool.len() ==> inline_ok(#[trigger] pool[i], i, src)
}

pub open spec fn sections_ok(secs: Seq<Section>, plen: int, slen: int, llen: int, src: &str) -> bool {
    forall|i: int| 0 <= i < secs.len() ==> section_ok(#[trigger] secs[i], plen, slen, llen, src)
}

pub open spec fn lines_ok(lines: Seq<PoolLine>, src: &str) -> bool {
    forall|i: int| 0 <= i < lines.len() ==> line_ok(#[trigger] lines[i], src)
}

/// A grown section stays well-formed against larger pools.
pub proof fn lemma_section_ok_mono(s: Section, p1: int, s1: int, l1: int, p2: int, s2: int, l2: int, src: &str)
    requires
        section_ok(s, p1, s1, l1, src),
        p1 <= p2,
        s1 <= s2,
        l1 <= l2,
    ensures
        section_ok(s, p2, s2, l2, src),
{
}

pub proof fn lemma_sections_ok_mono(secs: Seq<Section>, p1: int, s1: int, l1: int, p2: int, s2: int, l2: int, src: &str)
    requires
        sections_ok(secs, p1, s1, l1, src),
        p1 <= p2,
        s1 <= s2,
        l1 <= l2,
    ensures
        sections_ok(secs, p2, s2, l2, src),
{
    assert forall|i: int| 0 <= i < secs.len() implies section_ok(
        #[trigger] secs[i],
        p2,
        s2,
        l2,
        src,
    ) by {
        lemma_section_ok_mono(secs[i], p1, s1, l1, p2, s2, l2, src);
    }
}

/// The output pools shared by the block and inline parsers: inline elements
/// (post-order), child sections (pre-order) and code/HTML lines.
pub struct Builder<'src> {
    pub inlines: Vec<Inline<'src>>,
    pub sections: Vec<Section<'src>>,
    pub lines: Vec<PoolLine<'src>>,
}

impl<'src> Builder<'src> {
    pub open spec fn wf(&self, src: &str) -> bool {
        &&& inlines_ok(self.inlines@, src)
        &&& sections_ok(
            self.sections@,
            self.inlines@.len() as int,
            self.sections@.len() as int,
            self.lines@.len() as int,
            src,
        )
        &&& lines_ok(self.lines@, src)
        &&& pool_preorder(self.sections@)
        &&& self.inlines@.len() <= u32::MAX
        &&& self.sections@.len() <= u32::MAX
        &&& self.lines@.len() <= u32::MAX
    }

    /// `next` holds everything `self` did, and possibly more.
    pub open spec fn grown(&self, next: &Builder) -> bool {
        &&& self.inlines@.len() <= next.inlines@.len()
        &&& forall|k: int| 0 <= k < self.inlines@.len() ==> #[trigger] next.inlines@[k] == self.inlines@[k]
        &&& self.sections@.len() <= next.sections@.len()
        &&& self.lines@.len() <= next.lines@.len()
    }

    pub fn new() -> (b: Self)
        ensures
            b.inlines@.len() == 0,
            b.sections@.len() == 0,
            b.lines@.len() == 0,
    {
        Builder { inlines: Vec::new(), sections: Vec::new(), lines: Vec::new() }
    }

    /// Current inline-pool length as a span offset.
    pub fn inline_len(&self, Ghost(src): Ghost<&str>) -> (n: u32)
        requires
            self.wf(src),
        ensures
            n == self.inlines@.len(),
    {
        self.inlines.len() as u32
    }

    pub fn line_len(&self, Ghost(src): Ghost<&str>) -> (n: u32)
        requires
            self.wf(src),
        ensures
            n == self.lines@.len(),
    {
        self.lines.len() as u32
    }

    /// Append an inline element (dropped only if the pool is already at the
    /// `u32` offset limit).
    pub fn push_inline(&mut self, x: Inline<'src>, Ghost(src): Ghost<&str>)
        requires
            old(self).wf(src),
            inline_ok(x, old(self).inlines@.len() as int, src),
        ensures
            final(self).wf(src),
            old(self).grown(final(self)),
            final(self).sections@ == old(self).sections@,
            final(self).lines@ == old(self).lines@,
            old(self).inlines@.len() < u32::MAX ==> final(self).inlines@ == old(
                self,
            ).inlines@.push(x),
            old(self).inlines@.len() == u32::MAX ==> final(self).inlines@ == old(self).inlines@,
    {
        if self.inlines.len() < 0xffff_ffffusize {
            let ghost old_s = *self;
            self.inlines.push(x);
            proof {
                assert forall|i: int| 0 <= i < self.inlines@.len() implies inline_ok(
                    #[trigger] self.inlines@[i],
                    i,
                    src,
                ) by {
                    if i < old_s.inlines@.len() {
                        assert(self.inlines@[i] == old_s.inlines@[i]);
                    }
                }
                lemma_sections_ok_mono(
                    self.sections@,
                    old_s.inlines@.len() as int,
                    old_s.sections@.len() as int,
                    old_s.lines@.len() as int,
                    self.inlines@.len() as int,
                    self.sections@.len() as int,
                    self.lines@.len() as int,
                    src,
                );
            }
        }
    }

    /// Append a section to the section pool, returning its index.
    pub fn push_section(&mut self, s: Section<'src>, Ghost(src): Ghost<&str>) -> (at: usize)
        requires
            old(self).wf(src),
            children_follow(s, old(self).sections@.len() as int),
            section_ok(
                s,
                old(self).inlines@.len() as int,
                old(self).sections@.len() as int,
                old(self).lines@.len() as int,
                src,
            ),
        ensures
            final(self).wf(src),
            old(self).grown(final(self)),
            final(self).inlines@ == old(self).inlines@,
            final(self).lines@ == old(self).lines@,
            at == old(self).sections@.len(),
            old(self).sections@.len() < u32::MAX ==> final(self).sections@ == old(
                self,
            ).sections@.push(s),
            old(self).sections@.len() == u32::MAX ==> final(self).sections@ == old(
                self,
            ).sections@,
    {
        let at = self.sections.len();
        if at < 0xffff_ffffusize {
            let ghost old_s = *self;
            self.sections.push(s);
            proof {
                lemma_sections_ok_mono(
                    old_s.sections@,
                    old_s.inlines@.len() as int,
                    old_s.sections@.len() as int,
                    old_s.lines@.len() as int,
                    self.inlines@.len() as int,
                    self.sections@.len() as int,
                    self.lines@.len() as int,
                    src,
                );
                lemma_section_ok_mono(
                    s,
                    old_s.inlines@.len() as int,
                    old_s.sections@.len() as int,
                    old_s.lines@.len() as int,
                    self.inlines@.len() as int,
                    self.sections@.len() as int,
                    self.lines@.len() as int,
                    src,
                );
                assert forall|i: int| 0 <= i < self.sections@.len() implies section_ok(
                    #[trigger] self.sections@[i],
                    self.inlines@.len() as int,
                    self.sections@.len() as int,
                    self.lines@.len() as int,
                    src,
                ) by {
                    if i < old_s.sections@.len() {
                        assert(self.sections@[i] == old_s.sections@[i]);
                    }
                }
                assert forall|i: int| 0 <= i < self.sections@.len() implies children_follow(
                    #[trigger] self.sections@[i],
                    i,
                ) by {
                    if i < old_s.sections@.len() {
                        assert(self.sections@[i] == old_s.sections@[i]);
                    }
                }
            }
        }
        at
    }

    /// Overwrite the section at `at` (used to backpatch a container's child
    /// range once its subtree has been appended).
    pub fn set_section(&mut self, at: usize, s: Section<'src>, Ghost(src): Ghost<&str>)
        requires
            old(self).wf(src),
            at < old(self).sections@.len() ==> children_follow(s, at as int),
            section_ok(
                s,
                old(self).inlines@.len() as int,
                old(self).sections@.len() as int,
                old(self).lines@.len() as int,
                src,
            ),
        ensures
            final(self).wf(src),
            old(self).grown(final(self)),
            final(self).inlines@ == old(self).inlines@,
            final(self).lines@ == old(self).lines@,
            final(self).sections@.len() == old(self).sections@.len(),
            at < old(self).sections@.len() ==> final(self).sections@ == old(
                self,
            ).sections@.update(at as int, s),
            at >= old(self).sections@.len() ==> final(self).sections@ == old(self).sections@,
    {
        if at < self.sections.len() {
            let ghost old_s = *self;
            self.sections.set(at, s);
            proof {
                assert forall|i: int| 0 <= i < self.sections@.len() implies section_ok(
                    #[trigger] self.sections@[i],
                    self.inlines@.len() as int,
                    self.sections@.len() as int,
                    self.lines@.len() as int,
                    src,
                ) by {
                    if i != at {
                        assert(self.sections@[i] == old_s.sections@[i]);
                    }
                }
                assert forall|i: int| 0 <= i < self.sections@.len() implies children_follow(
                    #[trigger] self.sections@[i],
                    i,
                ) by {
                    if i != at {
                        assert(self.sections@[i] == old_s.sections@[i]);
                    }
                }
            }
        }
    }

    /// Append a code/HTML line to the line pool.
    pub fn push_line(&mut self, l: PoolLine<'src>, Ghost(src): Ghost<&str>)
        requires
            old(self).wf(src),
            line_ok(l, src),
        ensures
            final(self).wf(src),
            old(self).grown(final(self)),
            final(self).inlines@ == old(self).inlines@,
            final(self).sections@ == old(self).sections@,
            old(self).lines@.len() < u32::MAX ==> final(self).lines@ == old(self).lines@.push(l),
            old(self).lines@.len() == u32::MAX ==> final(self).lines@ == old(self).lines@,
    {
        if self.lines.len() < 0xffff_ffffusize {
            let ghost old_s = *self;
            self.lines.push(l);
            proof {
                assert forall|i: int| 0 <= i < self.lines@.len() implies line_ok(
                    #[trigger] self.lines@[i],
                    src,
                ) by {
                    if i < old_s.lines@.len() {
                        assert(self.lines@[i] == old_s.lines@[i]);
                    }
                }
                lemma_sections_ok_mono(
                    self.sections@,
                    old_s.inlines@.len() as int,
                    old_s.sections@.len() as int,
                    old_s.lines@.len() as int,
                    self.inlines@.len() as int,
                    self.sections@.len() as int,
                    self.lines@.len() as int,
                    src,
                );
            }
        }
    }
}

} // verus!
