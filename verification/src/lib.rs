//! A zero-copy `CommonMark` parser: every piece of text in the parsed document
//! borrows from the input string.
use vstd::prelude::*;
use std::borrow::Cow;
use vstd::std_specs::iter::IteratorSpec;
use vstd::utf8::{encode_utf8, encode_utf8_valid_utf8, is_char_boundary, is_char_boundary_start_end_of_seq, valid_utf8};
use crate::block::{appended, heads_ok, kinds, lemma_heads_len, lemma_heads_ok, lemma_kinds_empty, lemma_texts_empty, lemma_texts_len, texts, top_heads, top_texts, lines_blank, lines_of, resolve_blocks, split_lines, top_plan, top_pool_plan, Line, Out};
use crate::doc::{inlines_ok, lines_ok, lines_within, pool_preorder, range_within, sections_ok, span_within, Builder};
use crate::line_ending::{lemma_encode_append, lemma_encode_lf, lemma_lf_no_cr, lemma_lf_prefix, lf_bytes, no_cr};
use crate::link_def::LinkDefs;
use crate::simd::ByteSliceExt;
use crate::text::{all_ws, lemma_ascii_boundary, lemma_boundary_after_ascii, sbytes, str_get};

pub mod block;
pub mod doc;
pub mod html;

pub mod inline;
pub mod line_ending;
pub mod link_def;
pub mod raw_html;
pub mod section;
pub mod simd;
pub mod small_bool;
pub mod special_char;
pub mod text;

pub use inline::Inline;
pub use section::{InlineSpan, LineRange, OrderedListDelimiter, PoolLine, Section, SectionRange, SpanSlice};
pub use special_char::SpecialChar;

verus! {

/// A parsed Markdown document: the top-level sections in order, plus the pools
/// that hold inline elements, the child sections of containers and dedented
/// code/HTML lines.
#[derive(Debug, Clone, PartialEq, Eq)]
pub struct MarkdownFile<'src> {
    /// The block-level sections of the document, in order.
    pub sections: Vec<Section<'src>>,
    pool: Vec<Inline<'src>>,
    section_pool: Vec<Section<'src>>,
    line_pool: Vec<PoolLine<'src>>,
}

/// The direct children in a pre-order forest starting at `cursor`: each child
/// is followed by its subtree, which is skipped.
pub open spec fn direct_children<'src>(forest: Seq<Section<'src>>, cursor: int) -> Seq<Section<'src>>
    decreases forest.len() - cursor,
{
    if cursor < 0 || cursor >= forest.len() {
        Seq::empty()
    } else {
        let next = cursor + crate::section::spec_pool_span(forest[cursor]);
        if next < forest.len() {
            seq![forest[cursor]] + direct_children(forest, next)
        } else {
            seq![forest[cursor]]
        }
    }
}

/// Text that borrows from a line-feed-only source holds no carriage return.
pub proof fn lemma_borrowed_no_cr(t: &str, src: &str)
    requires
        crate::text::borrowed_from(t, src),
        no_cr(sbytes(src)),
    ensures
        no_cr(sbytes(t)),
{
    reveal(crate::text::borrowed_from);
    let (a, b) = choose|a: int, b: int|
        0 <= a <= b <= sbytes(src).len() && #[trigger] sbytes(src).subrange(a, b) == sbytes(t);
    assert forall|i: int| 0 <= i < sbytes(t).len() implies #[trigger] sbytes(t)[i] != 13u8 by {
        assert(sbytes(t)[i] == sbytes(src)[a + i]);
    }
}

/// Parsing normalized input gives text without carriage returns: when the
/// source holds no `\r`, neither does any text element of the document.
pub proof fn lemma_parsed_text_has_no_cr(md: MarkdownFile, src: &str)
    requires
        md.wf(src),
        no_cr(sbytes(src)),
    ensures
        forall|i: int|
            0 <= i < md.inline_pool().len() ==> (#[trigger] md.inline_pool()[i] matches Inline::Text(t)
                ==> no_cr(sbytes(t))),
{
    assert forall|i: int| 0 <= i < md.inline_pool().len() implies (#[trigger] md.inline_pool()[i] matches Inline::Text(t)
        ==> no_cr(sbytes(t))) by {
        if let Inline::Text(t) = md.inline_pool()[i] {
            assert(crate::doc::inline_ok(md.inline_pool()[i], i, src));
            lemma_borrowed_no_cr(t, src);
        }
    }
}

/// Rendering never runs out of nesting depth: `to_html` renders a
/// well-formed document with the nesting bound `render_fuel`, and any larger
/// bound gives the same HTML.
pub proof fn lemma_render_depth_suffices(md: MarkdownFile, src: &str, f: nat)
    requires
        md.wf(src),
        md.section_pool().len() < usize::MAX,
        f >= crate::html::render_fuel(md.section_pool().len()),
    ensures
        crate::html::tops_html(
            md.inline_pool(),
            md.section_pool(),
            md.line_pool(),
            Seq::empty(),
            md.top_sections(),
            0,
            f,
        ) == crate::html::doc_html(md.top_sections(), md.inline_pool(), md.section_pool(), md.line_pool()),
{
    let q = md.section_pool();
    assert forall|i: int| 0 <= i < q.len() implies ((#[trigger] crate::html::kid_range(q[i])) matches Some(r)
        ==> r.start + r.len <= q.len()) by {
        assert(crate::doc::section_ok(q[i], md.inline_pool().len() as int, q.len() as int, md.line_pool().len() as int, src));
    }
    let secs = md.top_sections();
    assert forall|k: int| 0 <= k < secs.len() implies ((#[trigger] crate::html::kid_range(secs[k])) matches Some(r)
        ==> r.start + r.len <= q.len()) by {
        assert(crate::doc::section_ok(secs[k], md.inline_pool().len() as int, q.len() as int, md.line_pool().len() as int, src));
    }
    crate::html::lemma_doc_fuel(secs, md.inline_pool(), q, md.line_pool(), f);
}

impl<'src> MarkdownFile<'src> {
    /// The top-level sections.
    pub closed spec fn top_sections(&self) -> Seq<Section<'src>> {
        self.sections@
    }

    /// The inline pool (post-order: an element's children precede it).
    pub closed spec fn inline_pool(&self) -> Seq<Inline<'src>> {
        self.pool@
    }

    /// The pool of child sections (pre-order).
    pub closed spec fn section_pool(&self) -> Seq<Section<'src>> {
        self.section_pool@
    }

    /// The pool of dedented code and HTML lines.
    pub closed spec fn line_pool(&self) -> Seq<PoolLine<'src>> {
        self.line_pool@
    }

    /// Every span and range of the document points into its pool, every
    /// inline element's children precede it, every container of the section
    /// pool is immediately followed by its children, and every piece of text
    /// borrows from `src`.
    pub open spec fn wf(&self, src: &str) -> bool {
        &&& inlines_ok(self.inline_pool(), src)
        &&& sections_ok(
            self.top_sections(),
            self.inline_pool().len() as int,
            self.section_pool().len() as int,
            self.line_pool().len() as int,
            src,
        )
        &&& sections_ok(
            self.section_pool(),
            self.inline_pool().len() as int,
            self.section_pool().len() as int,
            self.line_pool().len() as int,
            src,
        )
        &&& lines_ok(self.line_pool(), src)
        &&& pool_preorder(self.section_pool())
    }

    /// Parse a Markdown document. A first pass over the blocks gathers the
    /// link reference definitions; the second builds the document with them.
    /// The top-level sections are, kind by kind, the blocks that `top_plan`
    /// finds on the lines of the input (containers nest at most as deep as
    /// the input is long), and the pool of child sections holds, kind by
    /// kind, what `top_pool_plan` says of them wherever it describes them.
    /// A top-level code or HTML block holds the text `top_texts` gives it,
    /// and an ATX heading whose text holds no byte that can begin an inline
    /// construct holds that text as its one text element (`heads_ok`).
    pub fn parse(input: &'src str) -> (md: Self)
        ensures
            md.wf(input),
            exists|lines: Seq<Line>| #![auto]
                lines_of(sbytes(input), lines) && kinds(md.top_sections()) == top_plan(
                    input,
                    lines,
                    0,
                    false,
                    (sbytes(input).len() as usize) as int,
                ) && (md.section_pool().len() < u32::MAX ==> (top_pool_plan(
                    input,
                    lines,
                    0,
                    false,
                    (sbytes(input).len() as usize) as int,
                ) matches Some(ks) ==> kinds(md.section_pool()) == ks)) && texts(md.top_sections()) == top_texts(
                    input,
                    lines,
                    0,
                    false,
                    (sbytes(input).len() as usize) as int,
                ) && heads_ok(
                    input,
                    md.inline_pool(),
                    md.top_sections(),
                    top_heads(input, lines, 0, false, (sbytes(input).len() as usize) as int),
                ),
            all_ws(sbytes(input), 0, sbytes(input).len() as int) ==> {
                &&& md.top_sections().len() == 0
                &&& md.inline_pool().len() == 0
                &&& md.section_pool().len() == 0
                &&& md.line_pool().len() == 0
            },
    {
        let lines = split_lines(input.as_bytes());
        proof {
            if all_ws(sbytes(input), 0, sbytes(input).len() as int) {
                assert forall|k: int| 0 <= k < lines@.len() implies all_ws(
                    sbytes(input),
                    (#[trigger] lines@[k]).start as int,
                    lines@[k].end as int,
                ) by {
                    assert(lines@[k].end <= sbytes(input).len());
                }
                assert(lines_blank(sbytes(input), lines@));
            }
        }
        let fuel = input.len();
        let none = LinkDefs::new();
        let mut first = Out { b: Builder::new(), top: Vec::new(), defs: LinkDefs::new() };
        {
            let p = crate::inline::InlineParser::new(input, &none);
            resolve_blocks(&p, &mut first, &lines, true, true, fuel);
        }
        let defs = first.defs;
        let p = crate::inline::InlineParser::new(input, &defs);
        let mut o = Out { b: Builder::new(), top: Vec::new(), defs: LinkDefs::new() };
        proof {
            lemma_kinds_empty();
            lemma_texts_empty();
            assert(o.top@ == Seq::<Section>::empty());
        }
        resolve_blocks(&p, &mut o, &lines, true, false, fuel);
        proof {
            assert(Seq::<Option<Seq<u8>>>::empty() + top_texts(input, lines@, 0, false, fuel as int) =~= top_texts(
                input,
                lines@,
                0,
                false,
                fuel as int,
            ));
            lemma_texts_len(o.top@);
            lemma_heads_len(input, lines@, 0, false, fuel as int);
            lemma_heads_ok(input, o.b.inlines@, o.top@, top_heads(input, lines@, 0, false, fuel as int));
            reveal(appended);
            assert(o.b.sections@.subrange(0, o.b.sections@.len() as int) =~= o.b.sections@);
            assert(Seq::<crate::block::BlockKind>::empty() + top_plan(input, lines@, 0, false, fuel as int) =~= top_plan(
                input,
                lines@,
                0,
                false,
                fuel as int,
            ));
        }
        MarkdownFile { sections: o.top, pool: o.b.inlines, section_pool: o.b.sections, line_pool: o.b.lines }
    }

    /// Normalize line endings for parsing: `\r\n` and a bare `\r` become
    /// `\n`. The input comes back borrowed when it holds no `\r`.
    pub fn normalize(input: &str) -> (r: Cow<'_, str>)
        ensures
            encode_utf8(r@) == lf_bytes(sbytes(input)),
            r matches Cow::Borrowed(s) ==> s == input,
            (r matches Cow::Borrowed(_)) <==> no_cr(sbytes(input)),
    {
        let bytes = input.as_bytes();
        let cr_byte = crate::special_char::SpecialChar::CarriageReturn.byte();
        let lf_byte = crate::special_char::SpecialChar::Newline.byte();
        if bytes.find_byte(0, cr_byte).is_none() {
            proof {
                lemma_lf_no_cr(bytes@);
            }
            return Cow::Borrowed(input);
        }
        let ghost all = bytes@;
        let n = bytes.len();
        let mut out = String::new();
        let mut start: usize = 0;
        let mut done = false;
        proof {
            assert(all.subrange(0, n as int) == all);
            assert(out@ == Seq::<char>::empty());
            encode_utf8_valid_utf8(input@);
        }
        while !done
            invariant
                bytes@ == all,
                all == sbytes(input),
                n == all.len(),
                start <= n,
                valid_utf8(all),
                is_char_boundary(all, start as int),
                !done ==> encode_utf8(out@) + lf_bytes(all.subrange(start as int, n as int)) == lf_bytes(all),
                done ==> encode_utf8(out@) == lf_bytes(all),
                cr_byte == 13u8,
                lf_byte == 10u8,
            decreases n - start + (if done { 0int } else { 1int }),
        {
            match bytes.find_byte(start, cr_byte) {
                Some(cr) => {
                    let ghost rest = all.subrange(start as int, n as int);
                    proof {
                        lemma_ascii_boundary(input, cr as int);
                    }
                    let piece = str_get(input, start, cr).unwrap();
                    let ghost before = out@;
                    out.append(piece);
                    let nl = "\n";
                    proof {
                        reveal_strlit("\n");
                    }
                    out.append(nl);
                    let mut next = cr + 1;
                    proof {
                        lemma_boundary_after_ascii(all, cr as int);
                    }
                    if next < n && bytes[next] == lf_byte {
                        proof {
                            lemma_boundary_after_ascii(all, next as int);
                        }
                        next = next + 1;
                    }
                    proof {
                        let p = all.subrange(start as int, cr as int);
                        let tail = all.subrange(cr as int, n as int);
                        assert(rest == p + tail);
                        assert(no_cr(p));
                        lemma_lf_prefix(p, tail);
                        assert(tail[0] == 13u8);
                        assert(lf_bytes(tail) == seq![10u8] + lf_bytes(all.subrange(next as int, n as int))) by {
                            if cr + 1 < n && all[cr + 1] == 10u8 {
                                assert(tail.subrange(2, tail.len() as int) == all.subrange(next as int, n as int));
                            } else {
                                assert(tail.drop_first() == all.subrange(next as int, n as int));
                            }
                        }
                        lemma_encode_append(before, piece@);
                        lemma_encode_append(before + piece@, nl@);
                        assert(nl@ == seq!['\n']);
                        lemma_encode_lf();
                        assert(encode_utf8(out@) == encode_utf8(before) + p + seq![10u8]);
                        assert(encode_utf8(before) + lf_bytes(rest) == lf_bytes(all));
                        assert(encode_utf8(before) + p + seq![10u8] + lf_bytes(all.subrange(next as int, n as int))
                            == encode_utf8(before) + (p + (seq![10u8] + lf_bytes(all.subrange(next as int, n as int)))));
                    }
                    start = next;
                },
                None => {
                    proof {
                        is_char_boundary_start_end_of_seq(all);
                    }
                    let piece = str_get(input, start, n).unwrap();
                    let ghost before = out@;
                    out.append(piece);
                    proof {
                        let p = all.subrange(start as int, n as int);
                        assert(no_cr(p));
                        lemma_lf_no_cr(p);
                        lemma_encode_append(before, piece@);
                    }
                    done = true;
                },
            }
        }
        proof {
            assert(!no_cr(all)) by {
                let j = choose|j: int| 0 <= j < all.len() && all[j] == 13u8;
                assert(all[j] == 13u8);
            }
        }
        Cow::Owned(out)
    }

    /// Render the document to HTML, in the shape the `CommonMark` reference
    /// renderer produces: each block followed by a newline, the paragraphs of
    /// tight list items without `<p>` tags.
    pub fn to_html(&self) -> (r: String)
        ensures
            crate::html::written(&r) == crate::html::doc_html(
                self.top_sections(),
                self.inline_pool(),
                self.section_pool(),
                self.line_pool(),
            ),
    {
        let pools = crate::html::Pools {
            inl: self.pool.as_slice(),
            sec: self.section_pool.as_slice(),
            lin: self.line_pool.as_slice(),
        };
        crate::html::render_document(&pools, self.sections.as_slice())
    }

    /// The inline elements of a span.
    pub fn inlines(&self, span: InlineSpan) -> (r: &[Inline<'src>])
        requires
            span_within(span, self.inline_pool().len() as int),
        ensures
            r@ == self.inline_pool().subrange(span.start as int, span.start + span.len),
    {
        let _ = self.pool.len();
        let start = span.start as usize;
        let end = start + span.len as usize;
        vstd::slice::slice_subrange(self.pool.as_slice(), start, end)
    }

    /// The dedented code or HTML lines of a range.
    pub fn code_lines(&self, range: LineRange) -> (r: &[PoolLine<'src>])
        requires
            lines_within(range, self.line_pool().len() as int),
        ensures
            r@ == self.line_pool().subrange(range.start as int, range.start + range.len),
    {
        let _ = self.line_pool.len();
        let start = range.start as usize;
        let end = start + range.len as usize;
        vstd::slice::slice_subrange(self.line_pool.as_slice(), start, end)
    }

    /// The direct children of a container's range, skipping each child's
    /// subtree.
    fn children_of(&self, range: SectionRange) -> (r: Vec<&Section<'src>>)
        requires
            range_within(range, self.section_pool().len() as int),
        ensures
            r@.unref() == direct_children(
                self.section_pool().subrange(range.start as int, range.start + range.len),
                0,
            ),
    {
        let _ = self.section_pool.len();
        let start = range.start as usize;
        let end = start + range.len as usize;
        let forest = vstd::slice::slice_subrange(self.section_pool.as_slice(), start, end);
        let n = forest.len();
        let mut kids: Vec<&Section<'src>> = Vec::new();
        let mut cursor: usize = 0;
        while cursor < n
            invariant
                n == forest@.len(),
                cursor <= n,
                kids@.unref() + direct_children(forest@, cursor as int) == direct_children(forest@, 0),
            decreases n - cursor,
        {
            let child = &forest[cursor];
            let span = child.pool_span();
            let ghost before = kids@;
            kids.push(child);
            proof {
                assert(kids@.unref() == before.unref().push(*child));
                assert(direct_children(forest@, cursor as int) == seq![*child]
                    + direct_children(forest@, cursor + span));
                assert(kids@.unref() + direct_children(forest@, cursor + span)
                    == before.unref() + direct_children(forest@, cursor as int));
            }
            if span >= n - cursor {
                proof {
                    assert(direct_children(forest@, cursor + span) == Seq::<Section>::empty());
                    assert(kids@.unref() + Seq::<Section>::empty() == kids@.unref());
                }
                cursor = n;
            } else {
                cursor = cursor + span;
            }
        }
        proof {
            assert(kids@.unref() + Seq::<Section>::empty() == kids@.unref());
        }
        kids
    }

    /// Iterate the direct child sections of a container's range (list items,
    /// blockquote and list-item interiors).
    pub fn child_sections(&self, range: SectionRange) -> (r: std::vec::IntoIter<&Section<'src>>)
        requires
            range_within(range, self.section_pool().len() as int),
        ensures
            IteratorSpec::remaining(&r).unref() == direct_children(
                self.section_pool().subrange(range.start as int, range.start + range.len),
                0,
            ),
    {
        let kids = self.children_of(range);
        proof {
            broadcast use vstd::std_specs::vec::axiom_spec_into_iter;
        }
        kids.into_iter()
    }
}

} // verus!
