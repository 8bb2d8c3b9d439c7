use vstd::prelude::*;
use crate::doc::{children_follow, inline_ok, lemma_sections_ok_mono, section_ok, sections_ok, Builder};
use crate::inline::{no_special, plain_lines_shape, plain_pushed, shows_plain, Inline, InlineParser};
use crate::link_def::{LinkDefEntry, link_title_part, def_matches, defs_borrow, normalize_label, registered, scan_link_def, spec_link_def, spec_normalize_label, LinkDef, LinkDefs};
use crate::raw_html::{block_start_kind, exact_at, has_type1_end, spec_end_marker, HtmlBlockKind, HtmlScan};
use crate::section::{InlineSpan, LineRange, OrderedListDelimiter, PoolLine, Section, SectionRange};
use crate::html::{digits_value, kid_range};
use crate::text::{all_ws, lemma_run_to_le, lemma_rrun_to_gt, lemma_rrun_to_empty, sliceable, lemma_run_to_from, lemma_run_to_ge, ascii_digit, ascii_ws, blank, borrowed_from, count_to, is_byte, is_ws, lemma_count_none, lemma_rrun_to, lemma_run_to, rrun_to, run_to, ws, is_blank_range, lemma_borrowed_chain, lemma_borrowed_intro, lemma_borrowed_refl, opt_borrowed_from, sbytes, str_get};

verus! {

/// One source line of a block context: the bytes `start..end` of the input
/// (no line ending), preceded by `pad` synthetic spaces left over from a tab
/// that straddled a stripped container prefix. `lazy` marks a lazy paragraph
/// continuation line, which never becomes a setext underline or a sublist.
#[derive(Clone, Copy)]
pub struct Line {
    pub start: usize,
    pub end: usize,
    pub pad: u8,
    pub lazy: bool,
}

/// Every line holds only white space.
pub open spec fn lines_blank(b: Seq<u8>, lines: Seq<Line>) -> bool {
    forall|k: int| 0 <= k < lines.len() ==> all_ws(b, (#[trigger] lines[k]).start as int, lines[k].end as int)
}

/// Every line lies within the first `n` bytes.
pub open spec fn lines_in(lines: Seq<Line>, n: int) -> bool {
    forall|k: int| 0 <= k < lines.len() ==> (#[trigger] lines[k]).start <= lines[k].end <= n
}

/// The three output collections of a block pass: the builder pools, the
/// top-level sections and the link definitions found.
pub struct Out<'src> {
    pub b: Builder<'src>,
    pub top: Vec<Section<'src>>,
    pub defs: LinkDefs<'src>,
}

impl<'src> Out<'src> {
    pub open spec fn wf(&self, src: &str) -> bool {
        &&& self.b.wf(src)
        &&& sections_ok(
            self.top@,
            self.b.inlines@.len() as int,
            self.b.sections@.len() as int,
            self.b.lines@.len() as int,
            src,
        )
        &&& defs_borrow(&self.defs, src)
    }

    pub open spec fn grown(&self, next: &Out) -> bool {
        self.b.grown(&next.b)
    }

    /// Emit a finished section at the current level: into the top-level list
    /// when `top`, otherwise into the section pool.
    fn emit(&mut self, top: bool, s: Section<'src>, Ghost(src): Ghost<&str>)
        requires
            old(self).wf(src),
            !top ==> children_follow(s, old(self).b.sections@.len() as int),
            section_ok(
                s,
                old(self).b.inlines@.len() as int,
                old(self).b.sections@.len() as int,
                old(self).b.lines@.len() as int,
                src,
            ),
        ensures
            final(self).wf(src),
            old(self).grown(final(self)),
            final(self).defs == old(self).defs,
            top ==> final(self).top@ == old(self).top@.push(s) && final(self).b == old(self).b,
            !top ==> final(self).top == old(self).top,
            !top ==> final(self).b.inlines@ == old(self).b.inlines@ && final(self).b.lines@ == old(self).b.lines@,
            !top && old(self).b.sections@.len() < u32::MAX ==> final(self).b.sections@ == old(
                self,
            ).b.sections@.push(s),
            kept(old(self).b.sections@, final(self).b.sections@),
    {
        if top {
            let ghost before = self.top@;
            self.top.push(s);
            assert(self.b.sections@.subrange(0, self.b.sections@.len() as int) =~= self.b.sections@);
            assert forall|i: int| 0 <= i < self.top@.len() implies section_ok(
                #[trigger] self.top@[i],
                self.b.inlines@.len() as int,
                self.b.sections@.len() as int,
                self.b.lines@.len() as int,
                src,
            ) by {
                if i < before.len() {
                    assert(self.top@[i] == before[i]);
                }
            }
        } else {
            let ghost ob = self.b;
            self.b.push_section(s, Ghost(src));
            proof {
                assert(self.b.sections@.subrange(0, ob.sections@.len() as int) =~= ob.sections@);
                lemma_sections_ok_mono(
                    self.top@,
                    ob.inlines@.len() as int,
                    ob.sections@.len() as int,
                    ob.lines@.len() as int,
                    self.b.inlines@.len() as int,
                    self.b.sections@.len() as int,
                    self.b.lines@.len() as int,
                    src,
                );
            }
        }
    }

    /// Re-establish the top-level invariant after the builder grew.
    proof fn lemma_regrow(&self, old_b: &Builder, src: &str)
        requires
            sections_ok(
                self.top@,
                old_b.inlines@.len() as int,
                old_b.sections@.len() as int,
                old_b.lines@.len() as int,
                src,
            ),
            old_b.grown(&self.b),
        ensures
            sections_ok(
                self.top@,
                self.b.inlines@.len() as int,
                self.b.sections@.len() as int,
                self.b.lines@.len() as int,
                src,
            ),
    {
        lemma_sections_ok_mono(
            self.top@,
            old_b.inlines@.len() as int,
            old_b.sections@.len() as int,
            old_b.lines@.len() as int,
            self.b.inlines@.len() as int,
            self.b.sections@.len() as int,
            self.b.lines@.len() as int,
            src,
        );
    }
}

/// What kind of block a section is, its content left aside: a code block
/// whether fenced or indented, an HTML block, and a list with its start
/// number and delimiter (ordered) and whether it is tight.
pub enum BlockKind {
    Paragraph,
    Heading(u8),
    Code,
    Html,
    Rule,
    Quote,
    Item,
    List(Option<(u32, OrderedListDelimiter)>, bool),
}

/// The kind of a section.
pub open spec fn kind_of(s: Section) -> BlockKind {
    match s {
        Section::Heading { level, .. } => BlockKind::Heading(level),
        Section::Paragraph { .. } => BlockKind::Paragraph,
        Section::CodeBlock { .. } => BlockKind::Code,
        Section::CodeLines { .. } => BlockKind::Code,
        Section::IndentedCode { .. } => BlockKind::Code,
        Section::UnorderedList { tight, .. } => BlockKind::List(None, tight),
        Section::OrderedList { start, delimiter, tight, .. } => BlockKind::List(Some((start, delimiter)), tight),
        Section::ListItem { .. } => BlockKind::Item,
        Section::Blockquote { .. } => BlockKind::Quote,
        Section::HtmlBlock { .. } => BlockKind::Html,
        Section::HtmlLines { .. } => BlockKind::Html,
        Section::HorizontalRule => BlockKind::Rule,
    }
}

/// The kinds of a run of sections, in order.
#[verifier::opaque]
pub open spec fn kinds(s: Seq<Section>) -> Seq<BlockKind> {
    s.map_values(|x: Section| kind_of(x))
}

/// The text a code or HTML block section holds itself (none for other
/// sections, nor for code and HTML kept as pool lines).
pub open spec fn text_of(s: Section) -> Option<Seq<u8>> {
    match s {
        Section::IndentedCode { code } => Some(sbytes(code)),
        Section::CodeBlock { code, .. } => Some(sbytes(code)),
        Section::HtmlBlock { html } => Some(sbytes(html)),
        _ => None,
    }
}

/// The texts of a run of sections, in order.
#[verifier::opaque]
pub open spec fn texts(s: Seq<Section>) -> Seq<Option<Seq<u8>>> {
    s.map_values(|x: Section| text_of(x))
}

/// What flushing a paragraph adds to the texts: one entry when one is open.
pub open spec fn flushed_t(open: bool) -> Seq<Option<Seq<u8>>> {
    if open {
        seq![None]
    } else {
        Seq::empty()
    }
}

pub(crate) proof fn lemma_texts_len(a: Seq<Section>)
    ensures
        texts(a).len() == a.len(),
{
    reveal(texts);
}

proof fn lemma_texts_push(a: Seq<Section>, s: Section)
    ensures
        texts(a.push(s)) == texts(a) + seq![text_of(s)],
{
    reveal(texts);
    assert(texts(a.push(s)) =~= texts(a) + seq![text_of(s)]);
}

/// No sections, no texts.
pub(crate) proof fn lemma_texts_empty()
    ensures
        texts(Seq::<Section>::empty()) == Seq::<Option<Seq<u8>>>::empty(),
{
    reveal(texts);
    assert(texts(Seq::<Section>::empty()) =~= Seq::<Option<Seq<u8>>>::empty());
}

/// What flushing a paragraph adds to the text ranges: one entry when one
/// is open.
pub open spec fn flushed_h(open: bool) -> Seq<Option<(int, int)>> {
    if open {
        seq![None]
    } else {
        Seq::empty()
    }
}

/// A heading section `s` whose text `a..z` holds no special byte holds one
/// text element with exactly those bytes, in the inline pool `pool`, unless
/// that text is empty, not a slice of whole characters, or the pool is full.
pub open spec fn head_ok(input: &str, pool: Seq<Inline>, s: Section, a: int, z: int) -> bool {
    no_special(sbytes(input), a, z) ==> match s {
        Section::Heading { content, .. } => {
            &&& content.start + content.len <= pool.len()
            &&& content.len <= 1
            &&& content.len == 1 ==> (pool[content.start as int] matches Inline::Text(t) && sbytes(t) == sbytes(
                input,
            ).subrange(a, z))
            &&& content.len == 0 ==> (a >= z || !sliceable(input, a, z) || pool.len() >= u32::MAX)
        },
        _ => false,
    }
}

/// Each section of `secs` with a text range in `hs` meets `head_ok`.
pub open spec fn heads_ok(input: &str, pool: Seq<Inline>, secs: Seq<Section>, hs: Seq<Option<(int, int)>>) -> bool {
    &&& secs.len() == hs.len()
    &&& forall|k: int|
        #![trigger secs[k]]
        0 <= k < secs.len() ==> (hs[k] matches Some((a, z)) ==> head_ok(input, pool, secs[k], a, z))
}

/// `a` is a prefix of `b`.
pub open spec fn pre<T>(a: Seq<T>, b: Seq<T>) -> bool {
    &&& a.len() <= b.len()
    &&& forall|k: int| 0 <= k < a.len() ==> #[trigger] b[k] == a[k]
}

/// Each entry of `hs` with a text range meets `head_ok` on the section of
/// `secs` it stands for, counting from `base`.
pub open spec fn heads_at(input: &str, pool: Seq<Inline>, secs: Seq<Section>, base: int, hs: Seq<Option<(int, int)>>) -> bool {
    forall|k: int|
        #![trigger hs[k]]
        0 <= k < hs.len() ==> (hs[k] matches Some((a, z)) ==> 0 <= base + k < secs.len() && head_ok(
            input,
            pool,
            secs[base + k],
            a,
            z,
        ))
}

/// `from` is `d + to` for some `d` that meets `heads_at` from `base` on:
/// the blocks planned between the two have been made as planned.
pub open spec fn heads_step(
    input: &str,
    pool: Seq<Inline>,
    secs: Seq<Section>,
    base: int,
    from: Seq<Option<(int, int)>>,
    to: Seq<Option<(int, int)>>,
) -> bool {
    exists|d: Seq<Option<(int, int)>>| #[trigger] heads_at(input, pool, secs, base, d) && from == d + to
}

/// A step that plans no ATX heading (only `None` entries) meets `heads_step`.
proof fn lemma_heads_none(
    input: &str,
    pool: Seq<Inline>,
    secs: Seq<Section>,
    base: int,
    here: Seq<Option<(int, int)>>,
    f: Seq<Option<(int, int)>>,
    y: Seq<Option<(int, int)>>,
    rest: Seq<Option<(int, int)>>,
)
    requires
        here == f + y + rest || (f.len() == 0 && here == y + rest) || (y.len() == 0 && here == f + rest) || (f.len()
            == 0 && y.len() == 0 && here == rest),
        forall|k: int| 0 <= k < f.len() ==> f[k] is None,
        forall|k: int| 0 <= k < y.len() ==> y[k] is None,
    ensures
        heads_step(input, pool, secs, base, here, rest),
{
    let d = f + y;
    if f.len() == 0 {
        assert(f =~= Seq::empty());
        assert(f + y =~= y);
    }
    if y.len() == 0 {
        assert(y =~= Seq::empty());
        assert(f + y =~= f);
    }
    assert(here =~= d + rest);
    assert forall|k: int| 0 <= k < d.len() implies d[k] is None by {
        if k < f.len() {
            assert(d[k] == f[k]);
        } else {
            assert(d[k] == y[k - f.len()]);
        }
    }
    assert(heads_at(input, pool, secs, base, d));
}

/// A step that plans one ATX heading after the entries `f`, all `None`,
/// meets `heads_step` once that heading meets `head_ok`.
proof fn lemma_heads_atx(
    input: &str,
    pool: Seq<Inline>,
    secs: Seq<Section>,
    base: int,
    here: Seq<Option<(int, int)>>,
    f: Seq<Option<(int, int)>>,
    a: int,
    z: int,
    rest: Seq<Option<(int, int)>>,
)
    requires
        here == f + seq![Some((a, z))] + rest,
        forall|k: int| 0 <= k < f.len() ==> f[k] is None,
        0 <= base,
        base + f.len() < secs.len(),
        head_ok(input, pool, secs[base + f.len()], a, z),
    ensures
        heads_step(input, pool, secs, base, here, rest),
{
    let d = f + seq![Some((a, z))];
    assert(here =~= d + rest);
    assert forall|k: int| 0 <= k < d.len() && d[k] is Some implies k == f.len() by {
        if k < f.len() {
            assert(d[k] == f[k]);
        }
    }
    assert(d[f.len() as int] == Some((a, z)));
    assert(heads_at(input, pool, secs, base, d));
}

/// An ATX heading made from line `i` after the open paragraph was flushed
/// meets what `top_heads` plans for that line.
proof fn lemma_atx_heads(
    input: &str,
    lines: Seq<Line>,
    i: int,
    pl: bool,
    fuel: int,
    pool_b: Seq<Inline>,
    pool: Seq<Inline>,
    t0: Seq<Section>,
    t1: Seq<Section>,
    top: Seq<Section>,
    level: u8,
    content: InlineSpan,
    ind: int,
    body: int,
    a: int,
    z: int,
)
    requires
        0 <= i < lines.len(),
        ind == line_indent(sbytes(input), lines[i], true).0,
        body == lines[i].start + ind,
        atx_spec(sbytes(input), body, lines[i].end as int) == Some((level, a, z)),
        top_heads(input, lines, i, pl, fuel) == flushed_h(pl) + seq![Some((atx_spec(sbytes(input), plan_body(input, lines, i), lines[i].end as int).unwrap().1, atx_spec(sbytes(input), plan_body(input, lines, i), lines[i].end as int).unwrap().2))] + top_heads(input, lines, i + 1, false, fuel),
        texts(t1) == texts(t0) + flushed_t(pl),
        top == t1.push(Section::Heading { level, content }),
        plain_pushed(input, pool_b, pool, a, z, content) || !no_special(sbytes(input), a, z),
        content.start + content.len <= pool.len(),
        pool_b.len() <= pool.len(),
    ensures
        heads_step(
            input,
            pool,
            top,
            t0.len() as int,
            top_heads(input, lines, i, pl, fuel),
            top_heads(input, lines, i + 1, false, fuel),
        ),
{
    lemma_texts_len(t0);
    lemma_texts_len(t1);
    let hd = Section::Heading { level, content };
    assert(top[t0.len() + flushed_h(pl).len() as int] == hd);
    assert(head_ok(input, pool, hd, a, z)) by {
        if no_special(sbytes(input), a, z) && content.len == 1 {
            assert(pool[content.start as int] == pool.last());
        }
    }
    lemma_heads_atx(input, pool, top, t0.len() as int, top_heads(input, lines, i, pl, fuel), flushed_h(pl), a, z, top_heads(input, lines, i + 1, false, fuel));
}

/// Entries checked from the first section on, one per section, are `heads_ok`.
pub(crate) proof fn lemma_heads_ok(input: &str, pool: Seq<Inline>, secs: Seq<Section>, hs: Seq<Option<(int, int)>>)
    requires
        heads_at(input, pool, secs, 0, hs),
        secs.len() == hs.len(),
    ensures
        heads_ok(input, pool, secs, hs),
{
    assert forall|k: int| 0 <= k < secs.len() implies (hs[k] matches Some((a, z)) ==> head_ok(input, pool, #[trigger] secs[k], a, z)) by {
        if let Some((a, z)) = hs[k] {
            assert(0 <= 0 + k < secs.len() && head_ok(input, pool, secs[0 + k], a, z));
        }
    }
}

/// Headings already checked stay checked as the pool and the section list grow.
proof fn lemma_heads_acc(
    input: &str,
    pool0: Seq<Inline>,
    pool1: Seq<Inline>,
    s0: Seq<Section>,
    s1: Seq<Section>,
    base: int,
    h: Seq<Option<(int, int)>>,
    from: Seq<Option<(int, int)>>,
    to: Seq<Option<(int, int)>>,
) -> (d: Seq<Option<(int, int)>>)
    requires
        heads_at(input, pool0, s0, base, h),
        0 <= base,
        h.len() == s0.len() - base,
        pre(s0, s1),
        pool0.len() <= pool1.len(),
        forall|k: int| 0 <= k < pool0.len() ==> #[trigger] pool1[k] == pool0[k],
        heads_step(input, pool1, s1, s0.len() as int, from, to),
    ensures
        heads_at(input, pool1, s1, base, h + d),
        from == d + to,
{
    let d = choose|d: Seq<Option<(int, int)>>| #[trigger] heads_at(input, pool1, s1, s0.len() as int, d) && from == d + to;
    let hd = h + d;
    assert forall|k: int| 0 <= k < hd.len() implies (#[trigger] hd[k] matches Some((a, z)) ==> 0 <= base + k < s1.len() && head_ok(
        input,
        pool1,
        s1[base + k],
        a,
        z,
    )) by {
        if k < h.len() {
            assert(hd[k] == h[k]);
            if let Some((a, z)) = h[k] {
                assert(head_ok(input, pool0, s0[base + k], a, z));
                assert(s1[base + k] == s0[base + k]);
                if no_special(sbytes(input), a, z) {
                    if let Section::Heading { content, .. } = s0[base + k] {
                        if content.len == 1 {
                            assert(pool1[content.start as int] == pool0[content.start as int]);
                        }
                    }
                }
            }
        } else {
            assert(hd[k] == d[k - h.len()]);
            assert(base + k == s0.len() + (k - h.len()));
        }
    }
    d
}

/// Planned text ranges and planned texts come one per block.
#[verifier::rlimit(60)]
pub(crate) proof fn lemma_heads_len(input: &str, lines: Seq<Line>, i: int, para: bool, fuel: int)
    ensures
        top_heads(input, lines, i, para, fuel).len() == top_texts(input, lines, i, para, fuel).len(),
    decreases lines.len() - i,
{
    reveal(top_heads);
    reveal(top_texts);
    let b = sbytes(input);
    if 0 <= i < lines.len() {
        let l = lines[i];
        let (s, e) = (l.start as int, l.end as int);
        let (ind, cols) = line_indent(b, l, true);
        let body = s + ind;
        if all_ws(b, s, e) {
            lemma_heads_len(input, lines, i + 1, false, fuel);
        } else if cols >= 4 && !para {
            let nx = step(lines, i, code_run_end(b, lines, i, i, true));
            lemma_heads_len(input, lines, nx, false, fuel);
        } else if !para && cols <= 3 && body < e && b[body] == 91u8 && spec_link_def(input, body) is Some {
            let resume = (spec_link_def(input, body).unwrap().5 as usize) as int;
            lemma_heads_len(input, lines, step(lines, i, skip_before(lines, i + 1, resume)), false, fuel);
        } else if cols <= 3 && body < e && b[body] == 62u8 {
            if fuel > 0 {
                lemma_heads_len(input, lines, step(lines, i, quote_end_top(input, b, lines, i, false, None)), false, fuel);
            } else {
                lemma_heads_len(input, lines, i + 1, false, fuel);
            }
        } else if cols <= 3 && body < e && b[body] == 35u8 && atx_spec(b, body, e) is Some {
            lemma_heads_len(input, lines, i + 1, false, fuel);
        } else if cols <= 3 && fence_spec(b, body, e) is Some {
            let (c, n) = fence_spec(b, body, e).unwrap();
            let close = fence_close_at(b, lines, i + 1, c, (n as usize) as int);
            let nx = step(lines, i, if close < lines.len() { close + 1 } else { lines.len() as int });
            lemma_heads_len(input, lines, nx, false, fuel);
        } else if cols <= 3 && body < e && b[body] == 60u8 && block_start_kind(b.subrange(body, e), para) is Some {
            let k = block_start_kind(b.subrange(body, e), para).unwrap();
            lemma_heads_len(input, lines, step(lines, i, html_block_end(b, lines, i, k)), false, fuel);
        } else if cols <= 3 && para && !l.lazy && setext_spec(b, body, e) is Some {
            lemma_heads_len(input, lines, i + 1, false, fuel);
        } else if cols <= 3 && thematic_break(b, body, e) {
            lemma_heads_len(input, lines, i + 1, false, fuel);
        } else if cols <= 3 && !l.lazy && marker_spec(b, body, e) is Some && (!para || interrupts(
            b,
            marker_spec(b, body, e).unwrap(),
            body,
            e,
        )) {
            if fuel > 0 {
                match marker_spec(b, run_to(b, s, e, is_byte(32u8)), e) {
                    Some(fm) => lemma_heads_len(
                        input,
                        lines,
                        step(lines, i, list_scan(b, lines, i, true, fm, false, true).0),
                        false,
                        fuel,
                    ),
                    None => lemma_heads_len(input, lines, i + 1, false, fuel),
                }
            } else {
                lemma_heads_len(input, lines, i + 1, false, fuel);
            }
        } else {
            lemma_heads_len(input, lines, i + 1, true, fuel);
        }
    }
}

/// What flushing a paragraph adds: one paragraph when one is open.
pub open spec fn flushed(open: bool) -> Seq<BlockKind> {
    if open {
        seq![BlockKind::Paragraph]
    } else {
        Seq::empty()
    }
}

proof fn lemma_kinds_push(a: Seq<Section>, s: Section)
    ensures
        kinds(a.push(s)) == kinds(a).push(kind_of(s)),
        kinds(a.push(s)) == kinds(a) + seq![kind_of(s)],
{
    reveal(kinds);
    assert(kinds(a.push(s)) =~= kinds(a).push(kind_of(s)));
    assert(kinds(a.push(s)) =~= kinds(a) + seq![kind_of(s)]);
}

/// No sections, no kinds.
pub(crate) proof fn lemma_kinds_empty()
    ensures
        kinds(Seq::<Section>::empty()) == Seq::<BlockKind>::empty(),
{
    reveal(kinds);
    assert(kinds(Seq::<Section>::empty()) =~= Seq::<BlockKind>::empty());
}

/// One section was added to the end of `t0`.
proof fn lemma_pushed(t0: Seq<Section>, t1: Seq<Section>)
    requires
        t1.len() == t0.len() + 1,
        t1.drop_last() == t0,
    ensures
        t1 == t0.push(t1.last()),
        kinds(t1) == kinds(t0) + seq![kind_of(t1.last())],
        texts(t1) == texts(t0) + seq![text_of(t1.last())],
{
    assert(t1 =~= t0.push(t1.last()));
    lemma_kinds_push(t0, t1.last());
    lemma_texts_push(t0, t1.last());
}

/// `k` was `k0` and grew by `f` then `y`; what is left to add after `f`
/// and `y` is `rest`.
proof fn lemma_advance<T>(k: Seq<T>, k1: Seq<T>, k0: Seq<T>, f: Seq<T>, y: Seq<T>, rest: Seq<T>, here: Seq<T>)
    requires
        k1 == k0 + f || (f.len() == 0 && k1 == k0),
        k == k1 + y || (y.len() == 0 && k == k1),
        here == f + y + rest || (f.len() == 0 && here == y + rest) || (y.len() == 0 && here == f + rest),
    ensures
        k + rest == k0 + here,
{
    if f.len() == 0 {
        assert(f =~= Seq::empty());
        assert(k0 + f =~= k0);
    }
    if y.len() == 0 {
        assert(y =~= Seq::empty());
        assert(k1 + y =~= k1);
        assert(f + y =~= f);
    }
    assert(f + y + rest =~= f + (y + rest));
    assert(k0 + f + y + rest =~= k0 + (f + y + rest));
    assert(k + rest =~= k0 + here);
}

/// The registry `b` is `a` with definitions added, none replaced: every
/// entry of `a` stays in place, and no added entry repeats the label of an
/// entry before it. So the first definition of a label is the one kept.
#[verifier::opaque]
pub open spec fn defs_grow(a: Seq<LinkDefEntry>, b: Seq<LinkDefEntry>) -> bool {
    &&& a.len() <= b.len()
    &&& forall|k: int| 0 <= k < a.len() ==> #[trigger] b[k] == a[k]
    &&& forall|j: int, k: int|
        0 <= j < k < b.len() && a.len() <= k ==> (#[trigger] b[j]).label@ != (#[trigger] b[k]).label@
}

proof fn lemma_defs_append(before: Seq<LinkDefEntry>, after: Seq<LinkDefEntry>)
    requires
        after.len() == before.len() + 1,
        after.subrange(0, before.len() as int) == before,
        forall|i: int| 0 <= i < before.len() ==> before[i].label@ != after.last().label@,
    ensures
        defs_grow(before, after),
{
    reveal(defs_grow);
    assert forall|m: int| 0 <= m < before.len() implies #[trigger] after[m] == before[m] by {
        assert(after.subrange(0, before.len() as int)[m] == after[m]);
    }
    assert forall|j: int, m: int| 0 <= j < m < after.len() && before.len() <= m implies (#[trigger] after[j]).label@ != (
    #[trigger] after[m]).label@ by {
        assert(m == before.len());
        assert(after[j] == before[j]);
    }
}

proof fn lemma_defs_refl(a: Seq<LinkDefEntry>)
    ensures
        defs_grow(a, a),
{
    reveal(defs_grow);
}

proof fn lemma_defs_trans(a: Seq<LinkDefEntry>, b: Seq<LinkDefEntry>, c: Seq<LinkDefEntry>)
    requires
        defs_grow(a, b),
        defs_grow(b, c),
    ensures
        defs_grow(a, c),
{
    reveal(defs_grow);
    assert forall|j: int, k: int| 0 <= j < k < c.len() && a.len() <= k implies (#[trigger] c[j]).label@ != (#[trigger] c[k]).label@ by {
        if k < b.len() {
            assert(c[k] == b[k]);
            assert(c[j] == b[j]);
            assert(b[j].label@ != b[k].label@);
        }
    }
}

/// `after` starts with all of `before`.
pub open spec fn kept(before: Seq<Section>, after: Seq<Section>) -> bool {
    &&& before.len() <= after.len()
    &&& forall|k: int| 0 <= k < before.len() ==> #[trigger] after[k] == before[k]
}

/// `after` is `before` followed by sections of the kinds `ks`.
#[verifier::opaque]
pub open spec fn appended(before: Seq<Section>, after: Seq<Section>, ks: Seq<BlockKind>) -> bool {
    &&& kept(before, after)
    &&& kinds(after.subrange(before.len() as int, after.len() as int)) == ks
}

proof fn lemma_appended_same(x: Seq<Section>)
    ensures
        appended(x, x, Seq::empty()),
{
    reveal(appended);
    reveal(kinds);
    assert(x.subrange(0, x.len() as int) =~= x);
    assert(kinds(x.subrange(x.len() as int, x.len() as int)) =~= Seq::<BlockKind>::empty());
}

proof fn lemma_kept_same(x: Seq<Section>)
    ensures
        kept(x, x),
{
    assert(x.subrange(0, x.len() as int) =~= x);
}

proof fn lemma_appended_push(x: Seq<Section>, s: Section)
    ensures
        appended(x, x.push(s), seq![kind_of(s)]),
{
    reveal(appended);
    reveal(kinds);
    assert(x.push(s).subrange(0, x.len() as int) =~= x);
    assert(kinds(x.push(s).subrange(x.len() as int, x.len() + 1 as int)) =~= seq![kind_of(s)]);
}

proof fn lemma_kept_trans(a: Seq<Section>, b: Seq<Section>, c: Seq<Section>)
    requires
        kept(a, b),
        kept(b, c),
    ensures
        kept(a, c),
{
    assert(c.subrange(0, a.len() as int) =~= c.subrange(0, b.len() as int).subrange(0, a.len() as int));
}

proof fn lemma_appended_trans(a: Seq<Section>, b: Seq<Section>, c: Seq<Section>, k1: Seq<BlockKind>, k2: Seq<BlockKind>)
    requires
        appended(a, b, k1),
        appended(b, c, k2),
    ensures
        appended(a, c, k1 + k2),
{
    reveal(appended);
    reveal(kinds);
    lemma_kept_trans(a, b, c);
    let (na, nb, nc) = (a.len() as int, b.len() as int, c.len() as int);
    assert(c.subrange(na, nb) =~= b.subrange(na, nb)) by {
        assert(c.subrange(0, nb) == b);
    }
    assert(c.subrange(na, nc) =~= c.subrange(na, nb) + c.subrange(nb, nc));
    assert(kinds(c.subrange(na, nc)) =~= kinds(c.subrange(na, nb)) + kinds(c.subrange(nb, nc)));
}

/// A container: a placeholder was pushed at `a.len()`, sections of the
/// kinds `ks` followed, and the placeholder was then set to `s`.
proof fn lemma_appended_wrap(a: Seq<Section>, ph: Section, c: Seq<Section>, s: Section, ks: Seq<BlockKind>)
    requires
        appended(a.push(ph), c, ks),
    ensures
        appended(a, c.update(a.len() as int, s), seq![kind_of(s)] + ks),
{
    reveal(appended);
    reveal(kinds);
    let n = a.len() as int;
    let d = c.update(n, s);
    assert(c.subrange(0, n + 1) == a.push(ph));
    assert(d.subrange(0, n) =~= a) by {
        assert forall|k: int| 0 <= k < n implies d.subrange(0, n)[k] == a[k] by {
            assert(c.subrange(0, n + 1)[k] == a.push(ph)[k]);
        }
    }
    assert(d.subrange(n, d.len() as int) =~= seq![s] + c.subrange(n + 1, c.len() as int));
    assert(kinds(d.subrange(n, d.len() as int)) =~= seq![kind_of(s)] + kinds(c.subrange(n + 1, c.len() as int)));
}

/// A list section's kind records its shape.
proof fn lemma_list_kind(s: Section, ordered: Option<(u32, OrderedListDelimiter)>, tight: bool)
    requires
        list_shape(s, ordered, tight),
    ensures
        kind_of(s) == BlockKind::List(ordered, tight),
{
}

/// A thematic break on `b[s..e]` (`CommonMark` §4.1): three or more of one of
/// `-`, `*`, `_`, possibly separated by white space, and nothing else.
pub open spec fn thematic_break(b: Seq<u8>, s: int, e: int) -> bool {
    let f = run_to(b, s, e, ws());
    &&& f < e
    &&& (b[f] == 45u8 || b[f] == 42u8 || b[f] == 95u8)
    &&& forall|i: int| s <= i < e ==> is_ws(#[trigger] b[i]) || b[i] == b[f]
    &&& count_to(b, s, e, b[f]) >= 3
}

/// A code fence opening on `b[s..e]` (`CommonMark` §4.5): three or more
/// backticks or tildes (`(char, length)`); after backticks, no backtick may
/// follow on the line.
pub open spec fn fence_spec(b: Seq<u8>, s: int, e: int) -> Option<(u8, int)> {
    if s >= e {
        None
    } else if b[s] != 96u8 && b[s] != 126u8 {
        None
    } else {
        let n = run_to(b, s, e, is_byte(b[s])) - s;
        if n < 3 {
            None
        } else if b[s] == 96u8 && exists|k: int| s + n <= k < e && #[trigger] b[k] == 96u8 {
            None
        } else {
            Some((b[s], n))
        }
    }
}

/// A closing fence for a block opened by `n` copies of `c`: at least `n` of
/// them on `b[s..e]`, then only white space.
pub open spec fn closing_fence_spec(b: Seq<u8>, s: int, e: int, c: u8, n: int) -> bool {
    let run = run_to(b, s, e, is_byte(c)) - s;
    run >= n && all_ws(b, s + run, e)
}

/// Line `l` closes a fence of `n` copies of `c`: at most three spaces of
/// indentation (no synthetic pad), then a closing fence.
pub open spec fn closes_fence(b: Seq<u8>, l: Line, c: u8, n: int) -> bool {
    let body = run_to(b, l.start as int, l.end as int, is_byte(32u8));
    &&& body - l.start <= 3
    &&& l.pad == 0
    &&& closing_fence_spec(b, body, l.end as int, c, n)
}

/// Index of the first line from `k` on that closes the fence (the number of
/// lines when none does).
pub open spec fn fence_close_at(b: Seq<u8>, lines: Seq<Line>, k: int, c: u8, n: int) -> int
    decreases lines.len() - k,
{
    if 0 <= k < lines.len() {
        if closes_fence(b, lines[k], c, n) {
            k
        } else {
            fence_close_at(b, lines, k + 1, c, n)
        }
    } else {
        lines.len() as int
    }
}

/// A setext underline on `b[s..e]` (`CommonMark` §4.3): a run of `=` (level
/// 1) or `-` (level 2) followed only by white space.
pub open spec fn setext_spec(b: Seq<u8>, s: int, e: int) -> Option<u8> {
    if s >= e || (b[s] != 61u8 && b[s] != 45u8) {
        None
    } else if all_ws(b, run_to(b, s, e, is_byte(b[s])), e) {
        Some(if b[s] == 61u8 { 1u8 } else { 2u8 })
    } else {
        None
    }
}

/// An ATX heading on `b[s..e]` (`CommonMark` §4.2): `(level, text_lo,
/// text_hi)`. One to six `#`, then white space or the end; the text is
/// trimmed, and a closing run of `#` preceded by white space (or making up
/// the whole text) is dropped.
pub open spec fn atx_spec(b: Seq<u8>, s: int, e: int) -> Option<(u8, int, int)> {
    let level = run_to(b, s, e, is_byte(35u8)) - s;
    if level < 1 || level > 6 {
        None
    } else if s + level < e && b[s + level] != 32u8 && b[s + level] != 9u8 {
        None
    } else {
        let start = run_to(b, s + level, e, ws());
        let end = rrun_to(b, start, e, ws());
        let stripped = rrun_to(b, start, end, is_byte(35u8));
        let z = if stripped == start || b[stripped - 1] == 32u8 || b[stripped - 1] == 9u8 {
            rrun_to(b, start, stripped, ws())
        } else {
            end
        };
        Some((level as u8, start, z))
    }
}

/// An ASCII digit.
pub open spec fn digit() -> spec_fn(u8) -> bool {
    |x: u8| 48u8 <= x <= 57u8
}

/// The delimiter an ordered list marker ends with.
pub open spec fn delim_of(c: u8) -> Option<OrderedListDelimiter> {
    if c == 46u8 {
        Some(OrderedListDelimiter::Dot)
    } else if c == 41u8 {
        Some(OrderedListDelimiter::Paren)
    } else {
        None
    }
}

/// A list marker at the start of `b[s..e]` (`CommonMark` §5.2): `-`, `+` or
/// `*`, or one to nine digits and `.` or `)`, followed by a space, a tab or
/// the end of the line.
spec fn marker_spec(b: Seq<u8>, s: int, e: int) -> Option<Marker> {
    if s >= e {
        None
    } else if b[s] == 45u8 || b[s] == 43u8 || b[s] == 42u8 {
        if s + 1 == e || b[s + 1] == 32u8 || b[s + 1] == 9u8 {
            Some(Marker { ordered: None, width: 1, bullet: b[s] })
        } else {
            None
        }
    } else if 48u8 <= b[s] <= 57u8 {
        let d = run_to(b, s, e, digit()) - s;
        if d > 9 || s + d >= e {
            None
        } else {
            match delim_of(b[s + d]) {
                None => None,
                Some(dl) => if s + d + 1 == e || b[s + d + 1] == 32u8 || b[s + d + 1] == 9u8 {
                    Some(
                        Marker {
                            ordered: Some((digits_value(b, s, d, false) as u32, dl)),
                            width: (d + 1) as usize,
                            bullet: 0,
                        },
                    )
                } else {
                    None
                },
            }
        }
    } else {
        None
    }
}

/// Whether `b[s..e]` (indentation stripped) begins a block that a paragraph
/// cannot lazily continue across.
spec fn begins_block_spec(b: Seq<u8>, s: int, e: int) -> bool {
    let h = run_to(b, s, e, is_byte(35u8)) - s;
    ||| s >= e
    ||| b[s] == 62u8
    ||| marker_spec(b, s, e) is Some
    ||| thematic_break(b, s, e)
    ||| fence_spec(b, s, e) is Some
    ||| 1 <= h <= 6 && (s + h == e || b[s + h] == 32u8 || b[s + h] == 9u8)
}

/// Scan leading spaces and tabs from `i` (at column `col`), a tab advancing to
/// the next multiple of four: `(index, column)` where the scan stops.
pub open spec fn indent_scan(b: Seq<u8>, i: int, e: int, col: int) -> (int, int)
    decreases e - i,
{
    if 0 <= i < e && i < b.len() && col < 0xffff_0000 && (b[i] == 32u8 || b[i] == 9u8) {
        indent_scan(b, i + 1, e, if b[i] == 9u8 { col + 4 - col % 4 } else { col + 1 })
    } else {
        (i, col)
    }
}

/// Like `indent_scan`, but stop once `n` columns are reached.
pub open spec fn strip_scan(b: Seq<u8>, i: int, e: int, col: int, n: int) -> (int, int)
    decreases e - i,
{
    if col < n && col <= usize::MAX - 4 && 0 <= i < e && i < b.len() && (b[i] == 32u8 || b[i] == 9u8) {
        strip_scan(b, i + 1, e, if b[i] == 9u8 { col + 4 - col % 4 } else { col + 1 }, n)
    } else {
        (i, col)
    }
}

/// The line `l` with `n` columns of indentation removed: the synthetic pad
/// goes first, then the line's own spaces and tabs, which expand from a tab
/// stop at the slice start; the columns of a tab that straddles the cut (at
/// most three) become synthetic pad.
pub open spec fn strip_spec(b: Seq<u8>, l: Line, n: int) -> Line {
    if n <= l.pad {
        Line { start: l.start, end: l.end, pad: (l.pad - n) as u8, lazy: l.lazy }
    } else {
        let (i, col) = strip_scan(b, l.start as int, l.end as int, 0, n - l.pad);
        let extra = if col > n - l.pad { col - (n - l.pad) } else { 0 };
        Line { start: i as usize, end: l.end, pad: if extra < 4 { extra as u8 } else { 3u8 }, lazy: l.lazy }
    }
}

/// Leading indentation of a line as `(bytes, columns)`. A line with
/// synthetic pad starts on a tab stop, and so does a top-level line: its
/// spaces and tabs count in columns after the pad, a tab advancing to the
/// next 4-column stop. Inside a container a line without pad may start
/// between tab stops, so only its leading spaces count.
pub open spec fn line_indent(b: Seq<u8>, l: Line, top: bool) -> (int, int) {
    if top || l.pad > 0 {
        let (i, c) = indent_scan(b, l.start as int, l.end as int, 0);
        (i - l.start, l.pad + c)
    } else {
        let sp = run_to(b, l.start as int, l.end as int, is_byte(32u8)) - l.start;
        (sp, sp)
    }
}

/// Leading indentation of a line: `(bytes, columns)` as `line_indent` says.
fn leading_indent(bytes: &[u8], l: Line, top: bool) -> (r: (usize, usize))
    requires
        l.start <= l.end <= bytes@.len(),
    ensures
        l.start + r.0 <= l.end,
        r.0 <= r.1,
        (r.0 as int, r.1 as int) == line_indent(bytes@, l, top),
{
    if !top && l.pad == 0 {
        let sp = spaces(bytes, l.start, l.end);
        return (sp, sp);
    }
    let mut i = l.start;
    let mut col: usize = 0;
    while i < l.end && col < 0xffff_0000 && (bytes[i] == 32u8 || bytes[i] == 9u8)
        invariant
            l.start <= i <= l.end,
            l.end <= bytes@.len(),
            i - l.start <= col,
            col < 0xffff_0004,
            indent_scan(bytes@, l.start as int, l.end as int, 0) == indent_scan(
                bytes@,
                i as int,
                l.end as int,
                col as int,
            ),
        decreases l.end - i,
    {
        if bytes[i] == 9u8 {
            col = col + 4 - (col % 4);
        } else {
            col = col + 1;
        }
        i = i + 1;
    }
    let pad = l.pad as usize;
    (i - l.start, pad + col)
}

/// Strip `n` columns of indentation from a line, turning the columns left
/// over from a straddled tab into synthetic pad.
fn strip_cols(bytes: &[u8], l: Line, n: usize) -> (r: Line)
    requires
        l.start <= l.end <= bytes@.len(),
    ensures
        r == strip_spec(bytes@, l, n as int),
        n > l.pad ==> r.start as int == strip_scan(bytes@, l.start as int, l.end as int, 0, n - l.pad).0,
        l.start <= r.start <= r.end,
        r.end == l.end,
        r.lazy == l.lazy,
{
    let pad = l.pad as usize;
    if n <= pad {
        return Line { start: l.start, end: l.end, pad: (pad - n) as u8, lazy: l.lazy };
    }
    let m = n - pad;
    let mut col: usize = 0;
    let mut i = l.start;
    while col < m && col <= usize::MAX - 4 && i < l.end && (bytes[i] == 32u8 || bytes[i] == 9u8)
        invariant
            l.start <= i <= l.end,
            l.end <= bytes@.len(),
            col <= m + 4,
            strip_scan(bytes@, l.start as int, l.end as int, 0, m as int) == strip_scan(
                bytes@,
                i as int,
                l.end as int,
                col as int,
                m as int,
            ),
        decreases l.end - i,
    {
        if bytes[i] == 9u8 {
            col = col + 4 - (col % 4);
        } else {
            col = col + 1;
        }
        i = i + 1;
    }
    let extra = if col > m {
        col - m
    } else {
        0
    };
    Line { start: i, end: l.end, pad: if extra < 4 { extra as u8 } else { 3u8 }, lazy: l.lazy }
}

/// A thematic break (`CommonMark` §4.1): three or more matching `-`, `*` or
/// `_`, optionally separated by white space, and nothing else.
fn is_hr(bytes: &[u8], s: usize, e: usize) -> (r: bool)
    requires
        e <= bytes@.len(),
    ensures
        r == thematic_break(bytes@, s as int, e as int),
{
    let ghost b = bytes@;
    let mut rule: u8 = 0;
    let mut count: usize = 0;
    let mut i = s;
    while i < e
        invariant
            s <= i,
            i <= e || i == s,
            e <= bytes@.len(),
            b == bytes@,
            count <= i - s,
            rule == 0 ==> count == 0 && forall|t: int| s <= t < i ==> is_ws(#[trigger] b[t]),
            rule == 0 ==> run_to(b, s as int, e as int, ws()) == run_to(b, i as int, e as int, ws()),
            rule != 0 ==> {
                let f = run_to(b, s as int, e as int, ws());
                &&& s <= f < i
                &&& b[f] == rule
                &&& (rule == 45u8 || rule == 42u8 || rule == 95u8)
                &&& forall|t: int| s <= t < i ==> is_ws(#[trigger] b[t]) || b[t] == rule
                &&& count == count_to(b, s as int, i as int, rule)
            },
        decreases e - i,
    {
        let c = bytes[i];
        if !ascii_ws(c) {
            if rule == 0 {
                if c != 45u8 && c != 42u8 && c != 95u8 {
                    proof {
                        assert(run_to(b, i as int, e as int, ws()) == i);
                    }
                    return false;
                }
                proof {
                    assert(run_to(b, i as int, e as int, ws()) == i);
                    lemma_count_none(b, s as int, i as int, c);
                }
                rule = c;
            }
            if c != rule {
                return false;
            }
            count = count + 1;
        }
        i = i + 1;
    }
    proof {
        if rule == 0 {
            assert(run_to(b, i as int, e as int, ws()) == i);
        }
    }
    count >= 3
}

/// An ATX heading (`CommonMark` §4.2) on the body `s..e`: `(level, text_lo, text_hi)`.
fn atx_heading(bytes: &[u8], s: usize, e: usize) -> (r: Option<(u8, usize, usize)>)
    requires
        s <= e <= bytes@.len(),
    ensures
        match atx_spec(bytes@, s as int, e as int) {
            Some((lv, a, z)) => r == Some((lv, a as usize, z as usize)),
            None => r is None,
        },
        r matches Some((lv, a, z)) ==> 1 <= lv <= 6 && s <= a <= z <= e,
        r matches Some((lv, a, z)) ==> atx_spec(bytes@, s as int, e as int) == Some((lv, a as int, z as int)),
{
    let level = crate::text::count_run(bytes, s, e, 35u8);
    proof {
        lemma_run_to(bytes@, s as int, s + level, e as int, is_byte(35u8));
    }
    if level < 1 || level > 6 {
        return None;
    }
    let after = s + level;
    if after < e && bytes[after] != 32u8 && bytes[after] != 9u8 {
        return None;
    }
    let mut start = after;
    while start < e && ascii_ws(bytes[start])
        invariant
            after <= start <= e,
            e <= bytes@.len(),
            forall|t: int| after <= t < start ==> (#[trigger] ws()(bytes@[t])),
        decreases e - start,
    {
        start = start + 1;
    }
    proof {
        lemma_run_to(bytes@, after as int, start as int, e as int, ws());
    }
    let mut end = e;
    while end > start && ascii_ws(bytes[end - 1])
        invariant
            start <= end <= e,
            e <= bytes@.len(),
            forall|t: int| end <= t < e ==> (#[trigger] ws()(bytes@[t])),
        decreases end,
    {
        end = end - 1;
    }
    proof {
        lemma_rrun_to(bytes@, start as int, end as int, e as int, ws());
    }
    let full_end = end;
    let mut stripped = end;
    while stripped > start && bytes[stripped - 1] == 35u8
        invariant
            start <= stripped <= full_end,
            full_end <= bytes@.len(),
            forall|t: int| stripped <= t < full_end ==> (#[trigger] is_byte(35u8)(bytes@[t])),
        decreases stripped,
    {
        stripped = stripped - 1;
    }
    proof {
        lemma_rrun_to(bytes@, start as int, stripped as int, full_end as int, is_byte(35u8));
    }
    if stripped == start || bytes[stripped - 1] == 32u8 || bytes[stripped - 1] == 9u8 {
        end = stripped;
        while end > start && ascii_ws(bytes[end - 1])
            invariant
                start <= end <= stripped,
                stripped <= bytes@.len(),
                forall|t: int| end <= t < stripped ==> (#[trigger] ws()(bytes@[t])),
            decreases end,
        {
            end = end - 1;
        }
        proof {
            lemma_rrun_to(bytes@, start as int, end as int, stripped as int, ws());
        }
    }
    Some((level as u8, start, end))
}

/// A code fence opening (`CommonMark` §4.5) on the body `s..e`: `(char, length)`.
fn fence_open(bytes: &[u8], s: usize, e: usize) -> (r: Option<(u8, usize)>)
    requires
        s <= e <= bytes@.len(),
    ensures
        match fence_spec(bytes@, s as int, e as int) {
            Some((c, n)) => r == Some((c, n as usize)),
            None => r is None,
        },
        r matches Some((c, n)) ==> n >= 3 && s + n <= e,
{
    if s >= e {
        return None;
    }
    let c = bytes[s];
    if c != 96u8 && c != 126u8 {
        return None;
    }
    let n = crate::text::count_run(bytes, s, e, c);
    proof {
        lemma_run_to(bytes@, s as int, s + n, e as int, is_byte(c));
    }
    if n < 3 {
        return None;
    }
    if c == 96u8 {
        let mut k = s + n;
        while k < e
            invariant
                s + n <= k <= e,
                e <= bytes@.len(),
                s < e,
                c == 96u8,
                bytes@[s as int] == c,
                n >= 3,
                s + n == run_to(bytes@, s as int, e as int, is_byte(c)),
                forall|t: int| s + n <= t < k ==> bytes@[t] != 96u8,
            decreases e - k,
        {
            if bytes[k] == 96u8 {
                proof {
                    assert(s + n <= k < e && bytes@[k as int] == 96u8);
                }
                return None;
            }
            k = k + 1;
        }
    }
    Some((c, n))
}

/// A closing fence for a block opened by `n` copies of `c`, on the body `s..e`.
fn is_closing_fence(bytes: &[u8], s: usize, e: usize, c: u8, n: usize) -> (r: bool)
    requires
        s <= e <= bytes@.len(),
    ensures
        r == closing_fence_spec(bytes@, s as int, e as int, c, n as int),
{
    let run = crate::text::count_run(bytes, s, e, c);
    proof {
        lemma_run_to(bytes@, s as int, s + run, e as int, is_byte(c));
    }
    run >= n && is_blank_range(bytes, s + run, e)
}

/// A setext underline (`CommonMark` §4.3) on the body `s..e`: level 1 for `=`,
/// 2 for `-`.
fn setext_level(bytes: &[u8], s: usize, e: usize) -> (r: Option<u8>)
    requires
        s <= e <= bytes@.len(),
    ensures
        r == setext_spec(bytes@, s as int, e as int),
{
    if s >= e {
        return None;
    }
    let c = bytes[s];
    let level: u8 = if c == 61u8 {
        1
    } else if c == 45u8 {
        2
    } else {
        return None;
    };
    let run = crate::text::count_run(bytes, s, e, c);
    proof {
        lemma_run_to(bytes@, s as int, s + run, e as int, is_byte(c));
    }
    if is_blank_range(bytes, s + run, e) {
        Some(level)
    } else {
        None
    }
}

/// A list marker at the very start of `s..e`.
#[derive(Clone, Copy)]
struct Marker {
    /// `Some((start, delim))` for an ordered item, `None` for a bullet.
    ordered: Option<(u32, OrderedListDelimiter)>,
    /// Width of the marker characters (bullet = 1; ordered = digits + 1).
    width: usize,
    /// Bullet character for unordered markers, else 0.
    bullet: u8,
}

impl Marker {
    /// Whether `other` continues the same list (same bullet, or same
    /// ordered delimiter).
    fn same_family(self, other: Marker) -> (r: bool)
        ensures
            r == match (self.ordered, other.ordered) {
                (None, None) => self.bullet == other.bullet,
                (Some((_, d1)), Some((_, d2))) => d1 == d2,
                _ => false,
            },
    {
        match (self.ordered, other.ordered) {
            (None, None) => self.bullet == other.bullet,
            (Some((_, d1)), Some((_, d2))) => d1 == d2,
            _ => false,
        }
    }
}

fn list_marker(bytes: &[u8], s: usize, e: usize) -> (r: Option<Marker>)
    requires
        s <= e <= bytes@.len(),
    ensures
        r == marker_spec(bytes@, s as int, e as int),
        r matches Some(m) ==> 1 <= m.width && s + m.width <= e,
        r matches Some(m) ==> s + m.width == e || bytes@[s + m.width] == 32u8 || bytes@[s + m.width] == 9u8,
{
    if s >= e {
        return None;
    }
    let first = bytes[s];
    if first == 45u8 || first == 43u8 || first == 42u8 {
        if s + 1 == e || bytes[s + 1] == 32u8 || bytes[s + 1] == 9u8 {
            return Some(Marker { ordered: None, width: 1, bullet: first });
        }
        return None;
    }
    if ascii_digit(first) {
        let mut num: u32 = 0;
        let mut digits: usize = 0;
        while s + digits < e && ascii_digit(bytes[s + digits])
            invariant
                s + digits <= e,
                s < e,
                e <= bytes@.len(),
                48u8 <= bytes@[s as int] <= 57u8,
                digits <= 9,
                forall|t: int| s <= t < s + digits ==> (#[trigger] digit()(bytes@[t])),
                num == digits_value(bytes@, s as int, digits as int, false),
                digits <= 1 ==> num < 10,
                digits <= 2 ==> num < 100,
                digits <= 3 ==> num < 1000,
                digits <= 4 ==> num < 10000,
                digits <= 5 ==> num < 100000,
                digits <= 6 ==> num < 1000000,
                digits <= 7 ==> num < 10000000,
                digits <= 8 ==> num < 100000000,
                num < 1000000000,
            decreases e - s - digits,
        {
            if digits == 9 {
                proof {
                    lemma_run_to_ge(bytes@, s as int, s + 10, e as int, digit());
                }
                return None;
            }
            let d = (bytes[s + digits] - 48u8) as u32;
            num = num * 10 + d;
            digits = digits + 1;
        }
        proof {
            lemma_run_to(bytes@, s as int, s + digits, e as int, digit());
        }
        let dpos = s + digits;
        if dpos >= e {
            return None;
        }
        let delim = match OrderedListDelimiter::from_byte(bytes[dpos]) {
            Some(d) => d,
            None => return None,
        };
        if dpos + 1 == e || bytes[dpos + 1] == 32u8 || bytes[dpos + 1] == 9u8 {
            return Some(Marker { ordered: Some((num, delim)), width: digits + 1, bullet: 0 });
        }
        return None;
    }
    None
}

/// Whether the body `s..e` (indentation stripped) begins a block that a
/// paragraph cannot lazily continue across.
fn begins_block(bytes: &[u8], s: usize, e: usize) -> (r: bool)
    requires
        s <= e <= bytes@.len(),
    ensures
        r == begins_block_spec(bytes@, s as int, e as int),
{
    if s >= e || bytes[s] == 62u8 {
        return true;
    }
    if list_marker(bytes, s, e).is_some() || is_hr(bytes, s, e) || fence_open(bytes, s, e).is_some() {
        return true;
    }
    let hashes = crate::text::count_run(bytes, s, e, 35u8);
    proof {
        lemma_run_to(bytes@, s as int, s + hashes, e as int, is_byte(35u8));
    }
    1 <= hashes && hashes <= 6 && (s + hashes == e || bytes[s + hashes] == 32u8 || bytes[s
        + hashes] == 9u8)
}

/// Count leading spaces (no tab expansion) of `s..e`.
fn spaces(bytes: &[u8], s: usize, e: usize) -> (n: usize)
    requires
        s <= e <= bytes@.len(),
    ensures
        s + n <= e,
        forall|j: int| s <= j < s + n ==> bytes@[j] == 32u8,
        s + n == e || bytes@[s + n] != 32u8,
        s + n == run_to(bytes@, s as int, e as int, is_byte(32u8)),
{
    let n = crate::text::count_spaces(bytes, s, e);
    proof {
        lemma_run_to(bytes@, s as int, s + n, e as int, is_byte(32u8));
    }
    n
}

/// The line `b[s..e]` ends in open paragraph text, looking through `>`
/// prefixes and list markers.
spec fn lazy_tail(b: Seq<u8>, s: int, e: int) -> bool
    decreases e - s,
{
    let body = run_to(b, s, e, is_byte(32u8));
    proof {
        lemma_run_to_from(b, s, e, is_byte(32u8));
    }
    if s < 0 || s > e {
        false
    } else if body < e && b[body] == 62u8 {
        lazy_tail(b, body + (if body + 1 < e && b[body + 1] == 32u8 { 2int } else { 1int }), e)
    } else if !thematic_break(b, body, e) && marker_spec(b, body, e) is Some {
        let rest = body + marker_spec(b, body, e)->0.width;
        if rest < e && b[rest] == 32u8 {
            lazy_tail(b, rest + 1, e)
        } else {
            false
        }
    } else {
        !all_ws(b, body, e) && !begins_block_spec(b, body, e)
    }
}

/// Whether the line ends in open paragraph text that a following marker-less
/// line could lazily continue, looking through `>` and list markers.
fn is_lazy_paragraph_tail(bytes: &[u8], s0: usize, e: usize) -> (r: bool)
    requires
        s0 <= e <= bytes@.len(),
    ensures
        r == lazy_tail(bytes@, s0 as int, e as int),
{
    let mut s = s0;
    loop
        invariant
            s0 <= s <= e,
            e <= bytes@.len(),
            lazy_tail(bytes@, s0 as int, e as int) == lazy_tail(bytes@, s as int, e as int),
        decreases e - s,
    {
        let ind = spaces(bytes, s, e);
        let body = s + ind;
        proof {
            assert forall|t: int| s <= t < body implies #[trigger] is_byte(32u8)(bytes@[t]) by {}
            lemma_run_to(bytes@, s as int, body as int, e as int, is_byte(32u8));
        }
        if body < e && bytes[body] == 62u8 {
            let after = if body + 1 < e && bytes[body + 1] == 32u8 {
                2
            } else {
                1
            };
            s = body + after;
            continue;
        }
        if !is_hr(bytes, body, e) {
            if let Some(m) = list_marker(bytes, body, e) {
                let rest = body + m.width;
                if rest < e && bytes[rest] == 32u8 {
                    s = rest + 1;
                    continue;
                }
                return false;
            }
        }
        return !is_blank_range(bytes, body, e) && !begins_block(bytes, body, e);
    }
}

/// Line with surrounding spaces and tabs removed.
fn trim_line(bytes: &[u8], l: Line) -> (r: Line)
    requires
        l.start <= l.end <= bytes@.len(),
    ensures
        l.start <= r.start <= r.end <= l.end,
        r.start == run_to(bytes@, l.start as int, l.end as int, blank()),
        r.end == rrun_to(bytes@, r.start as int, l.end as int, blank()),
        r.pad == 0,
        r.lazy == l.lazy,
{
    let mut a = l.start;
    while a < l.end && (bytes[a] == 32u8 || bytes[a] == 9u8)
        invariant
            l.start <= a <= l.end,
            l.end <= bytes@.len(),
            forall|t: int| l.start <= t < a ==> (#[trigger] blank()(bytes@[t])),
        decreases l.end - a,
    {
        a = a + 1;
    }
    proof {
        lemma_run_to(bytes@, l.start as int, a as int, l.end as int, blank());
    }
    let mut z = l.end;
    while z > a && (bytes[z - 1] == 32u8 || bytes[z - 1] == 9u8)
        invariant
            a <= z <= l.end,
            l.end <= bytes@.len(),
            forall|t: int| z <= t < l.end ==> (#[trigger] blank()(bytes@[t])),
        decreases z,
    {
        z = z - 1;
    }
    proof {
        lemma_rrun_to(bytes@, a as int, z as int, l.end as int, blank());
    }
    Line { start: a, end: z, pad: 0, lazy: l.lazy }
}

/// `lines` are the lines of `b`: the pieces between line feeds, in order, a
/// final empty piece after a trailing line feed left out.
pub open spec fn lines_of(b: Seq<u8>, lines: Seq<Line>) -> bool {
    &&& (lines.len() == 0 <==> b.len() == 0)
    &&& forall|k: int|
        0 <= k < lines.len() ==> {
            &&& (#[trigger] lines[k]).pad == 0
            &&& !lines[k].lazy
            &&& lines[k].start <= lines[k].end <= b.len()
            &&& forall|t: int| lines[k].start <= t < lines[k].end ==> b[t] != 10u8
        }
    &&& lines.len() > 0 ==> lines[0].start == 0
    &&& forall|k: int|
        0 <= k < lines.len() - 1 ==> (#[trigger] lines[k]).end < b.len() && b[lines[k].end as int] == 10u8
            && lines[k + 1].start == lines[k].end + 1
    &&& lines.len() > 0 ==> (lines.last().end == b.len() || (lines.last().end + 1 == b.len()
        && b[lines.last().end as int] == 10u8))
}

/// Split the input into lines at `\n` (a final empty line after a trailing
/// newline is not kept).
pub(crate) fn split_lines(bytes: &[u8]) -> (lines: Vec<Line>)
    ensures
        lines_in(lines@, bytes@.len() as int),
        lines_of(bytes@, lines@),
{
    let mut lines: Vec<Line> = Vec::new();
    let mut start: usize = 0;
    let mut i: usize = 0;
    while i < bytes.len()
        invariant
            start <= i <= bytes@.len(),
            lines_in(lines@, bytes@.len() as int),
            forall|k: int|
                0 <= k < lines@.len() ==> {
                    &&& (#[trigger] lines@[k]).pad == 0
                    &&& !lines@[k].lazy
                    &&& forall|t: int| lines@[k].start <= t < lines@[k].end ==> bytes@[t] != 10u8
                },
            lines@.len() > 0 ==> lines@[0].start == 0,
            forall|k: int|
                0 <= k < lines@.len() - 1 ==> (#[trigger] lines@[k]).end < bytes@.len()
                    && bytes@[lines@[k].end as int] == 10u8 && lines@[k + 1].start == lines@[k].end + 1,
            lines@.len() > 0 ==> lines@.last().end + 1 == start && bytes@[lines@.last().end as int] == 10u8,
            lines@.len() == 0 ==> start == 0,
            forall|t: int| start <= t < i ==> bytes@[t] != 10u8,
        decreases bytes@.len() - i,
    {
        if bytes[i] == 10u8 {
            lines.push(Line { start, end: i, pad: 0, lazy: false });
            start = i + 1;
        }
        i = i + 1;
    }
    if start < bytes.len() {
        lines.push(Line { start, end: bytes.len(), pad: 0, lazy: false });
    }
    lines
}

/// `r` is the info string of a fence opening line whose fence ends at `from`
/// and whose line ends at `e`: the rest of the line, trimmed of white space;
/// none when that is empty (or not a slice of whole characters).
pub open spec fn info_string(b: Seq<u8>, input: &str, from: int, e: int, r: Option<&str>) -> bool {
    let a = run_to(b, from, e, ws());
    let z = rrun_to(b, a, e, ws());
    match r {
        Some(t) => a < z && sbytes(t) == b.subrange(a, z),
        None => a >= z || !sliceable(input, a, z),
    }
}

/// The content bytes `(a, z)` of a fenced code block opened on line `i0` and
/// closed on line `close` (the number of lines when it is never closed): the
/// lines in between; an unclosed block keeps the line feed after its last line.
pub open spec fn fenced_body(b: Seq<u8>, lines: Seq<Line>, i0: int, close: int) -> (int, int) {
    let content_end = if close < lines.len() { close } else { lines.len() as int };
    if content_end > i0 + 1 {
        let z0 = lines[content_end - 1].end as int;
        (
            lines[i0 + 1].start as int,
            if close >= lines.len() && z0 < b.len() && b[z0] == 10u8 { z0 + 1 } else { z0 },
        )
    } else {
        (lines[i0].end as int, lines[i0].end as int)
    }
}

/// The info string of a fence opening line: from after the fence to the line
/// end, trimmed.
fn fence_language<'src>(p: &InlineParser<'src, '_>, from: usize, e: usize) -> (r: Option<&'src str>)
    requires
        p.ok(),
        e <= p.bytes@.len(),
    ensures
        opt_borrowed_from(r, p.input),
        info_string(p.bytes@, p.input, from as int, e as int, r),
{
    let bytes = p.bytes;
    let mut i = from;
    while i < e && ascii_ws(bytes[i])
        invariant
            from <= i,
            i <= e || i == from,
            e <= bytes@.len(),
            forall|t: int| from <= t < i ==> (#[trigger] ws()(bytes@[t])),
        decreases e - i,
    {
        i = i + 1;
    }
    proof {
        if from <= e {
            lemma_run_to(bytes@, from as int, i as int, e as int, ws());
        }
    }
    if i >= e {
        proof {
            lemma_rrun_to_empty(bytes@, i as int, e as int, ws());
        }
        return None;
    }
    let mut end = e;
    while end > i && ascii_ws(bytes[end - 1])
        invariant
            i <= end <= e,
            e <= bytes@.len(),
            forall|t: int| end <= t < e ==> (#[trigger] ws()(bytes@[t])),
        decreases end,
    {
        end = end - 1;
    }
    proof {
        lemma_rrun_to(bytes@, i as int, end as int, e as int, ws());
    }
    if i >= end {
        return None;
    }
    slice_of(p, i, end)
}

/// The input slice `lo..hi`, proven to borrow from the input.
fn slice_of<'src>(p: &InlineParser<'src, '_>, lo: usize, hi: usize) -> (r: Option<&'src str>)
    requires
        p.ok(),
    ensures
        opt_borrowed_from(r, p.input),
        r matches Some(t) ==> borrowed_from(t, p.input),
        r is Some <==> sliceable(p.input, lo as int, hi as int),
        r matches Some(t) ==> sbytes(t) == p.bytes@.subrange(lo as int, hi as int),
{
    let r = str_get(p.input, lo, hi);
    proof {
        if let Some(t) = r {
            lemma_borrowed_intro(t, p.input, lo as int, hi as int);
        }
    }
    r
}

/// Push one code/HTML line into the line pool.
fn push_pool_line<'src>(p: &InlineParser<'src, '_>, o: &mut Out<'src>, l: Line)
    requires
        p.ok(),
        old(o).wf(p.input),
    ensures
        final(o).wf(p.input),
        old(o).grown(final(o)),
        final(o).top == old(o).top,
        final(o).defs == old(o).defs,
        final(o).b.sections@ == old(o).b.sections@,
{
    let text = match slice_of(p, l.start, l.end) {
        Some(t) => t,
        None => "",
    };
    if !text.is_empty() || l.pad > 0 || l.start >= l.end {
        let ghost ob = o.b;
        let t2 = match slice_of(p, l.start, l.end) {
            Some(t) => t,
            None => match slice_of(p, l.start, l.start) {
                Some(t) => t,
                None => return,
            },
        };
        o.b.push_line(PoolLine { pad: l.pad, text: t2 }, Ghost(p.input));
        proof {
            o.lemma_regrow(&ob, p.input);
        }
    }
}

/// Inline-parse an open paragraph and emit it (nothing when it is empty).
fn flush_para<'src>(p: &InlineParser<'src, '_>, o: &mut Out<'src>, para: &mut Vec<Line>, top: bool, collect: bool)
    requires
        p.ok(),
        old(o).wf(p.input),
        lines_in(old(para)@, p.bytes@.len() as int),
    ensures
        final(o).wf(p.input),
        old(o).grown(final(o)),
        final(para)@.len() == 0,
        old(para)@.len() == 0 ==> *final(o) == *old(o),
        final(o).defs == old(o).defs,
        top ==> kinds(final(o).top@) == kinds(old(o).top@) + flushed(old(para)@.len() > 0),
        top ==> texts(final(o).top@) == texts(old(o).top@) + flushed_t(old(para)@.len() > 0),
        !top ==> final(o).top == old(o).top,
        kept(old(o).b.sections@, final(o).b.sections@),
        top ==> final(o).b.sections@ == old(o).b.sections@,
        pre(old(o).top@, final(o).top@),
        !top && final(o).b.sections@.len() < u32::MAX ==> appended(
            old(o).b.sections@,
            final(o).b.sections@,
            flushed(old(para)@.len() > 0),
        ),
{
    if para.len() == 0 {
        proof {
            lemma_appended_same(o.b.sections@);
        }
        return;
    }
    let content = paragraph_span(p, o, para, top, collect);
    para.clear();
    let ghost before = o.top@;
    o.emit(top, Section::Paragraph { content }, Ghost(p.input));
    proof {
        if top {
            lemma_kinds_push(before, Section::Paragraph { content });
            lemma_texts_push(before, Section::Paragraph { content });
        } else if o.b.sections@.len() < u32::MAX {
            lemma_appended_push(old(o).b.sections@, Section::Paragraph { content });
        }
    }
}

/// Each paragraph line's byte range with surrounding spaces and tabs left
/// out.
pub open spec fn trimmed_ranges(b: Seq<u8>, para: Seq<Line>) -> Seq<(usize, usize)> {
    Seq::new(
        para.len(),
        |k: int|
            {
                let a = run_to(b, para[k].start as int, para[k].end as int, blank());
                (a as usize, rrun_to(b, a, para[k].end as int, blank()) as usize)
            },
    )
}

/// The inline span of paragraph lines: one reflowed context when the lines
/// are contiguous top-level text, otherwise trimmed lines joined by soft breaks.
fn paragraph_span<'src>(p: &InlineParser<'src, '_>, o: &mut Out<'src>, para: &Vec<Line>, top: bool, collect: bool) -> (span: InlineSpan)
    requires
        p.ok(),
        old(o).wf(p.input),
        lines_in(para@, p.bytes@.len() as int),
    ensures
        final(o).wf(p.input),
        old(o).grown(final(o)),
        span.start + span.len <= final(o).b.inlines@.len(),
        final(o).top == old(o).top,
        final(o).defs == old(o).defs,
        final(o).b.sections@ == old(o).b.sections@,
        collect ==> *final(o) == *old(o) && span.len == 0,
        !collect && top && para@.len() > 0 && para@[0].start <= para@.last().end && no_special(
            p.bytes@,
            para@[0].start as int,
            para@.last().end as int,
        ) ==> ({
            let a = run_to(p.bytes@, para@[0].start as int, para@.last().end as int, blank());
            let z = rrun_to(p.bytes@, a, para@.last().end as int, blank());
            plain_pushed(p.input, old(o).b.inlines@, final(o).b.inlines@, a, z, span)
        }),
        !collect && para@.len() > 0 && !(top && para@[0].start <= para@.last().end) && (forall|k: int|
            0 <= k < para@.len() ==> no_special(p.bytes@, (#[trigger] para@[k]).start as int, para@[k].end as int))
            && old(o).b.inlines@.len() + 2 * para@.len() < u32::MAX ==> ({
            &&& final(o).b.inlines@.subrange(0, old(o).b.inlines@.len() as int) == old(o).b.inlines@
            &&& shows_plain(
                p.input,
                final(o).b.inlines@.subrange(old(o).b.inlines@.len() as int, final(o).b.inlines@.len() as int),
                plain_lines_shape(p.input, trimmed_ranges(p.bytes@, para@)),
            )
        }),
{
    if collect || para.len() == 0 {
        return InlineSpan::empty();
    }
    let ghost ob = o.b;
    let n = para.len();
    let first = para[0];
    let last = para[n - 1];
    if top && first.start <= last.end {
        let span = p.parse_context(&mut o.b, first.start, last.end, true, 0);
        proof {
            o.lemma_regrow(&ob, p.input);
        }
        return span;
    }
    let mut ranges: Vec<(usize, usize)> = Vec::new();
    let mut k: usize = 0;
    while k < n
        invariant
            n == para@.len(),
            lines_in(para@, p.bytes@.len() as int),
            forall|j: int|
                0 <= j < ranges@.len() ==> (#[trigger] ranges@[j]).0 <= ranges@[j].1
                    <= p.bytes@.len(),
            k <= n,
            ranges@.len() == k,
            forall|j: int| 0 <= j < k ==> #[trigger] ranges@[j] == trimmed_ranges(p.bytes@, para@)[j],
            forall|j: int| 0 <= j < k ==> para@[j].start <= (#[trigger] ranges@[j]).0 && ranges@[j].1 <= para@[j].end,
        decreases n - k,
    {
        let t = trim_line(p.bytes, para[k]);
        ranges.push((t.start, t.end));
        k = k + 1;
    }
    proof {
        assert(ranges@ =~= trimmed_ranges(p.bytes@, para@));
        if forall|k: int| 0 <= k < para@.len() ==> no_special(p.bytes@, (#[trigger] para@[k]).start as int, para@[k].end as int) {
            assert forall|k: int| 0 <= k < ranges@.len() implies no_special(p.bytes@, (#[trigger] ranges@[k]).0 as int, ranges@[k].1 as int) by {
                assert(no_special(p.bytes@, para@[k].start as int, para@[k].end as int));
            }
        }
    }
    let span = p.parse_lines(&mut o.b, &ranges);
    proof {
        o.lemma_regrow(&ob, p.input);
    }
    span
}

/// Inline-parse a heading's text range.
fn heading_span<'src>(p: &InlineParser<'src, '_>, o: &mut Out<'src>, lo: usize, hi: usize, collect: bool) -> (span: InlineSpan)
    requires
        p.ok(),
        old(o).wf(p.input),
        lo <= hi <= p.bytes@.len(),
    ensures
        final(o).wf(p.input),
        old(o).grown(final(o)),
        span.start + span.len <= final(o).b.inlines@.len(),
        final(o).top == old(o).top,
        final(o).defs == old(o).defs,
        final(o).b.sections@ == old(o).b.sections@,
        collect ==> *final(o) == *old(o) && span.len == 0,
        !collect && no_special(p.bytes@, lo as int, hi as int) ==> plain_pushed(
            p.input,
            old(o).b.inlines@,
            final(o).b.inlines@,
            lo as int,
            hi as int,
            span,
        ),
{
    if collect {
        return InlineSpan::empty();
    }
    let ghost ob = o.b;
    let span = p.parse_context(&mut o.b, lo, hi, false, 0);
    proof {
        o.lemma_regrow(&ob, p.input);
    }
    span
}

/// Record a link reference definition found at `start` of the slice `line`
/// (during the collecting pass). Returns the resume offset within `line`.
fn record_def<'src>(p: &InlineParser<'src, '_>, o: &mut Out<'src>, line: &'src str, start: usize, collect: bool) -> (r: Option<usize>)
    requires
        p.ok(),
        old(o).wf(p.input),
        borrowed_from(line, p.input),
    ensures
        final(o).wf(p.input),
        old(o).grown(final(o)),
        match spec_link_def(line, start as int) {
            Some(shape) => r == Some(shape.5 as usize),
            None => r is None,
        },
        final(o).b == old(o).b,
        final(o).top == old(o).top,
        !collect || r is None ==> final(o).defs == old(o).defs,
        defs_grow(old(o).defs.entries@, final(o).defs.entries@),
        collect ==> (spec_link_def(line, start as int) matches Some(shape) ==> exists|d: LinkDef|
            #[trigger] def_matches(line, d, shape.5 as usize, shape) && registered(
                old(o).defs.entries@,
                final(o).defs.entries@,
                spec_normalize_label(d.label@),
                d.url,
                d.title,
            )),
{
    proof {
        lemma_defs_refl(o.defs.entries@);
    }
    match scan_link_def(line, start) {
        Some((def, resume)) => {
            if collect {
                let key = normalize_label(def.label);
                proof {
                    lemma_borrowed_chain(def.url, line, p.input);
                    if let Some(t) = def.title {
                        lemma_borrowed_chain(t, line, p.input);
                    }
                }
                let ghost before = o.defs.entries@;
                let ghost k = key@;
                o.defs.insert_first(key, def.url, def.title);
                proof {
                    if exists|i: int| 0 <= i < before.len() && before[i].label@ == k {
                        assert(o.defs.entries@ == before);
                    } else {
                        assert(o.defs.entries@.subrange(0, before.len() as int) == before);
                        lemma_defs_append(before, o.defs.entries@);
                    }
                    assert(registered(before, o.defs.entries@, k, def.url, def.title));
                    assert(def_matches(line, def, resume, spec_link_def(line, start as int).unwrap()));
                    assert forall|i: int| 0 <= i < o.defs.entries@.len() implies borrowed_from(
                        #[trigger] o.defs.entries@[i].url,
                        p.input,
                    ) && opt_borrowed_from(o.defs.entries@[i].title, p.input) by {
                        if i < before.len() {
                            assert(o.defs.entries@[i] == before[i]);
                        }
                    }
                }
            }
            Some(resume)
        },
        None => None,
    }
}

/// The first line from `j` on that starts at or after `resume` (the lines
/// before it belong to a link reference definition).
pub open spec fn skip_before(lines: Seq<Line>, j: int, resume: int) -> int
    decreases lines.len() - j,
{
    if 0 <= j < lines.len() && lines[j].start < resume {
        skip_before(lines, j + 1, resume)
    } else {
        j
    }
}

/// The index that follows line `i` once a block ending before `nx` is done:
/// `nx`, when it lies past `i` within the lines.
pub open spec fn step(lines: Seq<Line>, i: int, nx: int) -> int {
    if i < nx <= lines.len() {
        nx
    } else {
        i + 1
    }
}

/// A list item marker `m` at `b[body..e]` may interrupt a paragraph: its
/// item is not empty, and an ordered one starts at 1.
spec fn interrupts(b: Seq<u8>, m: Marker, body: int, e: int) -> bool {
    let rest_blank = all_ws(b, body + m.width, e);
    match m.ordered {
        Some((start, _)) => start == 1 && !rest_blank,
        None => !rest_blank,
    }
}

/// The kinds of the top-level blocks made of `lines[i..]`, the lines of
/// `input`, when a paragraph is open (`para`) or not, containers being
/// opened only while `fuel` is positive. A line is tried, in this order, as
/// a blank line (which closes the paragraph), indented code (not inside a
/// paragraph), a link reference definition (not inside a paragraph; it makes
/// no block), a blockquote, an ATX heading, a fenced code block, an HTML
/// block, a setext underline (which turns the open paragraph, not continued
/// lazily, into a heading), a thematic break and a list (whose first item
/// interrupts a paragraph only when not empty and, if ordered, numbered 1);
/// anything else is paragraph text. Each block but a setext heading first
/// closes the open paragraph. A code or HTML block whose text is not a
/// slice of whole characters is left out.
#[verifier::opaque]
pub closed spec fn top_plan(input: &str, lines: Seq<Line>, i: int, para: bool, fuel: int) -> Seq<BlockKind>
    decreases lines.len() - i,
{
    let b = sbytes(input);
    if i < 0 || i >= lines.len() {
        flushed(para)
    } else {
        let l = lines[i];
        let (s, e) = (l.start as int, l.end as int);
        let (ind, cols) = line_indent(b, l, true);
        let body = s + ind;
        if all_ws(b, s, e) {
            flushed(para) + top_plan(input, lines, i + 1, false, fuel)
        } else if cols >= 4 && !para {
            let nx = step(lines, i, code_run_end(b, lines, i, i, true));
            (if sliceable(input, s, lines[nx - 1].end as int) {
                seq![BlockKind::Code]
            } else {
                Seq::empty()
            }) + top_plan(input, lines, nx, false, fuel)
        } else if !para && cols <= 3 && body < e && b[body] == 91u8 && spec_link_def(input, body) is Some {
            let resume = (spec_link_def(input, body).unwrap().5 as usize) as int;
            top_plan(input, lines, step(lines, i, skip_before(lines, i + 1, resume)), false, fuel)
        } else if cols <= 3 && body < e && b[body] == 62u8 {
            if fuel > 0 {
                let nx = step(lines, i, quote_end_top(input, b, lines, i, false, None));
                flushed(para) + seq![BlockKind::Quote] + top_plan(input, lines, nx, false, fuel)
            } else {
                flushed(para) + top_plan(input, lines, i + 1, false, fuel)
            }
        } else if cols <= 3 && body < e && b[body] == 35u8 && atx_spec(b, body, e) is Some {
            flushed(para) + seq![BlockKind::Heading(atx_spec(b, body, e).unwrap().0)] + top_plan(
                input,
                lines,
                i + 1,
                false,
                fuel,
            )
        } else if cols <= 3 && fence_spec(b, body, e) is Some {
            let (c, n) = fence_spec(b, body, e).unwrap();
            let close = fence_close_at(b, lines, i + 1, c, (n as usize) as int);
            let nx = step(lines, i, if close < lines.len() { close + 1 } else { lines.len() as int });
            let (a, z) = fenced_body(b, lines, i, close);
            (flushed(para) + if !(ind == 0 && l.pad == 0) || sliceable(input, a, z) {
                seq![BlockKind::Code]
            } else {
                Seq::empty()
            }) + top_plan(input, lines, nx, false, fuel)
        } else if cols <= 3 && body < e && b[body] == 60u8 && block_start_kind(b.subrange(body, e), para) is Some {
            let k = block_start_kind(b.subrange(body, e), para).unwrap();
            let nx = step(lines, i, html_block_end(b, lines, i, k));
            (flushed(para) + if sliceable(input, s, lines[nx - 1].end as int) {
                seq![BlockKind::Html]
            } else {
                Seq::empty()
            }) + top_plan(input, lines, nx, false, fuel)
        } else if cols <= 3 && para && !l.lazy && setext_spec(b, body, e) is Some {
            seq![BlockKind::Heading(setext_spec(b, body, e).unwrap())] + top_plan(input, lines, i + 1, false, fuel)
        } else if cols <= 3 && thematic_break(b, body, e) {
            flushed(para) + seq![BlockKind::Rule] + top_plan(input, lines, i + 1, false, fuel)
        } else if cols <= 3 && !l.lazy && marker_spec(b, body, e) is Some && (!para || interrupts(
            b,
            marker_spec(b, body, e).unwrap(),
            body,
            e,
        )) {
            if fuel > 0 {
                match marker_spec(b, run_to(b, s, e, is_byte(32u8)), e) {
                    Some(fm) => {
                        let scan = list_scan(b, lines, i, true, fm, false, true);
                        flushed(para) + seq![BlockKind::List(fm.ordered, !scan.1)] + top_plan(
                            input,
                            lines,
                            step(lines, i, scan.0),
                            false,
                            fuel,
                        )
                    },
                    None => flushed(para) + top_plan(input, lines, i + 1, false, fuel),
                }
            } else {
                flushed(para) + top_plan(input, lines, i + 1, false, fuel)
            }
        } else {
            top_plan(input, lines, i + 1, true, fuel)
        }
    }
}

/// The kinds of the sections that the top-level lines `lines[i..]` add to
/// the section pool, in pool order: the content of each blockquote, as
/// `nested_plan` says, the lines being tried as `top_plan` says. `None`
/// where this is not described: at a list, or where `nested_plan` says
/// nothing of a blockquote's content.
#[verifier::opaque]
pub closed spec fn top_pool_plan(input: &str, lines: Seq<Line>, i: int, para: bool, fuel: int) -> Option<Seq<BlockKind>>
    decreases lines.len() - i,
{
    let b = sbytes(input);
    if i < 0 || i >= lines.len() {
        Some(Seq::empty())
    } else {
        let l = lines[i];
        let (s, e) = (l.start as int, l.end as int);
        let (ind, cols) = line_indent(b, l, true);
        let body = s + ind;
        if all_ws(b, s, e) {
            top_pool_plan(input, lines, i + 1, false, fuel)
        } else if cols >= 4 && !para {
            top_pool_plan(input, lines, step(lines, i, code_run_end(b, lines, i, i, true)), false, fuel)
        } else if !para && cols <= 3 && body < e && b[body] == 91u8 && spec_link_def(input, body) is Some {
            let resume = (spec_link_def(input, body).unwrap().5 as usize) as int;
            top_pool_plan(input, lines, step(lines, i, skip_before(lines, i + 1, resume)), false, fuel)
        } else if cols <= 3 && body < e && b[body] == 62u8 {
            if fuel > 0 {
                match nested_plan(input, quote_lines_top(input, b, lines, i, false, None), 0, false, fuel - 1) {
                    Some(ks) => cat(
                        ks,
                        top_pool_plan(input, lines, step(lines, i, quote_end_top(input, b, lines, i, false, None)), false, fuel),
                    ),
                    None => None,
                }
            } else {
                top_pool_plan(input, lines, i + 1, false, fuel)
            }
        } else if cols <= 3 && body < e && b[body] == 35u8 && atx_spec(b, body, e) is Some {
            top_pool_plan(input, lines, i + 1, false, fuel)
        } else if cols <= 3 && fence_spec(b, body, e) is Some {
            let (c, n) = fence_spec(b, body, e).unwrap();
            let close = fence_close_at(b, lines, i + 1, c, (n as usize) as int);
            top_pool_plan(input, lines, step(lines, i, if close < lines.len() { close + 1 } else { lines.len() as int }), false, fuel)
        } else if cols <= 3 && body < e && b[body] == 60u8 && block_start_kind(b.subrange(body, e), para) is Some {
            let k = block_start_kind(b.subrange(body, e), para).unwrap();
            top_pool_plan(input, lines, step(lines, i, html_block_end(b, lines, i, k)), false, fuel)
        } else if cols <= 3 && para && !l.lazy && setext_spec(b, body, e) is Some {
            top_pool_plan(input, lines, i + 1, false, fuel)
        } else if cols <= 3 && thematic_break(b, body, e) {
            top_pool_plan(input, lines, i + 1, false, fuel)
        } else if cols <= 3 && !l.lazy && marker_spec(b, body, e) is Some && (!para || interrupts(
            b,
            marker_spec(b, body, e).unwrap(),
            body,
            e,
        )) {
            if fuel > 0 {
                None
            } else {
                top_pool_plan(input, lines, i + 1, false, fuel)
            }
        } else {
            top_pool_plan(input, lines, i + 1, true, fuel)
        }
    }
}

/// The texts of the top-level blocks made of `lines[i..]`, one entry per
/// block of `top_plan`: the bytes an indented code block, a fenced code
/// block (opened at the start of its line) or an HTML block holds, which is
/// the input between its first and last line (for fenced code, the lines
/// between the fences); no entry for the other blocks.
#[verifier::opaque]
pub closed spec fn top_texts(input: &str, lines: Seq<Line>, i: int, para: bool, fuel: int) -> Seq<Option<Seq<u8>>>
    decreases lines.len() - i,
{
    let b = sbytes(input);
    if i < 0 || i >= lines.len() {
        flushed_t(para)
    } else {
        let l = lines[i];
        let (s, e) = (l.start as int, l.end as int);
        let (ind, cols) = line_indent(b, l, true);
        let body = s + ind;
        if all_ws(b, s, e) {
            flushed_t(para) + top_texts(input, lines, i + 1, false, fuel)
        } else if cols >= 4 && !para {
            let nx = step(lines, i, code_run_end(b, lines, i, i, true));
            let z = lines[nx - 1].end as int;
            (if sliceable(input, s, z) {
                seq![Some(b.subrange(s, z))]
            } else {
                Seq::empty()
            }) + top_texts(input, lines, nx, false, fuel)
        } else if !para && cols <= 3 && body < e && b[body] == 91u8 && spec_link_def(input, body) is Some {
            let resume = (spec_link_def(input, body).unwrap().5 as usize) as int;
            top_texts(input, lines, step(lines, i, skip_before(lines, i + 1, resume)), false, fuel)
        } else if cols <= 3 && body < e && b[body] == 62u8 {
            if fuel > 0 {
                let nx = step(lines, i, quote_end_top(input, b, lines, i, false, None));
                flushed_t(para) + seq![None] + top_texts(input, lines, nx, false, fuel)
            } else {
                flushed_t(para) + top_texts(input, lines, i + 1, false, fuel)
            }
        } else if cols <= 3 && body < e && b[body] == 35u8 && atx_spec(b, body, e) is Some {
            flushed_t(para) + seq![None] + top_texts(input, lines, i + 1, false, fuel)
        } else if cols <= 3 && fence_spec(b, body, e) is Some {
            let (c, n) = fence_spec(b, body, e).unwrap();
            let close = fence_close_at(b, lines, i + 1, c, (n as usize) as int);
            let nx = step(lines, i, if close < lines.len() { close + 1 } else { lines.len() as int });
            let (a, z) = fenced_body(b, lines, i, close);
            (flushed_t(para) + if !(ind == 0 && l.pad == 0) {
                seq![None]
            } else if sliceable(input, a, z) {
                seq![Some(b.subrange(a, z))]
            } else {
                Seq::empty()
            }) + top_texts(input, lines, nx, false, fuel)
        } else if cols <= 3 && body < e && b[body] == 60u8 && block_start_kind(b.subrange(body, e), para) is Some {
            let k = block_start_kind(b.subrange(body, e), para).unwrap();
            let nx = step(lines, i, html_block_end(b, lines, i, k));
            let z = lines[nx - 1].end as int;
            (flushed_t(para) + if sliceable(input, s, z) {
                seq![Some(b.subrange(s, z))]
            } else {
                Seq::empty()
            }) + top_texts(input, lines, nx, false, fuel)
        } else if cols <= 3 && para && !l.lazy && setext_spec(b, body, e) is Some {
            seq![None] + top_texts(input, lines, i + 1, false, fuel)
        } else if cols <= 3 && thematic_break(b, body, e) {
            flushed_t(para) + seq![None] + top_texts(input, lines, i + 1, false, fuel)
        } else if cols <= 3 && !l.lazy && marker_spec(b, body, e) is Some && (!para || interrupts(
            b,
            marker_spec(b, body, e).unwrap(),
            body,
            e,
        )) {
            if fuel > 0 {
                match marker_spec(b, run_to(b, s, e, is_byte(32u8)), e) {
                    Some(fm) => flushed_t(para) + seq![None] + top_texts(
                        input,
                        lines,
                        step(lines, i, list_scan(b, lines, i, true, fm, false, true).0),
                        false,
                        fuel,
                    ),
                    None => flushed_t(para) + top_texts(input, lines, i + 1, false, fuel),
                }
            } else {
                flushed_t(para) + top_texts(input, lines, i + 1, false, fuel)
            }
        } else {
            top_texts(input, lines, i + 1, true, fuel)
        }
    }
}

/// The text ranges of the top-level blocks made of `lines[i..]`, one entry
/// per block of `top_plan`: for an ATX heading the byte range of its text
/// (`atx_spec`), `None` for the other blocks.
#[verifier::opaque]
pub closed spec fn top_heads(input: &str, lines: Seq<Line>, i: int, para: bool, fuel: int) -> Seq<Option<(int, int)>>
    decreases lines.len() - i,
{
    let b = sbytes(input);
    if i < 0 || i >= lines.len() {
        flushed_h(para)
    } else {
        let l = lines[i];
        let (s, e) = (l.start as int, l.end as int);
        let (ind, cols) = line_indent(b, l, true);
        let body = s + ind;
        if all_ws(b, s, e) {
            flushed_h(para) + top_heads(input, lines, i + 1, false, fuel)
        } else if cols >= 4 && !para {
            let nx = step(lines, i, code_run_end(b, lines, i, i, true));
            let z = lines[nx - 1].end as int;
            (if sliceable(input, s, z) {
                seq![None]
            } else {
                Seq::empty()
            }) + top_heads(input, lines, nx, false, fuel)
        } else if !para && cols <= 3 && body < e && b[body] == 91u8 && spec_link_def(input, body) is Some {
            let resume = (spec_link_def(input, body).unwrap().5 as usize) as int;
            top_heads(input, lines, step(lines, i, skip_before(lines, i + 1, resume)), false, fuel)
        } else if cols <= 3 && body < e && b[body] == 62u8 {
            if fuel > 0 {
                let nx = step(lines, i, quote_end_top(input, b, lines, i, false, None));
                flushed_h(para) + seq![None] + top_heads(input, lines, nx, false, fuel)
            } else {
                flushed_h(para) + top_heads(input, lines, i + 1, false, fuel)
            }
        } else if cols <= 3 && body < e && b[body] == 35u8 && atx_spec(b, body, e) is Some {
            flushed_h(para) + seq![Some((atx_spec(b, body, e).unwrap().1, atx_spec(b, body, e).unwrap().2))] + top_heads(
                input,
                lines,
                i + 1,
                false,
                fuel,
            )
        } else if cols <= 3 && fence_spec(b, body, e) is Some {
            let (c, n) = fence_spec(b, body, e).unwrap();
            let close = fence_close_at(b, lines, i + 1, c, (n as usize) as int);
            let nx = step(lines, i, if close < lines.len() { close + 1 } else { lines.len() as int });
            let (a, z) = fenced_body(b, lines, i, close);
            (flushed_h(para) + if !(ind == 0 && l.pad == 0) {
                seq![None]
            } else if sliceable(input, a, z) {
                seq![None]
            } else {
                Seq::empty()
            }) + top_heads(input, lines, nx, false, fuel)
        } else if cols <= 3 && body < e && b[body] == 60u8 && block_start_kind(b.subrange(body, e), para) is Some {
            let k = block_start_kind(b.subrange(body, e), para).unwrap();
            let nx = step(lines, i, html_block_end(b, lines, i, k));
            let z = lines[nx - 1].end as int;
            (flushed_h(para) + if sliceable(input, s, z) {
                seq![None]
            } else {
                Seq::empty()
            }) + top_heads(input, lines, nx, false, fuel)
        } else if cols <= 3 && para && !l.lazy && setext_spec(b, body, e) is Some {
            seq![None] + top_heads(input, lines, i + 1, false, fuel)
        } else if cols <= 3 && thematic_break(b, body, e) {
            flushed_h(para) + seq![None] + top_heads(input, lines, i + 1, false, fuel)
        } else if cols <= 3 && !l.lazy && marker_spec(b, body, e) is Some && (!para || interrupts(
            b,
            marker_spec(b, body, e).unwrap(),
            body,
            e,
        )) {
            if fuel > 0 {
                match marker_spec(b, run_to(b, s, e, is_byte(32u8)), e) {
                    Some(fm) => flushed_h(para) + seq![None] + top_heads(
                        input,
                        lines,
                        step(lines, i, list_scan(b, lines, i, true, fm, false, true).0),
                        false,
                        fuel,
                    ),
                    None => flushed_h(para) + top_heads(input, lines, i + 1, false, fuel),
                }
            } else {
                flushed_h(para) + top_heads(input, lines, i + 1, false, fuel)
            }
        } else {
            top_heads(input, lines, i + 1, true, fuel)
        }
    }
}

/// Where the content of line `i` starts once its indentation is skipped.
spec fn plan_body(input: &str, lines: Seq<Line>, i: int) -> int {
    lines[i].start + line_indent(sbytes(input), lines[i], true).0
}

/// The indentation of line `i` in columns.
spec fn plan_cols(input: &str, lines: Seq<Line>, i: int) -> int {
    line_indent(sbytes(input), lines[i], true).1
}

/// The paragraph-text case of `top_plan`: no block starts on line `i`.
spec fn plain_text_line(input: &str, lines: Seq<Line>, i: int, para: bool) -> bool {
    let b = sbytes(input);
    let l = lines[i];
    let (s, e) = (l.start as int, l.end as int);
    let cols = plan_cols(input, lines, i);
    let body = plan_body(input, lines, i);
    &&& !all_ws(b, s, e)
    &&& !(cols >= 4 && !para)
    &&& !(!para && cols <= 3 && body < e && b[body] == 91u8 && spec_link_def(input, body) is Some)
    &&& !(cols <= 3 && body < e && b[body] == 62u8)
    &&& !(cols <= 3 && body < e && b[body] == 35u8 && atx_spec(b, body, e) is Some)
    &&& !(cols <= 3 && fence_spec(b, body, e) is Some)
    &&& !(cols <= 3 && body < e && b[body] == 60u8 && block_start_kind(b.subrange(body, e), para) is Some)
    &&& !(cols <= 3 && para && !l.lazy && setext_spec(b, body, e) is Some)
    &&& !(cols <= 3 && thematic_break(b, body, e))
    &&& !(cols <= 3 && !l.lazy && marker_spec(b, body, e) is Some && (!para || interrupts(
        b,
        marker_spec(b, body, e).unwrap(),
        body,
        e,
    )))
}

proof fn lemma_plan_end(input: &str, lines: Seq<Line>, i: int, para: bool, fuel: int)
    requires
        i >= lines.len(),
    ensures
        top_plan(input, lines, i, para, fuel) == flushed(para),
        top_pool_plan(input, lines, i, para, fuel) == Some(Seq::<BlockKind>::empty()),
        top_texts(input, lines, i, para, fuel) == flushed_t(para),
        top_heads(input, lines, i, para, fuel) == flushed_h(para),
{
    reveal(top_heads);
    reveal(top_texts);
    reveal(top_pool_plan);
    reveal(top_plan);
}

proof fn lemma_plan_blank(input: &str, lines: Seq<Line>, i: int, para: bool, fuel: int)
    requires
        0 <= i < lines.len(),
        all_ws(sbytes(input), lines[i].start as int, lines[i].end as int),
    ensures
        top_plan(input, lines, i, para, fuel) == flushed(para) + top_plan(input, lines, i + 1, false, fuel),
        top_pool_plan(input, lines, i, para, fuel) == top_pool_plan(input, lines, i + 1, false, fuel),
        top_texts(input, lines, i, para, fuel) == flushed_t(para) + top_texts(input, lines, i + 1, false, fuel),
        top_heads(input, lines, i, para, fuel) == flushed_h(para) + top_heads(input, lines, i + 1, false, fuel),
{
    reveal(top_heads);
    reveal(top_texts);
    reveal(top_pool_plan);
    reveal(top_plan);
}

proof fn lemma_plan_text(input: &str, lines: Seq<Line>, i: int, para: bool, fuel: int)
    requires
        0 <= i < lines.len(),
        plain_text_line(input, lines, i, para),
    ensures
        top_plan(input, lines, i, para, fuel) == top_plan(input, lines, i + 1, true, fuel),
        top_pool_plan(input, lines, i, para, fuel) == top_pool_plan(input, lines, i + 1, true, fuel),
        top_texts(input, lines, i, para, fuel) == top_texts(input, lines, i + 1, true, fuel),
        top_heads(input, lines, i, para, fuel) == top_heads(input, lines, i + 1, true, fuel),
{
    reveal(top_heads);
    reveal(top_texts);
    reveal(top_pool_plan);
    reveal(top_plan);
}

proof fn lemma_plan_code(input: &str, lines: Seq<Line>, i: int, fuel: int)
    requires
        0 <= i < lines.len(),
        !all_ws(sbytes(input), lines[i].start as int, lines[i].end as int),
        plan_cols(input, lines, i) >= 4,
    ensures
        ({
            let nx = step(lines, i, code_run_end(sbytes(input), lines, i, i, true));
            top_plan(input, lines, i, false, fuel) == (if sliceable(input, lines[i].start as int, lines[nx - 1].end as int) {
                seq![BlockKind::Code]
            } else {
                Seq::empty()
            }) + top_plan(input, lines, nx, false, fuel)
        }),
        top_pool_plan(input, lines, i, false, fuel) == top_pool_plan(input, lines, step(lines, i, code_run_end(sbytes(input), lines, i, i, true)), false, fuel),
        ({
            let nx = step(lines, i, code_run_end(sbytes(input), lines, i, i, true));
            let (s, z) = (lines[i].start as int, lines[nx - 1].end as int);
            top_texts(input, lines, i, false, fuel) == (if sliceable(input, s, z) {
                seq![Some(sbytes(input).subrange(s, z))]
            } else {
                Seq::empty()
            }) + top_texts(input, lines, nx, false, fuel)
        }),
        ({
            let nx = step(lines, i, code_run_end(sbytes(input), lines, i, i, true));
            let (s, z) = (lines[i].start as int, lines[nx - 1].end as int);
            top_heads(input, lines, i, false, fuel) == (if sliceable(input, s, z) {
                seq![None]
            } else {
                Seq::empty()
            }) + top_heads(input, lines, nx, false, fuel)
        }),
{
    reveal(top_heads);
    reveal(top_texts);
    reveal(top_pool_plan);
    reveal(top_plan);
}

proof fn lemma_plan_def(input: &str, lines: Seq<Line>, i: int, fuel: int)
    requires
        0 <= i < lines.len(),
        !all_ws(sbytes(input), lines[i].start as int, lines[i].end as int),
        plan_cols(input, lines, i) <= 3,
        plan_body(input, lines, i) < lines[i].end,
        sbytes(input)[plan_body(input, lines, i)] == 91u8,
        spec_link_def(input, plan_body(input, lines, i)) is Some,
    ensures
        ({
            let resume = (spec_link_def(input, plan_body(input, lines, i)).unwrap().5 as usize) as int;
            top_plan(input, lines, i, false, fuel) == top_plan(
                input,
                lines,
                step(lines, i, skip_before(lines, i + 1, resume)),
                false,
                fuel,
            )
        }),
        top_pool_plan(input, lines, i, false, fuel) == top_pool_plan(
            input,
            lines,
            step(lines, i, skip_before(lines, i + 1, (spec_link_def(input, plan_body(input, lines, i)).unwrap().5 as usize) as int)),
            false,
            fuel,
        ),
        top_texts(input, lines, i, false, fuel) == top_texts(
            input,
            lines,
            step(lines, i, skip_before(lines, i + 1, (spec_link_def(input, plan_body(input, lines, i)).unwrap().5 as usize) as int)),
            false,
            fuel,
        ),
        top_heads(input, lines, i, false, fuel) == top_heads(
            input,
            lines,
            step(lines, i, skip_before(lines, i + 1, (spec_link_def(input, plan_body(input, lines, i)).unwrap().5 as usize) as int)),
            false,
            fuel,
        ),
{
    reveal(top_heads);
    reveal(top_texts);
    reveal(top_pool_plan);
    reveal(top_plan);
}

proof fn lemma_plan_quote(input: &str, lines: Seq<Line>, i: int, para: bool, fuel: int)
    requires
        0 <= i < lines.len(),
        !all_ws(sbytes(input), lines[i].start as int, lines[i].end as int),
        plan_cols(input, lines, i) <= 3,
        plan_body(input, lines, i) < lines[i].end,
        sbytes(input)[plan_body(input, lines, i)] == 62u8,
    ensures
        fuel > 0 ==> top_plan(input, lines, i, para, fuel) == flushed(para) + seq![BlockKind::Quote] + top_plan(
            input,
            lines,
            step(lines, i, quote_end_top(input, sbytes(input), lines, i, false, None)),
            false,
            fuel,
        ),
        fuel <= 0 ==> top_plan(input, lines, i, para, fuel) == flushed(para) + top_plan(input, lines, i + 1, false, fuel),
        fuel > 0 ==> top_pool_plan(input, lines, i, para, fuel) == match nested_plan(
            input,
            quote_lines_top(input, sbytes(input), lines, i, false, None),
            0,
            false,
            fuel - 1,
        ) {
            Some(ks) => cat(
                ks,
                top_pool_plan(input, lines, step(lines, i, quote_end_top(input, sbytes(input), lines, i, false, None)), false, fuel),
            ),
            None => None,
        },
        fuel <= 0 ==> top_pool_plan(input, lines, i, para, fuel) == top_pool_plan(input, lines, i + 1, false, fuel),
        fuel > 0 ==> top_texts(input, lines, i, para, fuel) == flushed_t(para) + seq![None] + top_texts(
            input,
            lines,
            step(lines, i, quote_end_top(input, sbytes(input), lines, i, false, None)),
            false,
            fuel,
        ),
        fuel <= 0 ==> top_texts(input, lines, i, para, fuel) == flushed_t(para) + top_texts(input, lines, i + 1, false, fuel),
        fuel > 0 ==> top_heads(input, lines, i, para, fuel) == flushed_h(para) + seq![None] + top_heads(
            input,
            lines,
            step(lines, i, quote_end_top(input, sbytes(input), lines, i, false, None)),
            false,
            fuel,
        ),
        fuel <= 0 ==> top_heads(input, lines, i, para, fuel) == flushed_h(para) + top_heads(input, lines, i + 1, false, fuel),
{
    reveal(top_heads);
    reveal(top_texts);
    reveal(top_pool_plan);
    reveal(top_plan);
}

proof fn lemma_plan_atx(input: &str, lines: Seq<Line>, i: int, para: bool, fuel: int)
    requires
        0 <= i < lines.len(),
        !all_ws(sbytes(input), lines[i].start as int, lines[i].end as int),
        plan_cols(input, lines, i) <= 3,
        plan_body(input, lines, i) < lines[i].end,
        sbytes(input)[plan_body(input, lines, i)] == 35u8,
        atx_spec(sbytes(input), plan_body(input, lines, i), lines[i].end as int) is Some,
    ensures
        top_plan(input, lines, i, para, fuel) == flushed(para) + seq![
            BlockKind::Heading(atx_spec(sbytes(input), plan_body(input, lines, i), lines[i].end as int).unwrap().0),
        ] + top_plan(input, lines, i + 1, false, fuel),
        top_pool_plan(input, lines, i, para, fuel) == top_pool_plan(input, lines, i + 1, false, fuel),
        top_texts(input, lines, i, para, fuel) == flushed_t(para) + seq![None] + top_texts(input, lines, i + 1, false, fuel),
        top_heads(input, lines, i, para, fuel) == flushed_h(para) + seq![Some((atx_spec(sbytes(input), plan_body(input, lines, i), lines[i].end as int).unwrap().1, atx_spec(sbytes(input), plan_body(input, lines, i), lines[i].end as int).unwrap().2))] + top_heads(input, lines, i + 1, false, fuel),
{
    reveal(top_heads);
    reveal(top_texts);
    reveal(top_pool_plan);
    reveal(top_plan);
}

proof fn lemma_plan_fence(input: &str, lines: Seq<Line>, i: int, para: bool, fuel: int)
    requires
        0 <= i < lines.len(),
        !all_ws(sbytes(input), lines[i].start as int, lines[i].end as int),
        plan_cols(input, lines, i) <= 3,
        fence_spec(sbytes(input), plan_body(input, lines, i), lines[i].end as int) is Some,
    ensures
        ({
            let b = sbytes(input);
            let (c, n) = fence_spec(b, plan_body(input, lines, i), lines[i].end as int).unwrap();
            let close = fence_close_at(b, lines, i + 1, c, (n as usize) as int);
            let nx = step(lines, i, if close < lines.len() { close + 1 } else { lines.len() as int });
            let (a, z) = fenced_body(b, lines, i, close);
            let shown = !(line_indent(b, lines[i], true).0 == 0 && lines[i].pad == 0) || sliceable(input, a, z);
            top_plan(input, lines, i, para, fuel) == (flushed(para) + if shown {
                seq![BlockKind::Code]
            } else {
                Seq::empty()
            }) + top_plan(input, lines, nx, false, fuel)
        }),
        ({
            let b = sbytes(input);
            let (c, n) = fence_spec(b, plan_body(input, lines, i), lines[i].end as int).unwrap();
            let close = fence_close_at(b, lines, i + 1, c, (n as usize) as int);
            let nx = step(lines, i, if close < lines.len() { close + 1 } else { lines.len() as int });
            top_pool_plan(input, lines, i, para, fuel) == top_pool_plan(input, lines, nx, false, fuel)
        }),
        ({
            let b = sbytes(input);
            let (c, n) = fence_spec(b, plan_body(input, lines, i), lines[i].end as int).unwrap();
            let close = fence_close_at(b, lines, i + 1, c, (n as usize) as int);
            let nx = step(lines, i, if close < lines.len() { close + 1 } else { lines.len() as int });
            let (a, z) = fenced_body(b, lines, i, close);
            top_texts(input, lines, i, para, fuel) == (flushed_t(para) + if !(line_indent(b, lines[i], true).0 == 0 && lines[i].pad == 0) {
                seq![None]
            } else if sliceable(input, a, z) {
                seq![Some(b.subrange(a, z))]
            } else {
                Seq::empty()
            }) + top_texts(input, lines, nx, false, fuel)
        }),
        ({
            let b = sbytes(input);
            let (c, n) = fence_spec(b, plan_body(input, lines, i), lines[i].end as int).unwrap();
            let close = fence_close_at(b, lines, i + 1, c, (n as usize) as int);
            let nx = step(lines, i, if close < lines.len() { close + 1 } else { lines.len() as int });
            let (a, z) = fenced_body(b, lines, i, close);
            top_heads(input, lines, i, para, fuel) == (flushed_h(para) + if !(line_indent(b, lines[i], true).0 == 0 && lines[i].pad == 0) {
                seq![None]
            } else if sliceable(input, a, z) {
                seq![None]
            } else {
                Seq::empty()
            }) + top_heads(input, lines, nx, false, fuel)
        }),
{
    reveal(top_heads);
    reveal(top_texts);
    reveal(top_pool_plan);
    reveal(top_plan);
}

proof fn lemma_plan_html(input: &str, lines: Seq<Line>, i: int, para: bool, fuel: int)
    requires
        0 <= i < lines.len(),
        !all_ws(sbytes(input), lines[i].start as int, lines[i].end as int),
        plan_cols(input, lines, i) <= 3,
        plan_body(input, lines, i) < lines[i].end,
        sbytes(input)[plan_body(input, lines, i)] == 60u8,
        block_start_kind(sbytes(input).subrange(plan_body(input, lines, i), lines[i].end as int), para) is Some,
    ensures
        ({
            let b = sbytes(input);
            let k = block_start_kind(b.subrange(plan_body(input, lines, i), lines[i].end as int), para).unwrap();
            let nx = step(lines, i, html_block_end(b, lines, i, k));
            top_plan(input, lines, i, para, fuel) == (flushed(para) + if sliceable(
                input,
                lines[i].start as int,
                lines[nx - 1].end as int,
            ) {
                seq![BlockKind::Html]
            } else {
                Seq::empty()
            }) + top_plan(input, lines, nx, false, fuel)
        }),
        ({
            let b = sbytes(input);
            let k = block_start_kind(b.subrange(plan_body(input, lines, i), lines[i].end as int), para).unwrap();
            top_pool_plan(input, lines, i, para, fuel) == top_pool_plan(input, lines, step(lines, i, html_block_end(b, lines, i, k)), false, fuel)
        }),
        ({
            let b = sbytes(input);
            let k = block_start_kind(b.subrange(plan_body(input, lines, i), lines[i].end as int), para).unwrap();
            let nx = step(lines, i, html_block_end(b, lines, i, k));
            let (s, z) = (lines[i].start as int, lines[nx - 1].end as int);
            top_texts(input, lines, i, para, fuel) == (flushed_t(para) + if sliceable(input, s, z) {
                seq![Some(b.subrange(s, z))]
            } else {
                Seq::empty()
            }) + top_texts(input, lines, nx, false, fuel)
        }),
        ({
            let b = sbytes(input);
            let k = block_start_kind(b.subrange(plan_body(input, lines, i), lines[i].end as int), para).unwrap();
            let nx = step(lines, i, html_block_end(b, lines, i, k));
            let (s, z) = (lines[i].start as int, lines[nx - 1].end as int);
            top_heads(input, lines, i, para, fuel) == (flushed_h(para) + if sliceable(input, s, z) {
                seq![None]
            } else {
                Seq::empty()
            }) + top_heads(input, lines, nx, false, fuel)
        }),
{
    reveal(top_heads);
    reveal(top_texts);
    reveal(top_pool_plan);
    reveal(top_plan);
}

proof fn lemma_plan_setext(input: &str, lines: Seq<Line>, i: int, fuel: int)
    requires
        0 <= i < lines.len(),
        !all_ws(sbytes(input), lines[i].start as int, lines[i].end as int),
        plan_cols(input, lines, i) <= 3,
        !lines[i].lazy,
        setext_spec(sbytes(input), plan_body(input, lines, i), lines[i].end as int) is Some,
    ensures
        top_plan(input, lines, i, true, fuel) == seq![
            BlockKind::Heading(setext_spec(sbytes(input), plan_body(input, lines, i), lines[i].end as int).unwrap()),
        ] + top_plan(input, lines, i + 1, false, fuel),
        top_pool_plan(input, lines, i, true, fuel) == top_pool_plan(input, lines, i + 1, false, fuel),
        top_texts(input, lines, i, true, fuel) == seq![None] + top_texts(input, lines, i + 1, false, fuel),
        top_heads(input, lines, i, true, fuel) == seq![None] + top_heads(input, lines, i + 1, false, fuel),
{
    reveal(top_heads);
    reveal(top_texts);
    reveal(top_pool_plan);
    reveal(top_plan);
}

proof fn lemma_plan_rule(input: &str, lines: Seq<Line>, i: int, para: bool, fuel: int)
    requires
        0 <= i < lines.len(),
        !all_ws(sbytes(input), lines[i].start as int, lines[i].end as int),
        plan_cols(input, lines, i) <= 3,
        thematic_break(sbytes(input), plan_body(input, lines, i), lines[i].end as int),
        !(para && !lines[i].lazy && setext_spec(sbytes(input), plan_body(input, lines, i), lines[i].end as int) is Some),
    ensures
        top_plan(input, lines, i, para, fuel) == flushed(para) + seq![BlockKind::Rule] + top_plan(
            input,
            lines,
            i + 1,
            false,
            fuel,
        ),
        top_pool_plan(input, lines, i, para, fuel) == top_pool_plan(input, lines, i + 1, false, fuel),
        top_texts(input, lines, i, para, fuel) == flushed_t(para) + seq![None] + top_texts(input, lines, i + 1, false, fuel),
        top_heads(input, lines, i, para, fuel) == flushed_h(para) + seq![None] + top_heads(input, lines, i + 1, false, fuel),
{
    reveal(top_heads);
    reveal(top_texts);
    reveal(top_pool_plan);
    let b = sbytes(input);
    let body = plan_body(input, lines, i);
    let e = lines[i].end as int;
    let f = run_to(b, body, e, ws());
    if body < e {
        assert(is_ws(b[body]) || b[body] == b[f]);
    }
    reveal(top_plan);
}

proof fn lemma_plan_list(input: &str, lines: Seq<Line>, i: int, para: bool, fuel: int)
    requires
        0 <= i < lines.len(),
        !all_ws(sbytes(input), lines[i].start as int, lines[i].end as int),
        plan_cols(input, lines, i) <= 3,
        !lines[i].lazy,
        marker_spec(sbytes(input), plan_body(input, lines, i), lines[i].end as int) is Some,
        !para || interrupts(
            sbytes(input),
            marker_spec(sbytes(input), plan_body(input, lines, i), lines[i].end as int).unwrap(),
            plan_body(input, lines, i),
            lines[i].end as int,
        ),
        !thematic_break(sbytes(input), plan_body(input, lines, i), lines[i].end as int),
        !(para && setext_spec(sbytes(input), plan_body(input, lines, i), lines[i].end as int) is Some),
    ensures
        ({
            let b = sbytes(input);
            let (s, e) = (lines[i].start as int, lines[i].end as int);
            top_plan(input, lines, i, para, fuel) == if fuel > 0 {
                match marker_spec(b, run_to(b, s, e, is_byte(32u8)), e) {
                    Some(fm) => {
                        let scan = list_scan(b, lines, i, true, fm, false, true);
                        flushed(para) + seq![BlockKind::List(fm.ordered, !scan.1)] + top_plan(
                            input,
                            lines,
                            step(lines, i, scan.0),
                            false,
                            fuel,
                        )
                    },
                    None => flushed(para) + top_plan(input, lines, i + 1, false, fuel),
                }
            } else {
                flushed(para) + top_plan(input, lines, i + 1, false, fuel)
            }
        }),
        fuel > 0 ==> top_pool_plan(input, lines, i, para, fuel) is None,
        fuel <= 0 ==> top_pool_plan(input, lines, i, para, fuel) == top_pool_plan(input, lines, i + 1, false, fuel),
        ({
            let b = sbytes(input);
            let (s, e) = (lines[i].start as int, lines[i].end as int);
            top_texts(input, lines, i, para, fuel) == if fuel > 0 {
                match marker_spec(b, run_to(b, s, e, is_byte(32u8)), e) {
                    Some(fm) => flushed_t(para) + seq![None] + top_texts(
                        input,
                        lines,
                        step(lines, i, list_scan(b, lines, i, true, fm, false, true).0),
                        false,
                        fuel,
                    ),
                    None => flushed_t(para) + top_texts(input, lines, i + 1, false, fuel),
                }
            } else {
                flushed_t(para) + top_texts(input, lines, i + 1, false, fuel)
            }
        }),
        ({
            let b = sbytes(input);
            let (s, e) = (lines[i].start as int, lines[i].end as int);
            top_heads(input, lines, i, para, fuel) == if fuel > 0 {
                match marker_spec(b, run_to(b, s, e, is_byte(32u8)), e) {
                    Some(fm) => flushed_h(para) + seq![None] + top_heads(
                        input,
                        lines,
                        step(lines, i, list_scan(b, lines, i, true, fm, false, true).0),
                        false,
                        fuel,
                    ),
                    None => flushed_h(para) + top_heads(input, lines, i + 1, false, fuel),
                }
            } else {
                flushed_h(para) + top_heads(input, lines, i + 1, false, fuel)
            }
        }),
{
    reveal(top_heads);
    reveal(top_texts);
    reveal(top_pool_plan);
    reveal(top_plan);
}

/// A link reference definition at `start` depends on the bytes of the text
/// alone.
proof fn lemma_link_def_bytes(t1: &str, t2: &str, start: int)
    requires
        sbytes(t1) == sbytes(t2),
    ensures
        spec_link_def(t1, start) == spec_link_def(t2, start),
{
    assert forall|a: int, z: int| sliceable(t1, a, z) == sliceable(t2, a, z) by {}
    assert forall|a: int| link_title_part(t1, a) == link_title_part(t2, a) by {}
}

/// The bytes `s..e` of `input` hold a link reference definition at offset
/// `ind`.
spec fn line_def(input: &str, s: int, e: int, ind: int) -> bool {
    exists|t: &str| #[trigger] sbytes(t) == sbytes(input).subrange(s, e) && spec_link_def(t, ind) is Some
}

/// `x` followed by the kinds `r` describes, when it describes any.
pub open spec fn cat(x: Seq<BlockKind>, r: Option<Seq<BlockKind>>) -> Option<Seq<BlockKind>> {
    match r {
        Some(t) => Some(x + t),
        None => None,
    }
}

/// The kinds of the sections that the lines `lines[i..]` of a level inside a
/// container add to the section pool, in pool order (a blockquote, then the
/// sections of its content), when a paragraph is open (`para`) or not, and
/// containers open only while `fuel` is positive; the lines are tried as
/// `top_plan` says (a link reference definition being read from the line
/// alone), every code and HTML block is kept. `None` where this is not
/// described: at a list.
#[verifier::opaque]
pub closed spec fn nested_plan(input: &str, lines: Seq<Line>, i: int, para: bool, fuel: int) -> Option<Seq<BlockKind>>
    decreases fuel, lines.len() - i,
{
    let b = sbytes(input);
    if i < 0 || i >= lines.len() {
        Some(flushed(para))
    } else {
        let l = lines[i];
        let (s, e) = (l.start as int, l.end as int);
        let (ind, cols) = line_indent(b, l, false);
        let body = s + ind;
        if all_ws(b, s, e) {
            cat(flushed(para), nested_plan(input, lines, i + 1, false, fuel))
        } else if cols >= 4 && !para {
            cat(
                seq![BlockKind::Code],
                nested_plan(input, lines, step(lines, i, code_run_end(b, lines, i, i, false)), false, fuel),
            )
        } else if !para && cols <= 3 && body < e && b[body] == 91u8 {
            if sliceable(input, s, e) && line_def(input, s, e, ind) {
                nested_plan(input, lines, i + 1, false, fuel)
            } else {
                nested_plan(input, lines, i + 1, true, fuel)
            }
        } else if cols <= 3 && body < e && b[body] == 62u8 {
            if fuel > 0 {
                match nested_plan(input, quote_lines(b, lines, i, i, false), 0, false, fuel - 1) {
                    Some(ks) => cat(
                        flushed(para) + seq![BlockKind::Quote] + ks,
                        nested_plan(input, lines, step(lines, i, quote_end(b, lines, i, i, false)), false, fuel),
                    ),
                    None => None,
                }
            } else {
                cat(flushed(para), nested_plan(input, lines, i + 1, false, fuel))
            }
        } else if cols <= 3 && body < e && b[body] == 35u8 && atx_spec(b, body, e) is Some {
            cat(
                flushed(para) + seq![BlockKind::Heading(atx_spec(b, body, e).unwrap().0)],
                nested_plan(input, lines, i + 1, false, fuel),
            )
        } else if cols <= 3 && fence_spec(b, body, e) is Some {
            let (c, n) = fence_spec(b, body, e).unwrap();
            let close = fence_close_at(b, lines, i + 1, c, (n as usize) as int);
            let nx = step(lines, i, if close < lines.len() { close + 1 } else { lines.len() as int });
            cat(flushed(para) + seq![BlockKind::Code], nested_plan(input, lines, nx, false, fuel))
        } else if cols <= 3 && body < e && b[body] == 60u8 && block_start_kind(b.subrange(body, e), para) is Some {
            let k = block_start_kind(b.subrange(body, e), para).unwrap();
            cat(
                flushed(para) + seq![BlockKind::Html],
                nested_plan(input, lines, step(lines, i, html_block_end(b, lines, i, k)), false, fuel),
            )
        } else if cols <= 3 && para && !l.lazy && setext_spec(b, body, e) is Some {
            cat(seq![BlockKind::Heading(setext_spec(b, body, e).unwrap())], nested_plan(input, lines, i + 1, false, fuel))
        } else if cols <= 3 && thematic_break(b, body, e) {
            cat(flushed(para) + seq![BlockKind::Rule], nested_plan(input, lines, i + 1, false, fuel))
        } else if cols <= 3 && !l.lazy && marker_spec(b, body, e) is Some && (!para || interrupts(
            b,
            marker_spec(b, body, e).unwrap(),
            body,
            e,
        )) {
            None
        } else {
            nested_plan(input, lines, i + 1, true, fuel)
        }
    }
}

spec fn nbody(input: &str, lines: Seq<Line>, i: int) -> int {
    lines[i].start + line_indent(sbytes(input), lines[i], false).0
}

spec fn ncols(input: &str, lines: Seq<Line>, i: int) -> int {
    line_indent(sbytes(input), lines[i], false).1
}

/// Line `i` of a nested level may start a link reference definition.
spec fn ndef_start(input: &str, lines: Seq<Line>, i: int, para: bool) -> bool {
    let b = sbytes(input);
    !para && ncols(input, lines, i) <= 3 && nbody(input, lines, i) < lines[i].end && b[nbody(input, lines, i)] == 91u8
}

/// The paragraph-text case of `nested_plan`.
spec fn nested_text_line(input: &str, lines: Seq<Line>, i: int, para: bool) -> bool {
    let b = sbytes(input);
    let l = lines[i];
    let (s, e) = (l.start as int, l.end as int);
    let cols = ncols(input, lines, i);
    let body = nbody(input, lines, i);
    &&& !all_ws(b, s, e)
    &&& !(cols >= 4 && !para)
    &&& !ndef_start(input, lines, i, para)
    &&& !(cols <= 3 && body < e && b[body] == 62u8)
    &&& !(cols <= 3 && body < e && b[body] == 35u8 && atx_spec(b, body, e) is Some)
    &&& !(cols <= 3 && fence_spec(b, body, e) is Some)
    &&& !(cols <= 3 && body < e && b[body] == 60u8 && block_start_kind(b.subrange(body, e), para) is Some)
    &&& !(cols <= 3 && para && !l.lazy && setext_spec(b, body, e) is Some)
    &&& !(cols <= 3 && thematic_break(b, body, e))
    &&& !(cols <= 3 && !l.lazy && marker_spec(b, body, e) is Some && (!para || interrupts(
        b,
        marker_spec(b, body, e).unwrap(),
        body,
        e,
    )))
}

proof fn lemma_nplan_end(input: &str, lines: Seq<Line>, i: int, para: bool, fuel: int)
    requires
        i >= lines.len(),
    ensures
        nested_plan(input, lines, i, para, fuel) == Some(flushed(para)),
{
    reveal(nested_plan);
}

proof fn lemma_nplan_blank(input: &str, lines: Seq<Line>, i: int, para: bool, fuel: int)
    requires
        0 <= i < lines.len(),
        all_ws(sbytes(input), lines[i].start as int, lines[i].end as int),
    ensures
        nested_plan(input, lines, i, para, fuel) == cat(flushed(para), nested_plan(input, lines, i + 1, false, fuel)),
{
    reveal(nested_plan);
}

proof fn lemma_nplan_text(input: &str, lines: Seq<Line>, i: int, para: bool, fuel: int)
    requires
        0 <= i < lines.len(),
        nested_text_line(input, lines, i, para),
    ensures
        nested_plan(input, lines, i, para, fuel) == nested_plan(input, lines, i + 1, true, fuel),
{
    reveal(nested_plan);
}

proof fn lemma_nplan_def(input: &str, lines: Seq<Line>, i: int, fuel: int)
    requires
        0 <= i < lines.len(),
        !all_ws(sbytes(input), lines[i].start as int, lines[i].end as int),
        ndef_start(input, lines, i, false),
    ensures
        ({
            let (s, e) = (lines[i].start as int, lines[i].end as int);
            nested_plan(input, lines, i, false, fuel) == if sliceable(input, s, e) && line_def(
                input,
                s,
                e,
                nbody(input, lines, i) - s,
            ) {
                nested_plan(input, lines, i + 1, false, fuel)
            } else {
                nested_plan(input, lines, i + 1, true, fuel)
            }
        }),
{
    reveal(nested_plan);
}

proof fn lemma_nplan_none(input: &str, lines: Seq<Line>, i: int, para: bool, fuel: int)
    requires
        0 <= i < lines.len(),
        !all_ws(sbytes(input), lines[i].start as int, lines[i].end as int),
        ncols(input, lines, i) <= 3,
        ({
            let b = sbytes(input);
            let (body, e) = (nbody(input, lines, i), lines[i].end as int);
            &&& !lines[i].lazy
            &&& marker_spec(b, body, e) is Some
            &&& !para || interrupts(b, marker_spec(b, body, e).unwrap(), body, e)
            &&& !thematic_break(b, body, e)
            &&& !(para && setext_spec(b, body, e) is Some)
        }),
    ensures
        nested_plan(input, lines, i, para, fuel) is None,
{
    reveal(nested_plan);
}

proof fn lemma_nplan_code(input: &str, lines: Seq<Line>, i: int, fuel: int)
    requires
        0 <= i < lines.len(),
        !all_ws(sbytes(input), lines[i].start as int, lines[i].end as int),
        ncols(input, lines, i) >= 4,
    ensures
        nested_plan(input, lines, i, false, fuel) == cat(
            seq![BlockKind::Code],
            nested_plan(input, lines, step(lines, i, code_run_end(sbytes(input), lines, i, i, false)), false, fuel),
        ),
{
    reveal(nested_plan);
}

proof fn lemma_nplan_quote(input: &str, lines: Seq<Line>, i: int, para: bool, fuel: int)
    requires
        0 <= i < lines.len(),
        !all_ws(sbytes(input), lines[i].start as int, lines[i].end as int),
        ncols(input, lines, i) <= 3,
        nbody(input, lines, i) < lines[i].end,
        sbytes(input)[nbody(input, lines, i)] == 62u8,
    ensures
        fuel > 0 ==> nested_plan(input, lines, i, para, fuel) == match nested_plan(
            input,
            quote_lines(sbytes(input), lines, i, i, false),
            0,
            false,
            fuel - 1,
        ) {
            Some(ks) => cat(
                flushed(para) + seq![BlockKind::Quote] + ks,
                nested_plan(input, lines, step(lines, i, quote_end(sbytes(input), lines, i, i, false)), false, fuel),
            ),
            None => None,
        },
        fuel <= 0 ==> nested_plan(input, lines, i, para, fuel) == cat(
            flushed(para),
            nested_plan(input, lines, i + 1, false, fuel),
        ),
{
    reveal(nested_plan);
}

proof fn lemma_nplan_atx(input: &str, lines: Seq<Line>, i: int, para: bool, fuel: int)
    requires
        0 <= i < lines.len(),
        !all_ws(sbytes(input), lines[i].start as int, lines[i].end as int),
        ncols(input, lines, i) <= 3,
        nbody(input, lines, i) < lines[i].end,
        sbytes(input)[nbody(input, lines, i)] == 35u8,
        atx_spec(sbytes(input), nbody(input, lines, i), lines[i].end as int) is Some,
    ensures
        nested_plan(input, lines, i, para, fuel) == cat(
            flushed(para) + seq![
                BlockKind::Heading(atx_spec(sbytes(input), nbody(input, lines, i), lines[i].end as int).unwrap().0),
            ],
            nested_plan(input, lines, i + 1, false, fuel),
        ),
{
    reveal(nested_plan);
}

proof fn lemma_nplan_fence(input: &str, lines: Seq<Line>, i: int, para: bool, fuel: int)
    requires
        0 <= i < lines.len(),
        !all_ws(sbytes(input), lines[i].start as int, lines[i].end as int),
        ncols(input, lines, i) <= 3,
        fence_spec(sbytes(input), nbody(input, lines, i), lines[i].end as int) is Some,
    ensures
        ({
            let b = sbytes(input);
            let (c, n) = fence_spec(b, nbody(input, lines, i), lines[i].end as int).unwrap();
            let close = fence_close_at(b, lines, i + 1, c, (n as usize) as int);
            let nx = step(lines, i, if close < lines.len() { close + 1 } else { lines.len() as int });
            nested_plan(input, lines, i, para, fuel) == cat(
                flushed(para) + seq![BlockKind::Code],
                nested_plan(input, lines, nx, false, fuel),
            )
        }),
{
    reveal(nested_plan);
}

proof fn lemma_nplan_html(input: &str, lines: Seq<Line>, i: int, para: bool, fuel: int)
    requires
        0 <= i < lines.len(),
        !all_ws(sbytes(input), lines[i].start as int, lines[i].end as int),
        ncols(input, lines, i) <= 3,
        nbody(input, lines, i) < lines[i].end,
        sbytes(input)[nbody(input, lines, i)] == 60u8,
        block_start_kind(sbytes(input).subrange(nbody(input, lines, i), lines[i].end as int), para) is Some,
    ensures
        ({
            let b = sbytes(input);
            let k = block_start_kind(b.subrange(nbody(input, lines, i), lines[i].end as int), para).unwrap();
            nested_plan(input, lines, i, para, fuel) == cat(
                flushed(para) + seq![BlockKind::Html],
                nested_plan(input, lines, step(lines, i, html_block_end(b, lines, i, k)), false, fuel),
            )
        }),
{
    reveal(nested_plan);
}

proof fn lemma_nplan_setext(input: &str, lines: Seq<Line>, i: int, fuel: int)
    requires
        0 <= i < lines.len(),
        !all_ws(sbytes(input), lines[i].start as int, lines[i].end as int),
        ncols(input, lines, i) <= 3,
        !lines[i].lazy,
        setext_spec(sbytes(input), nbody(input, lines, i), lines[i].end as int) is Some,
    ensures
        nested_plan(input, lines, i, true, fuel) == cat(
            seq![BlockKind::Heading(setext_spec(sbytes(input), nbody(input, lines, i), lines[i].end as int).unwrap())],
            nested_plan(input, lines, i + 1, false, fuel),
        ),
{
    reveal(nested_plan);
}

proof fn lemma_nplan_rule(input: &str, lines: Seq<Line>, i: int, para: bool, fuel: int)
    requires
        0 <= i < lines.len(),
        !all_ws(sbytes(input), lines[i].start as int, lines[i].end as int),
        ncols(input, lines, i) <= 3,
        thematic_break(sbytes(input), nbody(input, lines, i), lines[i].end as int),
        !(para && !lines[i].lazy && setext_spec(sbytes(input), nbody(input, lines, i), lines[i].end as int) is Some),
    ensures
        nested_plan(input, lines, i, para, fuel) == cat(
            flushed(para) + seq![BlockKind::Rule],
            nested_plan(input, lines, i + 1, false, fuel),
        ),
{
    let b = sbytes(input);
    let body = nbody(input, lines, i);
    let e = lines[i].end as int;
    let f = run_to(b, body, e, ws());
    if body < e {
        assert(is_ws(b[body]) || b[body] == b[f]);
    }
    reveal(nested_plan);
}

/// One step at a nested level: the pool grew by sections of the kinds `x`,
/// and what the plan says of the lines from here is `x` then the rest.
#[verifier::opaque]
spec fn nested_step(before: Seq<Section>, after: Seq<Section>, cur: Option<Seq<BlockKind>>, nxt: Option<Seq<BlockKind>>) -> bool {
    cur matches Some(ks) ==> nxt matches Some(ks2) && ks == kinds(after.subrange(before.len() as int, after.len() as int))
        + ks2
}

proof fn lemma_nested_none(before: Seq<Section>, after: Seq<Section>, nxt: Option<Seq<BlockKind>>)
    ensures
        nested_step(before, after, None, nxt),
{
    reveal(nested_step);
}

proof fn lemma_nested_refl(x: Seq<Section>, c: Option<Seq<BlockKind>>)
    ensures
        nested_step(x, x, c, c),
{
    reveal(nested_step);
    reveal(kinds);
    assert(kinds(x.subrange(x.len() as int, x.len() as int)) =~= Seq::<BlockKind>::empty());
    if let Some(ks) = c {
        assert(Seq::<BlockKind>::empty() + ks =~= ks);
    }
}

/// The kinds of a pool segment split at `p1.len()`, the pool having kept
/// `p1`.
proof fn lemma_kinds_split(p1: Seq<Section>, p2: Seq<Section>, n0: int)
    requires
        kept(p1, p2),
        0 <= n0 <= p1.len(),
    ensures
        kinds(p2.subrange(n0, p2.len() as int)) == kinds(p1.subrange(n0, p1.len() as int)) + kinds(
            p2.subrange(p1.len() as int, p2.len() as int),
        ),
{
    reveal(kinds);
    let (n1, n2) = (p1.len() as int, p2.len() as int);
    assert(p2.subrange(n0, n1) =~= p1.subrange(n0, n1));
    assert(p2.subrange(n0, n2) =~= p2.subrange(n0, n1) + p2.subrange(n1, n2));
    assert(kinds(p2.subrange(n0, n2)) =~= kinds(p2.subrange(n0, n1)) + kinds(p2.subrange(n1, n2)));
}

proof fn lemma_nested_trans(p0: Seq<Section>, p1: Seq<Section>, p2: Seq<Section>, c0: Option<Seq<BlockKind>>, c1: Option<Seq<BlockKind>>, c2: Option<Seq<BlockKind>>)
    requires
        nested_step(p0, p1, c0, c1),
        nested_step(p1, p2, c1, c2),
        kept(p0, p1),
        kept(p1, p2),
    ensures
        nested_step(p0, p2, c0, c2),
{
    reveal(nested_step);
    lemma_kinds_split(p1, p2, p0.len() as int);
    if let Some(ks) = c0 {
        let ks1 = c1.unwrap();
        let ks2 = c2.unwrap();
        let (x, y) = (kinds(p1.subrange(p0.len() as int, p1.len() as int)), kinds(p2.subrange(p1.len() as int, p2.len() as int)));
        assert(ks == x + ks1);
        assert(ks1 == y + ks2);
        assert(x + (y + ks2) =~= (x + y) + ks2);
    }
}

proof fn lemma_nested_finish(p0: Seq<Section>, p1: Seq<Section>, p2: Seq<Section>, c0: Option<Seq<BlockKind>>, f: Seq<BlockKind>)
    requires
        nested_step(p0, p1, c0, Some(f)),
        appended(p1, p2, f),
        kept(p0, p1),
    ensures
        c0 matches Some(ks) ==> appended(p0, p2, ks),
{
    reveal(nested_step);
    reveal(appended);
    lemma_kinds_split(p1, p2, p0.len() as int);
}

proof fn lemma_nested_step(before: Seq<Section>, after: Seq<Section>, x: Seq<BlockKind>, cur: Option<Seq<BlockKind>>, nxt: Option<Seq<BlockKind>>)
    requires
        appended(before, after, x),
        cur == cat(x, nxt),
    ensures
        nested_step(before, after, cur, nxt),
{
    reveal(appended);
    reveal(nested_step);
}

/// Take the line `lines[i]` at the current level: emit what it ends or
/// makes (the top-level list when `top`, otherwise the section pool) or add
/// it to the open paragraph `para`. Returns the index of the next line.
#[verifier::rlimit(100)]
#[verifier::spinoff_prover]
fn resolve_line<'src>(
    p: &InlineParser<'src, '_>,
    o: &mut Out<'src>,
    lines: &Vec<Line>,
    i: usize,
    para: &mut Vec<Line>,
    top: bool,
    collect: bool,
    fuel: usize,
) -> (next: usize)
    requires
        p.ok(),
        old(o).wf(p.input),
        lines_in(lines@, p.bytes@.len() as int),
        lines_in(old(para)@, p.bytes@.len() as int),
        i < lines@.len(),
    ensures
        final(o).wf(p.input),
        old(o).grown(final(o)),
        i < next <= lines@.len(),
        lines_in(final(para)@, p.bytes@.len() as int),
        !top ==> final(o).top == old(o).top,
        kept(old(o).b.sections@, final(o).b.sections@),
        defs_grow(old(o).defs.entries@, final(o).defs.entries@),
        pre(old(o).top@, final(o).top@),
        top && !collect ==> heads_step(
            p.input,
            final(o).b.inlines@,
            final(o).top@,
            old(o).top@.len() as int,
            top_heads(p.input, lines@, i as int, old(para)@.len() > 0, fuel as int),
            top_heads(p.input, lines@, next as int, final(para)@.len() > 0, fuel as int),
        ),
        top ==> kinds(final(o).top@) + top_plan(p.input, lines@, next as int, final(para)@.len() > 0, fuel as int)
            == kinds(old(o).top@) + top_plan(p.input, lines@, i as int, old(para)@.len() > 0, fuel as int),
        top ==> texts(final(o).top@) + top_texts(p.input, lines@, next as int, final(para)@.len() > 0, fuel as int)
            == texts(old(o).top@) + top_texts(p.input, lines@, i as int, old(para)@.len() > 0, fuel as int),
        all_ws(p.bytes@, lines@[i as int].start as int, lines@[i as int].end as int) && old(para)@.len() == 0
            ==> *final(o) == *old(o) && final(para)@.len() == 0,
        !top && final(o).b.sections@.len() < u32::MAX ==> nested_step(
            old(o).b.sections@,
            final(o).b.sections@,
            nested_plan(p.input, lines@, i as int, old(para)@.len() > 0, fuel as int),
            nested_plan(p.input, lines@, next as int, final(para)@.len() > 0, fuel as int),
        ),
        top && final(o).b.sections@.len() < u32::MAX ==> nested_step(
            old(o).b.sections@,
            final(o).b.sections@,
            top_pool_plan(p.input, lines@, i as int, old(para)@.len() > 0, fuel as int),
            top_pool_plan(p.input, lines@, next as int, final(para)@.len() > 0, fuel as int),
        ),
    decreases fuel, 1int,
{
    let bytes = p.bytes;
    let n = lines.len();
    let mut i = i;
    let line = lines[i];
    let (s, e) = (line.start, line.end);
    let ghost t0 = o.top@;
    let ghost ii = i as int;
    let ghost k0 = kinds(t0);
    let ghost x0 = texts(t0);
    let ghost pl = para@.len() > 0;
    let ghost here = top_plan(p.input, lines@, i as int, pl, fuel as int);
    let ghost there = top_texts(p.input, lines@, i as int, pl, fuel as int);
    let ghost hthere = top_heads(p.input, lines@, i as int, pl, fuel as int);
    let ghost q0 = o.b.sections@;
    let ghost nhere = nested_plan(p.input, lines@, i as int, pl, fuel as int);
    let ghost phere = top_pool_plan(p.input, lines@, i as int, pl, fuel as int);
    proof {
        lemma_defs_refl(o.defs.entries@);
    }
    if is_blank_range(bytes, s, e) {
        flush_para(p, o, para, top, collect);
        i = i + 1;
        proof {
            if top {
                let rest = top_plan(p.input, lines@, i as int, false, fuel as int);
                lemma_plan_blank(p.input, lines@, ii, pl, fuel as int);
                lemma_advance(kinds(o.top@), kinds(o.top@), k0, flushed(pl), Seq::empty(), rest, here);
                lemma_advance(texts(o.top@), texts(o.top@), x0, flushed_t(pl), Seq::empty(), top_texts(p.input, lines@, i as int, false, fuel as int), there);
                lemma_heads_none(p.input, o.b.inlines@, o.top@, t0.len() as int, hthere, flushed_h(pl), Seq::empty(), top_heads(p.input, lines@, i as int, false, fuel as int));
                lemma_nested_refl(q0, phere);
            } else if o.b.sections@.len() < u32::MAX {
                lemma_nplan_blank(p.input, lines@, ii, pl, fuel as int);
                lemma_nested_step(q0, o.b.sections@, flushed(pl), nhere, nested_plan(p.input, lines@, i as int, false, fuel as int));
            }
        }
        return i;
    }
    let (ind, cols) = leading_indent(bytes, line, top);
    if cols >= 4 && para.len() == 0 {
        let ghost i0 = i;
        i = indented_code(p, o, lines, i, top);
        proof {
            if top {
                let rest = top_plan(p.input, lines@, i as int, false, fuel as int);
                lemma_plan_code(p.input, lines@, ii, fuel as int);
                lemma_nested_refl(q0, phere);
                if sliceable(p.input, s as int, lines@[i - 1].end as int) {
                    lemma_pushed(t0, o.top@);
                    lemma_advance(kinds(o.top@), k0, k0, Seq::empty(), seq![BlockKind::Code], rest, here);
                    lemma_advance(texts(o.top@), x0, x0, Seq::empty(), seq![Some(bytes@.subrange(s as int, lines@[i - 1].end as int))], top_texts(p.input, lines@, i as int, false, fuel as int), there);
                    lemma_heads_none(p.input, o.b.inlines@, o.top@, t0.len() as int, hthere, Seq::empty(), seq![None], top_heads(p.input, lines@, i as int, false, fuel as int));
                } else {
                    lemma_advance(kinds(o.top@), k0, k0, Seq::empty(), Seq::empty(), rest, here);
                    lemma_advance(texts(o.top@), x0, x0, Seq::empty(), Seq::empty(), top_texts(p.input, lines@, i as int, false, fuel as int), there);
                    lemma_heads_none(p.input, o.b.inlines@, o.top@, t0.len() as int, hthere, Seq::empty(), Seq::empty(), top_heads(p.input, lines@, i as int, false, fuel as int));
                }
            } else if o.b.sections@.len() < u32::MAX {
                lemma_nplan_code(p.input, lines@, ii, fuel as int);
                lemma_nested_step(q0, o.b.sections@, seq![BlockKind::Code], nhere, nested_plan(p.input, lines@, i as int, false, fuel as int));
            }
        }
        return i;
    }
    let body = s + ind;
    // Link reference definition (only where no paragraph is open).
    if para.len() == 0 && cols <= 3 && body < e && bytes[body] == 91u8 {
        if top {
            proof {
                lemma_borrowed_refl(p.input);
            }
            if let Some(resume) = record_def(p, o, p.input, body, collect) {
                let mut j = i + 1;
                while j < n && lines[j].start < resume
                    invariant
                        i < j <= n,
                        n == lines@.len(),
                        skip_before(lines@, j as int, resume as int) == skip_before(
                            lines@,
                            i + 1,
                            resume as int,
                        ),
                    decreases n - j,
                {
                    j = j + 1;
                }
                i = j;
                proof {
                    lemma_plan_def(p.input, lines@, ii, fuel as int);
                    lemma_nested_refl(q0, phere);
                    let rest = top_plan(p.input, lines@, i as int, false, fuel as int);
                    lemma_advance(kinds(o.top@), k0, k0, Seq::empty(), Seq::empty(), rest, here);
                    lemma_advance(texts(o.top@), x0, x0, Seq::empty(), Seq::empty(), top_texts(p.input, lines@, i as int, false, fuel as int), there);
                    lemma_heads_none(p.input, o.b.inlines@, o.top@, t0.len() as int, hthere, Seq::empty(), Seq::empty(), top_heads(p.input, lines@, i as int, false, fuel as int));
                }
                return i;
            }
        } else if let Some(line_str) = slice_of(p, s, e) {
            if record_def(p, o, line_str, ind, collect).is_some() {
                i = i + 1;
                proof {
                    assert(sbytes(line_str) == sbytes(p.input).subrange(s as int, e as int) && spec_link_def(line_str, ind as int) is Some);
                    assert(line_def(p.input, s as int, e as int, ind as int));
                    lemma_nplan_def(p.input, lines@, ii, fuel as int);
                    lemma_nested_refl(q0, nhere);
                }
                return i;
            }
            proof {
                assert forall|t: &str| #[trigger] sbytes(t) == sbytes(p.input).subrange(s as int, e as int) implies !(spec_link_def(t, ind as int) is Some) by {
                    lemma_link_def_bytes(t, line_str, ind as int);
                }
                assert(!line_def(p.input, s as int, e as int, ind as int));
            }
        }
    }
    let r = resolve_start(p, o, lines, i, para, top, collect, fuel, ind, cols);
    r
}

/// Take a line of `lines` at the current level that is not blank, not
/// indented code and not a link reference definition: a block start, or
/// paragraph text (see `resolve_line`). `ind` and `cols` are its
/// indentation in bytes and columns.
#[verifier::rlimit(100)]
#[verifier::spinoff_prover]
fn resolve_start<'src>(
    p: &InlineParser<'src, '_>,
    o: &mut Out<'src>,
    lines: &Vec<Line>,
    i: usize,
    para: &mut Vec<Line>,
    top: bool,
    collect: bool,
    fuel: usize,
    ind: usize,
    cols: usize,
) -> (next: usize)
    requires
        p.ok(),
        old(o).wf(p.input),
        lines_in(lines@, p.bytes@.len() as int),
        lines_in(old(para)@, p.bytes@.len() as int),
        i < lines@.len(),
        !all_ws(p.bytes@, lines@[i as int].start as int, lines@[i as int].end as int),
        (ind as int, cols as int) == line_indent(p.bytes@, lines@[i as int], top),
        lines@[i as int].start + ind <= lines@[i as int].end,
        !(cols >= 4 && old(para)@.len() == 0),
        top && old(para)@.len() == 0 && cols <= 3 && lines@[i as int].start + ind < lines@[i as int].end
            && p.bytes@[lines@[i as int].start + ind] == 91u8 ==> spec_link_def(
            p.input,
            lines@[i as int].start + ind,
        ) is None,
        !top && ndef_start(p.input, lines@, i as int, old(para)@.len() > 0) ==> !(sliceable(
            p.input,
            lines@[i as int].start as int,
            lines@[i as int].end as int,
        ) && line_def(p.input, lines@[i as int].start as int, lines@[i as int].end as int, ind as int)),
    ensures
        final(o).wf(p.input),
        old(o).grown(final(o)),
        i < next <= lines@.len(),
        lines_in(final(para)@, p.bytes@.len() as int),
        !top ==> final(o).top == old(o).top,
        kept(old(o).b.sections@, final(o).b.sections@),
        defs_grow(old(o).defs.entries@, final(o).defs.entries@),
        pre(old(o).top@, final(o).top@),
        top && !collect ==> heads_step(
            p.input,
            final(o).b.inlines@,
            final(o).top@,
            old(o).top@.len() as int,
            top_heads(p.input, lines@, i as int, old(para)@.len() > 0, fuel as int),
            top_heads(p.input, lines@, next as int, final(para)@.len() > 0, fuel as int),
        ),
        top ==> kinds(final(o).top@) + top_plan(p.input, lines@, next as int, final(para)@.len() > 0, fuel as int)
            == kinds(old(o).top@) + top_plan(p.input, lines@, i as int, old(para)@.len() > 0, fuel as int),
        top ==> texts(final(o).top@) + top_texts(p.input, lines@, next as int, final(para)@.len() > 0, fuel as int)
            == texts(old(o).top@) + top_texts(p.input, lines@, i as int, old(para)@.len() > 0, fuel as int),
        all_ws(p.bytes@, lines@[i as int].start as int, lines@[i as int].end as int) && old(para)@.len() == 0
            ==> *final(o) == *old(o) && final(para)@.len() == 0,
        !top && final(o).b.sections@.len() < u32::MAX ==> nested_step(
            old(o).b.sections@,
            final(o).b.sections@,
            nested_plan(p.input, lines@, i as int, old(para)@.len() > 0, fuel as int),
            nested_plan(p.input, lines@, next as int, final(para)@.len() > 0, fuel as int),
        ),
        top && final(o).b.sections@.len() < u32::MAX ==> nested_step(
            old(o).b.sections@,
            final(o).b.sections@,
            top_pool_plan(p.input, lines@, i as int, old(para)@.len() > 0, fuel as int),
            top_pool_plan(p.input, lines@, next as int, final(para)@.len() > 0, fuel as int),
        ),
    decreases fuel, 0int,
{
    let bytes = p.bytes;
    let n = lines.len();
    let mut i = i;
    let line = lines[i];
    let (s, e) = (line.start, line.end);
    let ghost t0 = o.top@;
    let ghost ii = i as int;
    let ghost k0 = kinds(t0);
    let ghost x0 = texts(t0);
    let ghost pl = para@.len() > 0;
    let ghost here = top_plan(p.input, lines@, i as int, pl, fuel as int);
    let ghost there = top_texts(p.input, lines@, i as int, pl, fuel as int);
    let ghost hthere = top_heads(p.input, lines@, i as int, pl, fuel as int);
    let ghost q0 = o.b.sections@;
    let ghost nhere = nested_plan(p.input, lines@, i as int, pl, fuel as int);
    let ghost phere = top_pool_plan(p.input, lines@, i as int, pl, fuel as int);
    proof {
        lemma_defs_refl(o.defs.entries@);
    }
    let body = s + ind;
    if cols <= 3 {
        // Blockquote.
        if body < e && bytes[body] == 62u8 {
            flush_para(p, o, para, top, collect);
            let ghost t1 = o.top@;
            let ghost q1 = o.b.sections@;
            if fuel > 0 {
                i = blockquote(p, o, lines, i, top, collect, fuel - 1);
                proof {
                    if top {
                        let rest = top_plan(p.input, lines@, i as int, false, fuel as int);
                        lemma_pushed(t1, o.top@);
                        lemma_plan_quote(p.input, lines@, ii, pl, fuel as int);
                        lemma_advance(kinds(o.top@), kinds(t1), k0, flushed(pl), seq![BlockKind::Quote], rest, here);
                        lemma_advance(texts(o.top@), texts(t1), x0, flushed_t(pl), seq![None], top_texts(p.input, lines@, i as int, false, fuel as int), there);
                        lemma_heads_none(p.input, o.b.inlines@, o.top@, t0.len() as int, hthere, flushed_h(pl), seq![None], top_heads(p.input, lines@, i as int, false, fuel as int));
                        let inner = nested_plan(p.input, quote_lines_top(p.input, bytes@, lines@, ii, false, None), 0, false, fuel - 1);
                        let pnext = top_pool_plan(p.input, lines@, i as int, false, fuel as int);
                        if let Some(ks) = inner {
                            if o.b.sections@.len() < u32::MAX {
                                lemma_nested_step(q0, o.b.sections@, ks, phere, pnext);
                            }
                        } else {
                            lemma_nested_none(q0, o.b.sections@, pnext);
                        }
                    } else if o.b.sections@.len() < u32::MAX {
                        lemma_nplan_quote(p.input, lines@, ii, pl, fuel as int);
                        let inner = nested_plan(p.input, quote_lines(bytes@, lines@, ii, ii, false), 0, false, fuel - 1);
                        let nxt = nested_plan(p.input, lines@, i as int, false, fuel as int);
                        if let Some(ks) = inner {
                            lemma_appended_trans(q0, q1, o.b.sections@, flushed(pl), seq![BlockKind::Quote] + ks);
                            assert(flushed(pl) + (seq![BlockKind::Quote] + ks) =~= flushed(pl) + seq![BlockKind::Quote] + ks);
                            lemma_nested_step(q0, o.b.sections@, flushed(pl) + seq![BlockKind::Quote] + ks, nhere, nxt);
                        } else {
                            lemma_nested_none(q0, o.b.sections@, nxt);
                        }
                    }
                }
            } else {
                i = i + 1;
                proof {
                    if top {
                        let rest = top_plan(p.input, lines@, i as int, false, fuel as int);
                        lemma_plan_quote(p.input, lines@, ii, pl, fuel as int);
                        lemma_advance(kinds(o.top@), kinds(t1), k0, flushed(pl), Seq::empty(), rest, here);
                        lemma_advance(texts(o.top@), texts(t1), x0, flushed_t(pl), Seq::empty(), top_texts(p.input, lines@, i as int, false, fuel as int), there);
                        lemma_heads_none(p.input, o.b.inlines@, o.top@, t0.len() as int, hthere, flushed_h(pl), Seq::empty(), top_heads(p.input, lines@, i as int, false, fuel as int));
                        lemma_nested_refl(q0, phere);
                    } else if o.b.sections@.len() < u32::MAX {
                        lemma_nplan_quote(p.input, lines@, ii, pl, fuel as int);
                        lemma_nested_step(q0, o.b.sections@, flushed(pl), nhere, nested_plan(p.input, lines@, i as int, false, fuel as int));
                    }
                }
            }
            return i;
        }
        // ATX heading.
        if body < e && bytes[body] == 35u8 {
            if let Some((level, a, z)) = atx_heading(bytes, body, e) {
                flush_para(p, o, para, top, collect);
                let ghost pool_b = o.b.inlines@;
                let content = heading_span(p, o, a, z, collect);
                let ghost t1 = o.top@;
                let ghost q1 = o.b.sections@;
                o.emit(top, Section::Heading { level, content }, Ghost(p.input));
                i = i + 1;
                proof {
                    if top {
                        let rest = top_plan(p.input, lines@, i as int, false, fuel as int);
                        lemma_kinds_push(t1, Section::Heading { level, content });
                        lemma_texts_push(t1, Section::Heading { level, content });
                        lemma_plan_atx(p.input, lines@, ii, pl, fuel as int);
                        lemma_nested_refl(q0, phere);
                        lemma_advance(kinds(o.top@), kinds(t1), k0, flushed(pl), seq![BlockKind::Heading(level)], rest, here);
                        lemma_advance(texts(o.top@), texts(t1), x0, flushed_t(pl), seq![None], top_texts(p.input, lines@, i as int, false, fuel as int), there);
                        if !collect {
                            lemma_atx_heads(p.input, lines@, ii, pl, fuel as int, pool_b, o.b.inlines@, t0, t1, o.top@, level, content, ind as int, body as int, a as int, z as int);
                        }
                    } else if o.b.sections@.len() < u32::MAX {
                        lemma_nplan_atx(p.input, lines@, ii, pl, fuel as int);
                        lemma_appended_push(q1, Section::Heading { level, content });
                        lemma_appended_trans(q0, q1, o.b.sections@, flushed(pl), seq![BlockKind::Heading(level)]);
                        lemma_nested_step(q0, o.b.sections@, flushed(pl) + seq![BlockKind::Heading(level)], nhere, nested_plan(p.input, lines@, i as int, false, fuel as int));
                    }
                }
                return i;
            }
        }
        // Fenced code block.
        if let Some((fc, flen)) = fence_open(bytes, body, e) {
            flush_para(p, o, para, top, collect);
            let ghost t1 = o.top@;
            let ghost q1 = o.b.sections@;
            let ghost i0 = i;
            i = fenced_code(p, o, lines, i, top, ind, body, fc, flen);
            proof {
                if top {
                    let rest = top_plan(p.input, lines@, i as int, false, fuel as int);
                    lemma_plan_fence(p.input, lines@, ii, pl, fuel as int);
                    lemma_nested_refl(q0, phere);
                    let close = fence_close_at(bytes@, lines@, i0 + 1, fc, flen as int);
                    let (a, z) = fenced_body(bytes@, lines@, i0 as int, close);
                    if !(ind == 0 && line.pad == 0) || sliceable(p.input, a, z) {
                        lemma_pushed(t1, o.top@);
                        lemma_advance(kinds(o.top@), kinds(t1), k0, flushed(pl), seq![BlockKind::Code], rest, here);
                        lemma_advance(texts(o.top@), texts(t1), x0, flushed_t(pl), if !(ind == 0 && line.pad == 0) { seq![None] } else { seq![Some(bytes@.subrange(a, z))] }, top_texts(p.input, lines@, i as int, false, fuel as int), there);
                        lemma_heads_none(p.input, o.b.inlines@, o.top@, t0.len() as int, hthere, flushed_h(pl), seq![None], top_heads(p.input, lines@, i as int, false, fuel as int));
                    } else {
                        lemma_advance(kinds(o.top@), kinds(t1), k0, flushed(pl), Seq::empty(), rest, here);
                        lemma_advance(texts(o.top@), texts(t1), x0, flushed_t(pl), Seq::empty(), top_texts(p.input, lines@, i as int, false, fuel as int), there);
                        lemma_heads_none(p.input, o.b.inlines@, o.top@, t0.len() as int, hthere, flushed_h(pl), Seq::empty(), top_heads(p.input, lines@, i as int, false, fuel as int));
                    }
                } else if o.b.sections@.len() < u32::MAX {
                    lemma_nplan_fence(p.input, lines@, ii, pl, fuel as int);
                    lemma_appended_trans(q0, q1, o.b.sections@, flushed(pl), seq![BlockKind::Code]);
                    lemma_nested_step(q0, o.b.sections@, flushed(pl) + seq![BlockKind::Code], nhere, nested_plan(p.input, lines@, i as int, false, fuel as int));
                }
            }
            return i;
        }
        // HTML block.
        if body < e && bytes[body] == 60u8 {
            let kind = vstd::slice::slice_subrange(bytes, body, e).html_block_start(
                para.len() > 0,
            );
            if let Some(k) = kind {
                flush_para(p, o, para, top, collect);
                let ghost t1 = o.top@;
                let ghost q1 = o.b.sections@;
                i = html_block(p, o, lines, i, top, k);
                proof {
                    if top {
                        let rest = top_plan(p.input, lines@, i as int, false, fuel as int);
                        lemma_plan_html(p.input, lines@, ii, pl, fuel as int);
                        lemma_nested_refl(q0, phere);
                        if sliceable(p.input, s as int, lines@[i - 1].end as int) {
                            lemma_pushed(t1, o.top@);
                            lemma_advance(kinds(o.top@), kinds(t1), k0, flushed(pl), seq![BlockKind::Html], rest, here);
                            lemma_advance(texts(o.top@), texts(t1), x0, flushed_t(pl), seq![Some(bytes@.subrange(s as int, lines@[i - 1].end as int))], top_texts(p.input, lines@, i as int, false, fuel as int), there);
                            lemma_heads_none(p.input, o.b.inlines@, o.top@, t0.len() as int, hthere, flushed_h(pl), seq![None], top_heads(p.input, lines@, i as int, false, fuel as int));
                        } else {
                            lemma_advance(kinds(o.top@), kinds(t1), k0, flushed(pl), Seq::empty(), rest, here);
                            lemma_advance(texts(o.top@), texts(t1), x0, flushed_t(pl), Seq::empty(), top_texts(p.input, lines@, i as int, false, fuel as int), there);
                            lemma_heads_none(p.input, o.b.inlines@, o.top@, t0.len() as int, hthere, flushed_h(pl), Seq::empty(), top_heads(p.input, lines@, i as int, false, fuel as int));
                        }
                    } else if o.b.sections@.len() < u32::MAX {
                        lemma_nplan_html(p.input, lines@, ii, pl, fuel as int);
                        lemma_appended_trans(q0, q1, o.b.sections@, flushed(pl), seq![BlockKind::Html]);
                        lemma_nested_step(q0, o.b.sections@, flushed(pl) + seq![BlockKind::Html], nhere, nested_plan(p.input, lines@, i as int, false, fuel as int));
                    }
                }
                return i;
            }
        }
        // Setext underline promotes the open paragraph.
        if para.len() > 0 && !line.lazy {
            if let Some(level) = setext_level(bytes, body, e) {
                let content = paragraph_span(p, o, para, top, collect);
                para.clear();
                let ghost q1 = o.b.sections@;
                o.emit(top, Section::Heading { level, content }, Ghost(p.input));
                i = i + 1;
                proof {
                    if top {
                        let rest = top_plan(p.input, lines@, i as int, false, fuel as int);
                        lemma_kinds_push(t0, Section::Heading { level, content });
                        lemma_texts_push(t0, Section::Heading { level, content });
                        lemma_plan_setext(p.input, lines@, ii, fuel as int);
                        lemma_nested_refl(q0, phere);
                        lemma_advance(kinds(o.top@), k0, k0, Seq::empty(), seq![BlockKind::Heading(level)], rest, here);
                        lemma_advance(texts(o.top@), x0, x0, Seq::empty(), seq![None], top_texts(p.input, lines@, i as int, false, fuel as int), there);
                        lemma_heads_none(p.input, o.b.inlines@, o.top@, t0.len() as int, hthere, Seq::empty(), seq![None], top_heads(p.input, lines@, i as int, false, fuel as int));
                    } else if o.b.sections@.len() < u32::MAX {
                        lemma_nplan_setext(p.input, lines@, ii, fuel as int);
                        lemma_appended_push(q1, Section::Heading { level, content });
                        lemma_nested_step(q0, o.b.sections@, seq![BlockKind::Heading(level)], nhere, nested_plan(p.input, lines@, i as int, false, fuel as int));
                    }
                }
                return i;
            }
        }
        // Thematic break.
        if is_hr(bytes, body, e) {
            flush_para(p, o, para, top, collect);
            let ghost t1 = o.top@;
            let ghost q1 = o.b.sections@;
            o.emit(top, Section::HorizontalRule, Ghost(p.input));
            i = i + 1;
            proof {
                if top {
                    let rest = top_plan(p.input, lines@, i as int, false, fuel as int);
                    lemma_kinds_push(t1, Section::HorizontalRule);
                    lemma_texts_push(t1, Section::HorizontalRule);
                    lemma_plan_rule(p.input, lines@, ii, pl, fuel as int);
                    lemma_nested_refl(q0, phere);
                    lemma_advance(kinds(o.top@), kinds(t1), k0, flushed(pl), seq![BlockKind::Rule], rest, here);
                    lemma_advance(texts(o.top@), texts(t1), x0, flushed_t(pl), seq![None], top_texts(p.input, lines@, i as int, false, fuel as int), there);
                    lemma_heads_none(p.input, o.b.inlines@, o.top@, t0.len() as int, hthere, flushed_h(pl), seq![None], top_heads(p.input, lines@, i as int, false, fuel as int));
                } else if o.b.sections@.len() < u32::MAX {
                    lemma_nplan_rule(p.input, lines@, ii, pl, fuel as int);
                    lemma_appended_push(q1, Section::HorizontalRule);
                    lemma_appended_trans(q0, q1, o.b.sections@, flushed(pl), seq![BlockKind::Rule]);
                    lemma_nested_step(q0, o.b.sections@, flushed(pl) + seq![BlockKind::Rule], nhere, nested_plan(p.input, lines@, i as int, false, fuel as int));
                }
            }
            return i;
        }
        // List.
        if !line.lazy {
            if let Some(m) = list_marker(bytes, body, e) {
                let rest_blank = is_blank_range(bytes, body + m.width, e);
                let may_interrupt = match m.ordered {
                    Some((start, _)) => start == 1 && !rest_blank,
                    None => !rest_blank,
                };
                if para.len() == 0 || may_interrupt {
                    flush_para(p, o, para, top, collect);
                    let ghost t1 = o.top@;
                    let ghost i0 = i;
                    if fuel > 0 {
                        i = build_list(p, o, lines, i, top, collect, fuel - 1);
                        proof {
                            if top {
                                let rest = top_plan(p.input, lines@, i as int, false, fuel as int);
                                let hb = run_to(bytes@, s as int, e as int, is_byte(32u8));
                                lemma_plan_list(p.input, lines@, ii, pl, fuel as int);
                                lemma_nested_none(q0, o.b.sections@, top_pool_plan(p.input, lines@, i as int, false, fuel as int));
                                match marker_spec(bytes@, hb, e as int) {
                                    Some(fm) => {
                                        let tight = !list_scan(bytes@, lines@, i0 as int, true, fm, false, true).1;
                                        lemma_pushed(t1, o.top@);
                                        lemma_list_kind(o.top@.last(), fm.ordered, tight);
                                        lemma_advance(kinds(o.top@), kinds(t1), k0, flushed(pl), seq![BlockKind::List(fm.ordered, tight)], rest, here);
                                        lemma_advance(texts(o.top@), texts(t1), x0, flushed_t(pl), seq![None], top_texts(p.input, lines@, i as int, false, fuel as int), there);
                                        lemma_heads_none(p.input, o.b.inlines@, o.top@, t0.len() as int, hthere, flushed_h(pl), seq![None], top_heads(p.input, lines@, i as int, false, fuel as int));
                                    },
                                    None => {
                                        lemma_advance(kinds(o.top@), kinds(t1), k0, flushed(pl), Seq::empty(), rest, here);
                                        lemma_advance(texts(o.top@), texts(t1), x0, flushed_t(pl), Seq::empty(), top_texts(p.input, lines@, i as int, false, fuel as int), there);
                                        lemma_heads_none(p.input, o.b.inlines@, o.top@, t0.len() as int, hthere, flushed_h(pl), Seq::empty(), top_heads(p.input, lines@, i as int, false, fuel as int));
                                    },
                                }
                            }
                        }
                    } else {
                        i = i + 1;
                        proof {
                            if top {
                                let rest = top_plan(p.input, lines@, i as int, false, fuel as int);
                                lemma_plan_list(p.input, lines@, ii, pl, fuel as int);
                                lemma_advance(kinds(o.top@), kinds(t1), k0, flushed(pl), Seq::empty(), rest, here);
                                lemma_advance(texts(o.top@), texts(t1), x0, flushed_t(pl), Seq::empty(), top_texts(p.input, lines@, i as int, false, fuel as int), there);
                                lemma_heads_none(p.input, o.b.inlines@, o.top@, t0.len() as int, hthere, flushed_h(pl), Seq::empty(), top_heads(p.input, lines@, i as int, false, fuel as int));
                                lemma_nested_refl(q0, phere);
                            }
                        }
                    }
                    proof {
                        if !top {
                            lemma_nplan_none(p.input, lines@, ii, pl, fuel as int);
                            lemma_nested_none(q0, o.b.sections@, nested_plan(p.input, lines@, i as int, false, fuel as int));
                        }
                    }
                    return i;
                }
            }
        }
    }
    // Paragraph text (a new paragraph or a continuation line).
    para.push(line);
    proof {
        if top {
            lemma_plan_text(p.input, lines@, ii, pl, fuel as int);
            assert(here == top_plan(p.input, lines@, ii + 1, true, fuel as int));
            assert(there == top_texts(p.input, lines@, ii + 1, true, fuel as int));
            lemma_heads_none(p.input, o.b.inlines@, o.top@, t0.len() as int, hthere, Seq::empty(), Seq::empty(), top_heads(p.input, lines@, ii + 1, true, fuel as int));
            lemma_nested_refl(q0, phere);
        } else if ndef_start(p.input, lines@, ii, pl) {
            lemma_nplan_def(p.input, lines@, ii, fuel as int);
            lemma_nested_refl(q0, nhere);
        } else {
            lemma_nplan_text(p.input, lines@, ii, pl, fuel as int);
            lemma_appended_same(o.b.sections@);
            lemma_nested_step(q0, o.b.sections@, Seq::empty(), nhere, nested_plan(p.input, lines@, ii + 1, true, fuel as int));
        }
    }
    i + 1
}


/// Append the block sections of `lines` at the current level (the top-level
/// list when `top`, otherwise the section pool). `collect` runs the pass
/// that only gathers link reference definitions.
#[verifier::rlimit(40)]
pub(crate) fn resolve_blocks<'src>(p: &InlineParser<'src, '_>, o: &mut Out<'src>, lines: &Vec<Line>, top: bool, collect: bool, fuel: usize)
    requires
        p.ok(),
        old(o).wf(p.input),
        lines_in(lines@, p.bytes@.len() as int),
    ensures
        final(o).wf(p.input),
        old(o).grown(final(o)),
        lines_blank(p.bytes@, lines@) ==> *final(o) == *old(o),
        !top ==> final(o).top == old(o).top,
        kept(old(o).b.sections@, final(o).b.sections@),
        defs_grow(old(o).defs.entries@, final(o).defs.entries@),
        pre(old(o).top@, final(o).top@),
        top && !collect ==> heads_at(
            p.input,
            final(o).b.inlines@,
            final(o).top@,
            old(o).top@.len() as int,
            top_heads(p.input, lines@, 0, false, fuel as int),
        ),
        top ==> kinds(final(o).top@) == kinds(old(o).top@) + top_plan(p.input, lines@, 0, false, fuel as int),
        top ==> texts(final(o).top@) == texts(old(o).top@) + top_texts(p.input, lines@, 0, false, fuel as int),
        !top && final(o).b.sections@.len() < u32::MAX ==> (nested_plan(p.input, lines@, 0, false, fuel as int) matches Some(
            ks,
        ) ==> appended(old(o).b.sections@, final(o).b.sections@, ks)),
        top && final(o).b.sections@.len() < u32::MAX ==> (top_pool_plan(p.input, lines@, 0, false, fuel as int) matches Some(
            ks,
        ) ==> appended(old(o).b.sections@, final(o).b.sections@, ks)),
    decreases fuel, 2int,
{
    let n = lines.len();
    let mut para: Vec<Line> = Vec::new();
    let mut i: usize = 0;
    let ghost goal = kinds(old(o).top@) + top_plan(p.input, lines@, 0, false, fuel as int);
    let ghost tgoal = texts(old(o).top@) + top_texts(p.input, lines@, 0, false, fuel as int);
    let ghost hgoal = top_heads(p.input, lines@, 0, false, fuel as int);
    let ghost base = old(o).top@.len() as int;
    let ghost mut hs: Seq<Option<(int, int)>> = Seq::empty();
    assert(hs + hgoal =~= hgoal);
    proof {
        lemma_defs_refl(o.defs.entries@);
        lemma_nested_refl(o.b.sections@, nested_plan(p.input, lines@, 0, false, fuel as int));
        lemma_nested_refl(o.b.sections@, top_pool_plan(p.input, lines@, 0, false, fuel as int));
    }
    while i < n
        invariant
            p.ok(),
            o.wf(p.input),
            old(o).grown(o),
            lines_blank(p.bytes@, lines@) ==> *o == *old(o) && para@.len() == 0,
            !top ==> o.top == old(o).top,
            kept(old(o).b.sections@, o.b.sections@),
            defs_grow(old(o).defs.entries@, o.defs.entries@),
            pre(old(o).top@, o.top@),
            base == old(o).top@.len(),
            hgoal == top_heads(p.input, lines@, 0, false, fuel as int),
            top && !collect ==> heads_at(p.input, o.b.inlines@, o.top@, base, hs),
            top && !collect ==> hs + top_heads(p.input, lines@, i as int, para@.len() > 0, fuel as int) == hgoal,
            top && !collect ==> hs.len() + base == o.top@.len(),
            top ==> kinds(o.top@) + top_plan(p.input, lines@, i as int, para@.len() > 0, fuel as int) == goal,
            top ==> texts(o.top@) + top_texts(p.input, lines@, i as int, para@.len() > 0, fuel as int) == tgoal,
            !top && o.b.sections@.len() < u32::MAX ==> nested_step(
                old(o).b.sections@,
                o.b.sections@,
                nested_plan(p.input, lines@, 0, false, fuel as int),
                nested_plan(p.input, lines@, i as int, para@.len() > 0, fuel as int),
            ),
            top && o.b.sections@.len() < u32::MAX ==> nested_step(
                old(o).b.sections@,
                o.b.sections@,
                top_pool_plan(p.input, lines@, 0, false, fuel as int),
                top_pool_plan(p.input, lines@, i as int, para@.len() > 0, fuel as int),
            ),
            i <= n,
            n == lines@.len(),
            lines_in(lines@, p.bytes@.len() as int),
            lines_in(para@, p.bytes@.len() as int),
        decreases n - i,
    {
        let ghost pa = o.b.sections@;
        let ghost ca = nested_plan(p.input, lines@, i as int, para@.len() > 0, fuel as int);
        let ghost cb = top_pool_plan(p.input, lines@, i as int, para@.len() > 0, fuel as int);
        let ghost d0 = o.defs.entries@;
        let ghost i0 = i as int;
        let ghost p0 = para@.len() > 0;
        let ghost s0 = o.top@;
        let ghost pool0 = o.b.inlines@;
        i = resolve_line(p, o, lines, i, &mut para, top, collect, fuel);
        proof {
            if top && !collect {
                let h1 = top_heads(p.input, lines@, i as int, para@.len() > 0, fuel as int);
                lemma_heads_len(p.input, lines@, i0, p0, fuel as int);
                lemma_heads_len(p.input, lines@, i as int, para@.len() > 0, fuel as int);
                lemma_texts_len(s0);
                lemma_texts_len(o.top@);
                let d = lemma_heads_acc(p.input, pool0, o.b.inlines@, s0, o.top@, base, hs, top_heads(p.input, lines@, i0, p0, fuel as int), h1);
                assert(hs + d + h1 =~= hs + (d + h1));
                hs = hs + d;
            }
            lemma_defs_trans(old(o).defs.entries@, d0, o.defs.entries@);
            if top && o.b.sections@.len() < u32::MAX {
                lemma_nested_trans(
                    old(o).b.sections@,
                    pa,
                    o.b.sections@,
                    top_pool_plan(p.input, lines@, 0, false, fuel as int),
                    cb,
                    top_pool_plan(p.input, lines@, i as int, para@.len() > 0, fuel as int),
                );
            }
            if !top && o.b.sections@.len() < u32::MAX {
                lemma_nested_trans(
                    old(o).b.sections@,
                    pa,
                    o.b.sections@,
                    nested_plan(p.input, lines@, 0, false, fuel as int),
                    ca,
                    nested_plan(p.input, lines@, i as int, para@.len() > 0, fuel as int),
                );
            }
        }
    }
    let ghost pa = o.b.sections@;
    let ghost pf = para@.len() > 0;
    proof {
        if top {
            lemma_plan_end(p.input, lines@, i as int, para@.len() > 0, fuel as int);
        } else {
            lemma_nplan_end(p.input, lines@, i as int, para@.len() > 0, fuel as int);
        }
    }
    let ghost s0 = o.top@;
    let ghost pool0 = o.b.inlines@;
    flush_para(p, o, &mut para, top, collect);
    proof {
        if top && !collect {
            let e0 = Seq::<Option<(int, int)>>::empty();
            assert(flushed_h(pf) =~= flushed_h(pf) + e0);
            lemma_heads_none(p.input, o.b.inlines@, o.top@, s0.len() as int, flushed_h(pf), flushed_h(pf), e0, e0);
            let d = lemma_heads_acc(p.input, pool0, o.b.inlines@, s0, o.top@, base, hs, flushed_h(pf), e0);
            assert(d =~= d + e0);
            assert(hs + d =~= hgoal);
        }
        if top && o.b.sections@.len() < u32::MAX {
            lemma_appended_same(pa);
            lemma_nested_finish(
                old(o).b.sections@,
                pa,
                o.b.sections@,
                top_pool_plan(p.input, lines@, 0, false, fuel as int),
                Seq::empty(),
            );
        }
        if !top && o.b.sections@.len() < u32::MAX {
            lemma_nested_finish(
                old(o).b.sections@,
                pa,
                o.b.sections@,
                nested_plan(p.input, lines@, 0, false, fuel as int),
                flushed(pf),
            );
        }
    }
}

/// End of an indented code block scanned from line `j` on, `last` being the
/// end so far: blank lines are taken in but only count once a line indented
/// by four or more columns follows; the first other line stops the block.
pub open spec fn code_run_end(b: Seq<u8>, lines: Seq<Line>, j: int, last: int, top: bool) -> int
    decreases lines.len() - j,
{
    if 0 <= j < lines.len() {
        if all_ws(b, lines[j].start as int, lines[j].end as int) {
            code_run_end(b, lines, j + 1, last, top)
        } else if line_indent(b, lines[j], top).1 < 4 {
            last
        } else {
            code_run_end(b, lines, j + 1, j + 1, top)
        }
    } else {
        last
    }
}

/// Collect an indented code block starting at line `i`; returns the index of
/// the first line after it.
#[verifier::loop_isolation(false)]
fn indented_code<'src>(p: &InlineParser<'src, '_>, o: &mut Out<'src>, lines: &Vec<Line>, i0: usize, top: bool) -> (next: usize)
    requires
        p.ok(),
        old(o).wf(p.input),
        lines_in(lines@, p.bytes@.len() as int),
        i0 < lines@.len(),
    ensures
        final(o).wf(p.input),
        old(o).grown(final(o)),
        i0 < next <= lines@.len(),
        ({
            let end = code_run_end(p.bytes@, lines@, i0 as int, i0 as int, top);
            next == if end > i0 { end } else { i0 + 1 }
        }),
        !top ==> final(o).top == old(o).top,
        final(o).defs == old(o).defs,
        kept(old(o).b.sections@, final(o).b.sections@),
        !top && final(o).b.sections@.len() < u32::MAX ==> appended(
            old(o).b.sections@,
            final(o).b.sections@,
            seq![BlockKind::Code],
        ),
        top ==> ({
            let (a, z) = (lines@[i0 as int].start as int, lines@[next - 1].end as int);
            &&& final(o).b == old(o).b
            &&& final(o).defs == old(o).defs
            &&& if sliceable(p.input, a, z) {
                &&& final(o).top@.len() == old(o).top@.len() + 1
                &&& final(o).top@.drop_last() == old(o).top@
                &&& final(o).top@.last() matches Section::IndentedCode { code }
                &&& sbytes(code) == p.bytes@.subrange(a, z)
            } else {
                final(o).top@ == old(o).top@
            }
        }),
{
    let bytes = p.bytes;
    let n = lines.len();
    let mut i = i0;
    let mut last_code = i0;
    let mut code: Vec<Line> = Vec::new();
    while i < n
        invariant
            code_run_end(bytes@, lines@, i0 as int, i0 as int, top) == code_run_end(
                bytes@,
                lines@,
                i as int,
                last_code as int,
                top,
            ),
            i0 <= i <= n,
            i0 <= last_code,
            last_code <= i,
            n == lines@.len(),
            lines_in(lines@, p.bytes@.len() as int),
            lines_in(code@, p.bytes@.len() as int),
            bytes == p.bytes,
        decreases n - i,
    {
        let l = lines[i];
        if is_blank_range(bytes, l.start, l.end) {
            code.push(Line { start: l.start, end: l.start, pad: 0, lazy: false });
            i = i + 1;
            continue;
        }
        let (_, cols) = leading_indent(bytes, l, top);
        if cols < 4 {
            proof {
                assert(code_run_end(bytes@, lines@, i as int, last_code as int, top) == last_code);
            }
            break;
        }
        code.push(strip_cols(bytes, l, 4));
        i = i + 1;
        last_code = i;
    }
    if last_code == i0 {
        last_code = i0 + 1;
    }
    // Trailing blank lines are not part of the block.
    let keep = last_code - i0;
    if top {
        let first = lines[i0];
        let last = lines[last_code - 1];
        if let Some(code_str) = slice_of(p, first.start, last.end) {
            o.emit(top, Section::IndentedCode { code: code_str }, Ghost(p.input));
        }
    } else {
        let start = o.b.line_len(Ghost(p.input));
        let mut k: usize = 0;
        while k < keep && k < code.len()
            invariant
                o.wf(p.input),
                old(o).grown(o),
                start <= o.b.lines@.len(),
                lines_in(code@, p.bytes@.len() as int),
                o.top == old(o).top,
                o.defs == old(o).defs,
                o.b.sections@ == old(o).b.sections@,
            decreases keep - k,
        {
            push_pool_line(p, o, code[k]);
            k = k + 1;
        }
        let end = o.b.line_len(Ghost(p.input));
        let sec = Section::CodeLines { language: None, lines: LineRange::new(start, end - start) };
        o.emit(top, sec, Ghost(p.input));
        proof {
            lemma_appended_push(old(o).b.sections@, sec);
        }
    }
    proof {
        if top {
            lemma_kept_same(o.b.sections@);
        }
    }
    last_code
}

/// Collect a fenced code block opened on line `i`; returns the index of the
/// first line after it.
#[verifier::loop_isolation(false)]
fn fenced_code<'src>(p: &InlineParser<'src, '_>, o: &mut Out<'src>, lines: &Vec<Line>, i0: usize, top: bool, ind: usize, body: usize, fc: u8, flen: usize) -> (next: usize)
    requires
        p.ok(),
        old(o).wf(p.input),
        lines_in(lines@, p.bytes@.len() as int),
        i0 < lines@.len(),
        lines@[i0 as int].start <= body,
        body + flen <= lines@[i0 as int].end,
    ensures
        final(o).wf(p.input),
        old(o).grown(final(o)),
        i0 < next <= lines@.len(),
        ({
            let close = fence_close_at(p.bytes@, lines@, i0 + 1, fc, flen as int);
            next == if close < lines@.len() { close + 1 } else { lines@.len() as int }
        }),
        !top ==> final(o).top == old(o).top,
        final(o).defs == old(o).defs,
        kept(old(o).b.sections@, final(o).b.sections@),
        top ==> final(o).b.sections@ == old(o).b.sections@,
        !top && final(o).b.sections@.len() < u32::MAX ==> appended(
            old(o).b.sections@,
            final(o).b.sections@,
            seq![BlockKind::Code],
        ),
        top && !(ind == 0 && lines@[i0 as int].pad == 0) ==> ({
            &&& final(o).top@.len() == old(o).top@.len() + 1
            &&& final(o).top@.drop_last() == old(o).top@
            &&& final(o).top@.last() is CodeLines
        }),
        top && ind == 0 && lines@[i0 as int].pad == 0 ==> ({
            let close = fence_close_at(p.bytes@, lines@, i0 + 1, fc, flen as int);
            let (a, z) = fenced_body(p.bytes@, lines@, i0 as int, close);
            &&& final(o).b == old(o).b
            &&& final(o).defs == old(o).defs
            &&& if sliceable(p.input, a, z) {
                &&& final(o).top@.len() == old(o).top@.len() + 1
                &&& final(o).top@.drop_last() == old(o).top@
                &&& final(o).top@.last() matches Section::CodeBlock { language, code }
                &&& sbytes(code) == p.bytes@.subrange(a, z)
                &&& info_string(p.bytes@, p.input, body + flen, lines@[i0 as int].end as int, language)
            } else {
                final(o).top@ == old(o).top@
            }
        }),
{
    let bytes = p.bytes;
    let n = lines.len();
    let open = lines[i0];
    let language = fence_language(p, body + flen, open.end);
    let mut i = i0 + 1;
    let mut closed = false;
    while i < n && !closed
        invariant
            i0 < i <= n,
            closed ==> i < n,
            !closed ==> fence_close_at(bytes@, lines@, i0 + 1, fc, flen as int) == fence_close_at(
                bytes@,
                lines@,
                i as int,
                fc,
                flen as int,
            ),
            closed ==> fence_close_at(bytes@, lines@, i0 + 1, fc, flen as int) == i,
            n == lines@.len(),
            lines_in(lines@, p.bytes@.len() as int),
            bytes == p.bytes,
        decreases n - i + (if closed { 0int } else { 1int }),
    {
        let l = lines[i];
        let sp = spaces(bytes, l.start, l.end);
        if sp <= 3 && l.pad == 0 && is_closing_fence(bytes, l.start + sp, l.end, fc, flen) {
            closed = true;
        } else {
            i = i + 1;
        }
    }
    let content_end = i;
    let next = if closed {
        i + 1
    } else {
        i
    };
    if top && ind == 0 && open.pad == 0 {
        let code = if content_end > i0 + 1 {
            let a = lines[i0 + 1].start;
            let mut z = lines[content_end - 1].end;
            if !closed && z < bytes.len() && bytes[z] == 10u8 {
                z = z + 1;
            }
            slice_of(p, a, z)
        } else {
            slice_of(p, open.end, open.end)
        };
        if let Some(c) = code {
            o.emit(top, Section::CodeBlock { language, code: c }, Ghost(p.input));
        }
    } else {
        let start = o.b.line_len(Ghost(p.input));
        let mut k = i0 + 1;
        while k < content_end
            invariant
                o.wf(p.input),
                old(o).grown(o),
                start <= o.b.lines@.len(),
                o.top == old(o).top,
                o.defs == old(o).defs,
                o.b.sections@ == old(o).b.sections@,
                content_end <= n,
                n == lines@.len(),
                lines_in(lines@, p.bytes@.len() as int),
                bytes == p.bytes,
            decreases content_end - k,
        {
            let l = lines[k];
            let sp = spaces(bytes, l.start, l.end);
            let strip = if sp < ind {
                sp
            } else {
                ind
            };
            push_pool_line(p, o, Line { start: l.start + strip, end: l.end, pad: l.pad, lazy: false });
            k = k + 1;
        }
        let end = o.b.line_len(Ghost(p.input));
        let sec = Section::CodeLines { language, lines: LineRange::new(start, end - start) };
        o.emit(top, sec, Ghost(p.input));
        proof {
            if !top {
                lemma_appended_push(old(o).b.sections@, sec);
            }
        }
    }
    proof {
        if top {
            lemma_kept_same(o.b.sections@);
        }
    }
    next
}

/// `line` holds the end marker `m` somewhere.
pub open spec fn holds_marker(line: Seq<u8>, m: Seq<u8>) -> bool {
    exists|j: int| exact_at(line, m, j)
}

/// Line `line` ends an HTML block of kind `k` that it belongs to (`CommonMark`
/// §4.6 end conditions 1 to 5; kinds 6 and 7 end only before a blank line).
pub open spec fn html_ends_spec(line: Seq<u8>, k: HtmlBlockKind) -> bool {
    if k is Type1 {
        has_type1_end(line)
    } else if k is Type6 || k is Type7 {
        false
    } else {
        match spec_end_marker(k) {
            Some(m) => holds_marker(line, m),
            None => false,
        }
    }
}

/// Index just past an HTML block of kind `k` scanned from line `j` on: past
/// the first line that ends it, before the first blank line for kinds 6 and
/// 7, or the number of lines.
pub open spec fn html_block_end(b: Seq<u8>, lines: Seq<Line>, j: int, k: HtmlBlockKind) -> int
    decreases lines.len() - j,
{
    if 0 <= j < lines.len() {
        if (k is Type6 || k is Type7) && all_ws(b, lines[j].start as int, lines[j].end as int) {
            j
        } else if html_ends_spec(b.subrange(lines[j].start as int, lines[j].end as int), k) {
            j + 1
        } else {
            html_block_end(b, lines, j + 1, k)
        }
    } else {
        lines.len() as int
    }
}

/// Whether the line ends an HTML block of kind `k` that it belongs to.
fn html_block_ends(bytes: &[u8], l: Line, k: HtmlBlockKind) -> (r: bool)
    requires
        l.start <= l.end <= bytes@.len(),
    ensures
        r == html_ends_spec(bytes@.subrange(l.start as int, l.end as int), k),
{
    let lb = vstd::slice::slice_subrange(bytes, l.start, l.end);
    assert(lb.bytes_of() == bytes@.subrange(l.start as int, l.end as int));
    if k == HtmlBlockKind::Type1 {
        return lb.type1_end();
    }
    if k == HtmlBlockKind::Type6 || k == HtmlBlockKind::Type7 {
        return false;
    }
    match k.end_marker() {
        Some(m) => {
            let found = lb.scan_until(0, m);
            proof {
                let sub = bytes@.subrange(l.start as int, l.end as int);
                if let Some(n) = found {
                    assert(exact_at(sub, m@, n - m@.len()));
                    assert(holds_marker(sub, m@));
                } else {
                    assert forall|j: int| !exact_at(sub, m@, j) by {
                        if j >= 0 {
                            assert(!exact_at(lb.bytes_of(), m@, j));
                        }
                    }
                    assert(!holds_marker(sub, m@));
                }
                assert(spec_end_marker(k) == Some(m@));
            }
            found.is_some()
        },
        None => {
            proof {
                assert(spec_end_marker(k) is None);
            }
            false
        },
    }
}

/// Collect an HTML block starting at line `i`; returns the index after it.
#[verifier::loop_isolation(false)]
fn html_block<'src>(p: &InlineParser<'src, '_>, o: &mut Out<'src>, lines: &Vec<Line>, i0: usize, top: bool, k: HtmlBlockKind) -> (next: usize)
    requires
        p.ok(),
        old(o).wf(p.input),
        lines_in(lines@, p.bytes@.len() as int),
        i0 < lines@.len(),
    ensures
        final(o).wf(p.input),
        old(o).grown(final(o)),
        i0 < next <= lines@.len(),
        ({
            let end = html_block_end(p.bytes@, lines@, i0 as int, k);
            next == if end > i0 { end } else { i0 + 1 }
        }),
        !top ==> final(o).top == old(o).top,
        final(o).defs == old(o).defs,
        kept(old(o).b.sections@, final(o).b.sections@),
        !top && final(o).b.sections@.len() < u32::MAX ==> appended(
            old(o).b.sections@,
            final(o).b.sections@,
            seq![BlockKind::Html],
        ),
        top ==> ({
            let (a, z) = (lines@[i0 as int].start as int, lines@[next - 1].end as int);
            &&& final(o).b == old(o).b
            &&& final(o).defs == old(o).defs
            &&& if sliceable(p.input, a, z) {
                &&& final(o).top@.len() == old(o).top@.len() + 1
                &&& final(o).top@.drop_last() == old(o).top@
                &&& final(o).top@.last() matches Section::HtmlBlock { html }
                &&& sbytes(html) == p.bytes@.subrange(a, z)
            } else {
                final(o).top@ == old(o).top@
            }
        }),
{
    let bytes = p.bytes;
    let n = lines.len();
    let mut i = i0;
    let mut stopped = false;
    while i < n && !stopped
        invariant
            i0 <= i <= n,
            n == lines@.len(),
            lines_in(lines@, p.bytes@.len() as int),
            bytes == p.bytes,
            !stopped ==> html_block_end(bytes@, lines@, i0 as int, k) == html_block_end(
                bytes@,
                lines@,
                i as int,
                k,
            ),
            stopped ==> html_block_end(bytes@, lines@, i0 as int, k) == i,
        decreases n - i + (if stopped { 0int } else { 1int }),
    {
        let l = lines[i];
        let ends_at_blank = match k {
            HtmlBlockKind::Type6 | HtmlBlockKind::Type7 => true,
            _ => false,
        };
        if ends_at_blank && is_blank_range(bytes, l.start, l.end) {
            stopped = true;
        } else {
            i = i + 1;
            if html_block_ends(bytes, l, k) {
                stopped = true;
            }
        }
    }
    if i == i0 {
        i = i0 + 1;
    }
    if top {
        let first = lines[i0];
        let last = lines[i - 1];
        if let Some(html) = slice_of(p, first.start, last.end) {
            o.emit(top, Section::HtmlBlock { html }, Ghost(p.input));
        }
    } else {
        let start = o.b.line_len(Ghost(p.input));
        let mut m = i0;
        while m < i
            invariant
                o.wf(p.input),
                old(o).grown(o),
                start <= o.b.lines@.len(),
                o.top == old(o).top,
                o.defs == old(o).defs,
                o.b.sections@ == old(o).b.sections@,
                i <= n,
                n == lines@.len(),
                lines_in(lines@, p.bytes@.len() as int),
            decreases i - m,
        {
            push_pool_line(p, o, lines[m]);
            m = m + 1;
        }
        let end = o.b.line_len(Ghost(p.input));
        let sec = Section::HtmlLines { lines: LineRange::new(start, end - start) };
        o.emit(top, sec, Ghost(p.input));
        proof {
            lemma_appended_push(old(o).b.sections@, sec);
        }
    }
    proof {
        if top {
            lemma_kept_same(o.b.sections@);
        }
    }
    i
}

/// Open a container at the current level: at top level nothing is emitted
/// yet; inside a container a placeholder is pushed. Returns the placeholder
/// index (or the pool length at top level).
fn open_container<'src>(o: &mut Out<'src>, top: bool, Ghost(src): Ghost<&str>) -> (at: usize)
    requires
        old(o).wf(src),
    ensures
        final(o).wf(src),
        old(o).grown(final(o)),
        at <= final(o).b.sections@.len(),
        top ==> *final(o) == *old(o) && at == old(o).b.sections@.len(),
        !top && old(o).b.sections@.len() < u32::MAX ==> final(o).b.sections@ == old(o).b.sections@.push(
            Section::HorizontalRule,
        ),
        kept(old(o).b.sections@, final(o).b.sections@),
        final(o).top == old(o).top,
        final(o).defs == old(o).defs,
        !top ==> at == old(o).b.sections@.len() && (final(o).b.sections@.len() == at + 1 || (
        final(o).b.sections@.len() == at && at == u32::MAX)),
{
    if top {
        proof {
            lemma_kept_same(o.b.sections@);
        }
        o.b.sections.len()
    } else {
        let ghost ob = o.b;
        let at = o.b.push_section(Section::HorizontalRule, Ghost(src));
        proof {
            o.lemma_regrow(&ob, src);
            assert(o.b.sections@.subrange(0, ob.sections@.len() as int) =~= ob.sections@);
        }
        at
    }
}

/// `s` is a list section: ordered with the given start number and delimiter,
/// or a bullet list, tight or loose as given.
pub open spec fn list_shape(s: Section, ordered: Option<(u32, OrderedListDelimiter)>, tight: bool) -> bool {
    match ordered {
        Some((st, d)) => s matches Section::OrderedList { start, delimiter, tight: t, .. } && start == st
            && delimiter == d && t == tight,
        None => s matches Section::UnorderedList { tight: t, .. } && t == tight,
    }
}

/// Close a container whose children were appended from `first_child` on:
/// emit (top level) or backpatch (nested) the section `make(range)`.
fn close_container<'src>(o: &mut Out<'src>, top: bool, at: usize, first_child: usize, kind: u8, ordered: Option<(u32, OrderedListDelimiter)>, tight: bool, Ghost(src): Ghost<&str>)
    requires
        old(o).wf(src),
        first_child <= old(o).b.sections@.len(),
        !top ==> (first_child == at + 1 || at == u32::MAX),
    ensures
        final(o).wf(src),
        old(o).grown(final(o)),
        final(o).defs == old(o).defs,
        top ==> final(o).top@.len() == old(o).top@.len() + 1 && final(o).top@.drop_last() == old(o).top@,
        top ==> final(o).b == old(o).b,
        !top ==> final(o).top == old(o).top,
        kind == 0 && top ==> final(o).top@.last() is Blockquote,
        kind >= 2 && top ==> list_shape(final(o).top@.last(), ordered, tight),
        !top && at < old(o).b.sections@.len() ==> final(o).b.sections@.len() == old(o).b.sections@.len(),
        kind >= 2 && !top && at < old(o).b.sections@.len() ==> list_shape(final(o).b.sections@[at as int], ordered, tight),
        kind == 0 && !top && at < old(o).b.sections@.len() ==> final(o).b.sections@[at as int] is Blockquote,
        !top && at < old(o).b.sections@.len() ==> final(o).b.sections@ == old(o).b.sections@.update(
            at as int,
            final(o).b.sections@[at as int],
        ),
        !top && at >= old(o).b.sections@.len() ==> final(o).b.sections@ == old(o).b.sections@,
        kind == 1 && !top && at < old(o).b.sections@.len() ==> final(o).b.sections@[at as int] is ListItem,
        old(o).b.sections@.len() <= u32::MAX ==> kid_range(
            if top {
                final(o).top@.last()
            } else {
                final(o).b.sections@[at as int]
            },
        ) == Some(
            SectionRange { start: first_child as u32, len: (old(o).b.sections@.len() - first_child) as u32 },
        ) || (!top && at >= old(o).b.sections@.len()),
{
    let end = o.b.sections.len();
    let fc = if first_child <= 0xffff_ffffusize { first_child as u32 } else { 0u32 };
    let len = if (end as u64) >= (fc as u64) && ((end - fc as usize) as u64) <= 0xffff_ffffu64 {
        (end - fc as usize) as u32
    } else {
        0u32
    };
    let range = SectionRange::new(fc, len);
    let s = if kind == 0 {
        Section::Blockquote { children: range }
    } else if kind == 1 {
        Section::ListItem { children: range }
    } else {
        match ordered {
            Some((start, delimiter)) => Section::OrderedList { start, delimiter, tight, items: range },
            None => Section::UnorderedList { tight, items: range },
        }
    };
    if top {
        o.emit(top, s, Ghost(src));
    } else {
        let ghost ob = o.b;
        o.b.set_section(at, s, Ghost(src));
        proof {
            o.lemma_regrow(&ob, src);
        }
    }
}

/// Where the content of a blockquote line starts, with its synthetic pad: at
/// most three spaces, `>`, then one optional space. At top level a tab after
/// `>` is taken too, the columns it leaves past the one consumed becoming
/// pad. `None` when the line has no `>` marker.
spec fn quote_content(b: Seq<u8>, l: Line, top: bool) -> Option<(int, u8)> {
    let q0 = run_to(b, l.start as int, l.end as int, is_byte(32u8)) - l.start;
    let q = if q0 > 3 { 3 } else { q0 };
    let b0 = l.start + q;
    if b0 < l.end && b[b0] == 62u8 {
        let c = b0 + 1;
        if c < l.end && b[c] == 32u8 {
            Some((c + 1, 0u8))
        } else if top && c < l.end && b[c] == 9u8 {
            Some((c + 1, (3 - (q + 1) % 4) as u8))
        } else {
            Some((c, 0u8))
        }
    } else {
        None
    }
}

/// The paragraph and fenced-code state inside a top-level blockquote after
/// the quoted content `b[s..e]` (with `pad` synthetic columns), given the
/// state before it: whether a paragraph is open that a lazy line may
/// continue, and the fence of an open fenced code block.
spec fn quote_state(b: Seq<u8>, s: int, e: int, pad: int, para: bool, fence: Option<(u8, usize)>) -> (bool, Option<(u8, usize)>) {
    let sp = run_to(b, s, e, is_byte(32u8)) - s;
    match fence {
        Some((c, n)) => {
            let body = s + if sp > 3 { 3 } else { sp };
            if closing_fence_spec(b, body, e, c, n as int) { (false, None) } else { (false, fence) }
        },
        None => if all_ws(b, s, e) {
            (false, None)
        } else {
            let cols = pad + indent_scan(b, s, e, 0).1;
            let body = s + sp;
            let opened = match fence_spec(b, body, e) {
                Some((c, n)) => Some((c, n as usize)),
                None => None,
            };
            if cols <= 3 && opened is Some {
                (false, opened)
            } else if cols >= 4 && !para {
                (false, None)
            } else if sp <= 3 && begins_block_spec(b, body, e) {
                (lazy_tail(b, body, e), None)
            } else {
                (true, None)
            }
        },
    }
}

/// A top-level line without `>` that starts (after at most three spaces, at
/// `body`) a block that ends a blockquote rather than continuing its
/// paragraph: a fence, an HTML block, a link reference definition, a list
/// item, a thematic break or an ATX heading.
spec fn ends_quote(input: &str, b: Seq<u8>, body: int, e: int) -> bool {
    ||| fence_spec(b, body, e) is Some
    ||| block_start_kind(b.subrange(body, e), false) is Some
    ||| spec_link_def(input, body) is Some
    ||| marker_spec(b, body, e) is Some
    ||| thematic_break(b, body, e)
    ||| atx_spec(b, body, e) is Some
}

/// Index just past a top-level blockquote scanned from line `j` on: lines
/// with a `>` marker belong to it, and so do lazy lines while a paragraph is
/// open inside it: lines indented four or more columns, and other lines that
/// start no interrupting block.
spec fn quote_end_top(input: &str, b: Seq<u8>, lines: Seq<Line>, j: int, para: bool, fence: Option<(u8, usize)>) -> int
    decreases lines.len() - j,
{
    if 0 <= j < lines.len() {
        let l = lines[j];
        match quote_content(b, l, true) {
            Some((c, pad)) => {
                let st = quote_state(b, c, l.end as int, pad as int, para, fence);
                quote_end_top(input, b, lines, j + 1, st.0, st.1)
            },
            None => {
                let body = run_to(b, l.start as int, l.end as int, is_byte(32u8));
                let cols = line_indent(b, l, true).1;
                if !all_ws(b, l.start as int, l.end as int) && para && fence is None && (cols >= 4 || !ends_quote(
                    input,
                    b,
                    body,
                    l.end as int,
                )) {
                    quote_end_top(input, b, lines, j + 1, true, None)
                } else {
                    j
                }
            },
        }
    } else {
        lines.len() as int
    }
}

/// Index just past a blockquote inside a container scanned from line `j` on:
/// lines with a `>` marker belong to it, and after the first line so do lazy
/// continuation lines of an open paragraph (`last_para`) that start no other
/// block.
spec fn quote_end(b: Seq<u8>, lines: Seq<Line>, j: int, i0: int, last_para: bool) -> int
    decreases lines.len() - j,
{
    if 0 <= j < lines.len() {
        let l = lines[j];
        match quote_content(b, l, false) {
            Some((c, _)) => quote_end(b, lines, j + 1, i0, lazy_tail(b, c, l.end as int)),
            None => if j > i0 && last_para && !all_ws(b, l.start as int, l.end as int) && !begins_block_spec(
                b,
                run_to(b, l.start as int, l.end as int, is_byte(32u8)),
                l.end as int,
            ) {
                quote_end(b, lines, j + 1, i0, last_para)
            } else {
                j
            },
        }
    } else {
        lines.len() as int
    }
}

/// The content lines of a blockquote inside a container, from line `j` on
/// (the quote began at line `i0`): what follows the `>` marker of each
/// marked line, and, trimmed and marked lazy, each continuation line of an
/// open paragraph, as `quote_end` delimits them.
spec fn quote_lines(b: Seq<u8>, lines: Seq<Line>, j: int, i0: int, last_para: bool) -> Seq<Line>
    decreases lines.len() - j,
{
    if 0 <= j < lines.len() {
        let l = lines[j];
        match quote_content(b, l, false) {
            Some((c, _)) => seq![Line { start: c as usize, end: l.end, pad: 0u8, lazy: l.lazy }] + quote_lines(
                b,
                lines,
                j + 1,
                i0,
                lazy_tail(b, c, l.end as int),
            ),
            None => if j > i0 && last_para && !all_ws(b, l.start as int, l.end as int) && !begins_block_spec(
                b,
                run_to(b, l.start as int, l.end as int, is_byte(32u8)),
                l.end as int,
            ) {
                let a = run_to(b, l.start as int, l.end as int, blank());
                seq![Line { start: a as usize, end: rrun_to(b, a, l.end as int, blank()) as usize, pad: 0u8, lazy: true }]
                    + quote_lines(b, lines, j + 1, i0, last_para)
            } else {
                Seq::empty()
            },
        }
    } else {
        Seq::empty()
    }
}

/// The content lines of a top-level blockquote from line `j` on, as
/// `quote_end_top` delimits them: what follows the `>` marker of each marked
/// line (with the pad a tab after the marker leaves), and each lazy
/// continuation line whole, marked lazy.
spec fn quote_lines_top(input: &str, b: Seq<u8>, lines: Seq<Line>, j: int, para: bool, fence: Option<(u8, usize)>) -> Seq<Line>
    decreases lines.len() - j,
{
    if 0 <= j < lines.len() {
        let l = lines[j];
        match quote_content(b, l, true) {
            Some((c, pad)) => {
                let st = quote_state(b, c, l.end as int, pad as int, para, fence);
                seq![Line { start: c as usize, end: l.end, pad, lazy: l.lazy }] + quote_lines_top(
                    input,
                    b,
                    lines,
                    j + 1,
                    st.0,
                    st.1,
                )
            },
            None => {
                let body = run_to(b, l.start as int, l.end as int, is_byte(32u8));
                let cols = line_indent(b, l, true).1;
                if !all_ws(b, l.start as int, l.end as int) && para && fence is None && (cols >= 4 || !ends_quote(
                    input,
                    b,
                    body,
                    l.end as int,
                )) {
                    seq![Line { start: l.start, end: l.end, pad: 0u8, lazy: true }] + quote_lines_top(
                        input,
                        b,
                        lines,
                        j + 1,
                        true,
                        None,
                    )
                } else {
                    Seq::empty()
                }
            },
        }
    } else {
        Seq::empty()
    }
}

/// Collect a blockquote starting at line `i`, resolve its content, and emit
/// it. Returns the next index.
#[verifier::loop_isolation(false)]
#[verifier::rlimit(60)]
fn blockquote<'src>(p: &InlineParser<'src, '_>, o: &mut Out<'src>, lines: &Vec<Line>, i0: usize, top: bool, collect: bool, fuel: usize) -> (next: usize)
    requires
        p.ok(),
        old(o).wf(p.input),
        lines_in(lines@, p.bytes@.len() as int),
        i0 < lines@.len(),
    ensures
        final(o).wf(p.input),
        old(o).grown(final(o)),
        i0 < next <= lines@.len(),
        ({
            let end = if top {
                quote_end_top(p.input, p.bytes@, lines@, i0 as int, false, None)
            } else {
                quote_end(p.bytes@, lines@, i0 as int, i0 as int, false)
            };
            next == if end > i0 { end } else { i0 + 1 }
        }),
        !top ==> final(o).top == old(o).top,
        kept(old(o).b.sections@, final(o).b.sections@),
        defs_grow(old(o).defs.entries@, final(o).defs.entries@),
        top ==> ({
            &&& final(o).top@.len() == old(o).top@.len() + 1
            &&& final(o).top@.drop_last() == old(o).top@
            &&& final(o).top@.last() is Blockquote
        }),
        top && final(o).b.sections@.len() <= u32::MAX ==> kid_range(final(o).top@.last()) == Some(
            SectionRange {
                start: old(o).b.sections@.len() as u32,
                len: (final(o).b.sections@.len() - old(o).b.sections@.len()) as u32,
            },
        ),
        !top && final(o).b.sections@.len() < u32::MAX ==> (nested_plan(
            p.input,
            quote_lines(p.bytes@, lines@, i0 as int, i0 as int, false),
            0,
            false,
            fuel as int,
        ) matches Some(ks) ==> appended(old(o).b.sections@, final(o).b.sections@, seq![BlockKind::Quote] + ks)),
        top && final(o).b.sections@.len() < u32::MAX ==> (nested_plan(
            p.input,
            quote_lines_top(p.input, p.bytes@, lines@, i0 as int, false, None),
            0,
            false,
            fuel as int,
        ) matches Some(ks) ==> appended(old(o).b.sections@, final(o).b.sections@, ks)),
        !top && final(o).b.sections@.len() <= u32::MAX && old(o).b.sections@.len() < u32::MAX ==> ({
            let at = old(o).b.sections@.len() as int;
            &&& final(o).b.sections@[at] is Blockquote
            &&& kid_range(final(o).b.sections@[at]) == Some(
                SectionRange { start: (at + 1) as u32, len: (final(o).b.sections@.len() - at - 1) as u32 },
            )
        }),
    decreases fuel, 3int,
{
    let bytes = p.bytes;
    let n = lines.len();
    let mut nested: Vec<Line> = Vec::new();
    let mut last_para = false;
    let mut fence: Option<(u8, usize)> = None;
    let mut i = i0;
    let ghost whole = if top {
        quote_end_top(p.input, bytes@, lines@, i0 as int, false, None)
    } else {
        quote_end(bytes@, lines@, i0 as int, i0 as int, false)
    };
    let ghost whole_lines = if top {
        quote_lines_top(p.input, bytes@, lines@, i0 as int, false, None)
    } else {
        quote_lines(bytes@, lines@, i0 as int, i0 as int, false)
    };
    while i < n
        invariant
            whole == if top {
                quote_end_top(p.input, bytes@, lines@, i as int, last_para, fence)
            } else {
                quote_end(bytes@, lines@, i as int, i0 as int, last_para)
            },
            whole_lines == nested@ + if top {
                quote_lines_top(p.input, bytes@, lines@, i as int, last_para, fence)
            } else {
                quote_lines(bytes@, lines@, i as int, i0 as int, last_para)
            },
            !top ==> fence is None,
            i0 <= i <= n,
            n == lines@.len(),
            lines_in(lines@, p.bytes@.len() as int),
            lines_in(nested@, p.bytes@.len() as int),
            bytes == p.bytes,
            p.ok(),
        decreases n - i,
    {
        let l = lines[i];
        let q0 = spaces(bytes, l.start, l.end);
        let q = if q0 > 3 {
            3
        } else {
            q0
        };
        let b0 = l.start + q;
        if b0 < l.end && bytes[b0] == 62u8 {
            let mut c = b0 + 1;
            let mut pad: u8 = 0;
            if c < l.end && bytes[c] == 32u8 {
                c = c + 1;
            } else if top && c < l.end && bytes[c] == 9u8 {
                c = c + 1;
                pad = (3 - (q + 1) % 4) as u8;
            }
            if top {
                let (para, f) = quote_line_state(bytes, c, l.end, pad, last_para, fence);
                last_para = para;
                fence = f;
            } else {
                last_para = is_lazy_paragraph_tail(bytes, c, l.end);
            }
            nested.push(Line { start: c, end: l.end, pad, lazy: l.lazy });
            i = i + 1;
            continue;
        }
        let ind = spaces(bytes, l.start, l.end);
        if top {
            if last_para && fence.is_none() && !is_blank_range(bytes, l.start, l.end) {
                let (_, cols) = leading_indent(bytes, l, true);
                if cols >= 4 || !ends_quote_at(p, l.start + ind, l.end) {
                    nested.push(Line { start: l.start, end: l.end, pad: 0, lazy: true });
                    last_para = true;
                    i = i + 1;
                    continue;
                }
            }
        } else if i > i0 && last_para && !is_blank_range(bytes, l.start, l.end) && !begins_block(
            bytes,
            l.start + ind,
            l.end,
        ) {
            let t = trim_line(bytes, l);
            nested.push(Line { start: t.start, end: t.end, pad: 0, lazy: true });
            i = i + 1;
            continue;
        }
        break;
    }
    proof {
        let rest = if top {
            quote_lines_top(p.input, bytes@, lines@, i as int, last_para, fence)
        } else {
            quote_lines(bytes@, lines@, i as int, i0 as int, last_para)
        };
        assert(rest =~= Seq::<Line>::empty());
        assert(nested@ =~= whole_lines);
    }
    if i == i0 {
        i = i0 + 1;
    }
    let ghost q0 = o.b.sections@;
    let at = open_container(o, top, Ghost(p.input));
    let first_child = o.b.sections.len();
    let ghost q1 = o.b.sections@;
    resolve_blocks(p, o, &nested, false, collect, fuel);
    let ghost q2 = o.b.sections@;
    close_container(o, top, at, first_child, 0, None, true, Ghost(p.input));
    proof {
        if o.b.sections@.len() < u32::MAX {
            if let Some(ks) = nested_plan(p.input, nested@, 0, false, fuel as int) {
                if !top {
                    lemma_appended_wrap(q0, Section::HorizontalRule, q2, o.b.sections@[at as int], ks);
                    assert(o.b.sections@ == q2.update(at as int, o.b.sections@[at as int]));
                }
            }
        }
    }
    i
}

/// The paragraph and fence state inside a top-level blockquote after the
/// quoted content `bytes[s..e]`, as `quote_state` says.
fn quote_line_state(bytes: &[u8], s: usize, e: usize, pad: u8, para: bool, fence: Option<(u8, usize)>) -> (r: (bool, Option<(u8, usize)>))
    requires
        s <= e <= bytes@.len(),
    ensures
        r == quote_state(bytes@, s as int, e as int, pad as int, para, fence),
{
    let sp = spaces(bytes, s, e);
    match fence {
        Some((c, n)) => {
            let body = s + if sp > 3 {
                3
            } else {
                sp
            };
            if is_closing_fence(bytes, body, e, c, n) {
                (false, None)
            } else {
                (false, fence)
            }
        },
        None => {
            if is_blank_range(bytes, s, e) {
                return (false, None);
            }
            let (_, cols) = leading_indent(bytes, Line { start: s, end: e, pad, lazy: false }, true);
            let body = s + sp;
            if cols <= 3 {
                if let Some(f) = fence_open(bytes, body, e) {
                    return (false, Some(f));
                }
            }
            if cols >= 4 && !para {
                (false, None)
            } else if sp <= 3 && begins_block(bytes, body, e) {
                (is_lazy_paragraph_tail(bytes, body, e), None)
            } else {
                (true, None)
            }
        },
    }
}

/// Whether the top-level line content at `body` (after at most three
/// spaces) starts a block that ends a blockquote, as `ends_quote` says.
fn ends_quote_at(p: &InlineParser, body: usize, e: usize) -> (r: bool)
    requires
        p.ok(),
        body <= e <= p.bytes@.len(),
    ensures
        r == ends_quote(p.input, p.bytes@, body as int, e as int),
{
    let bytes = p.bytes;
    if fence_open(bytes, body, e).is_some() {
        return true;
    }
    let sub = vstd::slice::slice_subrange(bytes, body, e);
    proof {
        assert(sub@ == bytes@.subrange(body as int, e as int));
    }
    if sub.html_block_start(false).is_some() {
        return true;
    }
    if scan_link_def(p.input, body).is_some() {
        return true;
    }
    list_marker(bytes, body, e).is_some() || is_hr(bytes, body, e) || atx_heading(bytes, body, e).is_some()
}

/// Two list markers belong to the same list: the same bullet, or ordered
/// markers with the same delimiter.
spec fn same_family_spec(a: Marker, m: Marker) -> bool {
    match (a.ordered, m.ordered) {
        (None, None) => a.bullet == m.bullet,
        (Some((_, d1)), Some((_, d2))) => d1 == d2,
        _ => false,
    }
}

/// The state of a fenced code block after line content `b[s..e]` of a list
/// item: a fence (up to three spaces in) opens one, and inside one the
/// matching closing fence ends it.
spec fn fence_upd(b: Seq<u8>, s: int, e: int, st: Option<(u8, usize)>) -> Option<(u8, usize)> {
    let sp = run_to(b, s, e, is_byte(32u8)) - s;
    let body = s + if sp > 3 { 3 } else { sp };
    match st {
        Some((c, n)) => if closing_fence_spec(b, body, e, c, n as int) { None } else { st },
        None => match fence_spec(b, body, e) {
            Some((c, n)) => Some((c, n as usize)),
            None => None,
        },
    }
}

/// Update the fenced-code state of a list item with the line content
/// `bytes[s..e]`.
fn update_fence(bytes: &[u8], s: usize, e: usize, st: Option<(u8, usize)>) -> (r: Option<(u8, usize)>)
    requires
        s <= e <= bytes@.len(),
    ensures
        r == fence_upd(bytes@, s as int, e as int, st),
{
    let sp = spaces(bytes, s, e);
    let body = s + if sp > 3 {
        3
    } else {
        sp
    };
    match st {
        Some((c, n)) => if is_closing_fence(bytes, body, e, c, n) {
            None
        } else {
            st
        },
        None => fence_open(bytes, body, e),
    }
}

/// The state of a list item while its lines are collected.
struct ItemState {
    /// The item holds a line.
    pub nonempty: bool,
    /// Blank lines (outside fenced code) follow the item's last content line.
    pub blanks: bool,
    /// A sublist or quote is open inside the item, at relative column `sub_col`.
    pub sub_open: bool,
    pub sub_col: int,
    /// The fenced code block open inside the item.
    pub fence: Option<(u8, usize)>,
    /// The item is empty and a blank line followed: nothing else can join it.
    pub empty_then_blank: bool,
    /// The last line collected is paragraph text a lazy line may continue.
    pub last_para: bool,
    /// The last line collected is a blank line.
    pub trail: bool,
}

/// After a content line whose content starts at `s` (ends at `e`).
spec fn after_content(b: Seq<u8>, st: ItemState, s: int, e: int, sub_open: bool, sub_col: int) -> ItemState {
    ItemState {
        nonempty: true,
        blanks: false,
        sub_open,
        sub_col,
        fence: fence_upd(b, s, e, st.fence),
        empty_then_blank: st.empty_then_blank,
        last_para: true,
        trail: false,
    }
}

/// Where the scan of a line's leading spaces and tabs (from a tab stop)
/// reaches column `target`: `(index, column)`, walking every byte.
spec fn col_scan(b: Seq<u8>, i: int, e: int, col: int, target: int) -> (int, int)
    decreases e - i,
{
    if col < target && col < 0xffff_0000 && 0 <= i < e && i < b.len() {
        col_scan(b, i + 1, e, if b[i] == 9u8 { col + 4 - col % 4 } else { col + 1 }, target)
    } else {
        (i, col)
    }
}

/// Scan of a list item's continuation lines from line `i`, for content
/// column `col`, in state `st`: `(end, gap, trail)`. Blank lines, lines
/// indented to `col` (at top level also through tabs), and lazy
/// continuations of paragraph text (or, past three spaces but short of
/// `col`, a list marker, kept as text) belong to the item. An empty item
/// followed by a blank line takes nothing more; a list marker indented at
/// most three spaces, or any other line, ends the item. `gap` says whether a
/// blank line outside fenced code separates two of the item's own blocks
/// (lines inside a sublist or quote do not count); `trail` whether the item
/// ends in blank lines.
spec fn item_scan(b: Seq<u8>, lines: Seq<Line>, i: int, col: int, top: bool, st: ItemState) -> (int, bool, bool)
    decreases lines.len() - i,
{
    if 0 <= i < lines.len() {
        let c = lines[i];
        let cbody = run_to(b, c.start as int, c.end as int, is_byte(32u8));
        let cind = cbody - c.start;
        let ci = if c.pad + cind <= usize::MAX { c.pad + cind } else { usize::MAX as int };
        let cs = if col <= c.pad { c.start as int } else { c.start + (col - c.pad) };
        let lc = indent_scan(b, c.start as int, c.end as int, 0).1;
        let sl = strip_spec(b, Line { start: c.start, end: c.end, pad: 0, lazy: false }, col);
        if all_ws(b, c.start as int, c.end as int) {
            item_scan(
                b,
                lines,
                i + 1,
                col,
                top,
                ItemState {
                    nonempty: true,
                    blanks: st.blanks || st.fence is None,
                    empty_then_blank: st.empty_then_blank || (!st.nonempty && st.fence is None),
                    last_para: false,
                    trail: true,
                    ..st
                },
            )
        } else if top && cind < col && !st.empty_then_blank && lc >= col {
            let r = item_scan(b, lines, i + 1, col, top, after_content(b, st, sl.start as int, c.end as int, st.sub_open, st.sub_col));
            (r.0, st.blanks || r.1, r.2)
        } else if ci >= col {
            if st.empty_then_blank {
                (i, false, st.trail)
            } else {
                let dind = ci - col;
                let in_sub = st.sub_open && dind >= st.sub_col;
                let opens = (!thematic_break(b, cbody, c.end as int) && marker_spec(b, cbody, c.end as int) is Some)
                    || (cbody < c.end && b[cbody] == 62u8);
                let st2 = if in_sub {
                    after_content(b, st, cs, c.end as int, st.sub_open, st.sub_col)
                } else if opens {
                    after_content(b, st, cs, c.end as int, true, dind + 1)
                } else {
                    after_content(b, st, cs, c.end as int, false, st.sub_col)
                };
                let r = item_scan(b, lines, i + 1, col, top, st2);
                (r.0, (st.blanks && !in_sub) || r.1, r.2)
            }
        } else if ci <= 3 && marker_spec(b, cbody, c.end as int) is Some {
            (i, false, st.trail)
        } else if !st.blanks && st.last_para && st.nonempty && (!begins_block_spec(b, cbody, c.end as int) || (
        ci > 3 && !thematic_break(b, cbody, c.end as int) && marker_spec(b, cbody, c.end as int) is Some)) {
            item_scan(b, lines, i + 1, col, top, ItemState { trail: false, ..st })
        } else {
            (i, false, st.trail)
        }
    } else {
        (lines.len() as int, false, st.trail)
    }
}

proof fn lemma_item_scan_ge(b: Seq<u8>, lines: Seq<Line>, i: int, col: int, top: bool, st: ItemState)
    requires
        0 <= i <= lines.len(),
    ensures
        i <= item_scan(b, lines, i, col, top, st).0 <= lines.len(),
    decreases lines.len() - i,
{
    if i < lines.len() {
        let c = lines[i];
        let cbody = run_to(b, c.start as int, c.end as int, is_byte(32u8));
        let cind = cbody - c.start;
        let ci = if c.pad + cind <= usize::MAX { c.pad + cind } else { usize::MAX as int };
        let cs = if col <= c.pad { c.start as int } else { c.start + (col - c.pad) };
        let sl = strip_spec(b, Line { start: c.start, end: c.end, pad: 0, lazy: false }, col);
        let dind = ci - col;
        lemma_item_scan_ge(
            b,
            lines,
            i + 1,
            col,
            top,
            ItemState {
                nonempty: true,
                blanks: st.blanks || st.fence is None,
                empty_then_blank: st.empty_then_blank || (!st.nonempty && st.fence is None),
                last_para: false,
                trail: true,
                ..st
            },
        );
        lemma_item_scan_ge(b, lines, i + 1, col, top, after_content(b, st, sl.start as int, c.end as int, st.sub_open, st.sub_col));
        lemma_item_scan_ge(b, lines, i + 1, col, top, after_content(b, st, cs, c.end as int, st.sub_open, st.sub_col));
        lemma_item_scan_ge(b, lines, i + 1, col, top, after_content(b, st, cs, c.end as int, true, dind + 1));
        lemma_item_scan_ge(b, lines, i + 1, col, top, after_content(b, st, cs, c.end as int, false, st.sub_col));
        lemma_item_scan_ge(b, lines, i + 1, col, top, ItemState { trail: false, ..st });
    }
}

/// The content column of a list item whose marker of `width` bytes starts
/// after `ind` spaces and is followed by `sp` spaces: one past the marker when
/// no space, more than four spaces or nothing but spaces follow; otherwise
/// after the spaces.
spec fn item_col(ind: int, width: int, sp: int, rest_spaces: bool) -> int {
    if sp == 0 || sp > 4 || rest_spaces {
        if ind + width < usize::MAX { ind + width + 1 } else { ind + width }
    } else {
        ind + width + sp
    }
}

/// Where the content of a list item's first line `h` starts for content
/// column `col`: at top level the column is found by expanding tabs, a
/// straddled tab leaving synthetic pad; inside a container it is a byte
/// offset. `(start, pad)`.
spec fn first_content(b: Seq<u8>, h: Line, col: int, top: bool) -> (int, int) {
    if top {
        let (i, c) = col_scan(b, h.start as int, h.end as int, 0, col);
        (i, if c > col && c - col <= 255 { c - col } else { 0 })
    } else {
        (if h.start + col <= h.end { h.start + col } else { h.end as int }, 0)
    }
}

/// Scan of a list of the family of `fm` from line `i`: `(end, loose)`. Each
/// item starts at a marker of the family indented at most three spaces (and
/// not a thematic break) and continues as `item_scan` says. The list is
/// loose when blank lines separate two items (`pending`: the previous item
/// ended in blank lines) or two blocks of one item.
spec fn list_scan(b: Seq<u8>, lines: Seq<Line>, i: int, first: bool, fm: Marker, pending: bool, top: bool) -> (int, bool)
    decreases lines.len() - i,
{
    if 0 <= i < lines.len() {
        let h = lines[i];
        let body = run_to(b, h.start as int, h.end as int, is_byte(32u8));
        let ind = body - h.start;
        if ind > 3 || thematic_break(b, body, h.end as int) {
            (i, false)
        } else {
            match marker_spec(b, body, h.end as int) {
                None => (i, false),
                Some(m) => if !first && !same_family_spec(fm, m) {
                    (i, false)
                } else {
                    let after = body + m.width;
                    let sp = run_to(b, after, h.end as int, is_byte(32u8)) - after;
                    let col = item_col(ind, m.width as int, sp, after + sp == h.end);
                    let st = ItemState {
                        nonempty: first_content(b, h, col, top).0 < h.end,
                        blanks: false,
                        sub_open: false,
                        sub_col: 0,
                        fence: fence_upd(b, after, h.end as int, None),
                        empty_then_blank: false,
                        last_para: true,
                        trail: false,
                    };
                    let it = item_scan(b, lines, i + 1, col, top, st);
                    proof {
                        lemma_item_scan_ge(b, lines, i + 1, col, top, st);
                    }
                    let r = list_scan(b, lines, it.0, false, fm, it.2, top);
                    (r.0, pending || it.1 || r.1)
                },
            }
        }
    } else {
        (lines.len() as int, false)
    }
}

/// A scan of spaces and tabs toward column `n` stops at the latest at a byte
/// that is neither.
proof fn lemma_strip_scan_le(b: Seq<u8>, i: int, e: int, col: int, n: int, j: int)
    requires
        0 <= i <= j < e <= b.len(),
        b[j] != 32u8 && b[j] != 9u8,
    ensures
        strip_scan(b, i, e, col, n).0 <= j,
    decreases j - i,
{
    if i < j && col < n && col <= usize::MAX - 4 && (b[i] == 32u8 || b[i] == 9u8) {
        lemma_strip_scan_le(b, i + 1, e, if b[i] == 9u8 { col + 4 - col % 4 } else { col + 1 }, n, j);
    }
}

spec fn mk_state(
    nonempty: bool,
    blanks: bool,
    sub_open: bool,
    sub_col: int,
    fence: Option<(u8, usize)>,
    empty_then_blank: bool,
    last_para: bool,
    trail: bool,
) -> ItemState {
    ItemState { nonempty, blanks, sub_open, sub_col, fence, empty_then_blank, last_para, trail }
}

/// Walk `bytes[s..e]` from a tab stop until column `target` is reached,
/// expanding tabs: `(index, column)`.
fn column_at(bytes: &[u8], s: usize, e: usize, target: usize) -> (r: (usize, usize))
    requires
        s <= e <= bytes@.len(),
    ensures
        (r.0 as int, r.1 as int) == col_scan(bytes@, s as int, e as int, 0, target as int),
        s <= r.0 <= e,
{
    let mut i = s;
    let mut col: usize = 0;
    while col < target && col < 0xffff_0000 && i < e
        invariant
            s <= i <= e,
            e <= bytes@.len(),
            col < 0xffff_0004,
            col_scan(bytes@, s as int, e as int, 0, target as int) == col_scan(
                bytes@,
                i as int,
                e as int,
                col as int,
                target as int,
            ),
        decreases e - i,
    {
        if bytes[i] == 9u8 {
            col = col + 4 - (col % 4);
        } else {
            col = col + 1;
        }
        i = i + 1;
    }
    (i, col)
}

/// A top-level line that reaches a list item's content column `col` only
/// through tabs continues the item: its content starts past the stripped
/// columns, a straddled tab leaving pad.
fn tab_continuation(bytes: &[u8], cont: Line, col: usize, Ghost(j): Ghost<int>) -> (r: Option<Line>)
    requires
        cont.start <= j < cont.end <= bytes@.len(),
        !is_ws(bytes@[j]),
    ensures
        ({
            let lc = indent_scan(bytes@, cont.start as int, cont.end as int, 0).1;
            let sl = strip_spec(bytes@, Line { start: cont.start, end: cont.end, pad: 0, lazy: false }, col as int);
            &&& r is Some <==> lc >= col
            &&& r matches Some(x) ==> x == (Line { start: sl.start, end: cont.end, pad: sl.pad, lazy: false })
                && x.start < x.end && cont.start <= x.start
        }),
{
    let flat = Line { start: cont.start, end: cont.end, pad: 0, lazy: false };
    let (_, lc) = leading_indent(bytes, flat, true);
    if lc < col {
        return None;
    }
    let sl = strip_cols(bytes, flat, col);
    proof {
        if col > 0 {
            lemma_strip_scan_le(bytes@, cont.start as int, cont.end as int, 0, col as int, j);
        }
    }
    Some(sl)
}

/// Collect the continuation lines of a list item from line `i1` on, after the
/// item's first line (`item` holds its content, if any; `fence0` the fenced
/// code it opens); returns the item's lines, the index after them, whether a
/// blank line separates two of the item's own blocks, and whether the item
/// ends in blank lines.
#[verifier::loop_isolation(false)]
#[verifier::rlimit(50)]
fn item_lines(
    bytes: &[u8],
    lines: &Vec<Line>,
    i1: usize,
    col_bytes: usize,
    item: Vec<Line>,
    top: bool,
    fence0: Option<(u8, usize)>,
) -> (r: (Vec<Line>, usize, bool, bool))
    requires
        lines_in(lines@, bytes@.len() as int),
        lines_in(item@, bytes@.len() as int),
        i1 <= lines@.len(),
        col_bytes >= 1,
        item@.len() <= 1,
        item@.len() == 1 ==> item@[0].start < item@[0].end,
    ensures
        ({
            let sc = item_scan(
                bytes@,
                lines@,
                i1 as int,
                col_bytes as int,
                top,
                mk_state(item@.len() > 0, false, false, 0, fence0, false, true, false),
            );
            r.1 == sc.0 && r.2 == sc.1 && r.3 == sc.2
        }),
        i1 <= r.1 <= lines@.len(),
        lines_in(r.0@, bytes@.len() as int),
        r.0@.len() == 0 ==> !r.3,
        r.0@.len() > 0 ==> ((r.0@.last().start == r.0@.last().end) <==> r.3),
{
    let n = lines.len();
    let mut item = item;
    let ghost st0 = mk_state(item@.len() > 0, false, false, 0, fence0, false, true, false);
    let ghost start_scan = item_scan(bytes@, lines@, i1 as int, col_bytes as int, top, st0);
    let mut i = i1;
    let mut gap = false;
    let mut blanks = false;
    let mut sub_col: usize = 0;
    let mut in_sub_open = false;
    let mut fence = fence0;
    let mut etb = false;
    let mut last_para = true;
    let mut trail = false;
    while i < n
        invariant
            i1 <= i <= n,
            n == lines@.len(),
            lines_in(lines@, bytes@.len() as int),
            lines_in(item@, bytes@.len() as int),
            item@.len() == 0 ==> !trail,
            item@.len() > 0 ==> ((item@.last().start == item@.last().end) <==> trail),
            start_scan.0 == item_scan(bytes@, lines@, i as int, col_bytes as int, top, mk_state(item@.len() > 0, blanks, in_sub_open, sub_col as int, fence, etb, last_para, trail)).0,
            start_scan.2 == item_scan(bytes@, lines@, i as int, col_bytes as int, top, mk_state(item@.len() > 0, blanks, in_sub_open, sub_col as int, fence, etb, last_para, trail)).2,
            start_scan.1 == (gap || item_scan(bytes@, lines@, i as int, col_bytes as int, top, mk_state(item@.len() > 0, blanks, in_sub_open, sub_col as int, fence, etb, last_para, trail)).1),
        decreases n - i,
    {
        let cont = lines[i];
        if is_blank_range(bytes, cont.start, cont.end) {
            if item.len() == 0 && fence.is_none() {
                etb = true;
            }
            if fence.is_none() {
                blanks = true;
            }
            item.push(Line { start: cont.start, end: cont.start, pad: 0, lazy: false });
            last_para = false;
            trail = true;
            i = i + 1;
            continue;
        }
        let cind = spaces(bytes, cont.start, cont.end);
        let ghost j = choose|j: int| cont.start <= j < cont.end && !is_ws(#[trigger] bytes@[j]);
        proof {
            assert(!is_ws(bytes@[j]));
            assert(j >= cont.start + cind);
        }
        if top && cind < col_bytes && !etb {
            if let Some(sl) = tab_continuation(bytes, cont, col_bytes, Ghost(j)) {
                if blanks {
                    gap = true;
                }
                fence = update_fence(bytes, sl.start, cont.end, fence);
                item.push(sl);
                blanks = false;
                last_para = true;
                trail = false;
                i = i + 1;
                continue;
            }
        }
        let ci = cind.saturating_add(cont.pad as usize);
        if ci >= col_bytes {
            if etb {
                break;
            }
            let dind = ci - col_bytes;
            let inner = cont.start + cind;
            let in_sub = in_sub_open && dind >= sub_col;
            if blanks && !in_sub {
                gap = true;
            }
            if !in_sub {
                if (!is_hr(bytes, inner, cont.end) && list_marker(bytes, inner, cont.end).is_some())
                    || (inner < cont.end && bytes[inner] == 62u8) {
                    in_sub_open = true;
                    sub_col = dind + 1;
                } else {
                    in_sub_open = false;
                }
            }
            // The item's columns come off the synthetic pad first.
            let pad = cont.pad as usize;
            let (cs, cpad) = if col_bytes <= pad {
                (cont.start, (pad - col_bytes) as u8)
            } else {
                (cont.start + (col_bytes - pad), 0u8)
            };
            fence = update_fence(bytes, cs, cont.end, fence);
            item.push(Line { start: cs, end: cont.end, pad: cpad, lazy: cont.lazy });
            blanks = false;
            last_para = true;
            trail = false;
            i = i + 1;
            continue;
        }
        let cbody = cont.start + cind;
        let is_marker = list_marker(bytes, cbody, cont.end).is_some();
        if ci <= 3 && is_marker {
            break;
        }
        let dead_zone = ci > 3 && !is_hr(bytes, cbody, cont.end) && is_marker;
        if !blanks && last_para && item.len() > 0 && (!begins_block(bytes, cbody, cont.end) || dead_zone) {
            let t = if top {
                Line { start: cbody, end: cont.end, pad: 0, lazy: dead_zone }
            } else {
                let t = trim_line(bytes, cont);
                proof {
                    assert(!blank()(bytes@[j]));
                    lemma_run_to_le(bytes@, cont.start as int, j, cont.end as int, blank());
                    lemma_rrun_to_gt(bytes@, t.start as int, j, cont.end as int, blank());
                }
                Line { start: t.start, end: t.end, pad: 0, lazy: dead_zone }
            };
            item.push(t);
            trail = false;
            i = i + 1;
            continue;
        }
        break;
    }
    proof {
        lemma_item_scan_ge(bytes@, lines@, i1 as int, col_bytes as int, top, st0);
    }
    (item, i, gap, trail)
}

/// Drop the blank lines at the end of an item's lines; returns whether there
/// were any.
fn drop_trailing_blanks(item: &mut Vec<Line>, Ghost(n): Ghost<int>) -> (dropped: bool)
    requires
        lines_in(old(item)@, n),
    ensures
        lines_in(final(item)@, n),
        dropped == (old(item)@.len() > 0 && old(item)@.last().start == old(item)@.last().end),
{
    let ghost orig = item@;
    let mut dropped = false;
    while item.len() > 0 && item[item.len() - 1].start == item[item.len() - 1].end
        invariant
            lines_in(item@, n),
            item@.len() <= orig.len(),
            item@ == orig.subrange(0, item@.len() as int),
            item@.len() < orig.len() ==> orig.last().start == orig.last().end,
            dropped == (item@.len() < orig.len()),
        decreases item@.len(),
    {
        item.pop();
        dropped = true;
    }
    proof {
        if item@.len() == orig.len() && orig.len() > 0 {
            assert(item@.last() == orig.last());
        }
    }
    dropped
}

/// Collect a list starting at line `i`, split it into items, resolve each
/// item's children, and emit the list. Returns the next index.
#[verifier::loop_isolation(false)]
#[verifier::rlimit(80)]
fn build_list<'src>(p: &InlineParser<'src, '_>, o: &mut Out<'src>, lines: &Vec<Line>, i0: usize, top: bool, collect: bool, fuel: usize) -> (next: usize)
    requires
        p.ok(),
        old(o).wf(p.input),
        lines_in(lines@, p.bytes@.len() as int),
        i0 < lines@.len(),
    ensures
        final(o).wf(p.input),
        old(o).grown(final(o)),
        i0 < next <= lines@.len(),
        ({
            let l0 = lines@[i0 as int];
            match marker_spec(p.bytes@, run_to(p.bytes@, l0.start as int, l0.end as int, is_byte(32u8)), l0.end as int) {
                Some(fm) => {
                    let end = list_scan(p.bytes@, lines@, i0 as int, true, fm, false, top).0;
                    next == if end > i0 { end } else { i0 + 1 }
                },
                None => next == i0 + 1,
            }
        }),
        ({
            let l0 = lines@[i0 as int];
            marker_spec(p.bytes@, run_to(p.bytes@, l0.start as int, l0.end as int, is_byte(32u8)), l0.end as int)
                matches Some(fm) ==> {
                let tight = !list_scan(p.bytes@, lines@, i0 as int, true, fm, false, top).1;
                &&& top ==> list_shape(final(o).top@.last(), fm.ordered, tight)
                &&& !top && old(o).b.sections@.len() < u32::MAX ==> list_shape(
                    final(o).b.sections@[old(o).b.sections@.len() as int],
                    fm.ordered,
                    tight,
                )
            }
        }),
        !top ==> final(o).top == old(o).top,
        kept(old(o).b.sections@, final(o).b.sections@),
        defs_grow(old(o).defs.entries@, final(o).defs.entries@),
        top ==> ({
            let l0 = lines@[i0 as int];
            if marker_spec(p.bytes@, run_to(p.bytes@, l0.start as int, l0.end as int, is_byte(32u8)), l0.end as int) is Some {
                &&& final(o).top@.len() == old(o).top@.len() + 1
                &&& final(o).top@.drop_last() == old(o).top@
            } else {
                final(o).top == old(o).top
            }
        }),
        ({
            let l0 = lines@[i0 as int];
            let (n0, n1) = (old(o).b.sections@.len(), final(o).b.sections@.len());
            marker_spec(p.bytes@, run_to(p.bytes@, l0.start as int, l0.end as int, is_byte(32u8)), l0.end as int)
                is Some && n1 <= u32::MAX ==> {
                &&& top ==> kid_range(final(o).top@.last()) == Some(
                    SectionRange { start: n0 as u32, len: (n1 - n0) as u32 },
                )
                &&& !top && n0 < u32::MAX ==> kid_range(final(o).b.sections@[n0 as int]) == Some(
                    SectionRange { start: (n0 + 1) as u32, len: (n1 - n0 - 1) as u32 },
                )
            }
        }),
    decreases fuel, 3int,
{
    proof {
        lemma_defs_refl(o.defs.entries@);
    }
    let bytes = p.bytes;
    let n = lines.len();
    let l0 = lines[i0];
    let ind0 = spaces(bytes, l0.start, l0.end);
    let first_marker = match list_marker(bytes, l0.start + ind0, l0.end) {
        Some(m) => m,
        None => {
            return i0 + 1;
        },
    };
    let list_at = open_container(o, top, Ghost(p.input));
    proof {
        lemma_defs_refl(o.defs.entries@);
    }
    let items_start = o.b.sections.len();
    let ghost items_ok = !top ==> (items_start == list_at + 1 || list_at == u32::MAX);
    let ghost whole = list_scan(bytes@, lines@, i0 as int, true, first_marker, false, top);
    let mut loose = false;
    let mut i = i0;
    let mut pending = false;
    let mut first = true;
    while i < n
        invariant
            i0 <= i <= n,
            n == lines@.len(),
            lines_in(lines@, p.bytes@.len() as int),
            bytes == p.bytes,
            o.wf(p.input),
            old(o).grown(o),
            o.top == old(o).top,
            kept(old(o).b.sections@, o.b.sections@),
            defs_grow(old(o).defs.entries@, o.defs.entries@),
            list_at >= old(o).b.sections@.len(),
            top ==> items_start == old(o).b.sections@.len(),
            !top && old(o).b.sections@.len() < u32::MAX ==> list_at == old(o).b.sections@.len() && items_start
                == list_at + 1,
            items_start <= o.b.sections@.len(),
            list_at <= o.b.sections@.len(),
            items_ok,
            items_ok == (!top ==> (items_start == list_at + 1 || list_at == u32::MAX)),
            first ==> i == i0 && !pending && !loose,
            whole.0 == list_scan(bytes@, lines@, i as int, first, first_marker, pending, top).0,
            whole.1 == (loose || list_scan(bytes@, lines@, i as int, first, first_marker, pending, top).1),
        decreases n - i,
    {
        let head = lines[i];
        let ind = spaces(bytes, head.start, head.end);
        let body = head.start + ind;
        if ind > 3 || is_hr(bytes, body, head.end) {
            break;
        }
        let marker = match list_marker(bytes, body, head.end) {
            Some(m) => m,
            None => break,
        };
        if !first && !first_marker.same_family(marker) {
            break;
        }
        let ghost first_at_head = first;
        let ghost pending_at_head = pending;
        first = false;
        if pending {
            loose = true;
        }
        // Content column of this item.
        let after = body + marker.width;
        let sp = spaces(bytes, after, head.end);
        let col_bytes = if sp == 0 || sp > 4 || after + sp == head.end {
            let base = ind + marker.width;
            if base < usize::MAX {
                base + 1
            } else {
                base
            }
        } else {
            ind + marker.width + sp
        };
        let (cs, pad) = if top {
            let (ci, cc) = column_at(bytes, head.start, head.end, col_bytes);
            let pad: u8 = if cc > col_bytes && cc - col_bytes <= 255 {
                (cc - col_bytes) as u8
            } else {
                0
            };
            (ci, pad)
        } else {
            (if col_bytes <= head.end - head.start {
                head.start + col_bytes
            } else {
                head.end
            }, 0u8)
        };
        let fence0 = update_fence(bytes, after, head.end, None);
        let mut item: Vec<Line> = Vec::new();
        if cs < head.end {
            item.push(Line { start: cs, end: head.end, pad, lazy: head.lazy });
        }
        let ghost head_i = i;
        let (mut item, next_i, gap, trail) = item_lines(bytes, lines, i + 1, col_bytes, item, top, fence0);
        i = next_i;
        if gap {
            loose = true;
        }
        // Trailing blank lines belong to the list, not the item.
        pending = drop_trailing_blanks(&mut item, Ghost(bytes@.len() as int));
        proof {
            assert(pending == trail);
            assert(list_scan(bytes@, lines@, head_i as int, first_at_head, first_marker, pending_at_head, top).0 == list_scan(
                bytes@,
                lines@,
                i as int,
                false,
                first_marker,
                trail,
                top,
            ).0);
            assert(list_scan(bytes@, lines@, head_i as int, first_at_head, first_marker, pending_at_head, top).1 == (
                pending_at_head || gap || list_scan(bytes@, lines@, i as int, false, first_marker, trail, top).1));
        }
        let item_at = open_container(o, false, Ghost(p.input));
        let first_child = o.b.sections.len();
        let ghost d0 = o.defs.entries@;
        resolve_blocks(p, o, &item, false, collect, fuel);
        proof {
            lemma_defs_trans(old(o).defs.entries@, d0, o.defs.entries@);
        }
        close_container(o, false, item_at, first_child, 1, None, true, Ghost(p.input));
    }
    proof {
        assert(list_scan(bytes@, lines@, i as int, first, first_marker, pending, top) == (i as int, false));
    }
    if i == i0 {
        i = i0 + 1;
    }
    close_container(o, top, list_at, items_start, 2, first_marker.ordered, !loose, Ghost(p.input));
    i
}

} // verus!
