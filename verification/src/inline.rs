use vstd::prelude::*;
use crate::doc::{inline_ok, span_within, Builder};
use crate::link_def::{defs_borrow, normalize_label, registry_lookup, spec_normalize_label, LinkDefs};
use vstd::utf8::{decode_utf8, encode_utf8_decode_utf8};
use crate::raw_html::{inline_html_fn, not_byte, HtmlScan};
use crate::section::InlineSpan;
use crate::text::{all_ws, sliceable, ascii_alnum, ascii_alpha, ascii_punct, ascii_ws, blank, borrowed_from, is_alnum, lemma_rrun_to, rrun_to, is_alpha, is_byte, is_punct, is_ws, lemma_run_to, lemma_run_to_from, run_to, lemma_borrowed_intro, opt_borrowed_from, sbytes, str_get};

verus! {

/// An inline element within a Markdown block.
#[derive(Debug, Clone, Copy, PartialEq, Eq)]
pub enum Inline<'src> {
    Text(&'src str),
    Bold(InlineSpan),
    Italic(InlineSpan),
    Link { text: InlineSpan, url: &'src str, title: Option<&'src str> },
    /// The alt text is parsed as inlines; the renderer flattens it to text.
    Image { alt: InlineSpan, url: &'src str, title: Option<&'src str> },
    Code(&'src str),
    /// An autolink `<uri>` or `<email>`; `is_email` adds the `mailto:` scheme.
    Autolink { target: &'src str, is_email: bool },
    /// Raw inline HTML, emitted verbatim.
    RawHtml(&'src str),
    SoftBreak,
    HardBreak,
}

/// Sentinel for "no node / no link" in the index-based linked lists.
const NIL: usize = usize::MAX;

/// Nested inline contexts (link text, image alt) deeper than this are kept as
/// plain text.
pub const MAX_INLINE_DEPTH: u8 = 16;

/// A node in the inline list processed by the emphasis resolver.
#[derive(Clone, Copy)]
enum EmphKind<'src> {
    /// Literal text `lo..hi` of the input; may merge with an adjacent run.
    Text { lo: usize, hi: usize },
    /// A backslash-escaped character: kept as its own text node.
    Lit { lo: usize, hi: usize },
    /// A fully-resolved inline element.
    Resolved(Inline<'src>),
    /// Emphasis or strong emphasis over the child list starting at `head`.
    Emph { strong: bool, head: usize },
    /// An unlinked node; never emitted.
    Removed,
}

#[derive(Clone, Copy)]
struct EmphNode<'src> {
    kind: EmphKind<'src>,
    prev: usize,
    next: usize,
}

/// A run of `*` or `_` that may open and/or close emphasis.
#[derive(Clone, Copy)]
struct EmphDelim {
    node: usize,
    ch: u8,
    count: usize,
    orig: usize,
    can_open: bool,
    can_close: bool,
    prev: usize,
    next: usize,
}

/// Working state for one emphasis-resolution pass over one inline context.
struct EmphArena<'src> {
    nodes: Vec<EmphNode<'src>>,
    delims: Vec<EmphDelim>,
    head: usize,
    tail: usize,
    delim_top: usize,
}

spec fn kind_ok(k: EmphKind, plen: int, src: &str) -> bool {
    match k {
        EmphKind::Resolved(x) => inline_ok(x, plen, src),
        _ => true,
    }
}

/// The nodes form one list in index order: it starts at node 0 (`head`),
/// each node's `next` is the following index, and the last node (`tail`)
/// ends it.
spec fn chain(a: &EmphArena) -> bool {
    &&& a.nodes@.len() < NIL
    &&& a.nodes@.len() == 0 ==> a.head == NIL && a.tail == NIL
    &&& a.nodes@.len() > 0 ==> a.head == 0 && a.tail == a.nodes@.len() - 1 && a.nodes@.last().next == NIL
    &&& forall|i: int| 0 <= i < a.nodes@.len() - 1 ==> (#[trigger] a.nodes@[i]).next == i + 1
}

/// A node of a plain run: text, or a soft line break.
spec fn plain_kind(k: EmphKind) -> bool {
    k is Text || k matches EmphKind::Resolved(Inline::SoftBreak)
}

/// What a plain run of nodes shows, element by element: `None` for a soft
/// break, and the byte range of each text that is not empty and is a slice
/// of whole characters (other texts show nothing).
spec fn emitted_shape(src: &str, ks: Seq<EmphKind>) -> Seq<Option<(int, int)>>
    decreases ks.len(),
{
    if ks.len() == 0 {
        Seq::empty()
    } else {
        emitted_shape(src, ks.drop_last()) + match ks.last() {
            EmphKind::Text { lo, hi } => if lo < hi && sliceable(src, lo as int, hi as int) {
                seq![Some((lo as int, hi as int))]
            } else {
                Seq::empty()
            },
            _ => seq![None],
        }
    }
}

/// The inline elements `items` are, one for one, what `shape` describes: a
/// soft break for `None`, and for a byte range a text element holding those
/// bytes of `src`.
pub open spec fn shows_plain(src: &str, items: Seq<Inline>, shape: Seq<Option<(int, int)>>) -> bool {
    &&& items.len() == shape.len()
    &&& forall|k: int|
        #![trigger items[k]]
        0 <= k < items.len() ==> match shape[k] {
            None => items[k] == Inline::SoftBreak,
            Some((lo, hi)) => items[k] matches Inline::Text(t) && sbytes(t) == sbytes(src).subrange(lo, hi),
        }
}

spec fn pieces_plain(src: &str, run: Seq<Piece>, shape: Seq<Option<(int, int)>>) -> bool {
    &&& run.len() == shape.len()
    &&& forall|k: int|
        #![trigger run[k]]
        0 <= k < run.len() ==> match shape[k] {
            None => run[k].item == Inline::SoftBreak,
            Some((lo, hi)) => run[k].item matches Inline::Text(t) && sbytes(t) == sbytes(src).subrange(lo, hi),
        }
}

/// What paragraph lines without special bytes become, element by element:
/// the text of each line that is not empty and is a slice of whole
/// characters, the lines separated by soft breaks (`None`).
pub open spec fn plain_lines_shape(src: &str, lines: Seq<(usize, usize)>) -> Seq<Option<(int, int)>>
    decreases lines.len(),
{
    if lines.len() == 0 {
        Seq::empty()
    } else {
        let (lo, hi) = lines.last();
        plain_lines_shape(src, lines.drop_last()) + (if lines.len() > 1 {
            seq![None]
        } else {
            Seq::empty()
        }) + (if lo < hi && sliceable(src, lo as int, hi as int) {
            seq![Some((lo as int, hi as int))]
        } else {
            Seq::empty()
        })
    }
}

spec fn node_kinds(nodes: Seq<EmphNode>) -> Seq<EmphKind> {
    nodes.map_values(|n: EmphNode| n.kind)
}

/// The delimiter stack holds exactly an opener and, after it, a closer of
/// the same character (each usable only that way), over text nodes of the
/// list: the simplest case in which emphasis is made.
spec fn simple_pair(a: &EmphArena) -> bool {
    let d = a.delims@;
    &&& d.len() == 2
    &&& a.delim_top == 1
    &&& d[0].prev == NIL && d[0].next == 1 && d[1].prev == 0
    &&& d[0].can_open && !d[0].can_close
    &&& d[1].can_close && !d[1].can_open
    &&& d[0].ch == d[1].ch
    &&& d[0].count >= 1 && d[1].count >= 1
    &&& d[0].node < a.nodes@.len() && d[1].node < a.nodes@.len()
}

/// The two node lists are as long and hold the same kinds, position by
/// position (links may differ).
spec fn same_kinds(a: Seq<EmphNode>, b: Seq<EmphNode>) -> bool {
    &&& a.len() == b.len()
    &&& forall|k: int| #![trigger a[k]] #![trigger b[k]] 0 <= k < a.len() ==> a[k].kind == b[k].kind
}

spec fn arena_ok(a: &EmphArena, plen: int, src: &str) -> bool {
    forall|i: int| 0 <= i < a.nodes@.len() ==> kind_ok(#[trigger] a.nodes@[i].kind, plen, src)
}

proof fn lemma_inline_ok_mono(x: Inline, p1: int, p2: int, src: &str)
    requires
        inline_ok(x, p1, src),
        p1 <= p2,
    ensures
        inline_ok(x, p2, src),
{
}

proof fn lemma_arena_ok_mono(a: &EmphArena, p1: int, p2: int, src: &str)
    requires
        arena_ok(a, p1, src),
        p1 <= p2,
    ensures
        arena_ok(a, p2, src),
{
    assert forall|i: int| 0 <= i < a.nodes@.len() implies kind_ok(
        #[trigger] a.nodes@[i].kind,
        p2,
        src,
    ) by {
        if let EmphKind::Resolved(x) = a.nodes@[i].kind {
            lemma_inline_ok_mono(x, p1, p2, src);
        }
    }
}

impl<'src> EmphArena<'src> {
    fn new() -> (a: Self)
        ensures
            a.nodes@.len() == 0,
            chain(&a),
    {
        EmphArena { nodes: Vec::new(), delims: Vec::new(), head: NIL, tail: NIL, delim_top: NIL }
    }

    fn update_node(&mut self, i: usize, n: EmphNode<'src>, Ghost(plen): Ghost<int>, Ghost(src): Ghost<&str>)
        requires
            arena_ok(old(self), plen, src),
            kind_ok(n.kind, plen, src),
        ensures
            arena_ok(final(self), plen, src),
            final(self).nodes@.len() == old(self).nodes@.len(),
            i < old(self).nodes@.len() ==> final(self).nodes@ == old(self).nodes@.update(i as int, n),
            i >= old(self).nodes@.len() ==> final(self).nodes@ == old(self).nodes@,
            final(self).head == old(self).head,
            final(self).tail == old(self).tail,
            final(self).delims == old(self).delims,
    {
        if i < self.nodes.len() {
            let ghost prev = self.nodes@;
            self.nodes.set(i, n);
            proof {
                assert forall|j: int| 0 <= j < self.nodes@.len() implies kind_ok(
                    #[trigger] self.nodes@[j].kind,
                    plen,
                    src,
                ) by {
                    if j != i {
                        assert(self.nodes@[j] == prev[j]);
                    }
                }
            }
        }
    }

    fn node_next(&self, i: usize) -> (r: usize)
        ensures
            r == (if i < self.nodes@.len() { self.nodes@[i as int].next } else { NIL }),
    {
        if i < self.nodes.len() {
            self.nodes[i].next
        } else {
            NIL
        }
    }

    fn set_next(&mut self, i: usize, v: usize, Ghost(plen): Ghost<int>, Ghost(src): Ghost<&str>)
        requires
            arena_ok(old(self), plen, src),
        ensures
            arena_ok(final(self), plen, src),
            same_kinds(old(self).nodes@, final(self).nodes@),
            final(self).head == old(self).head,
            final(self).tail == old(self).tail,
            i < old(self).nodes@.len() ==> final(self).nodes@ == old(self).nodes@.update(
                i as int,
                EmphNode { kind: old(self).nodes@[i as int].kind, prev: old(self).nodes@[i as int].prev, next: v },
            ),
            i >= old(self).nodes@.len() ==> final(self).nodes@ == old(self).nodes@,
            final(self).delims == old(self).delims,
    {
        if i < self.nodes.len() {
            let mut n = self.nodes[i];
            n.next = v;
            self.update_node(i, n, Ghost(plen), Ghost(src));
        }
    }

    fn set_prev(&mut self, i: usize, v: usize, Ghost(plen): Ghost<int>, Ghost(src): Ghost<&str>)
        requires
            arena_ok(old(self), plen, src),
        ensures
            arena_ok(final(self), plen, src),
            same_kinds(old(self).nodes@, final(self).nodes@),
            final(self).delims == old(self).delims,
    {
        if i < self.nodes.len() {
            let mut n = self.nodes[i];
            n.prev = v;
            self.update_node(i, n, Ghost(plen), Ghost(src));
        }
    }

    /// Append a node to the end of the top-level list, returning its index.
    fn push_node(&mut self, kind: EmphKind<'src>, Ghost(plen): Ghost<int>, Ghost(src): Ghost<&str>) -> (idx: usize)
        requires
            arena_ok(old(self), plen, src),
            kind_ok(kind, plen, src),
        ensures
            arena_ok(final(self), plen, src),
            final(self).nodes@.len() == old(self).nodes@.len() + 1,
            final(self).nodes@.last().kind == kind,
            same_kinds(old(self).nodes@, final(self).nodes@.drop_last()),
            chain(old(self)) && old(self).nodes@.len() + 1 < NIL ==> chain(final(self)),
    {
        let idx = self.nodes.len();
        let prev = self.tail;
        let ghost before = self.nodes@;
        self.nodes.push(EmphNode { kind, prev, next: NIL });
        proof {
            assert forall|j: int| 0 <= j < self.nodes@.len() implies kind_ok(
                #[trigger] self.nodes@[j].kind,
                plen,
                src,
            ) by {
                if j < before.len() {
                    assert(self.nodes@[j] == before[j]);
                }
            }
        }
        let ghost mid = self.nodes@;
        if prev == NIL {
            self.head = idx;
        } else {
            self.set_next(prev, idx, Ghost(plen), Ghost(src));
        }
        proof {
            assert(self.nodes@[idx as int].kind == mid[idx as int].kind);
            assert forall|k: int| 0 <= k < before.len() implies (#[trigger] before[k]).kind == self.nodes@.drop_last()[k].kind by {
                assert(self.nodes@[k].kind == mid[k].kind);
                assert(mid[k] == before[k]);
            }
        }
        self.tail = idx;
        idx
    }

    /// Allocate a node without linking it into the top-level list.
    fn push_detached(&mut self, kind: EmphKind<'src>, Ghost(plen): Ghost<int>, Ghost(src): Ghost<&str>) -> (idx: usize)
        requires
            arena_ok(old(self), plen, src),
            kind_ok(kind, plen, src),
        ensures
            arena_ok(final(self), plen, src),
            idx == old(self).nodes@.len(),
            final(self).nodes@ == old(self).nodes@.push(EmphNode { kind, prev: NIL, next: NIL }),
            final(self).delims == old(self).delims,
    {
        let idx = self.nodes.len();
        let ghost before = self.nodes@;
        self.nodes.push(EmphNode { kind, prev: NIL, next: NIL });
        proof {
            assert forall|j: int| 0 <= j < self.nodes@.len() implies kind_ok(
                #[trigger] self.nodes@[j].kind,
                plen,
                src,
            ) by {
                if j < before.len() {
                    assert(self.nodes@[j] == before[j]);
                }
            }
        }
        idx
    }

    /// Push a delimiter run: its text node and a delimiter-stack entry.
    fn push_delim(&mut self, lo: usize, hi: usize, ch: u8, can_open: bool, can_close: bool, Ghost(plen): Ghost<int>, Ghost(src): Ghost<&str>)
        requires
            arena_ok(old(self), plen, src),
            lo <= hi,
        ensures
            arena_ok(final(self), plen, src),
    {
        let node = self.push_node(EmphKind::Text { lo, hi }, Ghost(plen), Ghost(src));
        let idx = self.delims.len();
        let prev = self.delim_top;
        let count = hi - lo;
        self.delims.push(
            EmphDelim { node, ch, count, orig: count, can_open, can_close, prev, next: NIL },
        );
        if prev < self.delims.len() {
            let mut d = self.delims[prev];
            d.next = idx;
            self.delims.set(prev, d);
        }
        self.delim_top = idx;
    }

    /// Unlink a node from the top-level list.
    fn unlink_node(&mut self, idx: usize, Ghost(plen): Ghost<int>, Ghost(src): Ghost<&str>)
        requires
            arena_ok(old(self), plen, src),
        ensures
            arena_ok(final(self), plen, src),
            final(self).nodes@.len() == old(self).nodes@.len(),
            forall|k: int| 0 <= k < old(self).nodes@.len() && k != idx ==> (#[trigger] final(self).nodes@[k]).kind == old(self).nodes@[k].kind,
            final(self).delims == old(self).delims,
    {
        if idx >= self.nodes.len() {
            return;
        }
        let prev = self.nodes[idx].prev;
        let next = self.nodes[idx].next;
        if prev == NIL {
            self.head = next;
        } else {
            self.set_next(prev, next, Ghost(plen), Ghost(src));
        }
        if next == NIL {
            self.tail = prev;
        } else {
            self.set_prev(next, prev, Ghost(plen), Ghost(src));
        }
        let mut n = self.nodes[idx];
        n.kind = EmphKind::Removed;
        self.update_node(idx, n, Ghost(plen), Ghost(src));
    }

    fn delim_prev(&self, i: usize) -> (r: usize)
        ensures
            r == (if i < self.delims@.len() { self.delims@[i as int].prev } else { NIL }),
    {
        if i < self.delims.len() {
            self.delims[i].prev
        } else {
            NIL
        }
    }

    fn delim_next(&self, i: usize) -> (r: usize)
        ensures
            r == (if i < self.delims@.len() { self.delims@[i as int].next } else { NIL }),
    {
        if i < self.delims.len() {
            self.delims[i].next
        } else {
            NIL
        }
    }

    fn set_delim_next(&mut self, i: usize, v: usize)
        ensures
            final(self).nodes == old(self).nodes,
            final(self).delims@.len() == old(self).delims@.len(),
            forall|j: int| 0 <= j < old(self).delims@.len() ==> (#[trigger] final(self).delims@[j]).node == old(self).delims@[j].node,
    {
        if i < self.delims.len() {
            let mut d = self.delims[i];
            d.next = v;
            self.delims.set(i, d);
        }
    }

    fn set_delim_prev(&mut self, i: usize, v: usize)
        ensures
            final(self).nodes == old(self).nodes,
            final(self).delims@.len() == old(self).delims@.len(),
            forall|j: int| 0 <= j < old(self).delims@.len() ==> (#[trigger] final(self).delims@[j]).node == old(self).delims@[j].node,
    {
        if i < self.delims.len() {
            let mut d = self.delims[i];
            d.prev = v;
            self.delims.set(i, d);
        }
    }

    /// Remove a delimiter from the delimiter stack (node list untouched).
    fn remove_delim(&mut self, idx: usize)
        ensures
            final(self).nodes == old(self).nodes,
            final(self).delims@.len() == old(self).delims@.len(),
            forall|j: int| 0 <= j < old(self).delims@.len() ==> (#[trigger] final(self).delims@[j]).node == old(self).delims@[j].node,
    {
        if idx >= self.delims.len() {
            return;
        }
        let prev = self.delims[idx].prev;
        let next = self.delims[idx].next;
        if prev != NIL {
            self.set_delim_next(prev, next);
        }
        if next == NIL {
            self.delim_top = prev;
        } else {
            self.set_delim_prev(next, prev);
        }
    }

    /// Drop stack entries strictly between `bottom` and `top`.
    fn remove_delims_between(&mut self, bottom: usize, top: usize)
        ensures
            final(self).nodes == old(self).nodes,
            final(self).delims@.len() == old(self).delims@.len(),
            forall|j: int| 0 <= j < old(self).delims@.len() ==> (#[trigger] final(self).delims@[j]).node == old(self).delims@[j].node,
    {
        if self.delim_next(bottom) != top {
            self.set_delim_next(bottom, top);
            self.set_delim_prev(top, bottom);
        }
    }

    /// Shorten a delimiter run's text node by `used` characters from its end
    /// (opener) or its start (closer).
    fn shorten_text(&mut self, node: usize, used: usize, from_start: bool, Ghost(plen): Ghost<int>, Ghost(src): Ghost<&str>)
        requires
            arena_ok(old(self), plen, src),
        ensures
            arena_ok(final(self), plen, src),
            final(self).nodes@.len() == old(self).nodes@.len(),
            forall|k: int| 0 <= k < old(self).nodes@.len() && (old(self).nodes@[k].kind is Emph || k != node) ==> (
            #[trigger] final(self).nodes@[k]).kind == old(self).nodes@[k].kind,
            final(self).delims == old(self).delims,
    {
        if node >= self.nodes.len() {
            return;
        }
        let mut n = self.nodes[node];
        if let EmphKind::Text { lo, hi } = n.kind {
            let len = if hi >= lo {
                hi - lo
            } else {
                0
            };
            let u = if used <= len {
                used
            } else {
                len
            };
            n.kind = if from_start {
                EmphKind::Text { lo: lo + u, hi }
            } else {
                EmphKind::Text { lo, hi: hi - u }
            };
            self.update_node(node, n, Ghost(plen), Ghost(src));
        }
    }

    /// Resolve emphasis over the delimiter stack (`CommonMark` §6.2,
    /// "process emphasis" with an empty stack bottom). Afterwards the list
    /// from `head` is the final inline sequence, with `Emph` nodes wrapping
    /// their children.
    #[verifier::loop_isolation(false)]
    fn process_emphasis(&mut self, budget: usize, Ghost(plen): Ghost<int>, Ghost(src): Ghost<&str>)
        requires
            arena_ok(old(self), plen, src),
        ensures
            arena_ok(final(self), plen, src),
            simple_pair(old(self)) && budget >= 2 ==> ({
                let n0 = old(self).nodes@.len() as int;
                let d = old(self).delims@;
                &&& final(self).nodes@.len() > n0
                &&& final(self).nodes@[n0].kind matches EmphKind::Emph { strong, .. }
                &&& strong == (d[0].count >= 2 && d[1].count >= 2)
            }),
    {
        let mut openers_bottom: [usize; 12] = [NIL; 12];
        let mut closer = self.delim_top;
        let ghost hyp = simple_pair(old(self)) && budget >= 2;
        let ghost n0 = old(self).nodes@.len() as int;
        let ghost strong0 = old(self).delims@[0].count >= 2 && old(self).delims@[1].count >= 2;
        let ghost mut matched = false;
        if closer == NIL {
            return;
        }
        let mut steps: usize = self.delims.len();
        while self.delim_prev(closer) != NIL && steps > 0
            invariant
                arena_ok(self, plen, src),
                hyp ==> (closer == 1 && steps == 2) || (closer == 0 && steps == 1),
            decreases steps,
        {
            closer = self.delim_prev(closer);
            steps = steps - 1;
        }
        let mut fuel = budget;
        while closer != NIL && fuel > 0
            invariant
                arena_ok(self, plen, src),
                hyp ==> self.nodes@.len() >= n0 && self.delims@.len() == 2,
                hyp ==> self.delims@[0].node == old(self).delims@[0].node && self.delims@[1].node == old(self).delims@[1].node,
                hyp && matched ==> self.nodes@.len() > n0 && (self.nodes@[n0].kind matches EmphKind::Emph { strong, .. } && strong
                    == strong0),
                hyp && !matched ==> *self == *old(self) && ((closer == 0 && fuel == budget) || (closer == 1 && fuel + 1 == budget))
                    && forall|j: int| 0 <= j < 12 ==> openers_bottom[j] == NIL,
            decreases fuel,
        {
            fuel = fuel - 1;
            if closer >= self.delims.len() {
                break;
            }
            let cd = self.delims[closer];
            if !cd.can_close {
                closer = cd.next;
                continue;
            }
            let cc = cd.ch;
            let closer_orig3 = cd.orig % 3;
            let base: usize = if cc == 95u8 {
                0
            } else {
                6
            };
            let ob_index: usize = base + (if cd.can_open {
                3
            } else {
                0
            }) + closer_orig3;
            let mut opener = cd.prev;
            let mut opener_found = false;
            let mut search: usize = self.delims.len();
            while opener != NIL && opener != openers_bottom[ob_index] && search > 0
                invariant
                    ob_index < 12,
                    hyp && !matched ==> opener == 0 && !opener_found && search == 2,
                decreases search,
            {
                search = search - 1;
                if opener >= self.delims.len() {
                    opener = NIL;
                    break;
                }
                let od = self.delims[opener];
                let odd_match = (cd.can_open || od.can_close) && closer_orig3 != 0 && (od.orig % 3
                    + closer_orig3) % 3 == 0;
                if od.ch == cc && od.can_open && !odd_match {
                    opener_found = true;
                    break;
                }
                opener = od.prev;
            }
            let old_closer = closer;
            if opener_found && opener < self.delims.len() {
                let od = self.delims[opener];
                let use_delims: usize = if cd.count >= 2 && od.count >= 2 {
                    2
                } else {
                    1
                };
                let opener_node = od.node;
                let closer_node = cd.node;
                proof {
                    if hyp {
                        assert(opener == 0 || opener == 1);
                        assert(closer == 0 || closer == 1);
                        assert(opener_node < n0 && closer_node < n0);
                    }
                }
                let mut od2 = od;
                od2.count = if od.count >= use_delims {
                    od.count - use_delims
                } else {
                    0
                };
                self.delims.set(opener, od2);
                let mut cd2 = self.delims[closer];
                cd2.count = if cd2.count >= use_delims {
                    cd2.count - use_delims
                } else {
                    0
                };
                self.delims.set(closer, cd2);
                self.shorten_text(opener_node, use_delims, false, Ghost(plen), Ghost(src));
                self.shorten_text(closer_node, use_delims, true, Ghost(plen), Ghost(src));
                // Gather the nodes strictly between opener and closer under a
                // new emphasis node spliced in after the opener.
                let head = self.node_next(opener_node);
                let strong = use_delims == 2;
                let emph = self.push_detached(
                    EmphKind::Emph { strong, head },
                    Ghost(plen),
                    Ghost(src),
                );
                proof {
                    if hyp && !matched {
                        assert(emph == n0);
                        matched = true;
                    }
                }
                let mut last_child = NIL;
                let mut t = head;
                let mut walk: usize = self.nodes.len();
                while t != NIL && t != closer_node && walk > 0
                    invariant
                        arena_ok(self, plen, src),
                    decreases walk,
                {
                    walk = walk - 1;
                    last_child = t;
                    t = self.node_next(t);
                }
                if last_child != NIL {
                    self.set_next(last_child, NIL, Ghost(plen), Ghost(src));
                }
                self.set_next(opener_node, emph, Ghost(plen), Ghost(src));
                self.set_prev(emph, opener_node, Ghost(plen), Ghost(src));
                self.set_next(emph, closer_node, Ghost(plen), Ghost(src));
                self.set_prev(closer_node, emph, Ghost(plen), Ghost(src));
                self.remove_delims_between(opener, closer);
                if od2.count == 0 {
                    self.unlink_node(opener_node, Ghost(plen), Ghost(src));
                    self.remove_delim(opener);
                }
                if cd2.count == 0 {
                    self.unlink_node(closer_node, Ghost(plen), Ghost(src));
                    let next = self.delim_next(closer);
                    self.remove_delim(closer);
                    closer = next;
                }
            } else {
                closer = cd.next;
                openers_bottom[ob_index] = self.delim_prev(old_closer);
                if !cd.can_open {
                    self.remove_delim(old_closer);
                }
            }
        }
    }
}

/// One entry of an emission run: the element plus, for text, its byte range
/// (so an adjacent run can be merged into it).
struct Piece<'src> {
    item: Inline<'src>,
    range: Option<(usize, usize)>,
    escaped_amp: bool,
}

/// A backslash escape of ASCII punctuation at `j`, inside `..hi`.
pub open spec fn esc_at(b: Seq<u8>, j: int, hi: int) -> bool {
    0 <= j && j + 1 < hi && j + 1 < b.len() && b[j] == 92u8 && is_punct(b[j + 1])
}

/// The closing backtick run of length `n` found from `i` (before `hi`): its
/// start.
pub open spec fn code_close(b: Seq<u8>, i: int, hi: int, n: int) -> Option<int>
    decreases hi - i,
{
    let pos = run_to(b, i, hi, not_byte(96u8));
    if i < 0 || pos >= hi {
        None
    } else {
        let m = run_to(b, pos, hi, is_byte(96u8)) - pos;
        if m == n {
            Some(pos)
        } else if m > 0 && i < pos + m <= hi {
            code_close(b, pos + m, hi, n)
        } else {
            None
        }
    }
}

/// A code span at `start` (`CommonMark` §6.1): a backtick run, then the first
/// backtick run of the same length. `(content_start, content_end, end)`.
pub open spec fn code_span(b: Seq<u8>, start: int, hi: int) -> Option<(int, int, int)> {
    let n = run_to(b, start, hi, is_byte(96u8)) - start;
    if start > hi || n == 0 {
        None
    } else {
        match code_close(b, start + n, hi, n) {
            Some(p) => Some((start + n, p, p + n)),
            None => None,
        }
    }
}

pub open spec fn scheme_char() -> spec_fn(u8) -> bool {
    |c: u8| is_alnum(c) || c == 43u8 || c == 46u8 || c == 45u8
}

pub open spec fn uri_char() -> spec_fn(u8) -> bool {
    |c: u8| c != 62u8 && c != 60u8 && !is_ws(c)
}

/// An absolute-URI autolink at `start` (`CommonMark` §6.5): `<`, a scheme of
/// 2 to 32 characters starting with a letter, `:`, then no white space or
/// `<` up to `>`. The index of the `>`.
pub open spec fn uri_autolink(b: Seq<u8>, start: int, hi: int) -> Option<int> {
    if start >= hi || hi - start < 2 || !is_alpha(b[start + 1]) {
        None
    } else {
        let i = run_to(b, start + 2, hi, scheme_char());
        let scheme_len = i - (start + 1);
        if !(i < hi && b[i] == 58u8) || scheme_len < 2 || scheme_len > 32 {
            None
        } else {
            let j = run_to(b, i + 1, hi, uri_char());
            if j < hi && b[j] == 62u8 {
                Some(j)
            } else {
                None
            }
        }
    }
}

pub open spec fn email_local() -> spec_fn(u8) -> bool {
    |c: u8|
        is_alnum(c) || c == 46u8 || c == 33u8 || c == 35u8 || c == 36u8 || c == 37u8 || c == 38u8
            || c == 39u8 || c == 42u8 || c == 43u8 || c == 47u8 || c == 61u8 || c == 63u8 || c
            == 94u8 || c == 95u8 || c == 96u8 || c == 123u8 || c == 124u8 || c == 125u8 || c
            == 126u8 || c == 45u8
}

pub open spec fn label_char() -> spec_fn(u8) -> bool {
    |c: u8| is_alnum(c) || c == 45u8
}

/// The domain labels of an email autolink from `i`: each starts with a letter
/// or digit, holds letters, digits and `-`, does not end with `-`; labels are
/// joined by `.` and the last is followed by `>`, whose index is returned.
pub open spec fn email_domain(b: Seq<u8>, i: int, hi: int) -> Option<int>
    decreases hi - i,
{
    if !(0 <= i < hi && i < b.len() && is_alnum(b[i])) {
        None
    } else {
        let k = run_to(b, i + 1, hi, label_char());
        if k <= i || b[k - 1] == 45u8 {
            None
        } else if k < hi && b[k] == 46u8 {
            email_domain(b, k + 1, hi)
        } else if k < hi && b[k] == 62u8 {
            Some(k)
        } else {
            None
        }
    }
}

/// An email autolink at `start` (`CommonMark` §6.5): `<`, a non-empty local
/// part, `@` and a domain. The index of the `>`.
pub open spec fn email_autolink(b: Seq<u8>, start: int, hi: int) -> Option<int> {
    let i = run_to(b, start + 1, hi, email_local());
    if start >= hi || i == start + 1 || !(i < hi && b[i] == 64u8) {
        None
    } else {
        email_domain(b, i + 1, hi)
    }
}

pub open spec fn link_ws() -> spec_fn(u8) -> bool {
    |c: u8| c == 32u8 || c == 9u8 || c == 10u8 || c == 13u8
}

/// The `>` closing a `<...>` link destination scanned from `j`.
pub open spec fn angle_url_end(b: Seq<u8>, j: int, hi: int) -> Option<int>
    decreases hi - j,
{
    if j < 0 || j >= hi || j >= b.len() || b[j] == 10u8 || b[j] == 60u8 {
        None
    } else if b[j] == 62u8 {
        Some(j)
    } else if esc_at(b, j, hi) {
        angle_url_end(b, j + 2, hi)
    } else {
        angle_url_end(b, j + 1, hi)
    }
}

/// Where a bare link destination scanned from `j` (with `depth` open
/// parentheses) stops, and the depth there.
pub open spec fn bare_url(b: Seq<u8>, j: int, hi: int, depth: int) -> (int, int)
    decreases hi - j,
{
    if j < 0 || j >= hi || j >= b.len() {
        (j, depth)
    } else if esc_at(b, j, hi) {
        bare_url(b, j + 2, hi, depth)
    } else if b[j] == 40u8 {
        bare_url(b, j + 1, hi, depth + 1)
    } else if b[j] == 41u8 {
        if depth == 0 {
            (j, depth)
        } else {
            bare_url(b, j + 1, hi, depth - 1)
        }
    } else if b[j] <= 32u8 || b[j] == 0x7fu8 {
        (j, depth)
    } else {
        bare_url(b, j + 1, hi, depth)
    }
}

/// A link destination at `start` (`CommonMark` §6.3): `(url_lo, url_hi, after)`.
pub open spec fn link_destination(b: Seq<u8>, start: int, hi: int) -> Option<(int, int, int)> {
    if 0 <= start < hi && b[start] == 60u8 {
        match angle_url_end(b, start + 1, hi) {
            Some(j) => Some((start + 1, j, j + 1)),
            None => None,
        }
    } else if start > hi {
        None
    } else {
        let (j, depth) = bare_url(b, start, hi, 0);
        if depth != 0 {
            None
        } else {
            Some((start, j, j))
        }
    }
}

/// The closing delimiter of a link title scanned from `j`; an unescaped
/// opening `(` inside a parenthesised title ends the attempt.
pub open spec fn link_title_end(b: Seq<u8>, j: int, hi: int, open: u8, close: u8) -> Option<int>
    decreases hi - j,
{
    if j < 0 || j >= hi || j >= b.len() {
        None
    } else if esc_at(b, j, hi) {
        link_title_end(b, j + 2, hi, open, close)
    } else if b[j] == open && open != close {
        None
    } else if b[j] == close {
        Some(j)
    } else {
        link_title_end(b, j + 1, hi, open, close)
    }
}

/// A link title at `start`: `(lo, hi, after)`.
pub open spec fn link_title(b: Seq<u8>, start: int, hi: int) -> Option<(int, int, int)> {
    if !(0 <= start < hi) || !(b[start] == 34u8 || b[start] == 39u8 || b[start] == 40u8) {
        None
    } else {
        let close = if b[start] == 40u8 { 41u8 } else { b[start] };
        match link_title_end(b, start + 1, hi, b[start], close) {
            Some(j) => Some((start + 1, j, j + 1)),
            None => None,
        }
    }
}

/// The tail `(destination "title")` of an inline link at `paren`:
/// `(url_lo, url_hi, title range, index past the ')')`.
pub open spec fn link_tail(b: Seq<u8>, paren: int, hi: int) -> Option<(int, int, Option<(int, int)>, int)> {
    let i0 = run_to(b, paren + 1, hi, link_ws());
    match link_destination(b, i0, hi) {
        None => None,
        Some((ua, ub, after_dest)) => {
            let ws_end = run_to(b, after_dest, hi, link_ws());
            let t = if ws_end > after_dest { link_title(b, ws_end, hi) } else { None };
            let (title, i) = match t {
                Some((ta, tb, after_title)) => (Some((ta, tb)), run_to(b, after_title, hi, link_ws())),
                None => (None, ws_end),
            };
            if i < hi && b[i] == 41u8 {
                Some((ua, ub, title, i + 1))
            } else {
                None
            }
        },
    }
}

/// The end of an autolink or inline raw-HTML construct at `start`.
pub open spec fn angle_fn(b: Seq<u8>, start: int, hi: int) -> Option<int> {
    match uri_autolink(b, start, hi) {
        Some(c) => Some(c + 1),
        None => match email_autolink(b, start, hi) {
            Some(c) => Some(c + 1),
            None => if 0 <= start < hi {
                match inline_html_fn(b.subrange(start, hi)) {
                    Some(n) => Some(start + n),
                    None => None,
                }
            } else {
                None
            },
        },
    }
}

/// The `]` matching an open bracket, scanned from `j` with `depth` brackets
/// open: escapes, code spans, autolinks and raw HTML are skipped whole.
pub open spec fn close_from(b: Seq<u8>, j: int, hi: int, depth: int) -> Option<int>
    decreases hi - j,
{
    if j < 0 || j >= hi || j >= b.len() {
        None
    } else if esc_at(b, j, hi) {
        close_from(b, j + 2, hi, depth)
    } else if b[j] == 96u8 {
        match code_span(b, j, hi) {
            Some((_, _, end)) => if j < end <= hi {
                close_from(b, end, hi, depth)
            } else {
                None
            },
            None => close_from(b, j + 1, hi, depth),
        }
    } else if b[j] == 60u8 {
        match angle_fn(b, j, hi) {
            Some(end) => if j < end <= hi {
                close_from(b, end, hi, depth)
            } else {
                None
            },
            None => close_from(b, j + 1, hi, depth),
        }
    } else if b[j] == 91u8 {
        close_from(b, j + 1, hi, depth + 1)
    } else if b[j] == 93u8 {
        if depth == 0 {
            Some(j)
        } else {
            close_from(b, j + 1, hi, depth - 1)
        }
    } else {
        close_from(b, j + 1, hi, depth)
    }
}

/// The registry target for the label `lo..hi` of the input: the first entry
/// whose label equals the normalized label (none when the registry is empty
/// or the range cannot be sliced out).
spec fn lookup_spec<'src>(p: InlineParser<'src, '_>, lo: int, hi: int) -> Option<(&'src str, Option<&'src str>)> {
    let defs = p.defs.entries@;
    if defs.len() == 0 || !sliceable(p.input, lo, hi) {
        None
    } else {
        match registry_lookup(defs, spec_normalize_label(decode_utf8(p.bytes@.subrange(lo, hi)))) {
            Some(i) => Some((defs[i].url, defs[i].title)),
            None => None,
        }
    }
}

/// `r` is the autolink or raw HTML element at `start` and the index past it.
spec fn angle_result<'src>(p: InlineParser<'src, '_>, start: int, hi: int, r: Option<(Inline<'src>, usize)>) -> bool {
    let b = p.bytes@;
    match uri_autolink(b, start, hi) {
        Some(c) => if sliceable(p.input, start + 1, c) {
            &&& r matches Some((x, e))
            &&& e == c + 1
            &&& x matches Inline::Autolink { target, is_email }
            &&& !is_email
            &&& sbytes(target) == b.subrange(start + 1, c)
        } else {
            r is None
        },
        None => match email_autolink(b, start, hi) {
            Some(c) => if sliceable(p.input, start + 1, c) {
                &&& r matches Some((x, e))
                &&& e == c + 1
                &&& x matches Inline::Autolink { target, is_email }
                &&& is_email
                &&& sbytes(target) == b.subrange(start + 1, c)
            } else {
                r is None
            },
            None => if 0 <= start < hi && inline_html_fn(b.subrange(start, hi)) is Some && sliceable(
                p.input,
                start,
                start + inline_html_fn(b.subrange(start, hi))->0,
            ) {
                let n = inline_html_fn(b.subrange(start, hi))->0;
                &&& r matches Some((x, e))
                &&& e == start + n
                &&& x matches Inline::RawHtml(h)
                &&& sbytes(h) == b.subrange(start, start + n)
            } else {
                r is None
            },
        },
    }
}

/// `r` is the inline link `[text](destination "title")` at `start`.
spec fn paren_link_result<'src>(p: InlineParser<'src, '_>, start: int, hi: int, r: Option<LinkParts<'src>>) -> bool {
    let b = p.bytes@;
    if !(0 <= start < hi && b[start] == 91u8) {
        r is None
    } else {
        match close_from(b, start + 1, hi, 0) {
            None => r is None,
            Some(close) => if !(close + 1 < hi && b[close + 1] == 40u8) {
                r is None
            } else {
                match link_tail(b, close + 1, hi) {
                    None => r is None,
                    Some((ua, ub, t, end)) => if !sliceable(p.input, ua, ub) || (t matches Some((ta, tb))
                        && !sliceable(p.input, ta, tb)) {
                        r is None
                    } else {
                        &&& r matches Some(lp)
                        &&& lp.text_lo == start + 1 && lp.text_hi == close && lp.end == end
                        &&& sbytes(lp.url) == b.subrange(ua, ub)
                        &&& match t {
                            Some((ta, tb)) => {
                                &&& lp.title matches Some(x)
                                &&& sbytes(x) == b.subrange(ta, tb)
                            },
                            None => lp.title is None,
                        }
                    }
                }
            },
        }
    }
}

/// `r` is the reference link at `start`: full `[text][label]`, collapsed
/// `[label][]` or shortcut `[label]`.
spec fn reference_result<'src>(p: InlineParser<'src, '_>, start: int, hi: int, r: Option<LinkParts<'src>>) -> bool {
    let b = p.bytes@;
    if p.defs.entries@.len() == 0 || !(0 <= start < hi && b[start] == 91u8) {
        r is None
    } else {
        match close_from(b, start + 1, hi, 0) {
            None => r is None,
            Some(fe) => if fe + 1 < hi && b[fe + 1] == 91u8 {
                match close_from(b, fe + 2, hi, 0) {
                    None => r is None,
                    Some(se) => {
                        let target = if all_ws(b, fe + 2, se) {
                            lookup_spec(p, start + 1, fe)
                        } else {
                            lookup_spec(p, fe + 2, se)
                        };
                        match target {
                            None => r is None,
                            Some((u, t)) => r == Some(
                                LinkParts { text_lo: (start + 1) as usize, text_hi: fe as usize, url: u, title: t, end: (se + 1) as usize },
                            ),
                        }
                    },
                }
            } else {
                match lookup_spec(p, start + 1, fe) {
                    None => r is None,
                    Some((u, t)) => r == Some(
                        LinkParts { text_lo: (start + 1) as usize, text_hi: fe as usize, url: u, title: t, end: (fe + 1) as usize },
                    ),
                }
            },
        }
    }
}

/// Character classification for the emphasis flanking rules.
#[derive(Clone, Copy, PartialEq, Eq, Structural)]
enum CharClass {
    Whitespace,
    Punctuation,
    Other,
}

/// Unicode white space, by scalar value.
spec fn white_scalar(v: u32) -> bool {
    (9 <= v <= 13) || v == 32 || v == 0x85 || v == 0xA0 || v == 0x1680 || (0x2000 <= v <= 0x200A)
        || v == 0x2028 || v == 0x2029 || v == 0x202F || v == 0x205F || v == 0x3000
}

fn is_white_scalar(v: u32) -> (r: bool)
    ensures
        r == white_scalar(v),
{
    (9 <= v && v <= 13) || v == 32 || v == 0x85 || v == 0xA0 || v == 0x1680 || (0x2000 <= v && v
        <= 0x200A) || v == 0x2028 || v == 0x2029 || v == 0x202F || v == 0x205F || v == 0x3000
}

/// Non-ASCII punctuation and symbol blocks treated as punctuation for flanking.
spec fn unicode_punct(v: u32) -> bool {
    (0xA1 <= v <= 0xBF) || (0x2010 <= v <= 0x2027) || (0x2030 <= v <= 0x205E) || (0x20A0 <= v
        <= 0x20CF) || (0x2190 <= v <= 0x23FF) || (0x2500 <= v <= 0x2BFF) || (0x3000 <= v
        <= 0x303F) || (0xFE30 <= v <= 0xFE6F) || (0xFF01 <= v <= 0xFF0F) || (0xFF1A <= v
        <= 0xFF20) || (0xFF3B <= v <= 0xFF40) || (0xFF5B <= v <= 0xFF65)
}

fn is_unicode_punct(v: u32) -> (r: bool)
    ensures
        r == unicode_punct(v),
{
    (0xA1 <= v && v <= 0xBF) || (0x2010 <= v && v <= 0x2027) || (0x2030 <= v && v <= 0x205E)
        || (0x20A0 <= v && v <= 0x20CF) || (0x2190 <= v && v <= 0x23FF) || (0x2500 <= v && v
        <= 0x2BFF) || (0x3000 <= v && v <= 0x303F) || (0xFE30 <= v && v <= 0xFE6F) || (0xFF01
        <= v && v <= 0xFF0F) || (0xFF1A <= v && v <= 0xFF20) || (0xFF3B <= v && v <= 0xFF40)
        || (0xFF5B <= v && v <= 0xFF65)
}

/// The flanking class of a scalar value.
spec fn class_spec(v: u32) -> CharClass {
    if v < 128 {
        if is_ws(v as u8) {
            CharClass::Whitespace
        } else if is_punct(v as u8) {
            CharClass::Punctuation
        } else {
            CharClass::Other
        }
    } else if white_scalar(v) {
        CharClass::Whitespace
    } else if unicode_punct(v) {
        CharClass::Punctuation
    } else {
        CharClass::Other
    }
}

fn class_of_scalar(v: u32) -> (r: CharClass)
    ensures
        r == class_spec(v),
{
    if v < 128 {
        let b = v as u8;
        if ascii_ws(b) {
            CharClass::Whitespace
        } else if ascii_punct(b) {
            CharClass::Punctuation
        } else {
            CharClass::Other
        }
    } else if is_white_scalar(v) {
        CharClass::Whitespace
    } else if is_unicode_punct(v) {
        CharClass::Punctuation
    } else {
        CharClass::Other
    }
}

/// A UTF-8 continuation byte.
spec fn cont(c: u8) -> bool {
    0x80 <= c < 0xC0
}

/// The scalar value encoded by `b[s..e]` when it is exactly one UTF-8 sequence
/// of one to four bytes with the right leading and continuation bytes.
spec fn decode_spec(b: Seq<u8>, s: int, e: int) -> Option<u32> {
    let n = e - s;
    if n == 1 && b[s] < 0x80 {
        Some(b[s] as u32)
    } else if n == 2 && 0xC0 <= b[s] < 0xE0 && cont(b[s + 1]) {
        Some(((b[s] - 0xC0) * 64 + (b[s + 1] - 0x80)) as u32)
    } else if n == 3 && 0xE0 <= b[s] < 0xF0 && cont(b[s + 1]) && cont(b[s + 2]) {
        Some((((b[s] - 0xE0) * 64 + (b[s + 1] - 0x80)) * 64 + (b[s + 2] - 0x80)) as u32)
    } else if n == 4 && 0xF0 <= b[s] < 0xF8 && cont(b[s + 1]) && cont(b[s + 2]) && cont(b[s + 3]) {
        Some(((((b[s] - 0xF0) * 64 + (b[s + 1] - 0x80)) * 64 + (b[s + 2] - 0x80)) * 64 + (b[s + 3]
            - 0x80)) as u32)
    } else {
        None
    }
}

/// Appending the six payload bits of a continuation byte.
proof fn lemma_shift_in(acc: u32, c: u32)
    requires
        acc < 0x40000,
        0x80 <= c < 0xC0,
    ensures
        (acc << 6u32) | (c & 0x3fu32) == acc * 64 + (c - 0x80),
{
    assert((acc << 6u32) | (c & 0x3fu32) == acc * 64 + (c - 0x80)) by (bit_vector)
        requires
            acc < 0x40000,
            0x80 <= c < 0xC0,
    ;
}

/// Decode the UTF-8 scalar encoded by `bytes[start..end]`, if it is exactly one
/// well-formed encoding.
fn decode_scalar(bytes: &[u8], start: usize, end: usize) -> (r: Option<u32>)
    requires
        start <= end <= bytes@.len(),
    ensures
        r == decode_spec(bytes@, start as int, end as int),
{
    let n = end - start;
    if n == 0 {
        return None;
    }
    let b0 = bytes[start] as u32;
    if n == 1 {
        return if b0 < 0x80 {
            Some(b0)
        } else {
            None
        };
    }
    if n > 4 {
        return None;
    }
    let c1 = bytes[start + 1] as u32;
    if c1 < 0x80 || c1 >= 0xC0 {
        return None;
    }
    if n == 2 {
        if 0xC0 <= b0 && b0 < 0xE0 {
            let h = b0 - 0xC0;
            proof {
                lemma_shift_in(h, c1);
            }
            return Some((h << 6u32) | (c1 & 0x3fu32));
        }
        return None;
    }
    let c2 = bytes[start + 2] as u32;
    if c2 < 0x80 || c2 >= 0xC0 {
        return None;
    }
    if n == 3 {
        if 0xE0 <= b0 && b0 < 0xF0 {
            let h = b0 - 0xE0;
            let a1 = (h << 6u32) | (c1 & 0x3fu32);
            proof {
                lemma_shift_in(h, c1);
                lemma_shift_in(a1, c2);
            }
            return Some((a1 << 6u32) | (c2 & 0x3fu32));
        }
        return None;
    }
    let c3 = bytes[start + 3] as u32;
    if c3 < 0x80 || c3 >= 0xC0 {
        return None;
    }
    if 0xF0 <= b0 && b0 < 0xF8 {
        let h = b0 - 0xF0;
        let a1 = (h << 6u32) | (c1 & 0x3fu32);
        proof {
            lemma_shift_in(h, c1);
        }
        let a2 = (a1 << 6u32) | (c2 & 0x3fu32);
        proof {
            lemma_shift_in(a1, c2);
            lemma_shift_in(a2, c3);
        }
        return Some((a2 << 6u32) | (c3 & 0x3fu32));
    }
    None
}

/// Where the character ending at `pos` starts: up to four continuation bytes
/// are stepped back over, not going below `lo`.
spec fn char_start(b: Seq<u8>, lo: int, start: int, steps: int) -> int
    decreases start - lo,
{
    if start > lo && 0 <= start < b.len() && cont(b[start]) && steps < 4 {
        char_start(b, lo, start - 1, steps + 1)
    } else {
        start
    }
}

/// The class of the character before `pos` (the start of the context counts
/// as white space, and so does an undecodable sequence).
spec fn class_before(b: Seq<u8>, lo: int, pos: int) -> CharClass {
    if pos == lo {
        CharClass::Whitespace
    } else if b[pos - 1] < 0x80 {
        class_spec(b[pos - 1] as u32)
    } else {
        match decode_spec(b, char_start(b, lo, pos - 1, 0), pos) {
            Some(v) => class_spec(v),
            None => CharClass::Whitespace,
        }
    }
}

/// The class of the character at `pos` (the end of the context counts as
/// white space, and so does an undecodable sequence).
spec fn class_after(b: Seq<u8>, pos: int, hi: int) -> CharClass {
    if pos >= hi {
        CharClass::Whitespace
    } else if b[pos] < 0x80 {
        class_spec(b[pos] as u32)
    } else {
        let width: int = if b[pos] >= 0xF0 { 4 } else if b[pos] >= 0xE0 { 3 } else { 2 };
        if width > hi - pos {
            CharClass::Whitespace
        } else {
            match decode_spec(b, pos, pos + width) {
                Some(v) => class_spec(v),
                None => CharClass::Whitespace,
            }
        }
    }
}

/// Classify the character before `pos` (start of context counts as white space).
fn char_class_before(bytes: &[u8], lo: usize, pos: usize) -> (r: CharClass)
    requires
        lo <= pos <= bytes@.len(),
    ensures
        r == class_before(bytes@, lo as int, pos as int),
{
    if pos == lo {
        return CharClass::Whitespace;
    }
    let b = bytes[pos - 1];
    if b < 0x80 {
        return class_of_scalar(b as u32);
    }
    let mut start = pos - 1;
    let mut steps: usize = 0;
    while start > lo && bytes[start] >= 0x80 && bytes[start] < 0xC0 && steps < 4
        invariant
            lo <= start < pos,
            pos <= bytes@.len(),
            char_start(bytes@, lo as int, pos - 1, 0) == char_start(bytes@, lo as int, start as int, steps as int),
        decreases start,
    {
        start = start - 1;
        steps = steps + 1;
    }
    match decode_scalar(bytes, start, pos) {
        Some(v) => class_of_scalar(v),
        None => CharClass::Whitespace,
    }
}

/// Classify the character at `pos` (end of context counts as white space).
fn char_class_after(bytes: &[u8], pos: usize, hi: usize) -> (r: CharClass)
    requires
        hi <= bytes@.len(),
    ensures
        r == class_after(bytes@, pos as int, hi as int),
{
    if pos >= hi {
        return CharClass::Whitespace;
    }
    let b = bytes[pos];
    if b < 0x80 {
        return class_of_scalar(b as u32);
    }
    let width: usize = if b >= 0xF0 {
        4
    } else if b >= 0xE0 {
        3
    } else {
        2
    };
    if width > hi - pos {
        return CharClass::Whitespace;
    }
    match decode_scalar(bytes, pos, pos + width) {
        Some(v) => class_of_scalar(v),
        None => CharClass::Whitespace,
    }
}

/// The emphasis run `(count, can_open, can_close)` of `ch` at `i` in
/// `lo..hi` (`CommonMark` §6.2): left- and right-flanking from the classes of
/// the characters around the run; `_` is further restricted inside words.
spec fn delim_run(b: Seq<u8>, lo: int, hi: int, i: int, ch: u8) -> (int, bool, bool) {
    let n = run_to(b, i, hi, is_byte(ch)) - i;
    let before = class_before(b, lo, i);
    let after = class_after(b, i + n, hi);
    let before_ws = before == CharClass::Whitespace;
    let after_ws = after == CharClass::Whitespace;
    let before_punct = before == CharClass::Punctuation;
    let after_punct = after == CharClass::Punctuation;
    let left = !after_ws && (!after_punct || before_ws || before_punct);
    let right = !before_ws && (!before_punct || after_ws || after_punct);
    if ch == 95u8 {
        (n, left && (!right || before_punct), right && (!left || after_punct))
    } else {
        (n, left, right)
    }
}

/// A run of identical `*`/`_` delimiters at `i`: `(count, can_open, can_close)`
/// per the `CommonMark` flanking rules.
fn scan_delims(bytes: &[u8], lo: usize, hi: usize, i: usize, ch: u8) -> (r: (usize, bool, bool))
    requires
        lo <= i < hi <= bytes@.len(),
        bytes@[i as int] == ch,
    ensures
        1 <= r.0 <= hi - i,
        (r.0 as int, r.1, r.2) == delim_run(bytes@, lo as int, hi as int, i as int, ch),
{
    let n = crate::text::count_run(bytes, i, hi, ch);
    proof {
        lemma_run_to(bytes@, i as int, i + n, hi as int, is_byte(ch));
    }
    let before = char_class_before(bytes, lo, i);
    let after = char_class_after(bytes, i + n, hi);
    let before_ws = before == CharClass::Whitespace;
    let after_ws = after == CharClass::Whitespace;
    let before_punct = before == CharClass::Punctuation;
    let after_punct = after == CharClass::Punctuation;
    let left_flanking = !after_ws && (!after_punct || before_ws || before_punct);
    let right_flanking = !before_ws && (!before_punct || after_ws || after_punct);
    if ch == 95u8 {
        (
            n,
            left_flanking && (!right_flanking || before_punct),
            right_flanking && (!left_flanking || after_punct),
        )
    } else {
        (n, left_flanking, right_flanking)
    }
}

/// Where the text before the line feed at `nl` ends and whether the break is
/// hard: a hard break follows a backslash or two or more spaces; with `strip`
/// the trailing spaces and tabs of the text are dropped too.
spec fn break_pieces(b: Seq<u8>, plain_start: int, nl: int, strip: bool) -> (usize, bool) {
    let (end, hard) = if nl > plain_start && b[nl - 1] == 92u8 {
        (nl - 1, true)
    } else {
        let sp = rrun_to(b, plain_start, nl, is_byte(32u8));
        if nl - sp >= 2 {
            (sp, true)
        } else {
            (nl, false)
        }
    };
    (if strip { rrun_to(b, plain_start, end, blank()) } else { end } as usize, hard)
}

/// No byte of `b[lo..hi]` can begin an inline construct.
pub open spec fn no_special(b: Seq<u8>, lo: int, hi: int) -> bool {
    forall|j: int| lo <= j < hi ==> !spec_special(#[trigger] b[j])
}

/// `after` is `before` with the text `lo..hi` of `src` appended as one
/// `Text` element (`span` covering it), or unchanged (`span` empty) when the
/// range is empty, cannot be sliced out, or the pool is full.
pub open spec fn plain_pushed(src: &str, before: Seq<Inline>, after: Seq<Inline>, lo: int, hi: int, span: InlineSpan) -> bool {
    if lo < hi && sliceable(src, lo, hi) && before.len() < u32::MAX {
        &&& after.len() == before.len() + 1
        &&& after.subrange(0, before.len() as int) == before
        &&& span.start == before.len() && span.len == 1
        &&& after.last() matches Inline::Text(t) && sbytes(t) == sbytes(src).subrange(lo, hi)
    } else {
        &&& span.len == 0
        &&& (lo >= hi || !sliceable(src, lo, hi)) ==> after == before
    }
}

/// The bytes that can begin an inline construct.
pub open spec fn spec_special(b: u8) -> bool {
    b == 10u8 || b == 42u8 || b == 95u8 || b == 91u8 || b == 33u8 || b == 92u8 || b == 96u8 || b
        == 60u8
}

fn is_special(b: u8) -> (r: bool)
    ensures
        r == spec_special(b),
{
    b == 10u8 || b == 42u8 || b == 95u8 || b == 91u8 || b == 33u8 || b == 92u8 || b == 96u8 || b
        == 60u8
}

/// First index in `i..hi` holding a special byte, or `hi`.
fn find_special(bytes: &[u8], i: usize, hi: usize) -> (r: usize)
    requires
        hi <= bytes@.len(),
    ensures
        i <= hi ==> i <= r <= hi,
        i > hi ==> r == hi,
        r < hi ==> spec_special(bytes@[r as int]),
        forall|j: int| i <= j < r ==> !spec_special(#[trigger] bytes@[j]),
{
    if i > hi {
        return hi;
    }
    let mut k = i;
    while k < hi && !is_special(bytes[k])
        invariant
            i <= k <= hi,
            hi <= bytes@.len(),
            forall|j: int| i <= j < k ==> !spec_special(#[trigger] bytes@[j]),
        decreases hi - k,
    {
        k = k + 1;
    }
    k
}

/// First index in `i..hi` holding `b`, or `hi`.
fn find_in(bytes: &[u8], i: usize, hi: usize, b: u8) -> (r: usize)
    requires
        hi <= bytes@.len(),
    ensures
        i <= hi ==> i <= r <= hi,
        i > hi ==> r == hi,
        r < hi ==> bytes@[r as int] == b,
        forall|j: int| i <= j < r ==> bytes@[j] != b,
{
    if i > hi {
        return hi;
    }
    let mut k = i;
    while k < hi && bytes[k] != b
        invariant
            i <= k <= hi,
            hi <= bytes@.len(),
            forall|j: int| i <= j < k ==> bytes@[j] != b,
        decreases hi - k,
    {
        k = k + 1;
    }
    k
}

/// Whether `lo..hi` holds an emphasis delimiter byte.
fn has_emph(bytes: &[u8], lo: usize, hi: usize) -> (r: bool)
    requires
        hi <= bytes@.len(),
    ensures
        r == exists|k: int| lo <= k < hi && (#[trigger] bytes@[k] == 42u8 || bytes@[k] == 95u8),
{
    find_in(bytes, lo, hi, 42u8) < hi || find_in(bytes, lo, hi, 95u8) < hi
}

/// Count the backticks opening `start..hi`.
fn backtick_run(bytes: &[u8], start: usize, hi: usize) -> (n: usize)
    requires
        hi <= bytes@.len(),
    ensures
        start <= hi ==> start + n <= hi,
        start <= hi ==> start + n == run_to(bytes@, start as int, hi as int, is_byte(96u8)),
        start > hi ==> n == 0,
{
    if start > hi {
        return 0;
    }
    let n = crate::text::count_run(bytes, start, hi, 96u8);
    proof {
        lemma_run_to(bytes@, start as int, start + n, hi as int, is_byte(96u8));
    }
    n
}

/// A code span at `start`: `(content_start, content_end, end)`. The opening and
/// closing backtick runs have equal length.
fn try_parse_inline_code(bytes: &[u8], start: usize, hi: usize) -> (r: Option<(usize, usize, usize)>)
    requires
        hi <= bytes@.len(),
    ensures
        opt_triple(r) == code_span(bytes@, start as int, hi as int),
        r matches Some((a, b, e)) ==> start < a <= b < e <= hi,
{
    if start > hi {
        return None;
    }
    let n = backtick_run(bytes, start, hi);
    if n == 0 {
        return None;
    }
    let content_start = start + n;
    let mut i = content_start;
    while i < hi
        invariant
            content_start <= i <= hi,
            start < content_start <= hi,
            content_start == start + n,
            n == run_to(bytes@, start as int, hi as int, is_byte(96u8)) - start,
            n > 0,
            hi <= bytes@.len(),
            code_close(bytes@, content_start as int, hi as int, n as int) == code_close(
                bytes@,
                i as int,
                hi as int,
                n as int,
            ),
        decreases hi - i,
    {
        let pos = find_in(bytes, i, hi, 96u8);
        proof {
            assert forall|t: int| i <= t < pos implies #[trigger] not_byte(96u8)(bytes@[t]) by {}
            lemma_run_to(bytes@, i as int, pos as int, hi as int, not_byte(96u8));
        }
        if pos >= hi {
            return None;
        }
        let m = backtick_run(bytes, pos, hi);
        proof {
            lemma_run_to_from(bytes@, pos + 1, hi as int, is_byte(96u8));
        }
        if m == n {
            return Some((content_start, pos, pos + m));
        }
        i = pos + m;
    }
    proof {
        lemma_run_to_from(bytes@, i as int, hi as int, not_byte(96u8));
    }
    None
}

/// An absolute-URI autolink `<scheme:...>` at `start`: index of the closing `>`.
fn scan_autolink_uri(bytes: &[u8], start: usize, hi: usize) -> (r: Option<usize>)
    requires
        hi <= bytes@.len(),
    ensures
        opt_usize(r) == uri_autolink(bytes@, start as int, hi as int),
        r matches Some(c) ==> start + 2 < c < hi,
{
    if start >= hi || hi - start < 2 {
        return None;
    }
    let mut i = start + 1;
    if !ascii_alpha(bytes[i]) {
        return None;
    }
    i = i + 1;
    let scheme_start = start + 1;
    while i < hi && (ascii_alnum(bytes[i]) || bytes[i] == 43u8 || bytes[i] == 46u8 || bytes[i]
        == 45u8)
        invariant
            scheme_start < i <= hi,
            scheme_start == start + 1,
            hi <= bytes@.len(),
            forall|t: int| start + 2 <= t < i ==> (#[trigger] scheme_char()(bytes@[t])),
        decreases hi - i,
    {
        i = i + 1;
    }
    proof {
        lemma_run_to(bytes@, start + 2, i as int, hi as int, scheme_char());
    }
    let scheme_len = i - scheme_start;
    if !(i < hi && bytes[i] == 58u8) || scheme_len < 2 || scheme_len > 32 {
        return None;
    }
    i = i + 1;
    let body = i;
    while i < hi
        invariant
            start + 3 < i <= hi,
            body <= i,
            body == start + scheme_len + 2,
            start < hi,
            hi - start >= 2,
            is_alpha(bytes@[start + 1]),
            body - 1 == run_to(bytes@, start + 2, hi as int, scheme_char()),
            bytes@[body - 1] == 58u8,
            2 <= scheme_len <= 32,
            hi <= bytes@.len(),
            forall|t: int| body <= t < i ==> (#[trigger] uri_char()(bytes@[t])),
        decreases hi - i,
    {
        let b = bytes[i];
        if b == 62u8 {
            proof {
                lemma_run_to(bytes@, body as int, i as int, hi as int, uri_char());
            }
            return Some(i);
        }
        if b == 60u8 || ascii_ws(b) {
            proof {
                lemma_run_to(bytes@, body as int, i as int, hi as int, uri_char());
            }
            return None;
        }
        i = i + 1;
    }
    proof {
        lemma_run_to(bytes@, body as int, i as int, hi as int, uri_char());
    }
    None
}

fn email_local_char(b: u8) -> (r: bool)
    ensures
        r == email_local()(b),
{
    ascii_alnum(b) || b == 46u8 || b == 33u8 || b == 35u8 || b == 36u8 || b == 37u8 || b == 38u8
        || b == 39u8 || b == 42u8 || b == 43u8 || b == 47u8 || b == 61u8 || b == 63u8 || b
        == 94u8 || b == 95u8 || b == 96u8 || b == 123u8 || b == 124u8 || b == 125u8 || b == 126u8
        || b == 45u8
}

/// An email autolink `<local@domain>` at `start`: index of the closing `>`.
fn scan_autolink_email(bytes: &[u8], start: usize, hi: usize) -> (r: Option<usize>)
    requires
        hi <= bytes@.len(),
    ensures
        opt_usize(r) == email_autolink(bytes@, start as int, hi as int),
        r matches Some(c) ==> start + 3 < c < hi,
{
    if start >= hi {
        return None;
    }
    let mut i = start + 1;
    let local_start = i;
    while i < hi && email_local_char(bytes[i])
        invariant
            local_start <= i <= hi,
            local_start == start + 1,
            hi <= bytes@.len(),
            forall|t: int| local_start <= t < i ==> (#[trigger] email_local()(bytes@[t])),
        decreases hi - i,
    {
        i = i + 1;
    }
    proof {
        lemma_run_to(bytes@, local_start as int, i as int, hi as int, email_local());
    }
    if i == local_start || !(i < hi && bytes[i] == 64u8) {
        return None;
    }
    i = i + 1;
    loop
        invariant
            start + 2 < i <= hi,
            hi <= bytes@.len(),
            email_autolink(bytes@, start as int, hi as int) == email_domain(bytes@, i as int, hi as int),
        decreases hi - i,
    {
        if !(i < hi && ascii_alnum(bytes[i])) {
            return None;
        }
        let i0 = i;
        i = i + 1;
        while i < hi && (ascii_alnum(bytes[i]) || bytes[i] == 45u8)
            invariant
                start + 2 < i0 < i <= hi,
                hi <= bytes@.len(),
                forall|t: int| i0 + 1 <= t < i ==> (#[trigger] label_char()(bytes@[t])),
            decreases hi - i,
        {
            i = i + 1;
        }
        proof {
            lemma_run_to(bytes@, i0 + 1, i as int, hi as int, label_char());
        }
        if bytes[i - 1] == 45u8 {
            return None;
        }
        if i < hi && bytes[i] == 46u8 {
            i = i + 1;
        } else if i < hi && bytes[i] == 62u8 {
            return Some(i);
        } else {
            return None;
        }
    }
}

/// Skip spaces, tabs and line endings around link destinations and titles.
fn skip_link_ws(bytes: &[u8], i: usize, hi: usize) -> (r: usize)
    requires
        hi <= bytes@.len(),
    ensures
        i <= hi ==> i <= r <= hi,
        i > hi ==> r == i,
        r == run_to(bytes@, i as int, hi as int, link_ws()),
{
    let mut j = i;
    while j < hi && (bytes[j] == 32u8 || bytes[j] == 9u8 || bytes[j] == 10u8 || bytes[j] == 13u8)
        invariant
            i <= j,
            i <= hi ==> j <= hi,
            i > hi ==> j == i,
            hi <= bytes@.len(),
            forall|t: int| i <= t < j ==> (#[trigger] link_ws()(bytes@[t])),
        decreases hi - j,
    {
        j = j + 1;
    }
    proof {
        if i <= hi {
            lemma_run_to(bytes@, i as int, j as int, hi as int, link_ws());
        }
    }
    j
}

fn escape_at(bytes: &[u8], j: usize, hi: usize) -> (r: bool)
    requires
        hi <= bytes@.len(),
    ensures
        r == esc_at(bytes@, j as int, hi as int),
        r ==> j + 1 < hi,
{
    j < hi && bytes[j] == 92u8 && j + 1 < hi && ascii_punct(bytes[j + 1])
}

/// A link destination at `start`: `(url_lo, url_hi, after)`.
fn scan_link_destination(bytes: &[u8], start: usize, hi: usize) -> (r: Option<(usize, usize, usize)>)
    requires
        hi <= bytes@.len(),
    ensures
        opt_triple(r) == link_destination(bytes@, start as int, hi as int),
        r matches Some((a, b, e)) ==> start <= a <= b <= e <= hi,
{
    if start < hi && bytes[start] == 60u8 {
        let mut j = start + 1;
        while j < hi
            invariant
                start < j,
                start < hi,
                hi <= bytes@.len(),
                bytes@[start as int] == 60u8,
                angle_url_end(bytes@, start + 1, hi as int) == angle_url_end(bytes@, j as int, hi as int),
            decreases hi - j,
        {
            let b = bytes[j];
            if b == 10u8 || b == 60u8 {
                return None;
            }
            if b == 62u8 {
                return Some((start + 1, j, j + 1));
            }
            if escape_at(bytes, j, hi) {
                j = j + 2;
            } else {
                j = j + 1;
            }
        }
        None
    } else {
        if start > hi {
            return None;
        }
        let mut j = start;
        let mut depth: usize = 0;
        while j < hi
            invariant
                start <= j <= hi,
                hi <= bytes@.len(),
                depth <= j - start,
                !(start < hi && bytes@[start as int] == 60u8),
                bare_url(bytes@, start as int, hi as int, 0) == bare_url(bytes@, j as int, hi as int, depth as int),
            ensures
                start <= j <= hi,
                !(start < hi && bytes@[start as int] == 60u8),
                bare_url(bytes@, start as int, hi as int, 0) == (j as int, depth as int),
            decreases hi - j,
        {
            let b = bytes[j];
            if escape_at(bytes, j, hi) {
                j = j + 2;
            } else if b == 40u8 {
                depth = depth + 1;
                j = j + 1;
            } else if b == 41u8 {
                if depth == 0 {
                    break;
                }
                depth = depth - 1;
                j = j + 1;
            } else if b <= 32u8 || b == 0x7fu8 {
                break;
            } else {
                j = j + 1;
            }
        }
        if depth != 0 {
            return None;
        }
        Some((start, j, j))
    }
}

/// A link title at `start` (`"..."`, `'...'` or `(...)`): `(lo, hi, after)`.
fn scan_link_title(bytes: &[u8], start: usize, hi: usize) -> (r: Option<(usize, usize, usize)>)
    requires
        hi <= bytes@.len(),
    ensures
        opt_triple(r) == link_title(bytes@, start as int, hi as int),
        r matches Some((a, b, e)) ==> start < a <= b < e <= hi,
{
    if start >= hi {
        return None;
    }
    let (open, close) = if bytes[start] == 34u8 {
        (34u8, 34u8)
    } else if bytes[start] == 39u8 {
        (39u8, 39u8)
    } else if bytes[start] == 40u8 {
        (40u8, 41u8)
    } else {
        return None;
    };
    let mut j = start + 1;
    while j < hi
        invariant
            start < j,
            start < hi,
            hi <= bytes@.len(),
            open == bytes@[start as int],
            close == (if open == 40u8 { 41u8 } else { open }),
            (open == 34u8 || open == 39u8 || open == 40u8),
            link_title_end(bytes@, start + 1, hi as int, open, close) == link_title_end(
                bytes@,
                j as int,
                hi as int,
                open,
                close,
            ),
        decreases hi - j,
    {
        let b = bytes[j];
        if escape_at(bytes, j, hi) {
            j = j + 2;
        } else if b == open && open != close {
            return None;
        } else if b == close {
            return Some((start + 1, j, j + 1));
        } else {
            j = j + 1;
        }
    }
    None
}

/// An offset as an integer.
pub open spec fn opt_usize(r: Option<usize>) -> Option<int> {
    match r {
        Some(n) => Some(n as int),
        None => None,
    }
}

/// A triple of offsets as integers.
pub open spec fn opt_triple(r: Option<(usize, usize, usize)>) -> Option<(int, int, int)> {
    match r {
        Some((a, b, c)) => Some((a as int, b as int, c as int)),
        None => None,
    }
}

/// A link tail's offsets as integers.
pub open spec fn opt_tail(r: Option<(usize, usize, Option<(usize, usize)>, usize)>) -> Option<(int, int, Option<(int, int)>, int)> {
    match r {
        Some((a, b, t, e)) => Some(
            (
                a as int,
                b as int,
                match t {
                    Some((x, y)) => Some((x as int, y as int)),
                    None => None,
                },
                e as int,
            ),
        ),
        None => None,
    }
}

/// The link tail `(destination "title")` beginning at `paren`:
/// `(url range, title range, index past the ')')`.
fn scan_link_tail(bytes: &[u8], paren: usize, hi: usize) -> (r: Option<(usize, usize, Option<(usize, usize)>, usize)>)
    requires
        hi <= bytes@.len(),
        paren < hi,
    ensures
        opt_tail(r) == link_tail(bytes@, paren as int, hi as int),
        r matches Some((a, b, t, e)) ==> paren < a <= b < e <= hi && (t matches Some((x, y)) ==> x
            <= y < e),
{
    let i0 = skip_link_ws(bytes, paren + 1, hi);
    let (ua, ub, after_dest) = match scan_link_destination(bytes, i0, hi) {
        Some(t) => t,
        None => return None,
    };
    let ws_end = skip_link_ws(bytes, after_dest, hi);
    let mut title: Option<(usize, usize)> = None;
    let mut i = ws_end;
    if ws_end > after_dest {
        if let Some((ta, tb, after_title)) = scan_link_title(bytes, ws_end, hi) {
            title = Some((ta, tb));
            i = skip_link_ws(bytes, after_title, hi);
        }
    }
    if !(i < hi && bytes[i] == 41u8) {
        return None;
    }
    Some((ua, ub, title, i + 1))
}

/// The result of recognising a link or image at a bracket: the bracket text
/// range, destination, title and the index just past the construct.
struct LinkParts<'src> {
    text_lo: usize,
    text_hi: usize,
    url: &'src str,
    title: Option<&'src str>,
    end: usize,
}

/// Stateful parser for one document's inline contexts.
pub struct InlineParser<'src, 'a> {
    pub input: &'src str,
    pub bytes: &'src [u8],
    pub defs: &'a LinkDefs<'src>,
}

impl<'src, 'a> InlineParser<'src, 'a> {
    /// The parser reads `input` through `bytes` and every registered target
    /// borrows from `input`.
    pub open spec fn ok(&self) -> bool {
        &&& self.bytes@ == sbytes(self.input)
        &&& defs_borrow(self.defs, self.input)
    }

    pub(crate) fn new(input: &'src str, defs: &'a LinkDefs<'src>) -> (p: Self)
        requires
            defs_borrow(defs, input),
        ensures
            p.ok(),
            p.input == input,
    {
        InlineParser { input, bytes: input.as_bytes(), defs }
    }

    /// The slice `lo..hi` of the input, if it lies on character boundaries.
    fn slice(&self, lo: usize, hi: usize) -> (r: Option<&'src str>)
        requires
            self.ok(),
        ensures
            r matches Some(t) ==> borrowed_from(t, self.input) && sbytes(t) == self.bytes@.subrange(
                lo as int,
                hi as int,
            ) && lo <= hi <= self.bytes@.len(),
            r is Some <==> sliceable(self.input, lo as int, hi as int),
    {
        let r = str_get(self.input, lo, hi);
        proof {
            if let Some(t) = r {
                lemma_borrowed_intro(t, self.input, lo as int, hi as int);
            }
        }
        r
    }

    /// Find the `]` matching the `[` at `open`, skipping escapes, code spans,
    /// autolinks and raw HTML (which bind tighter than link brackets).
    fn matching_close(&self, open: usize, hi: usize) -> (r: Option<usize>)
        requires
            self.ok(),
            hi <= self.bytes@.len(),
        ensures
            r matches Some(c) ==> open < c < hi,
            opt_usize(r) == (if open >= hi { None } else { close_from(self.bytes@, open + 1, hi as int, 0) }),
    {
        let bytes = self.bytes;
        let mut depth: usize = 0;
        if open >= hi {
            return None;
        }
        let mut j = open + 1;
        while j < hi
            invariant
                self.ok(),
                bytes == self.bytes,
                open < j,
                open < hi,
                hi <= bytes@.len(),
                depth <= j,
                close_from(bytes@, open + 1, hi as int, 0) == close_from(bytes@, j as int, hi as int, depth as int),
            decreases hi - j,
        {
            let b = bytes[j];
            if escape_at(bytes, j, hi) {
                j = j + 2;
                continue;
            }
            if b == 96u8 {
                if let Some((_, _, end)) = try_parse_inline_code(bytes, j, hi) {
                    j = end;
                    continue;
                }
                j = j + 1;
                continue;
            }
            if b == 60u8 {
                if let Some(end) = self.angle_end(j, hi) {
                    j = end;
                    continue;
                }
                j = j + 1;
                continue;
            }
            if b == 91u8 {
                depth = depth + 1;
            } else if b == 93u8 {
                if depth == 0 {
                    return Some(j);
                }
                depth = depth - 1;
            }
            j = j + 1;
        }
        None
    }

    /// End of an autolink or raw-HTML construct at `start`, if any.
    fn angle_end(&self, start: usize, hi: usize) -> (r: Option<usize>)
        requires
            self.ok(),
            hi <= self.bytes@.len(),
        ensures
            r matches Some(e) ==> start < e <= hi,
            opt_usize(r) == angle_fn(self.bytes@, start as int, hi as int),
    {
        if let Some(c) = scan_autolink_uri(self.bytes, start, hi) {
            return Some(c + 1);
        }
        if let Some(c) = scan_autolink_email(self.bytes, start, hi) {
            return Some(c + 1);
        }
        if start < hi {
            let tail = vstd::slice::slice_subrange(self.bytes, start, hi);
            if let Some(n) = tail.scan_inline_html() {
                return Some(start + n);
            }
        }
        None
    }

    /// An autolink or raw inline HTML element at `start` and the index past it.
    fn try_parse_angle(&self, start: usize, hi: usize) -> (r: Option<(Inline<'src>, usize)>)
        requires
            self.ok(),
            hi <= self.bytes@.len(),
        ensures
            r matches Some((x, e)) ==> start < e <= hi && inline_ok(x, 0, self.input),
            angle_result(*self, start as int, hi as int, r),
    {
        if let Some(close) = scan_autolink_uri(self.bytes, start, hi) {
            if let Some(target) = self.slice(start + 1, close) {
                return Some((Inline::Autolink { target, is_email: false }, close + 1));
            }
            return None;
        }
        if let Some(close) = scan_autolink_email(self.bytes, start, hi) {
            if let Some(target) = self.slice(start + 1, close) {
                return Some((Inline::Autolink { target, is_email: true }, close + 1));
            }
            return None;
        }
        if start < hi {
            let tail = vstd::slice::slice_subrange(self.bytes, start, hi);
            if let Some(n) = tail.scan_inline_html() {
                if let Some(html) = self.slice(start, start + n) {
                    return Some((Inline::RawHtml(html), start + n));
                }
            }
        }
        None
    }

    /// An inline link or image tail `[text](dest "title")` at `start` (the `[`).
    fn try_parse_bracket_paren(&self, start: usize, hi: usize) -> (r: Option<LinkParts<'src>>)
        requires
            self.ok(),
            hi <= self.bytes@.len(),
        ensures
            r matches Some(p) ==> start < p.text_lo <= p.text_hi < p.end <= hi && borrowed_from(
                p.url,
                self.input,
            ) && opt_borrowed_from(p.title, self.input),
            paren_link_result(*self, start as int, hi as int, r),
    {
        if !(start < hi && self.bytes[start] == 91u8) {
            return None;
        }
        let close = match self.matching_close(start, hi) {
            Some(c) => c,
            None => return None,
        };
        let paren = close + 1;
        if !(paren < hi && self.bytes[paren] == 40u8) {
            return None;
        }
        let (ua, ub, title_r, end) = match scan_link_tail(self.bytes, paren, hi) {
            Some(t) => t,
            None => return None,
        };
        let url = match self.slice(ua, ub) {
            Some(u) => u,
            None => return None,
        };
        let title = match title_r {
            Some((ta, tb)) => match self.slice(ta, tb) {
                Some(t) => Some(t),
                None => return None,
            },
            None => None,
        };
        Some(LinkParts { text_lo: start + 1, text_hi: close, url, title, end })
    }

    /// Look up a label in the definition registry after normalization.
    fn lookup(&self, lo: usize, hi: usize) -> (r: Option<(&'src str, Option<&'src str>)>)
        requires
            self.ok(),
        ensures
            r matches Some((u, t)) ==> borrowed_from(u, self.input) && opt_borrowed_from(
                t,
                self.input,
            ),
            r == lookup_spec(*self, lo as int, hi as int),
    {
        if self.defs.entries.len() == 0 {
            return None;
        }
        let label = match self.slice(lo, hi) {
            Some(l) => l,
            None => return None,
        };
        proof {
            encode_utf8_decode_utf8(label@);
        }
        let key = normalize_label(label);
        match self.defs.find(&key) {
            Some(i) => {
                let e = &self.defs.entries[i];
                Some((e.url, e.title))
            },
            None => None,
        }
    }

    /// Whether `lo..hi` is only white space (ASCII; matches an empty label).
    fn blank_label(&self, lo: usize, hi: usize) -> (r: bool)
        requires
            self.ok(),
            hi <= self.bytes@.len(),
        ensures
            r == all_ws(self.bytes@, lo as int, hi as int),
    {
        crate::text::is_blank_range(self.bytes, lo, hi)
    }

    /// A reference link at `start` (the `[`): full `[text][label]`, collapsed
    /// `[label][]` or shortcut `[label]`, resolved against the registry.
    #[verifier::rlimit(40)]
    fn try_parse_reference(&self, start: usize, hi: usize) -> (r: Option<LinkParts<'src>>)
        requires
            self.ok(),
            hi <= self.bytes@.len(),
        ensures
            r matches Some(p) ==> start < p.text_lo <= p.text_hi < p.end <= hi && borrowed_from(
                p.url,
                self.input,
            ) && opt_borrowed_from(p.title, self.input),
            reference_result(*self, start as int, hi as int, r),
    {
        if self.defs.entries.len() == 0 {
            return None;
        }
        if !(start < hi && self.bytes[start] == 91u8) {
            return None;
        }
        let first_end = match self.matching_close(start, hi) {
            Some(c) => c,
            None => return None,
        };
        let after_first = first_end + 1;
        if after_first < hi && self.bytes[after_first] == 91u8 {
            let second_end = match self.matching_close(after_first, hi) {
                Some(c) => c,
                None => return None,
            };
            if self.blank_label(after_first + 1, second_end) {
                let (url, title) = match self.lookup(start + 1, first_end) {
                    Some(t) => t,
                    None => return None,
                };
                return Some(
                    LinkParts { text_lo: start + 1, text_hi: first_end, url, title, end: second_end + 1 },
                );
            }
            let (url, title) = match self.lookup(after_first + 1, second_end) {
                Some(t) => t,
                None => return None,
            };
            return Some(
                LinkParts { text_lo: start + 1, text_hi: first_end, url, title, end: second_end + 1 },
            );
        }
        let (url, title) = match self.lookup(start + 1, first_end) {
            Some(t) => t,
            None => return None,
        };
        Some(LinkParts { text_lo: start + 1, text_hi: first_end, url, title, end: after_first })
    }

    /// "No links in links": does `start..end` contain a link (not counting
    /// links inside an image's alt text)?
    fn region_has_link(&self, start: usize, end: usize, hi: usize) -> (r: bool)
        requires
            self.ok(),
            hi <= self.bytes@.len(),
        ensures
            r ==> exists|j: int| start <= j < end && j < hi && #[trigger] self.bytes@[j] == 91u8,
    {
        let bytes = self.bytes;
        let mut j = start;
        while j < end && j < hi
            invariant
                self.ok(),
                bytes == self.bytes,
                start <= j,
                hi <= bytes@.len(),
            decreases hi - j,
        {
            let b = bytes[j];
            if b == 92u8 {
                if escape_at(bytes, j, hi) {
                    j = j + 2;
                } else {
                    j = j + 1;
                }
                continue;
            }
            if b == 33u8 && j + 1 < hi && bytes[j + 1] == 91u8 {
                if let Some(p) = self.try_parse_bracket_paren(j + 1, hi) {
                    j = p.end;
                    continue;
                }
                if let Some(p) = self.try_parse_reference(j + 1, hi) {
                    j = p.end;
                    continue;
                }
                j = j + 1;
                continue;
            }
            if b == 91u8 {
                proof {
                    assert(self.bytes@[j as int] == 91u8);
                }
                if let Some(p) = self.try_parse_bracket_paren(j, hi) {
                    if p.end <= end {
                        return true;
                    }
                }
                if let Some(p) = self.try_parse_reference(j, hi) {
                    if p.end <= end {
                        return true;
                    }
                }
            }
            j = j + 1;
        }
        false
    }

    /// Text end and break kind at a newline: a hard break when the line ends
    /// in `\` or two or more spaces. Returns `(trim_end, is_hard)`.
    fn line_break_pieces(&self, plain_start: usize, nl: usize, strip: bool) -> (r: (usize, bool))
        requires
            self.ok(),
            plain_start <= nl < self.bytes@.len(),
        ensures
            plain_start <= r.0 <= nl,
            r == break_pieces(self.bytes@, plain_start as int, nl as int, strip),
    {
        let bytes = self.bytes;
        let (mut trim_end, is_hard) = if nl > plain_start && bytes[nl - 1] == 92u8 {
            (nl - 1, true)
        } else {
            let mut spaces: usize = 0;
            while nl - spaces > plain_start && bytes[nl - spaces - 1] == 32u8
                invariant
                    plain_start <= nl - spaces,
                    spaces <= nl,
                    nl < bytes@.len(),
                    forall|t: int| nl - spaces <= t < nl ==> (#[trigger] is_byte(32u8)(bytes@[t])),
                decreases nl - spaces,
            {
                spaces = spaces + 1;
            }
            proof {
                lemma_rrun_to(bytes@, plain_start as int, nl - spaces, nl as int, is_byte(32u8));
            }
            if spaces >= 2 {
                (nl - spaces, true)
            } else {
                (nl, false)
            }
        };
        let end0 = trim_end;
        if strip {
            while trim_end > plain_start && (bytes[trim_end - 1] == 32u8 || bytes[trim_end - 1]
                == 9u8)
                invariant
                    plain_start <= trim_end <= end0,
                    end0 <= nl,
                    nl < bytes@.len(),
                    forall|t: int| trim_end <= t < end0 ==> (#[trigger] blank()(bytes@[t])),
                decreases trim_end,
            {
                trim_end = trim_end - 1;
            }
            proof {
                lemma_rrun_to(bytes@, plain_start as int, trim_end as int, end0 as int, blank());
            }
        }
        (trim_end, is_hard)
    }

    /// Parse the inline context `lo..hi` into the pool and return its span.
    /// `strip` reflows a paragraph body (indentation at each line start and
    /// trailing white space at each line end are dropped).
    pub(crate) fn parse_context(&self, b: &mut Builder<'src>, lo: usize, hi: usize, strip: bool, depth: u8) -> (span: InlineSpan)
        requires
            self.ok(),
            old(b).wf(self.input),
            lo <= hi <= self.bytes@.len(),
        ensures
            final(b).wf(self.input),
            old(b).grown(final(b)),
            final(b).sections@ == old(b).sections@,
            span_within(span, final(b).inlines@.len() as int),
            depth >= MAX_INLINE_DEPTH ==> plain_pushed(
                self.input,
                old(b).inlines@,
                final(b).inlines@,
                lo as int,
                hi as int,
                span,
            ),
            depth < MAX_INLINE_DEPTH && no_special(self.bytes@, lo as int, hi as int) ==> ({
                let a = if strip { run_to(self.bytes@, lo as int, hi as int, blank()) } else { lo as int };
                let z = if strip { rrun_to(self.bytes@, a, hi as int, blank()) } else { hi as int };
                plain_pushed(self.input, old(b).inlines@, final(b).inlines@, a, z, span)
            }),
        decreases MAX_INLINE_DEPTH - depth, 1int,
    {
        let bytes = self.bytes;
        if depth >= MAX_INLINE_DEPTH {
            return self.push_plain(b, lo, hi);
        }
        if find_special(bytes, lo, hi) >= hi {
            let mut a = lo;
            let mut z = hi;
            if strip {
                while a < z && (bytes[a] == 32u8 || bytes[a] == 9u8)
                    invariant
                        lo <= a <= z <= hi,
                        z == hi,
                        hi <= bytes@.len(),
                        forall|t: int| lo <= t < a ==> (#[trigger] blank()(bytes@[t])),
                    decreases z - a,
                {
                    a = a + 1;
                }
                proof {
                    lemma_run_to(bytes@, lo as int, a as int, hi as int, blank());
                }
                while z > a && (bytes[z - 1] == 32u8 || bytes[z - 1] == 9u8)
                    invariant
                        lo <= a <= z <= hi,
                        hi <= bytes@.len(),
                        forall|t: int| z <= t < hi ==> (#[trigger] blank()(bytes@[t])),
                    decreases z,
                {
                    z = z - 1;
                }
                proof {
                    lemma_rrun_to(bytes@, a as int, z as int, hi as int, blank());
                }
            }
            return self.push_plain(b, a, z);
        }
        let delims = has_emph(bytes, lo, hi);
        let mut arena = EmphArena::new();
        self.scan_inline(b, &mut arena, lo, hi, strip, depth, delims);
        if strip && arena.tail < arena.nodes.len() {
            let t = arena.tail;
            let is_break = match arena.nodes[t].kind {
                EmphKind::Resolved(Inline::SoftBreak) => true,
                EmphKind::Resolved(Inline::HardBreak) => true,
                _ => false,
            };
            if is_break {
                arena.unlink_node(t, Ghost(b.inlines@.len() as int), Ghost(self.input));
            }
        }
        if delims {
            let budget = arena.nodes.len().saturating_add(hi - lo).saturating_add(2);
            arena.process_emphasis(budget, Ghost(b.inlines@.len() as int), Ghost(self.input));
        }
        let head = arena.head;
        let fuel = arena.nodes.len().saturating_add(1);
        self.emit_list(b, &arena, head, delims, fuel)
    }

    /// The whole range as one text node (or nothing when empty).
    fn push_plain(&self, b: &mut Builder<'src>, lo: usize, hi: usize) -> (span: InlineSpan)
        requires
            self.ok(),
            old(b).wf(self.input),
        ensures
            final(b).wf(self.input),
            old(b).grown(final(b)),
            final(b).sections@ == old(b).sections@,
            span_within(span, final(b).inlines@.len() as int),
            plain_pushed(self.input, old(b).inlines@, final(b).inlines@, lo as int, hi as int, span),
    {
        if lo >= hi {
            return InlineSpan::empty();
        }
        match self.slice(lo, hi) {
            Some(t) => {
                let ghost before = b.inlines@;
                let start = b.inline_len(Ghost(self.input));
                b.push_inline(Inline::Text(t), Ghost(self.input));
                let end = b.inline_len(Ghost(self.input));
                proof {
                    if before.len() < u32::MAX {
                        assert(b.inlines@.subrange(0, before.len() as int) == before);
                    }
                }
                InlineSpan::new(start, end - start)
            },
            None => InlineSpan::empty(),
        }
    }

    /// Parse paragraph lines (already trimmed, joined by soft breaks) as one
    /// run, so emphasis may span line boundaries.
    pub(crate) fn parse_lines(&self, b: &mut Builder<'src>, lines: &Vec<(usize, usize)>) -> (span: InlineSpan)
        requires
            self.ok(),
            old(b).wf(self.input),
            forall|k: int|
                0 <= k < lines@.len() ==> (#[trigger] lines@[k]).0 <= lines@[k].1
                    <= self.bytes@.len(),
        ensures
            final(b).wf(self.input),
            old(b).grown(final(b)),
            final(b).sections@ == old(b).sections@,
            span_within(span, final(b).inlines@.len() as int),
            (forall|k: int| 0 <= k < lines@.len() ==> no_special(self.bytes@, (#[trigger] lines@[k]).0 as int, lines@[k].1 as int))
                && old(b).inlines@.len() + 2 * lines@.len() < u32::MAX ==> ({
                &&& final(b).inlines@.subrange(0, old(b).inlines@.len() as int) == old(b).inlines@
                &&& shows_plain(
                    self.input,
                    final(b).inlines@.subrange(old(b).inlines@.len() as int, final(b).inlines@.len() as int),
                    plain_lines_shape(self.input, lines@),
                )
                &&& span.start == old(b).inlines@.len()
                &&& span.start + span.len == final(b).inlines@.len()
            }),
    {
        let bytes = self.bytes;
        let mut delims = false;
        let mut k: usize = 0;
        let ghost hyp = (forall|k: int| 0 <= k < lines@.len() ==> no_special(self.bytes@, (#[trigger] lines@[k]).0 as int, lines@[k].1 as int))
            && old(b).inlines@.len() + 2 * lines@.len() < u32::MAX;
        while k < lines.len()
            invariant
                k <= lines@.len(),
                self.ok(),
                bytes == self.bytes,
                forall|k: int|
                    0 <= k < lines@.len() ==> (#[trigger] lines@[k]).0 <= lines@[k].1
                        <= self.bytes@.len(),
                hyp == ((forall|k: int| 0 <= k < lines@.len() ==> no_special(self.bytes@, (#[trigger] lines@[k]).0 as int, lines@[k].1 as int))
                    && old(b).inlines@.len() + 2 * lines@.len() < u32::MAX),
                hyp ==> !delims,
            decreases lines@.len() - k,
        {
            let (lo, hi) = lines[k];
            proof {
                if hyp {
                    assert(no_special(self.bytes@, lines@[k as int].0 as int, lines@[k as int].1 as int));
                }
            }
            if has_emph(bytes, lo, hi) {
                delims = true;
            }
            k = k + 1;
        }
        let mut arena = EmphArena::new();
        let mut idx: usize = 0;
        while idx < lines.len()
            invariant
                self.ok(),
                b.wf(self.input),
                old(b).grown(b),
                b.sections@ == old(b).sections@,
                arena_ok(&arena, b.inlines@.len() as int, self.input),
                idx <= lines@.len(),
                bytes == self.bytes,
                forall|k: int|
                    0 <= k < lines@.len() ==> (#[trigger] lines@[k]).0 <= lines@[k].1
                        <= self.bytes@.len(),
                hyp == ((forall|k: int| 0 <= k < lines@.len() ==> no_special(self.bytes@, (#[trigger] lines@[k]).0 as int, lines@[k].1 as int))
                    && old(b).inlines@.len() + 2 * lines@.len() < u32::MAX),
                hyp ==> !delims,
                hyp ==> ({
                    &&& chain(&arena)
                    &&& b.inlines@ == old(b).inlines@
                    &&& arena.nodes@.len() <= 2 * idx
                    &&& forall|j: int| 0 <= j < arena.nodes@.len() ==> plain_kind(#[trigger] arena.nodes@[j].kind)
                    &&& emitted_shape(self.input, node_kinds(arena.nodes@)) == plain_lines_shape(self.input, lines@.subrange(0, idx as int))
                }),
            decreases lines@.len() - idx,
        {
            let ghost a0 = arena.nodes@;
            if idx > 0 {
                arena.push_node(
                    EmphKind::Resolved(Inline::SoftBreak),
                    Ghost(b.inlines@.len() as int),
                    Ghost(self.input),
                );
            }
            let ghost a1 = arena.nodes@;
            proof {
                if hyp {
                    if idx > 0 {
                        assert(node_kinds(a1) =~= node_kinds(a0).push(EmphKind::Resolved(Inline::SoftBreak)));
                        assert(node_kinds(a1).drop_last() =~= node_kinds(a0));
                    } else {
                        assert(a1 == a0);
                    }
                    assert(no_special(self.bytes@, lines@[idx as int].0 as int, lines@[idx as int].1 as int));
                }
            }
            let (lo, hi) = lines[idx];
            if !delims && find_special(bytes, lo, hi) >= hi {
                if lo < hi {
                    arena.push_node(EmphKind::Text { lo, hi }, Ghost(b.inlines@.len() as int), Ghost(self.input));
                    proof {
                        if hyp {
                            assert(node_kinds(arena.nodes@) =~= node_kinds(a1).push(EmphKind::Text { lo, hi }));
                            assert(node_kinds(arena.nodes@).drop_last() =~= node_kinds(a1));
                        }
                    }
                }
            } else {
                self.scan_inline(b, &mut arena, lo, hi, false, 0, delims);
            }
            proof {
                if hyp {
                    let l2 = lines@.subrange(0, idx + 1);
                    assert(l2.drop_last() =~= lines@.subrange(0, idx as int));
                    assert(l2.last() == lines@[idx as int]);
                    let e0 = emitted_shape(self.input, node_kinds(a0));
                    let sb: Seq<Option<(int, int)>> = if idx > 0 { seq![None] } else { Seq::empty() };
                    let tx: Seq<Option<(int, int)>> = if lo < hi && sliceable(self.input, lo as int, hi as int) {
                        seq![Some((lo as int, hi as int))]
                    } else {
                        Seq::empty()
                    };
                    if idx > 0 {
                        assert(emitted_shape(self.input, node_kinds(a1)) == e0 + sb);
                    } else {
                        assert(e0 + sb =~= e0);
                    }
                    if lo < hi {
                        assert(emitted_shape(self.input, node_kinds(arena.nodes@)) == e0 + sb + tx);
                    } else {
                        assert(e0 + sb + tx =~= e0 + sb);
                    }
                    assert(plain_lines_shape(self.input, l2) == plain_lines_shape(self.input, lines@.subrange(0, idx as int)) + sb + tx);
                    assert(forall|j: int| 0 <= j < arena.nodes@.len() ==> plain_kind(#[trigger] arena.nodes@[j].kind)) by {
                        assert forall|j: int| 0 <= j < arena.nodes@.len() implies plain_kind(#[trigger] arena.nodes@[j].kind) by {
                            if j < a0.len() {
                                assert(arena.nodes@[j].kind == a0[j].kind);
                            }
                        }
                    }
                }
            }
            idx = idx + 1;
        }
        proof {
            if hyp {
                assert(lines@.subrange(0, lines@.len() as int) =~= lines@);
            }
        }
        if delims {
            let budget = arena.nodes.len().saturating_add(bytes.len()).saturating_add(2);
            arena.process_emphasis(budget, Ghost(b.inlines@.len() as int), Ghost(self.input));
        }
        let head = arena.head;
        let fuel = arena.nodes.len().saturating_add(1);
        self.emit_list(b, &arena, head, delims, fuel)
    }

    /// Emit the node list starting at `head` into the pool in post-order
    /// (children of emphasis first), returning the span of this level's run.
    /// With `merge`, adjacent text runs are joined into one node.
    fn emit_list(&self, b: &mut Builder<'src>, arena: &EmphArena<'src>, head: usize, merge: bool, fuel: usize) -> (span: InlineSpan)
        requires
            self.ok(),
            old(b).wf(self.input),
            arena_ok(arena, old(b).inlines@.len() as int, self.input),
        ensures
            final(b).wf(self.input),
            old(b).grown(final(b)),
            final(b).sections@ == old(b).sections@,
            span_within(span, final(b).inlines@.len() as int),
            chain(arena) && head == arena.head && !merge && (forall|j: int|
                0 <= j < arena.nodes@.len() ==> plain_kind(#[trigger] arena.nodes@[j].kind)) && old(b).inlines@.len()
                + arena.nodes@.len() < u32::MAX ==> ({
                &&& final(b).inlines@.subrange(0, old(b).inlines@.len() as int) == old(b).inlines@
                &&& shows_plain(
                    self.input,
                    final(b).inlines@.subrange(old(b).inlines@.len() as int, final(b).inlines@.len() as int),
                    emitted_shape(self.input, node_kinds(arena.nodes@)),
                )
                &&& span.start == old(b).inlines@.len()
                &&& span.start + span.len == final(b).inlines@.len()
            }),
        decreases fuel,
    {
        let mut run: Vec<Piece<'src>> = Vec::new();
        let mut t = head;
        let mut steps: usize = arena.nodes.len();
        let ghost p0 = b.inlines@.len() as int;
        let ghost n = arena.nodes@.len() as int;
        let ghost ks = node_kinds(arena.nodes@);
        let ghost hyp = chain(arena) && head == arena.head && !merge && (forall|j: int|
            0 <= j < arena.nodes@.len() ==> plain_kind(#[trigger] arena.nodes@[j].kind)) && old(b).inlines@.len()
            + arena.nodes@.len() < u32::MAX;
        while t != NIL && t < arena.nodes.len() && steps > 0
            invariant
                self.ok(),
                b.wf(self.input),
                old(b).grown(b),
                b.sections@ == old(b).sections@,
                p0 == old(b).inlines@.len(),
                arena_ok(arena, p0, self.input),
                forall|k: int| 0 <= k < run@.len() ==> inline_ok(#[trigger] run@[k].item, b.inlines@.len() as int, self.input),
                steps <= n,
                n == arena.nodes@.len(),
                ks == node_kinds(arena.nodes@),
                hyp == (chain(arena) && head == arena.head && !merge && (forall|j: int|
                    0 <= j < arena.nodes@.len() ==> plain_kind(#[trigger] arena.nodes@[j].kind)) && old(b).inlines@.len()
                    + arena.nodes@.len() < u32::MAX),
                hyp ==> ({
                    let k = n - steps;
                    &&& t == (if k < n { k as usize } else { NIL })
                    &&& b.inlines@ == old(b).inlines@
                    &&& run@.len() <= k
                    &&& pieces_plain(self.input, run@, emitted_shape(self.input, ks.subrange(0, k)))
                }),
            decreases steps,
        {
            let ghost k0 = n - steps;
            let ghost run0 = run@;
            steps = steps - 1;
            let node = arena.nodes[t];
            let next = node.next;
            proof {
                lemma_arena_ok_mono(arena, p0, b.inlines@.len() as int, self.input);
                assert(kind_ok(arena.nodes@[t as int].kind, b.inlines@.len() as int, self.input));
            }
            match node.kind {
                EmphKind::Text { lo, hi } => {
                    if lo < hi {
                        let last_escaped = run.len() > 0 && run[run.len() - 1].escaped_amp;
                        let mut merged = false;
                        if merge && !last_escaped && run.len() > 0 {
                            let li = run.len() - 1;
                            if let Some((a, z)) = run[li].range {
                                if z == lo {
                                    if let Some(m) = self.slice(a, hi) {
                                        run.set(li, Piece { item: Inline::Text(m), range: Some((a, hi)), escaped_amp: false });
                                        merged = true;
                                    }
                                }
                            }
                        }
                        if !merged {
                            if let Some(s) = self.slice(lo, hi) {
                                run.push(Piece { item: Inline::Text(s), range: Some((lo, hi)), escaped_amp: false });
                            }
                        }
                    }
                },
                EmphKind::Lit { lo, hi } => {
                    if let Some(s) = self.slice(lo, hi) {
                        let amp = hi > lo && hi - lo == 1 && self.bytes[lo] == 38u8;
                        run.push(Piece { item: Inline::Text(s), range: Some((lo, hi)), escaped_amp: amp });
                    }
                },
                EmphKind::Resolved(x) => {
                    run.push(Piece { item: x, range: None, escaped_amp: false });
                },
                EmphKind::Emph { strong, head: child } => {
                    if fuel > 0 {
                        let ghost before = b.inlines@.len() as int;
                        let span = self.emit_list(b, arena, child, merge, fuel - 1);
                        assert forall|k: int| 0 <= k < run@.len() implies inline_ok(#[trigger] run@[k].item, b.inlines@.len() as int, self.input) by {
                            lemma_inline_ok_mono(run@[k].item, before, b.inlines@.len() as int, self.input);
                        }
                        let item = if strong {
                            Inline::Bold(span)
                        } else {
                            Inline::Italic(span)
                        };
                        run.push(Piece { item, range: None, escaped_amp: false });
                    }
                },
                EmphKind::Removed => {},
            }
            t = next;
            proof {
                if hyp {
                    assert(ks.subrange(0, k0 + 1).drop_last() =~= ks.subrange(0, k0));
                    assert(ks.subrange(0, k0 + 1).last() == arena.nodes@[k0].kind);
                    assert(plain_kind(arena.nodes@[k0].kind));
                    let sh0 = emitted_shape(self.input, ks.subrange(0, k0));
                    assert forall|j: int| #![trigger run@[j]] 0 <= j < run@.len() implies match emitted_shape(self.input, ks.subrange(0, k0 + 1))[j] {
                        None => run@[j].item == Inline::SoftBreak,
                        Some((lo, hi)) => run@[j].item matches Inline::Text(t) && sbytes(t) == sbytes(self.input).subrange(lo, hi),
                    } by {
                        if j < run0.len() {
                            assert(run@[j] == run0[j]);
                            assert(emitted_shape(self.input, ks.subrange(0, k0 + 1))[j] == sh0[j]);
                        }
                    }
                }
            }
        }
        let ghost run_all = run@;
        proof {
            if hyp {
                assert(n - steps == n) by {
                    if n - steps < n {
                        assert(t == (n - steps) as usize);
                    }
                }
                assert(ks.subrange(0, n) =~= ks);
            }
        }
        let start = b.inline_len(Ghost(self.input));
        let mut k: usize = 0;
        while k < run.len()
            invariant
                self.ok(),
                b.wf(self.input),
                old(b).grown(b),
                b.sections@ == old(b).sections@,
                start <= b.inlines@.len(),
                k <= run@.len(),
                forall|j: int| 0 <= j < run@.len() ==> inline_ok(#[trigger] run@[j].item, start as int, self.input),
                run@ == run_all,
                hyp ==> start == old(b).inlines@.len() && run@.len() <= n && old(b).inlines@.len() + n < u32::MAX,
                hyp ==> pieces_plain(self.input, run_all, emitted_shape(self.input, ks)),
                hyp ==> b.inlines@.len() == start + k && b.inlines@.subrange(0, start as int) == old(b).inlines@,
                hyp ==> forall|j: int| 0 <= j < k ==> #[trigger] b.inlines@[start + j] == run@[j].item,
            decreases run@.len() - k,
        {
            proof {
                lemma_inline_ok_mono(run@[k as int].item, start as int, b.inlines@.len() as int, self.input);
            }
            let ghost before = b.inlines@;
            b.push_inline(run[k].item, Ghost(self.input));
            proof {
                if hyp {
                    assert(b.inlines@ == before.push(run@[k as int].item));
                    assert(b.inlines@.subrange(0, start as int) =~= before.subrange(0, start as int));
                    assert forall|j: int| 0 <= j < k + 1 implies #[trigger] b.inlines@[start + j] == run@[j].item by {
                        if j < k {
                            assert(b.inlines@[start + j] == before[start + j]);
                        }
                    }
                }
            }
            k = k + 1;
        }
        let end = b.inline_len(Ghost(self.input));
        proof {
            if hyp {
                let items = b.inlines@.subrange(start as int, end as int);
                assert forall|j: int| #![trigger items[j]] 0 <= j < items.len() implies items[j] == run_all[j].item by {
                    assert(items[j] == b.inlines@[start + j]);
                }
            }
        }
        InlineSpan::new(start, end - start)
    }

    /// The shared inline scanner: recognises line breaks, escapes, code spans,
    /// images, links, autolinks, raw HTML and (when `delims`) emphasis runs in
    /// `lo..hi`, feeding them to `arena`.
    #[verifier::loop_isolation(false)]
    fn scan_inline(&self, b: &mut Builder<'src>, arena: &mut EmphArena<'src>, lo: usize, hi: usize, strip: bool, depth: u8, delims: bool)
        requires
            self.ok(),
            old(b).wf(self.input),
            arena_ok(old(arena), old(b).inlines@.len() as int, self.input),
            lo <= hi <= self.bytes@.len(),
            depth < MAX_INLINE_DEPTH,
        ensures
            final(b).wf(self.input),
            old(b).grown(final(b)),
            final(b).sections@ == old(b).sections@,
            arena_ok(final(arena), final(b).inlines@.len() as int, self.input),
            !strip && lo < hi && no_special(self.bytes@, lo as int, hi as int) ==> ({
                &&& final(arena).nodes@.len() == old(arena).nodes@.len() + 1
                &&& final(arena).nodes@.last().kind == EmphKind::Text { lo, hi }
                &&& same_kinds(old(arena).nodes@, final(arena).nodes@.drop_last())
            }),
        decreases MAX_INLINE_DEPTH - depth, 0int,
    {
        let bytes = self.bytes;
        let mut plain_start = lo;
        if strip {
            plain_start = skip_spaces_tabs(bytes, lo, hi);
        }
        let mut i = plain_start;
        let links_possible = find_in(bytes, lo, hi, 93u8) < hi;
        while i < hi
            invariant
                self.ok(),
                b.wf(self.input),
                old(b).grown(b),
                b.sections@ == old(b).sections@,
                arena_ok(arena, b.inlines@.len() as int, self.input),
                lo <= plain_start <= hi,
                plain_start <= i || i >= hi,
                lo <= i,
                hi <= bytes@.len(),
                depth < MAX_INLINE_DEPTH,
                bytes == self.bytes,
                !strip && no_special(bytes@, lo as int, hi as int) ==> i == lo && plain_start == lo
                    && arena.nodes@ == old(arena).nodes@,
            decreases hi - i,
        {
            let pos = find_special(bytes, i, hi);
            if pos >= hi {
                break;
            }
            i = pos;
            let c = bytes[i];
            let plen = Ghost(b.inlines@.len() as int);
            if c == 10u8 {
                let (trim_end, is_hard) = self.line_break_pieces(plain_start, i, strip);
                if plain_start < trim_end {
                    arena.push_node(EmphKind::Text { lo: plain_start, hi: trim_end }, plen, Ghost(self.input));
                }
                arena.push_node(
                    EmphKind::Resolved(if is_hard { Inline::HardBreak } else { Inline::SoftBreak }),
                    plen,
                    Ghost(self.input),
                );
                plain_start = i + 1;
                if strip {
                    plain_start = skip_spaces_tabs(bytes, plain_start, hi);
                }
                i = plain_start;
                continue;
            }
            if c == 92u8 && escape_at(bytes, i, hi) {
                if plain_start < i {
                    arena.push_node(EmphKind::Text { lo: plain_start, hi: i }, plen, Ghost(self.input));
                }
                arena.push_node(EmphKind::Lit { lo: i + 1, hi: i + 2 }, plen, Ghost(self.input));
                plain_start = i + 2;
                i = i + 2;
                continue;
            }
            if c == 96u8 {
                if let Some((ca, cb, end)) = try_parse_inline_code(bytes, i, hi) {
                    if let Some(code) = self.slice(ca, cb) {
                        if plain_start < i {
                            arena.push_node(EmphKind::Text { lo: plain_start, hi: i }, plen, Ghost(self.input));
                        }
                        arena.push_node(EmphKind::Resolved(Inline::Code(code)), plen, Ghost(self.input));
                        plain_start = end;
                        i = end;
                        continue;
                    }
                }
                let run = backtick_run(bytes, i, hi);
                i = i + if run > 0 { run } else { 1 };
                continue;
            }
            if links_possible && c == 33u8 && i + 1 < hi && bytes[i + 1] == 91u8 {
                let parts = match self.try_parse_bracket_paren(i + 1, hi) {
                    Some(p) => Some(p),
                    None => self.try_parse_reference(i + 1, hi),
                };
                if let Some(p) = parts {
                    if plain_start < i {
                        arena.push_node(EmphKind::Text { lo: plain_start, hi: i }, plen, Ghost(self.input));
                    }
                    let alt = self.parse_context(b, p.text_lo, p.text_hi, false, depth + 1);
                    proof {
                        lemma_arena_ok_mono(arena, plen@, b.inlines@.len() as int, self.input);
                    }
                    arena.push_node(
                        EmphKind::Resolved(Inline::Image { alt, url: p.url, title: p.title }),
                        Ghost(b.inlines@.len() as int),
                        Ghost(self.input),
                    );
                    plain_start = p.end;
                    i = p.end;
                    continue;
                }
            }
            if links_possible && c == 91u8 {
                let parts = match self.try_parse_bracket_paren(i, hi) {
                    Some(p) => Some(p),
                    None => self.try_parse_reference(i, hi),
                };
                if let Some(p) = parts {
                    if !self.region_has_link(p.text_lo, p.text_hi, hi) {
                        if plain_start < i {
                            arena.push_node(EmphKind::Text { lo: plain_start, hi: i }, plen, Ghost(self.input));
                        }
                        let text = self.parse_context(b, p.text_lo, p.text_hi, false, depth + 1);
                        proof {
                            lemma_arena_ok_mono(arena, plen@, b.inlines@.len() as int, self.input);
                        }
                        arena.push_node(
                            EmphKind::Resolved(Inline::Link { text, url: p.url, title: p.title }),
                            Ghost(b.inlines@.len() as int),
                            Ghost(self.input),
                        );
                        plain_start = p.end;
                        i = p.end;
                        continue;
                    }
                }
            }
            if c == 60u8 {
                if let Some((x, end)) = self.try_parse_angle(i, hi) {
                    if plain_start < i {
                        arena.push_node(EmphKind::Text { lo: plain_start, hi: i }, plen, Ghost(self.input));
                    }
                    proof {
                        lemma_inline_ok_mono(x, 0, plen@, self.input);
                    }
                    arena.push_node(EmphKind::Resolved(x), plen, Ghost(self.input));
                    plain_start = end;
                    i = end;
                    continue;
                }
            }
            if delims && (c == 42u8 || c == 95u8) {
                let (count, can_open, can_close) = scan_delims(bytes, lo, hi, i, c);
                if plain_start < i {
                    arena.push_node(EmphKind::Text { lo: plain_start, hi: i }, plen, Ghost(self.input));
                }
                if can_open || can_close {
                    arena.push_delim(i, i + count, c, can_open, can_close, plen, Ghost(self.input));
                } else {
                    arena.push_node(EmphKind::Text { lo: i, hi: i + count }, plen, Ghost(self.input));
                }
                plain_start = i + count;
                i = i + count;
                continue;
            }
            i = i + 1;
        }
        let mut tail_end = hi;
        if strip {
            while tail_end > plain_start && (bytes[tail_end - 1] == 32u8 || bytes[tail_end - 1] == 9u8)
                invariant
                    plain_start <= tail_end <= hi,
                    hi <= bytes@.len(),
                decreases tail_end,
            {
                tail_end = tail_end - 1;
            }
        }
        if plain_start < tail_end {
            arena.push_node(
                EmphKind::Text { lo: plain_start, hi: tail_end },
                Ghost(b.inlines@.len() as int),
                Ghost(self.input),
            );
        }
    }
}

/// Skip spaces and tabs from `p` up to `hi`.
fn skip_spaces_tabs(bytes: &[u8], p: usize, hi: usize) -> (r: usize)
    requires
        p <= hi <= bytes@.len(),
    ensures
        p <= r <= hi,
{
    let mut q = p;
    while q < hi && (bytes[q] == 32u8 || bytes[q] == 9u8)
        invariant
            p <= q <= hi,
            hi <= bytes@.len(),
        decreases hi - q,
    {
        q = q + 1;
    }
    q
}

/// The characters of the local part of an email address (`CommonMark`
/// §6.5): ASCII letters and digits and ``.!#$%&'*+/=?^_`{|}~-``.
pub open spec fn email_text_char(c: u8) -> bool {
    ||| c == 33u8 || c == 35u8 || c == 36u8 || c == 37u8 || c == 38u8 || c == 39u8
    ||| c == 42u8 || c == 43u8 || c == 45u8 || c == 46u8 || c == 47u8
    ||| (48u8 <= c && c <= 57u8)
    ||| c == 61u8 || c == 63u8
    ||| (65u8 <= c && c <= 90u8)
    ||| c == 94u8 || c == 95u8 || c == 96u8
    ||| (97u8 <= c && c <= 122u8)
    ||| c == 123u8 || c == 124u8 || c == 125u8 || c == 126u8
}

/// After `<`, any non-empty run of local-part characters (dots included)
/// followed by `@` is the local part of an email autolink: whether the
/// autolink stands, and where it ends, is up to the domain alone.
pub proof fn law_email_local_part(b: Seq<u8>, start: int, at: int, hi: int)
    requires
        0 <= start,
        start + 1 < at < hi <= b.len(),
        b[at] == 64u8,
        forall|t: int| start < t < at ==> email_text_char(#[trigger] b[t]),
    ensures
        email_autolink(b, start, hi) == email_domain(b, at + 1, hi),
{
    assert forall|t: int| start + 1 <= t < at implies email_local()(#[trigger] b[t]) by {
        assert(email_text_char(b[t]));
    }
    assert(!email_local()(b[at]));
    lemma_run_to(b, start + 1, at, hi, email_local());
}

/// `<`, a scheme of 2 to 32 letters, digits, `+`, `.` or `-` starting with
/// a letter, `:`, then bytes other than `<`, `>`, and white space up to a
/// `>`: that is an absolute-URI autolink ending at that `>`.
pub proof fn law_uri_autolink(b: Seq<u8>, start: int, colon: int, close: int, hi: int)
    requires
        0 <= start,
        start + 3 <= colon < close < hi <= b.len(),
        colon - (start + 1) <= 32,
        (65u8 <= b[start + 1] <= 90u8) || (97u8 <= b[start + 1] <= 122u8),
        forall|t: int|
            start + 1 < t < colon ==> {
                let c = #[trigger] b[t];
                ||| 65u8 <= c <= 90u8
                ||| 97u8 <= c <= 122u8
                ||| 48u8 <= c <= 57u8
                ||| c == 43u8 || c == 46u8 || c == 45u8
            },
        b[colon] == 58u8,
        forall|t: int|
            colon < t < close ==> {
                let c = #[trigger] b[t];
                c != 60u8 && c != 62u8 && c != 32u8 && c != 9u8 && c != 10u8 && c != 12u8 && c != 13u8
            },
        b[close] == 62u8,
    ensures
        uri_autolink(b, start, hi) == Some(close),
{
    assert forall|t: int| start + 2 <= t < colon implies scheme_char()(#[trigger] b[t]) by {
        assert(start + 1 < t < colon);
    }
    lemma_run_to(b, start + 2, colon, hi, scheme_char());
    assert forall|t: int| colon + 1 <= t < close implies uri_char()(#[trigger] b[t]) by {
        assert(colon < t < close);
    }
    lemma_run_to(b, colon + 1, close, hi, uri_char());
}

} // verus!
