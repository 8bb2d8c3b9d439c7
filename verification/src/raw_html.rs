use vstd::prelude::*;
use crate::text::{ascii_alnum, ascii_alpha, ascii_lower, ascii_ws, is_alnum, is_alpha, is_ws, lemma_ascii_literal, lower, sbytes};

verus! {

/// Case-insensitive (ASCII) equality of two byte strings.
pub open spec fn eq_ci(a: Seq<u8>, b: Seq<u8>) -> bool {
    a.len() == b.len() && forall|j: int| 0 <= j < a.len() ==> lower(#[trigger] a[j]) == lower(b[j])
}

/// `needle` occurs case-insensitively in `hay` starting at `k`.
pub open spec fn ci_at(hay: Seq<u8>, needle: Seq<u8>, k: int) -> bool {
    0 <= k && k + needle.len() <= hay.len() && eq_ci(hay.subrange(k, k + needle.len()), needle)
}

/// `needle` occurs verbatim in `hay` starting at `k`.
pub open spec fn exact_at(hay: Seq<u8>, needle: Seq<u8>, k: int) -> bool {
    0 <= k && k + needle.len() <= hay.len() && hay.subrange(k, k + needle.len()) == needle
}

/// Index just past the run of bytes satisfying `p` that starts at `i`.
pub open spec fn run_end(b: Seq<u8>, i: int, p: spec_fn(u8) -> bool) -> int
    decreases b.len() - i,
{
    if 0 <= i < b.len() && p(b[i]) {
        run_end(b, i + 1, p)
    } else {
        i
    }
}

/// `b[i]` exists and is `c`.
pub open spec fn at(b: Seq<u8>, i: int, c: u8) -> bool {
    0 <= i < b.len() && b[i] == c
}

pub open spec fn ws_byte() -> spec_fn(u8) -> bool {
    |c: u8| is_ws(c)
}

pub open spec fn tag_char() -> spec_fn(u8) -> bool {
    |c: u8| is_alnum(c) || c == 45u8
}

pub open spec fn alnum_byte() -> spec_fn(u8) -> bool {
    |c: u8| is_alnum(c)
}

/// A byte that may start an attribute name: `[A-Za-z_:]`.
pub open spec fn attr_start(c: u8) -> bool {
    is_alpha(c) || c == 95u8 || c == 58u8
}

/// A byte that may continue an attribute name: `[A-Za-z0-9_.:-]`.
pub open spec fn attr_char() -> spec_fn(u8) -> bool {
    |c: u8| is_alnum(c) || c == 95u8 || c == 46u8 || c == 58u8 || c == 45u8
}

/// A byte of an unquoted attribute value: no white space and none of
/// `" ' = < > \``.
pub open spec fn unquoted_char() -> spec_fn(u8) -> bool {
    |c: u8| !is_ws(c) && c != 34u8 && c != 39u8 && c != 61u8 && c != 60u8 && c != 62u8 && c != 96u8
}

pub open spec fn not_byte(q: u8) -> spec_fn(u8) -> bool {
    |c: u8| c != q
}

/// The end of the attribute value at `i`: a single- or double-quoted string,
/// or a non-empty unquoted run.
pub open spec fn attr_value_end(b: Seq<u8>, i: int) -> Option<int> {
    if at(b, i, 39u8) || at(b, i, 34u8) {
        let j = run_end(b, i + 1, not_byte(b[i]));
        if j < b.len() {
            Some(j + 1)
        } else {
            None
        }
    } else {
        let j = run_end(b, i, unquoted_char());
        if j > i {
            Some(j)
        } else {
            None
        }
    }
}

/// The rest of an open tag from `i` (just past the tag name or an
/// attribute): attributes, each preceded by white space, then white space,
/// an optional `/` and `>`. The end of the tag, if it is one.
pub open spec fn open_tag_rest(b: Seq<u8>, i: int) -> Option<int>
    decreases b.len() - i,
{
    if i < 0 || i > b.len() {
        None
    } else {
        let j = run_end(b, i, ws_byte());
        if at(b, j, 47u8) && at(b, j + 1, 62u8) {
            Some(j + 2)
        } else if at(b, j, 62u8) {
            Some(j + 1)
        } else if j == i || !(0 <= j < b.len() && attr_start(b[j])) {
            None
        } else {
            let k = run_end(b, j + 1, attr_char());
            let m = run_end(b, k, ws_byte());
            if at(b, m, 61u8) {
                match attr_value_end(b, run_end(b, m + 1, ws_byte())) {
                    Some(e) => if i < e <= b.len() {
                        open_tag_rest(b, e)
                    } else {
                        None
                    },
                    None => None,
                }
            } else if i < k <= b.len() {
                open_tag_rest(b, k)
            } else {
                None
            }
        }
    }
}

/// An open tag at the start of `b`: `<`, a tag name, then the rest.
pub open spec fn open_tag(b: Seq<u8>) -> Option<int> {
    if at(b, 0, 60u8) && 1 < b.len() && is_alpha(b[1]) {
        open_tag_rest(b, run_end(b, 2, tag_char()))
    } else {
        None
    }
}

/// A closing tag at the start of `b`: `</`, a tag name, white space, `>`.
pub open spec fn closing_tag(b: Seq<u8>) -> Option<int> {
    if at(b, 0, 60u8) && at(b, 1, 47u8) && 2 < b.len() && is_alpha(b[2]) {
        let i = run_end(b, run_end(b, 3, tag_char()), ws_byte());
        if at(b, i, 62u8) {
            Some(i + 1)
        } else {
            None
        }
    } else {
        None
    }
}

/// `r` is the end of the first occurrence of `close` at or after `start`.
pub open spec fn until_result(b: Seq<u8>, start: int, close: Seq<u8>, r: Option<int>) -> bool {
    match r {
        Some(n) => {
            &&& n >= close.len()
            &&& start <= n - close.len()
            &&& exact_at(b, close, n - close.len())
            &&& forall|k: int| start <= k < n - close.len() ==> !exact_at(b, close, k)
        },
        None => forall|k: int| start <= k ==> !exact_at(b, close, k),
    }
}

/// What `<!` constructs at the start of `b` (comment, CDATA section,
/// declaration) span.
pub open spec fn declarationish_result(b: Seq<u8>, r: Option<int>) -> bool {
    if starts(b, sbytes("<!--")) {
        if starts(b, sbytes("<!-->")) {
            r == Some(5int)
        } else if starts(b, sbytes("<!--->")) {
            r == Some(6int)
        } else if at(b, 4, 62u8) || exact_at(b, sbytes("->"), 4) {
            r is None
        } else {
            until_result(b, 4, sbytes("-->"), r)
        }
    } else if starts(b, sbytes("<![CDATA[")) {
        until_result(b, 9, sbytes("]]>"), r)
    } else if 2 < b.len() && is_alpha(b[2]) {
        let i = run_end(b, 3, not_byte(62u8));
        r == (if i < b.len() { Some(i + 1) } else { None })
    } else {
        r is None
    }
}

/// What inline raw HTML at the start of `b` spans.
pub open spec fn inline_html_result(b: Seq<u8>, r: Option<int>) -> bool {
    if !(1 < b.len() && b[0] == 60u8) {
        r is None
    } else if b[1] == 33u8 {
        declarationish_result(b, r)
    } else if b[1] == 63u8 {
        until_result(b, 2, sbytes("?>"), r)
    } else if b[1] == 47u8 {
        r == closing_tag(b)
    } else {
        r == open_tag(b)
    }
}

/// The raw-text tag names of start condition 1.
pub open spec fn raw_text_tag(name: Seq<u8>) -> bool {
    eq_ci(name, sbytes("script")) || eq_ci(name, sbytes("pre")) || eq_ci(name, sbytes("style"))
        || eq_ci(name, sbytes("textarea"))
}

/// The block tag names of start condition 6.
pub open spec fn block_tag_names() -> Seq<&'static str> {
    seq![
        "address", "article", "aside", "base", "basefont", "blockquote", "body", "caption",
        "center", "col", "colgroup", "dd", "details", "dialog", "dir", "div", "dl", "dt",
        "fieldset", "figcaption", "figure", "footer", "form", "frame", "frameset", "h1", "h2",
        "h3", "h4", "h5", "h6", "head", "header", "hr", "html", "iframe", "legend", "li", "link",
        "main", "menu", "menuitem", "nav", "noframes", "ol", "optgroup", "option", "p", "param",
        "search", "section", "summary", "table", "tbody", "td", "tfoot", "th", "thead", "title",
        "tr", "track", "ul",
    ]
}

pub open spec fn block_tag(name: Seq<u8>) -> bool {
    exists|t: int| 0 <= t < block_tag_names().len() && #[trigger] eq_ci(name, sbytes(block_tag_names()[t]))
}

/// The kind of HTML block that the line `b` (indentation stripped) starts,
/// if any (`CommonMark` §4.6); a type-7 block cannot interrupt a paragraph.
pub open spec fn block_start_kind(b: Seq<u8>, in_paragraph: bool) -> Option<HtmlBlockKind> {
    if !at(b, 0, 60u8) {
        None
    } else if starts(b, sbytes("<!--")) {
        Some(HtmlBlockKind::Type2)
    } else if at(b, 1, 63u8) {
        Some(HtmlBlockKind::Type3)
    } else if starts(b, sbytes("<![CDATA[")) {
        Some(HtmlBlockKind::Type5)
    } else if at(b, 1, 33u8) && 2 < b.len() && is_alpha(b[2]) {
        Some(HtmlBlockKind::Type4)
    } else {
        let ns: int = if at(b, 1, 47u8) { 2 } else { 1 };
        let end = run_end(b, ns, alnum_byte());
        let name = b.subrange(ns, end);
        if end == ns {
            None
        } else if ns == 1 && raw_text_tag(name) && (end == b.len() || is_ws(b[end]) || b[end] == 62u8) {
            Some(HtmlBlockKind::Type1)
        } else if block_tag(name) && (end == b.len() || is_ws(b[end]) || b[end] == 62u8 || (b[end]
            == 47u8 && at(b, end + 1, 62u8))) {
            Some(HtmlBlockKind::Type6)
        } else if in_paragraph {
            None
        } else {
            let consumed = if ns == 2 {
                closing_tag(b)
            } else if raw_text_tag(name) {
                None
            } else {
                open_tag(b)
            };
            match consumed {
                Some(c) => if run_end(b, c, ws_byte()) >= b.len() {
                    Some(HtmlBlockKind::Type7)
                } else {
                    None
                },
                None => None,
            }
        }
    }
}

/// The line holds one of the type-1 closing tags (in any case).
pub open spec fn has_type1_end(b: Seq<u8>) -> bool {
    ||| exists|k: int| ci_at(b, sbytes("</script>"), k)
    ||| exists|k: int| ci_at(b, sbytes("</pre>"), k)
    ||| exists|k: int| ci_at(b, sbytes("</style>"), k)
    ||| exists|k: int| ci_at(b, sbytes("</textarea>"), k)
}

/// The end of the first occurrence of `close` at or after `k`.
pub open spec fn until_fn(b: Seq<u8>, k: int, close: Seq<u8>) -> Option<int>
    decreases b.len() + 1 - k,
{
    if k < 0 || k + close.len() > b.len() {
        None
    } else if exact_at(b, close, k) {
        Some(k + close.len())
    } else {
        until_fn(b, k + 1, close)
    }
}

/// The first-occurrence characterisation determines the scan's result.
pub proof fn lemma_until_fn(b: Seq<u8>, s: int, close: Seq<u8>, r: Option<int>)
    requires
        0 <= s,
        until_result(b, s, close, r),
    ensures
        r == until_fn(b, s, close),
    decreases b.len() + 1 - s,
{
    if s + close.len() > b.len() {
        if let Some(n) = r {
            assert(false);
        }
    } else if exact_at(b, close, s) {
        if let Some(n) = r {
            if n - close.len() > s {
                assert(!exact_at(b, close, s));
            }
        }
    } else {
        if let Some(n) = r {
            assert(n - close.len() != s);
        }
        lemma_until_fn(b, s + 1, close, r);
    }
}

/// What `<!` constructs at the start of `b` span, as a function.
pub open spec fn declarationish_fn(b: Seq<u8>) -> Option<int> {
    if starts(b, sbytes("<!--")) {
        if starts(b, sbytes("<!-->")) {
            Some(5int)
        } else if starts(b, sbytes("<!--->")) {
            Some(6int)
        } else if at(b, 4, 62u8) || exact_at(b, sbytes("->"), 4) {
            None
        } else {
            until_fn(b, 4, sbytes("-->"))
        }
    } else if starts(b, sbytes("<![CDATA[")) {
        until_fn(b, 9, sbytes("]]>"))
    } else if 2 < b.len() && is_alpha(b[2]) {
        let i = run_end(b, 3, not_byte(62u8));
        if i < b.len() { Some(i + 1) } else { None }
    } else {
        None
    }
}

/// What inline raw HTML at the start of `b` spans, as a function.
pub open spec fn inline_html_fn(b: Seq<u8>) -> Option<int> {
    if !(1 < b.len() && b[0] == 60u8) {
        None
    } else if b[1] == 33u8 {
        declarationish_fn(b)
    } else if b[1] == 63u8 {
        until_fn(b, 2, sbytes("?>"))
    } else if b[1] == 47u8 {
        closing_tag(b)
    } else {
        open_tag(b)
    }
}

/// The relational and functional descriptions of inline raw HTML agree.
pub proof fn lemma_inline_html_fn(b: Seq<u8>, r: Option<int>)
    requires
        inline_html_result(b, r),
    ensures
        r == inline_html_fn(b),
{
    if 1 < b.len() && b[0] == 60u8 {
        if b[1] == 33u8 {
            if starts(b, sbytes("<!--")) {
                if !starts(b, sbytes("<!-->")) && !starts(b, sbytes("<!--->")) && !(at(b, 4, 62u8)
                    || exact_at(b, sbytes("->"), 4)) {
                    lemma_until_fn(b, 4, sbytes("-->"), r);
                }
            } else if starts(b, sbytes("<![CDATA[")) {
                lemma_until_fn(b, 9, sbytes("]]>"), r);
            }
        } else if b[1] == 63u8 {
            lemma_until_fn(b, 2, sbytes("?>"), r);
        }
    }
}

/// A run ends where its predicate first fails.
pub proof fn lemma_run_end(b: Seq<u8>, i: int, j: int, p: spec_fn(u8) -> bool)
    requires
        0 <= i <= j <= b.len(),
        forall|t: int| i <= t < j ==> p(#[trigger] b[t]),
        j == b.len() || !p(b[j]),
    ensures
        run_end(b, i, p) == j,
    decreases j - i,
{
    if i < j {
        lemma_run_end(b, i + 1, j, p);
    }
}

pub proof fn lemma_run_end_ge(b: Seq<u8>, i: int, p: spec_fn(u8) -> bool)
    ensures
        run_end(b, i, p) >= i,
        0 <= i <= b.len() ==> run_end(b, i, p) <= b.len(),
    decreases b.len() - i,
{
    if 0 <= i < b.len() && p(b[i]) {
        lemma_run_end_ge(b, i + 1, p);
    }
}

/// Byte classifiers for HTML tag names.
pub trait HtmlByte {
    spec fn spec_tag_name_start(self) -> bool;

    spec fn spec_tag_name_char(self) -> bool;

    fn tag_name_start(self) -> (r: bool)
        ensures
            r == self.spec_tag_name_start(),
    ;

    fn tag_name_char(self) -> (r: bool)
        ensures
            r == self.spec_tag_name_char(),
    ;
}

impl HtmlByte for u8 {
    /// An ASCII letter may start a tag name.
    open spec fn spec_tag_name_start(self) -> bool {
        is_alpha(self)
    }

    /// Letters, digits and `-` continue a tag name.
    open spec fn spec_tag_name_char(self) -> bool {
        is_alnum(self) || self == 45u8
    }

    fn tag_name_start(self) -> (r: bool) {
        ascii_alpha(self)
    }

    fn tag_name_char(self) -> (r: bool) {
        ascii_alnum(self) || self == 45u8
    }
}

/// The seven kinds of HTML block, distinguished by start/end conditions.
#[derive(Clone, Copy, PartialEq, Eq, Debug, Structural)]
pub enum HtmlBlockKind {
    /// `<script`, `<pre`, `<style`, `<textarea` — ends at the matching close tag.
    Type1,
    /// `<!--` — ends at `-->`.
    Type2,
    /// `<?` — ends at `?>`.
    Type3,
    /// `<!` + letter — ends at `>`.
    Type4,
    /// `<![CDATA[` — ends at `]]>`.
    Type5,
    /// A known block-level tag name — ends at a blank line.
    Type6,
    /// A complete standalone open/closing tag — ends at a blank line.
    Type7,
}

/// The end marker of each kind that ends on the line containing a marker.
pub open spec fn spec_end_marker(k: HtmlBlockKind) -> Option<Seq<u8>> {
    match k {
        HtmlBlockKind::Type2 => Some(seq![45u8, 45u8, 62u8]),
        HtmlBlockKind::Type3 => Some(seq![63u8, 62u8]),
        HtmlBlockKind::Type4 => Some(seq![62u8]),
        HtmlBlockKind::Type5 => Some(seq![93u8, 93u8, 62u8]),
        _ => None,
    }
}

impl HtmlBlockKind {
    /// The literal end marker for types 2–5, whose block ends on the line that
    /// contains it. Type 1 uses several markers; types 6 and 7 end at a blank line.
    pub fn end_marker(self) -> (r: Option<&'static [u8]>)
        ensures
            r matches Some(m) ==> spec_end_marker(self) == Some(m@),
            r is None <==> spec_end_marker(self) is None,
    {
        match self {
            HtmlBlockKind::Type2 => {
                proof {
                    reveal_strlit("-->");
                    lemma_ascii_literal("-->");
                }
                let m = "-->".as_bytes();
                assert(m@ =~= seq![45u8, 45u8, 62u8]);
                Some(m)
            },
            HtmlBlockKind::Type3 => {
                proof {
                    reveal_strlit("?>");
                    lemma_ascii_literal("?>");
                }
                let m = "?>".as_bytes();
                assert(m@ =~= seq![63u8, 62u8]);
                Some(m)
            },
            HtmlBlockKind::Type4 => {
                proof {
                    reveal_strlit(">");
                    lemma_ascii_literal(">");
                }
                let m = ">".as_bytes();
                assert(m@ =~= seq![62u8]);
                Some(m)
            },
            HtmlBlockKind::Type5 => {
                proof {
                    reveal_strlit("]]>");
                    lemma_ascii_literal("]]>");
                }
                let m = "]]>".as_bytes();
                assert(m@ =~= seq![93u8, 93u8, 62u8]);
                Some(m)
            },
            _ => None,
        }
    }
}

/// `s` opens with the bytes of `p`.
pub open spec fn starts(s: Seq<u8>, p: Seq<u8>) -> bool {
    p.len() <= s.len() && s.subrange(0, p.len() as int) == p
}

/// An offset as an integer.
pub open spec fn opt_int(r: Option<usize>) -> Option<int> {
    match r {
        Some(n) => Some(n as int),
        None => None,
    }
}

/// HTML tag/construct scanners over a byte slice. Each scanner works at index
/// 0 unless noted and returns the number of bytes consumed.
pub trait HtmlScan {
    spec fn bytes_of(&self) -> Seq<u8>;

    /// An open tag: `<` tagname (white space, attribute)* white space? `/`? `>`.
    fn scan_open_tag(&self) -> (r: Option<usize>)
        ensures
            opt_int(r) == open_tag(self.bytes_of()),
            r matches Some(n) ==> 3 <= n <= self.bytes_of().len() && self.bytes_of()[0]
                == 60u8 && self.bytes_of()[n - 1] == 62u8,
    ;

    /// An attribute value at `i`, returning the index past it.
    fn scan_attribute_value(&self, i: usize) -> (r: Option<usize>)
        ensures
            opt_int(r) == attr_value_end(self.bytes_of(), i as int),
            r matches Some(n) ==> i < n <= self.bytes_of().len(),
    ;

    /// A closing tag: `</` tagname white space? `>`.
    fn scan_closing_tag(&self) -> (r: Option<usize>)
        ensures
            opt_int(r) == closing_tag(self.bytes_of()),
            r matches Some(n) ==> 4 <= n <= self.bytes_of().len() && self.bytes_of()[0]
                == 60u8 && self.bytes_of()[1] == 47u8 && self.bytes_of()[n - 1] == 62u8,
    ;

    /// Any inline raw-HTML construct.
    fn scan_inline_html(&self) -> (r: Option<usize>)
        ensures
            inline_html_result(self.bytes_of(), opt_int(r)),
            opt_int(r) == inline_html_fn(self.bytes_of()),
            r matches Some(n) ==> 2 <= n <= self.bytes_of().len() && self.bytes_of()[0]
                == 60u8,
    ;

    /// A `<!` construct: comment, CDATA section or declaration.
    fn scan_declarationish(&self) -> (r: Option<usize>)
        ensures
            declarationish_result(self.bytes_of(), opt_int(r)),
            r matches Some(n) ==> 2 <= n <= self.bytes_of().len(),
    ;

    /// Past the first occurrence of `close` at or after `start`.
    fn scan_until(&self, start: usize, close: &[u8]) -> (r: Option<usize>)
        ensures
            until_result(self.bytes_of(), start as int, close@, opt_int(r)),
    ;

    /// The kind of HTML block this line starts, if any.
    fn html_block_start(&self, in_paragraph: bool) -> (r: Option<HtmlBlockKind>)
        ensures
            r == block_start_kind(self.bytes_of(), in_paragraph),
            r is Some ==> self.bytes_of().len() > 0 && self.bytes_of()[0] == 60u8,
    ;

    /// The line holds a closing tag that ends a type-1 block.
    fn type1_end(&self) -> (r: bool)
        ensures
            r == has_type1_end(self.bytes_of()),
    ;

    fn eq_ignore_case(&self, other: &[u8]) -> (r: bool)
        ensures
            r == eq_ci(self.bytes_of(), other@),
    ;

    fn contains_ci(&self, needle: &[u8]) -> (r: bool)
        ensures
            r == exists|k: int| ci_at(self.bytes_of(), needle@, k),
    ;
}

/// Whether `name` is one of the raw-text tags of start condition 1.
fn is_raw_text_tag(name: &[u8]) -> (r: bool)
    ensures
        r == raw_text_tag(name@),
{
    name.eq_ignore_case("script".as_bytes()) || name.eq_ignore_case("pre".as_bytes())
        || name.eq_ignore_case("style".as_bytes()) || name.eq_ignore_case("textarea".as_bytes())
}

/// Whether `name` is one of the block tag names of start condition 6.
fn is_block_tag(name: &[u8]) -> (r: bool)
    ensures
        r == block_tag(name@),
{
    let tags = [
        "address",
        "article",
        "aside",
        "base",
        "basefont",
        "blockquote",
        "body",
        "caption",
        "center",
        "col",
        "colgroup",
        "dd",
        "details",
        "dialog",
        "dir",
        "div",
        "dl",
        "dt",
        "fieldset",
        "figcaption",
        "figure",
        "footer",
        "form",
        "frame",
        "frameset",
        "h1",
        "h2",
        "h3",
        "h4",
        "h5",
        "h6",
        "head",
        "header",
        "hr",
        "html",
        "iframe",
        "legend",
        "li",
        "link",
        "main",
        "menu",
        "menuitem",
        "nav",
        "noframes",
        "ol",
        "optgroup",
        "option",
        "p",
        "param",
        "search",
        "section",
        "summary",
        "table",
        "tbody",
        "td",
        "tfoot",
        "th",
        "thead",
        "title",
        "tr",
        "track",
        "ul",
    ];
    assert(tags@ =~= block_tag_names());
    let mut i: usize = 0;
    while i < 62
        invariant
            i <= 62,
            tags@ == block_tag_names(),
            forall|t: int| 0 <= t < i ==> !eq_ci(name@, sbytes(#[trigger] block_tag_names()[t])),
        decreases 62 - i,
    {
        if name.eq_ignore_case(tags[i].as_bytes()) {
            assert(eq_ci(name@, sbytes(block_tag_names()[i as int])));
            return true;
        }
        i = i + 1;
    }
    false
}

/// Whether `b[start..]` begins with `p`.
fn starts_at(b: &[u8], start: usize, p: &[u8]) -> (r: bool)
    ensures
        r == exact_at(b@, p@, start as int),
{
    if start > b.len() || p.len() > b.len() - start {
        return false;
    }
    let end: usize = start + p.len();
    let mut k: usize = start;
    while k < end
        invariant
            start <= k <= end,
            end == start + p@.len(),
            end <= b@.len(),
            forall|m: int| start <= m < k ==> b@[m] == p@[m - start],
        decreases end - k,
    {
        if b[k] != p[k - start] {
            assert(b@.subrange(start as int, end as int)[k - start] != p@[k - start]);
            return false;
        }
        k = k + 1;
    }
    assert(b@.subrange(start as int, end as int) == p@);
    true
}

impl HtmlScan for [u8] {
    open spec fn bytes_of(&self) -> Seq<u8> {
        self@
    }

    fn scan_open_tag(&self) -> (r: Option<usize>) {
        let b = self;
        let n = b.len();
        if !(n > 0 && b[0] == 60u8) {
            return None;
        }
        if !(n > 1 && b[1].tag_name_start()) {
            return None;
        }
        let mut i: usize = 2;
        while i < n && b[i].tag_name_char()
            invariant
                2 <= i <= n,
                n == b@.len(),
                forall|t: int| 2 <= t < i ==> (#[trigger] tag_char()(b@[t])),
            decreases n - i,
        {
            i = i + 1;
        }
        proof {
            lemma_run_end(b@, 2, i as int, tag_char());
        }
        loop
            invariant
                2 <= i <= n,
                n == b@.len(),
                b@ == self.bytes_of(),
                b@[0] == 60u8,
                open_tag(b@) == open_tag_rest(b@, i as int),
            decreases n - i,
        {
            let mut j = i;
            while j < n && ascii_ws(b[j])
                invariant
                    i <= j <= n,
                    n == b@.len(),
                    forall|t: int| i <= t < j ==> (#[trigger] ws_byte()(b@[t])),
                decreases n - j,
            {
                j = j + 1;
            }
            proof {
                lemma_run_end(b@, i as int, j as int, ws_byte());
            }
            if j < n && b[j] == 47u8 && j + 1 < n && b[j + 1] == 62u8 {
                proof {
                    assert(at(b@, j as int, 47u8) && at(b@, j + 1, 62u8));
                    assert(open_tag_rest(b@, i as int) == Some(j + 2));
                }
                return Some(j + 2);
            }
            if j < n && b[j] == 62u8 {
                return Some(j + 1);
            }
            if j == i {
                return None;
            }
            if !(j < n && (ascii_alpha(b[j]) || b[j] == 95u8 || b[j] == 58u8)) {
                return None;
            }
            let mut k = j + 1;
            while k < n && (ascii_alnum(b[k]) || b[k] == 95u8 || b[k] == 46u8 || b[k] == 58u8 || b[k]
                == 45u8)
                invariant
                    j < k <= n,
                    n == b@.len(),
                    forall|t: int| j + 1 <= t < k ==> (#[trigger] attr_char()(b@[t])),
                decreases n - k,
            {
                k = k + 1;
            }
            proof {
                lemma_run_end(b@, j + 1, k as int, attr_char());
            }
            let mut m = k;
            while m < n && ascii_ws(b[m])
                invariant
                    k <= m <= n,
                    n == b@.len(),
                    forall|t: int| k <= t < m ==> (#[trigger] ws_byte()(b@[t])),
                decreases n - m,
            {
                m = m + 1;
            }
            proof {
                lemma_run_end(b@, k as int, m as int, ws_byte());
            }
            if m < n && b[m] == 61u8 {
                let mut v = m + 1;
                while v < n && ascii_ws(b[v])
                    invariant
                        m < v <= n,
                        n == b@.len(),
                        forall|t: int| m + 1 <= t < v ==> (#[trigger] ws_byte()(b@[t])),
                    decreases n - v,
                {
                    v = v + 1;
                }
                proof {
                    lemma_run_end(b@, m + 1, v as int, ws_byte());
                }
                match b.scan_attribute_value(v) {
                    Some(e) => {
                        i = e;
                    },
                    None => {
                        return None;
                    },
                }
            } else {
                i = k;
            }
        }
    }

    fn scan_attribute_value(&self, i: usize) -> (r: Option<usize>) {
        let b = self;
        let n = b.len();
        if i < n && (b[i] == 39u8 || b[i] == 34u8) {
            let q = b[i];
            let mut j = i + 1;
            while j < n && b[j] != q
                invariant
                    i < j <= n,
                    n == b@.len(),
                    forall|t: int| i + 1 <= t < j ==> (#[trigger] not_byte(q)(b@[t])),
                decreases n - j,
            {
                j = j + 1;
            }
            proof {
                lemma_run_end(b@, i + 1, j as int, not_byte(q));
            }
            if j < n {
                Some(j + 1)
            } else {
                None
            }
        } else if i >= n {
            proof {
                assert(run_end(b@, i as int, unquoted_char()) == i);
            }
            None
        } else {
            let mut j = i;
            while j < n && !ascii_ws(b[j]) && b[j] != 34u8 && b[j] != 39u8 && b[j] != 61u8 && b[j]
                != 60u8 && b[j] != 62u8 && b[j] != 96u8
                invariant
                    i <= j <= n,
                    n == b@.len(),
                    forall|t: int| i <= t < j ==> (#[trigger] unquoted_char()(b@[t])),
                decreases n - j,
            {
                j = j + 1;
            }
            proof {
                lemma_run_end(b@, i as int, j as int, unquoted_char());
            }
            if j > i {
                Some(j)
            } else {
                None
            }
        }
    }

    fn scan_closing_tag(&self) -> (r: Option<usize>) {
        let b = self;
        let n = b.len();
        if !(n > 2 && b[0] == 60u8 && b[1] == 47u8) {
            return None;
        }
        if !b[2].tag_name_start() {
            return None;
        }
        let mut i: usize = 3;
        while i < n && b[i].tag_name_char()
            invariant
                3 <= i <= n,
                n == b@.len(),
                forall|t: int| 3 <= t < i ==> (#[trigger] tag_char()(b@[t])),
            decreases n - i,
        {
            i = i + 1;
        }
        proof {
            lemma_run_end(b@, 3, i as int, tag_char());
        }
        let name_end = i;
        while i < n && ascii_ws(b[i])
            invariant
                name_end <= i <= n,
                n == b@.len(),
                forall|t: int| name_end <= t < i ==> (#[trigger] ws_byte()(b@[t])),
            decreases n - i,
        {
            i = i + 1;
        }
        proof {
            lemma_run_end(b@, name_end as int, i as int, ws_byte());
        }
        if i < n && b[i] == 62u8 {
            Some(i + 1)
        } else {
            None
        }
    }

    fn scan_inline_html(&self) -> (r: Option<usize>) {
        let b = self;
        if !(b.len() > 1 && b[0] == 60u8) {
            return None;
        }
        let r = if b[1] == 33u8 {
            b.scan_declarationish()
        } else if b[1] == 63u8 {
            b.scan_until(2, "?>".as_bytes())
        } else if b[1] == 47u8 {
            b.scan_closing_tag()
        } else {
            b.scan_open_tag()
        };
        proof {
            lemma_inline_html_fn(b@, opt_int(r));
        }
        r
    }

    fn scan_declarationish(&self) -> (r: Option<usize>) {
        let b = self;
        proof {
            reveal_strlit("<!-->");
            reveal_strlit("<!--->");
            lemma_ascii_literal("<!-->");
            lemma_ascii_literal("<!--->");
        }
        if starts_at(b, 0, "<!--".as_bytes()) {
            if starts_at(b, 0, "<!-->".as_bytes()) {
                return Some(5);
            }
            if starts_at(b, 0, "<!--->".as_bytes()) {
                return Some(6);
            }
            if b.len() > 4 && b[4] == 62u8 {
                return None;
            }
            if starts_at(b, 4, "->".as_bytes()) {
                return None;
            }
            return b.scan_until(4, "-->".as_bytes());
        }
        if starts_at(b, 0, "<![CDATA[".as_bytes()) {
            return b.scan_until(9, "]]>".as_bytes());
        }
        if b.len() > 2 && ascii_alpha(b[2]) {
            let n = b.len();
            let mut i: usize = 3;
            while i < n && b[i] != 62u8
                invariant
                    3 <= i <= n,
                    n == b@.len(),
                    forall|t: int| 3 <= t < i ==> (#[trigger] not_byte(62u8)(b@[t])),
                decreases n - i,
            {
                i = i + 1;
            }
            proof {
                lemma_run_end(b@, 3, i as int, not_byte(62u8));
            }
            return if i < n {
                Some(i + 1)
            } else {
                None
            };
        }
        None
    }

    #[verifier::loop_isolation(false)]
    fn scan_until(&self, start: usize, close: &[u8]) -> (r: Option<usize>) {
        let b = self;
        let mut i = start;
        loop
            invariant
                start <= i,
                forall|k: int| start <= k < i ==> !exact_at(b@, close@, k),
            decreases b@.len() + 1 - i,
        {
            if i > b.len() || close.len() > b.len() - i {
                break;
            }
            if starts_at(b, i, close) {
                assert(exact_at(self.bytes_of(), close@, i as int));
                return Some(i + close.len());
            }
            if i == b.len() {
                break;
            }
            i = i + 1;
        }
        proof {
            assert forall|k: int| start <= k implies !exact_at(b@, close@, k) by {
                if k > i {
                    assert(k + close@.len() > b@.len());
                }
            }
        }
        None
    }

    fn html_block_start(&self, in_paragraph: bool) -> (r: Option<HtmlBlockKind>) {
        let line = self;
        let n = line.len();
        if !(n > 0 && line[0] == 60u8) {
            return None;
        }
        if starts_at(line, 0, "<!--".as_bytes()) {
            return Some(HtmlBlockKind::Type2);
        }
        if n > 1 && line[1] == 63u8 {
            return Some(HtmlBlockKind::Type3);
        }
        if starts_at(line, 0, "<![CDATA[".as_bytes()) {
            return Some(HtmlBlockKind::Type5);
        }
        if n > 2 && line[1] == 33u8 && ascii_alpha(line[2]) {
            return Some(HtmlBlockKind::Type4);
        }
        let name_start: usize = if n > 1 && line[1] == 47u8 {
            2
        } else {
            1
        };
        let mut end = name_start;
        while end < n && ascii_alnum(line[end])
            invariant
                name_start <= end <= n,
                n == line@.len(),
                forall|t: int| name_start <= t < end ==> (#[trigger] alnum_byte()(line@[t])),
            decreases n - end,
        {
            end = end + 1;
        }
        proof {
            lemma_run_end(line@, name_start as int, end as int, alnum_byte());
        }
        if end == name_start {
            return None;
        }
        let name = vstd::slice::slice_subrange(line, name_start, end);
        if name_start == 1 && is_raw_text_tag(name) && (end == n || ascii_ws(line[end]) || line[end]
            == 62u8) {
            return Some(HtmlBlockKind::Type1);
        }
        if is_block_tag(name) {
            let ok = if end == n {
                true
            } else if ascii_ws(line[end]) || line[end] == 62u8 {
                true
            } else {
                line[end] == 47u8 && end + 1 < n && line[end + 1] == 62u8
            };
            if ok {
                return Some(HtmlBlockKind::Type6);
            }
        }
        if in_paragraph {
            return None;
        }
        let consumed = if name_start == 2 {
            match line.scan_closing_tag() {
                Some(c) => c,
                None => return None,
            }
        } else {
            if is_raw_text_tag(name) {
                return None;
            }
            match line.scan_open_tag() {
                Some(c) => c,
                None => return None,
            }
        };
        let mut k = consumed;
        while k < n && ascii_ws(line[k])
            invariant
                consumed <= k <= n,
                n == line@.len(),
                forall|t: int| consumed <= t < k ==> (#[trigger] ws_byte()(line@[t])),
            decreases n - k,
        {
            k = k + 1;
        }
        proof {
            lemma_run_end(line@, consumed as int, k as int, ws_byte());
        }
        if k >= n {
            Some(HtmlBlockKind::Type7)
        } else {
            None
        }
    }

    fn type1_end(&self) -> (r: bool) {
        let t1 = "</script>".as_bytes();
        let t2 = "</pre>".as_bytes();
        let t3 = "</style>".as_bytes();
        let t4 = "</textarea>".as_bytes();
        let a = self.contains_ci(t1);
        let b = self.contains_ci(t2);
        let c = self.contains_ci(t3);
        let d = self.contains_ci(t4);
        proof {
            if a {
                let k = choose|k: int| ci_at(self.bytes_of(), t1@, k);
                assert(ci_at(self.bytes_of(), sbytes("</script>"), k));
            }
            if b {
                let k = choose|k: int| ci_at(self.bytes_of(), t2@, k);
                assert(ci_at(self.bytes_of(), sbytes("</pre>"), k));
            }
            if c {
                let k = choose|k: int| ci_at(self.bytes_of(), t3@, k);
                assert(ci_at(self.bytes_of(), sbytes("</style>"), k));
            }
            if d {
                let k = choose|k: int| ci_at(self.bytes_of(), t4@, k);
                assert(ci_at(self.bytes_of(), sbytes("</textarea>"), k));
            }
        }
        a || b || c || d
    }

    /// Case-insensitive ASCII byte-slice comparison.
    fn eq_ignore_case(&self, other: &[u8]) -> (r: bool) {
        if self.len() != other.len() {
            return false;
        }
        let mut j: usize = 0;
        while j < self.len()
            invariant
                self@.len() == other@.len(),
                j <= self@.len(),
                forall|k: int| 0 <= k < j ==> lower(self@[k]) == lower(other@[k]),
            decreases self@.len() - j,
        {
            if ascii_lower(self[j]) != ascii_lower(other[j]) {
                return false;
            }
            j = j + 1;
        }
        true
    }

    /// Case-insensitive substring search.
    #[verifier::loop_isolation(false)]
    fn contains_ci(&self, needle: &[u8]) -> (r: bool) {
        if needle.len() > self.len() {
            proof {
                assert forall|k: int| !ci_at(self@, needle@, k) by {}
            }
            return false;
        }
        let mut k: usize = 0;
        while k <= self.len() - needle.len()
            invariant
                needle@.len() <= self@.len(),
                forall|m: int| 0 <= m < k ==> !ci_at(self@, needle@, m),
            decreases self@.len() + 1 - k,
        {
            let w = vstd::slice::slice_subrange(self, k, k + needle.len());
            if w.eq_ignore_case(needle) {
                assert(ci_at(self.bytes_of(), needle@, k as int));
                return true;
            }
            k = k + 1;
        }
        proof {
            assert forall|m: int| !ci_at(self@, needle@, m) by {
                if m >= k {
                    assert(m + needle@.len() > self@.len());
                }
            }
        }
        false
    }
}

} // verus!
