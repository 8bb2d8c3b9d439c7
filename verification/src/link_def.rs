use vstd::prelude::*;
use vstd::string::*;
use vstd::utf8::{decode_utf8, encode_utf8_decode_utf8};
use crate::raw_html::{at, lemma_run_end, opt_int, run_end};
use crate::text::{ascii_punct, ascii_ws, borrowed_from, is_punct, is_ws, lemma_borrowed_refl, opt_borrowed_from, sbytes, sliceable, sub_str};

verus! {

/// A parsed link reference definition, borrowing label/url/title from the
/// source. The label is still raw here; it is normalized before lookup.
pub struct LinkDef<'src> {
    pub label: &'src str,
    pub url: &'src str,
    pub title: Option<&'src str>,
}

/// One entry of the definition registry: a normalized label and its target.
pub struct LinkDefEntry<'src> {
    pub label: String,
    pub url: &'src str,
    pub title: Option<&'src str>,
}

/// Registry of link reference definitions; the first definition of a label wins.
pub struct LinkDefs<'src> {
    pub entries: Vec<LinkDefEntry<'src>>,
}

/// Every target in the registry borrows from `src`.
pub open spec fn defs_borrow(defs: &LinkDefs, src: &str) -> bool {
    forall|i: int|
        0 <= i < defs.entries@.len() ==> borrowed_from(#[trigger] defs.entries@[i].url, src)
            && opt_borrowed_from(defs.entries@[i].title, src)
}

/// The target registered for normalized label `key`, if any (first entry wins).
pub open spec fn registry_lookup(entries: Seq<LinkDefEntry>, key: Seq<char>) -> Option<int>
    decreases entries.len(),
{
    if entries.len() == 0 {
        None
    } else if entries[0].label@ == key {
        Some(0)
    } else {
        match registry_lookup(entries.drop_first(), key) {
            Some(k) => Some(k + 1),
            None => None,
        }
    }
}

impl<'src> LinkDefs<'src> {
    pub fn new() -> (d: Self)
        ensures
            d.entries@.len() == 0,
    {
        LinkDefs { entries: Vec::new() }
    }

    /// Index of the entry registered for the normalized label `key`.
    pub fn find(&self, key: &String) -> (r: Option<usize>)
        ensures
            r matches Some(i) ==> i < self.entries@.len() && self.entries@[i as int].label@
                == key@ && registry_lookup(self.entries@, key@) == Some(i as int),
            r is None ==> forall|i: int|
                0 <= i < self.entries@.len() ==> self.entries@[i].label@ != key@,
            r is None <==> registry_lookup(self.entries@, key@) is None,
    {
        let mut i: usize = 0;
        while i < self.entries.len()
            invariant
                i <= self.entries@.len(),
                forall|j: int| 0 <= j < i ==> self.entries@[j].label@ != key@,
            decreases self.entries.len() - i,
        {
            if self.entries[i].label == *key {
                proof {
                    lemma_lookup_at(self.entries@, key@, i as int);
                }
                return Some(i);
            }
            i = i + 1;
        }
        proof {
            lemma_lookup_none(self.entries@, key@);
        }
        None
    }

    /// Register a definition unless its label is already present.
    pub fn insert_first(&mut self, label: String, url: &'src str, title: Option<&'src str>)
        ensures
            (exists|i: int|
                0 <= i < old(self).entries@.len() && old(self).entries@[i].label@ == label@)
                ==> final(self).entries@ == old(self).entries@,
            (forall|i: int|
                0 <= i < old(self).entries@.len() ==> old(self).entries@[i].label@ != label@)
                ==> final(self).entries@ == old(self).entries@.push(
                LinkDefEntry { label, url, title },
            ),
    {
        match self.find(&label) {
            Some(_) => {},
            None => {
                self.entries.push(LinkDefEntry { label, url, title });
            },
        }
    }
}

/// `next` is `entries` after registering `key` with its target unless the
/// label is already present (the first definition wins).
pub open spec fn registered(
    entries: Seq<LinkDefEntry>,
    next: Seq<LinkDefEntry>,
    key: Seq<char>,
    url: &str,
    title: Option<&str>,
) -> bool {
    if exists|i: int| 0 <= i < entries.len() && entries[i].label@ == key {
        next == entries
    } else {
        &&& next.len() == entries.len() + 1
        &&& next.subrange(0, entries.len() as int) == entries
        &&& next.last().label@ == key
        &&& next.last().url == url
        &&& next.last().title == title
    }
}

/// The first entry whose label is `key` is the one found.
pub proof fn lemma_lookup_at(entries: Seq<LinkDefEntry>, key: Seq<char>, i: int)
    requires
        0 <= i < entries.len(),
        entries[i].label@ == key,
        forall|j: int| 0 <= j < i ==> entries[j].label@ != key,
    ensures
        registry_lookup(entries, key) == Some(i),
    decreases i,
{
    if i > 0 {
        lemma_lookup_at(entries.drop_first(), key, i - 1);
    }
}

/// No entry with label `key`: nothing is found.
pub proof fn lemma_lookup_none(entries: Seq<LinkDefEntry>, key: Seq<char>)
    requires
        forall|j: int| 0 <= j < entries.len() ==> entries[j].label@ != key,
    ensures
        registry_lookup(entries, key) is None,
    decreases entries.len(),
{
    if entries.len() > 0 {
        lemma_lookup_none(entries.drop_first(), key);
    }
}

/// Unicode `White_Space` (the set `char::is_whitespace` and `str::trim` use).
pub open spec fn is_white(c: char) -> bool {
    let v = c as u32;
    (9 <= v <= 13) || v == 32 || v == 0x85 || v == 0xA0 || v == 0x1680 || (0x2000 <= v
        <= 0x200A) || v == 0x2028 || v == 0x2029 || v == 0x202F || v == 0x205F || v == 0x3000
}

pub fn char_is_white(c: char) -> (r: bool)
    ensures
        r == is_white(c),
{
    let v = c as u32;
    (9 <= v && v <= 13) || v == 32 || v == 0x85 || v == 0xA0 || v == 0x1680 || (0x2000 <= v
        && v <= 0x200A) || v == 0x2028 || v == 0x2029 || v == 0x202F || v == 0x205F || v
        == 0x3000
}

/// What `char::to_lowercase` yields for one character.
pub uninterp spec fn lowercase_of(c: char) -> Seq<char>;

/// Appends `char::to_lowercase(c)` to `out`. The contract claims only that the
/// appended characters are the lowercase mapping std computes for `c`.
#[verifier::external_body]
fn append_lowercase(out: &mut String, c: char)
    ensures
        final(out)@ == old(out)@ + lowercase_of(c),
{
    out.extend(c.to_lowercase());
}

/// Index of the first non-white character at or after `i` (or `s.len()`).
pub open spec fn all_white(s: Seq<char>, a: int, b: int) -> bool {
    forall|j: int| a <= j < b ==> is_white(#[trigger] s[j])
}

/// `s` with leading and trailing white space removed (`str::trim`).
pub open spec fn trim_chars(s: Seq<char>) -> Seq<char> {
    if all_white(s, 0, s.len() as int) {
        Seq::empty()
    } else {
        let a = choose|a: int|
            0 <= a < s.len() && !is_white(s[a]) && all_white(s, 0, a);
        let b = choose|b: int|
            0 <= b < s.len() && !is_white(s[b]) && all_white(s, b + 1, s.len() as int);
        s.subrange(a, b + 1)
    }
}

/// Collapse runs of white space to one space and lowercase everything else.
pub open spec fn collapse_ws(s: Seq<char>) -> Seq<char>
    decreases s.len(),
{
    if s.len() == 0 {
        Seq::empty()
    } else {
        let p = s.drop_last();
        let c = s.last();
        if is_white(c) {
            if p.len() > 0 && is_white(p.last()) {
                collapse_ws(p)
            } else {
                collapse_ws(p).push(' ')
            }
        } else {
            collapse_ws(p) + lowercase_of(c)
        }
    }
}

/// The normalized form of a link label (`CommonMark` §4.7).
pub open spec fn spec_normalize_label(label: Seq<char>) -> Seq<char> {
    collapse_ws(trim_chars(label))
}

/// Normalize a link label for matching (`CommonMark` §4.7): trim surrounding
/// whitespace, collapse internal whitespace runs to a single space, and apply
/// Unicode lowercasing.
#[must_use]
pub fn normalize_label(label: &str) -> (out: String)
    ensures
        out@ == spec_normalize_label(label@),
{
    let n = label.unicode_len();
    // First non-white character.
    let mut a: usize = 0;
    while a < n && char_is_white(label.get_char(a))
        invariant
            a <= n,
            n == label@.len(),
            all_white(label@, 0, a as int),
        decreases n - a,
    {
        a = a + 1;
    }
    let mut out = String::new();
    if a == n {
        proof {
            assert(all_white(label@, 0, label@.len() as int));
        }
        return out;
    }
    // Last non-white character.
    let mut b: usize = n - 1;
    while char_is_white(label.get_char(b))
        invariant
            a <= b < n,
            n == label@.len(),
            !is_white(label@[a as int]),
            all_white(label@, b + 1, n as int),
        decreases b,
    {
        b = b - 1;
    }
    let ghost t = label@.subrange(a as int, b + 1);
    proof {
            let a2 = choose|a2: int|
            0 <= a2 < label@.len() && !is_white(label@[a2]) && all_white(label@, 0, a2);
        let b2 = choose|b2: int|
            0 <= b2 < label@.len() && !is_white(label@[b2]) && all_white(
                label@,
                b2 + 1,
                label@.len() as int,
            );
        assert(a2 == a) by {
            if a2 < a {
                assert(is_white(label@[a2]));
            }
            if a < a2 {
                assert(is_white(label@[a as int]));
            }
        }
        assert(b2 == b) by {
            if b2 < b {
                assert(is_white(label@[b as int]));
            }
            if b < b2 {
                assert(is_white(label@[b2]));
            }
        }
        assert(trim_chars(label@) == t);
    }
    let mut k: usize = a;
    while k <= b
        invariant
            a <= k <= b + 1,
            b < n,
            n == label@.len(),
            t == label@.subrange(a as int, b + 1),
            out@ == collapse_ws(label@.subrange(a as int, k as int)),
        decreases b + 1 - k,
    {
        let ch = label.get_char(k);
        let ghost p = label@.subrange(a as int, k as int);
        let ghost q = label@.subrange(a as int, k + 1);
        proof {
            assert(q.drop_last() == p);
            assert(q.last() == ch);
        }
        if char_is_white(ch) {
            let prev_white = k > a && char_is_white(label.get_char(k - 1));
            proof {
                if k > a {
                    assert(p.last() == label@[k - 1]);
                }
            }
            if !prev_white {
                out.append(" ");
                proof {
                    reveal_strlit(" ");
                    assert(out@ == collapse_ws(p).push(' '));
                }
            }
        } else {
            append_lowercase(&mut out, ch);
        }
        k = k + 1;
    }
    proof {
        assert(label@.subrange(a as int, b + 1) == t);
    }
    out
}

/// A backslash escape of ASCII punctuation at `i`.
pub open spec fn spec_is_escape(s: Seq<u8>, i: int) -> bool {
    0 <= i && i + 1 < s.len() && s[i] == 92u8 && is_punct(s[i + 1])
}

pub fn is_escape(bytes: &[u8], i: usize) -> (r: bool)
    ensures
        r == spec_is_escape(bytes@, i as int),
{
    i < bytes.len() && bytes[i] == 92u8 && i + 1 < bytes.len() && ascii_punct(bytes[i + 1])
}

pub open spec fn sp_tab() -> spec_fn(u8) -> bool {
    |c: u8| c == 32u8 || c == 9u8
}

/// Past spaces/tabs, then optionally one line ending and more spaces/tabs;
/// `None` if that reaches a blank line.
pub open spec fn spec_ws_one_nl(b: Seq<u8>, i: int) -> Option<int> {
    let j = run_end(b, i, sp_tab());
    if at(b, j, 10u8) {
        let k = run_end(b, j + 1, sp_tab());
        if at(b, k, 10u8) {
            None
        } else {
            Some(k)
        }
    } else {
        Some(j)
    }
}

/// Where the next line begins if the rest of this one (from `i`) is only
/// spaces/tabs: past its line feed, or the end of the input.
pub open spec fn spec_line_end_resume(b: Seq<u8>, i: int) -> Option<int> {
    let j = run_end(b, i, sp_tab());
    if j >= b.len() {
        Some(b.len() as int)
    } else if b[j] == 10u8 {
        Some(j + 1)
    } else {
        None
    }
}

/// The `>` closing a `<...>` destination scanned from `j`: no line feed or
/// `<` inside, backslash escapes skipped.
pub open spec fn angle_dest_end(b: Seq<u8>, j: int) -> Option<int>
    decreases b.len() - j,
{
    if j < 0 || j >= b.len() || b[j] == 10u8 || b[j] == 60u8 {
        None
    } else if spec_is_escape(b, j) {
        angle_dest_end(b, j + 2)
    } else if b[j] == 62u8 {
        Some(j)
    } else {
        angle_dest_end(b, j + 1)
    }
}

/// Where a bare destination scanned from `j` with `depth` open parentheses
/// stops, and the depth there: at white space, a control byte, the end, or
/// an unbalanced `)`.
pub open spec fn bare_dest(b: Seq<u8>, j: int, depth: int) -> (int, int)
    decreases b.len() - j,
{
    if j < 0 || j >= b.len() || is_ws(b[j]) {
        (j, depth)
    } else if spec_is_escape(b, j) {
        bare_dest(b, j + 2, depth)
    } else if b[j] == 40u8 {
        bare_dest(b, j + 1, depth + 1)
    } else if b[j] == 41u8 {
        if depth == 0 {
            (j, depth)
        } else {
            bare_dest(b, j + 1, depth - 1)
        }
    } else if b[j] < 32u8 {
        (j, depth)
    } else {
        bare_dest(b, j + 1, depth)
    }
}

/// A link destination at `i`: `(url_start, url_end, after)`.
pub open spec fn spec_destination(b: Seq<u8>, i: int) -> Option<(int, int, int)> {
    if at(b, i, 60u8) {
        match angle_dest_end(b, i + 1) {
            Some(j) => Some((i + 1, j, j + 1)),
            None => None,
        }
    } else {
        let (j, depth) = bare_dest(b, i, 0);
        if j == i || depth != 0 {
            None
        } else {
            Some((i, j, j))
        }
    }
}

/// The closing delimiter of a title opened by `c`.
pub open spec fn title_close(c: u8) -> Option<u8> {
    if c == 34u8 {
        Some(34u8)
    } else if c == 39u8 {
        Some(39u8)
    } else if c == 40u8 {
        Some(41u8)
    } else {
        None
    }
}

/// The closing delimiter of a title scanned from `j`: escapes skipped, no
/// blank line inside.
pub open spec fn title_end(b: Seq<u8>, j: int, close: u8) -> Option<int>
    decreases b.len() - j,
{
    if j < 0 || j >= b.len() {
        None
    } else if spec_is_escape(b, j) {
        title_end(b, j + 2, close)
    } else if b[j] == close {
        Some(j)
    } else if b[j] == 10u8 && j + 1 < b.len() && b[j + 1] == 10u8 {
        None
    } else {
        title_end(b, j + 1, close)
    }
}

/// A title at `i`: `(title_start, title_end, after)`.
pub open spec fn spec_title(b: Seq<u8>, i: int) -> Option<(int, int, int)> {
    if !(0 <= i < b.len()) {
        None
    } else {
        match title_close(b[i]) {
            Some(c) => match title_end(b, i + 1, c) {
                Some(j) => Some((i + 1, j, j + 1)),
                None => None,
            },
            None => None,
        }
    }
}

/// A title separated from the destination ending at `i` by white space.
pub open spec fn spec_title_after(b: Seq<u8>, i: int) -> Option<(int, int, int)> {
    match spec_ws_one_nl(b, i) {
        Some(a) => if a == i {
            None
        } else {
            spec_title(b, a)
        },
        None => None,
    }
}

/// The `]` closing a definition label scanned from `i`: escapes skipped; a
/// `[` or a blank line ends the attempt.
pub open spec fn label_end(b: Seq<u8>, i: int) -> Option<int>
    decreases b.len() - i,
{
    if i < 0 || i >= b.len() {
        None
    } else if spec_is_escape(b, i) {
        label_end(b, i + 2)
    } else if b[i] == 91u8 {
        None
    } else if b[i] == 93u8 {
        Some(i)
    } else if b[i] == 10u8 && i + 1 < b.len() && b[i + 1] == 10u8 {
        None
    } else {
        label_end(b, i + 1)
    }
}

/// A triple of offsets as integers.
pub open spec fn opt_triple(r: Option<(usize, usize, usize)>) -> Option<(int, int, int)> {
    match r {
        Some((a, b, c)) => Some((a as int, b as int, c as int)),
        None => None,
    }
}

/// Skip spaces/tabs, then optionally a single line ending followed by more
/// spaces/tabs. Returns `None` if a blank line is encountered.
fn skip_ws_one_nl(bytes: &[u8], i: usize) -> (r: Option<usize>)
    ensures
        opt_int(r) == spec_ws_one_nl(bytes@, i as int),
        r matches Some(j) ==> i <= j && (j <= bytes@.len() || j == i),
{
    let n = bytes.len();
    let mut j = i;
    while j < n && (bytes[j] == 32u8 || bytes[j] == 9u8)
        invariant
            i <= j,
            j <= n || j == i,
            n == bytes@.len(),
            forall|t: int| i <= t < j ==> (#[trigger] sp_tab()(bytes@[t])),
        decreases n - j,
    {
        j = j + 1;
    }
    proof {
        if j <= n {
            lemma_run_end(bytes@, i as int, j as int, sp_tab());
        }
    }
    if j < n && bytes[j] == 10u8 {
        let first = j + 1;
        let mut k = first;
        while k < n && (bytes[k] == 32u8 || bytes[k] == 9u8)
            invariant
                first <= k <= n,
                n == bytes@.len(),
                forall|t: int| first <= t < k ==> (#[trigger] sp_tab()(bytes@[t])),
            decreases n - k,
        {
            k = k + 1;
        }
        proof {
            lemma_run_end(bytes@, first as int, k as int, sp_tab());
        }
        if k < n && bytes[k] == 10u8 {
            return None;
        }
        return Some(k);
    }
    Some(j)
}

/// If the remainder of the current line (from `i`) is only spaces/tabs, the
/// offset at which the next line begins (or the input length at the end).
fn line_end_resume(bytes: &[u8], i: usize) -> (r: Option<usize>)
    ensures
        opt_int(r) == spec_line_end_resume(bytes@, i as int),
        r matches Some(j) ==> j <= bytes@.len() && (i < bytes@.len() ==> i < j) && (i
            >= bytes@.len() ==> j == bytes@.len()),
{
    let n = bytes.len();
    let mut j = i;
    while j < n && (bytes[j] == 32u8 || bytes[j] == 9u8)
        invariant
            i <= j,
            j <= n || j == i,
            n == bytes@.len(),
            forall|t: int| i <= t < j ==> (#[trigger] sp_tab()(bytes@[t])),
        decreases n - j,
    {
        j = j + 1;
    }
    proof {
        if j <= n {
            lemma_run_end(bytes@, i as int, j as int, sp_tab());
        }
    }
    if j >= n {
        Some(n)
    } else if bytes[j] == 10u8 {
        Some(j + 1)
    } else {
        None
    }
}

/// Scan a link destination at `i`: the `<...>` form or a bare destination with
/// balanced parentheses. Returns `(url_start, url_end, after)`.
fn scan_destination(bytes: &[u8], i: usize) -> (r: Option<(usize, usize, usize)>)
    ensures
        opt_triple(r) == spec_destination(bytes@, i as int),
        r matches Some((a, b, c)) ==> a <= b <= c <= bytes@.len() && i <= a,
{
    let n = bytes.len();
    if i < n && bytes[i] == 60u8 {
        let mut j = i + 1;
        while j < n
            invariant
                i < j <= n,
                n == bytes@.len(),
                at(bytes@, i as int, 60u8),
                angle_dest_end(bytes@, i + 1) == angle_dest_end(bytes@, j as int),
            decreases n - j,
        {
            let b = bytes[j];
            if b == 10u8 || b == 60u8 {
                return None;
            }
            if is_escape(bytes, j) {
                j = j + 2;
            } else if b == 62u8 {
                return Some((i + 1, j, j + 1));
            } else {
                j = j + 1;
            }
        }
        None
    } else {
        let start = i;
        let mut j = i;
        let mut depth: usize = 0;
        while j < n
            invariant
                start == i,
                !at(bytes@, i as int, 60u8),
                start <= j,
                j <= n || j == start,
                n == bytes@.len(),
                depth <= j - start,
                bare_dest(bytes@, start as int, 0) == bare_dest(bytes@, j as int, depth as int),
            ensures
                start == i,
                !at(bytes@, i as int, 60u8),
                j <= n || j == start,
                bare_dest(bytes@, start as int, 0) == (j as int, depth as int),
            decreases n - j,
        {
            let b = bytes[j];
            if ascii_ws(b) {
                break;
            }
            if is_escape(bytes, j) {
                j = j + 2;
                continue;
            }
            if b == 40u8 {
                depth = depth + 1;
            } else if b == 41u8 {
                if depth == 0 {
                    break;
                }
                depth = depth - 1;
            } else if b < 32u8 {
                break;
            }
            j = j + 1;
        }
        if j == start || depth != 0 {
            return None;
        }
        Some((start, j, j))
    }
}

/// Scan a title at `i` delimited by `"`, `'`, or `(...)`.
/// Returns `(title_start, title_end, after)`.
fn scan_title(bytes: &[u8], i: usize) -> (r: Option<(usize, usize, usize)>)
    ensures
        opt_triple(r) == spec_title(bytes@, i as int),
        r matches Some((a, b, c)) ==> i < a <= b < c <= bytes@.len(),
{
    let n = bytes.len();
    if i >= n {
        return None;
    }
    let close = if bytes[i] == 34u8 {
        34u8
    } else if bytes[i] == 39u8 {
        39u8
    } else if bytes[i] == 40u8 {
        41u8
    } else {
        return None;
    };
    let mut j = i + 1;
    while j < n
        invariant
            i < j <= n,
            n == bytes@.len(),
            title_close(bytes@[i as int]) == Some(close),
            title_end(bytes@, i + 1, close) == title_end(bytes@, j as int, close),
        decreases n - j,
    {
        let b = bytes[j];
        if is_escape(bytes, j) {
            j = j + 2;
        } else if b == close {
            return Some((i + 1, j, j + 1));
        } else if b == 10u8 {
            if j + 1 < n && bytes[j + 1] == 10u8 {
                return None;
            }
            j = j + 1;
        } else {
            j = j + 1;
        }
    }
    None
}

/// After a destination at `i`, a title separated from it by whitespace
/// (possibly crossing one line ending).
fn title_after(bytes: &[u8], i: usize) -> (r: Option<(usize, usize, usize)>)
    ensures
        opt_triple(r) == spec_title_after(bytes@, i as int),
        r matches Some((a, b, c)) ==> i < a <= b < c <= bytes@.len(),
{
    let after_ws = match skip_ws_one_nl(bytes, i) {
        Some(j) => j,
        None => return None,
    };
    if after_ws == i {
        return None;
    }
    scan_title(bytes, after_ws)
}

/// All characters of `s` are white space.
pub fn str_all_white(s: &str) -> (r: bool)
    ensures
        r == all_white(s@, 0, s@.len() as int),
{
    let n = s.unicode_len();
    let mut i: usize = 0;
    while i < n
        invariant
            i <= n,
            n == s@.len(),
            all_white(s@, 0, i as int),
        decreases n - i,
    {
        if !char_is_white(s.get_char(i)) {
            return false;
        }
        i = i + 1;
    }
    true
}

/// Find the `]` that closes a definition label opened just before `i`:
/// escapes are skipped, a nested `[` or a blank line ends the attempt.
fn scan_label_end(bytes: &[u8], i0: usize) -> (r: Option<usize>)
    ensures
        opt_int(r) == label_end(bytes@, i0 as int),
        r matches Some(e) ==> i0 <= e < bytes@.len() && bytes@[e as int] == 93u8,
{
    let n = bytes.len();
    let mut i = i0;
    while i < n
        invariant
            i0 <= i,
            i <= n || i == i0,
            n == bytes@.len(),
            label_end(bytes@, i0 as int) == label_end(bytes@, i as int),
        decreases n - i,
    {
        if is_escape(bytes, i) {
            i = i + 2;
        } else if bytes[i] == 91u8 {
            return None;
        } else if bytes[i] == 93u8 {
            return Some(i);
        } else if bytes[i] == 10u8 {
            if i + 1 < n && bytes[i + 1] == 10u8 {
                return None;
            }
            i = i + 1;
        } else {
            i = i + 1;
        }
    }
    None
}

/// The shape of the link reference definition at `start` of `input`: the
/// byte ranges of its label and destination, of its title when it has one
/// that can be sliced out, and the offset at which parsing resumes.
pub open spec fn spec_link_def(input: &str, start: int) -> Option<(int, int, int, int, Option<(int, int)>, int)> {
    let b = sbytes(input);
    if !at(b, start, 91u8) {
        None
    } else {
        match label_end(b, start + 1) {
            None => None,
            Some(le) => {
                let ls = start + 1;
                if !sliceable(input, ls, le) || le - ls > 999 || all_white(
                    decode_utf8(b.subrange(ls, le)),
                    0,
                    decode_utf8(b.subrange(ls, le)).len() as int,
                ) {
                    None
                } else if !at(b, le + 1, 58u8) {
                    None
                } else {
                    match spec_ws_one_nl(b, le + 2) {
                        None => None,
                        Some(d) => match spec_destination(b, d) {
                            None => None,
                            Some((us, ue, after)) => if !sliceable(input, us, ue) {
                                None
                            } else {
                                match link_title_part(input, after) {
                                    Some((t, res)) => Some((ls, le, us, ue, t, res)),
                                    None => match spec_line_end_resume(b, after) {
                                        Some(res) => Some((ls, le, us, ue, None, res)),
                                        None => None,
                                    },
                                }
                            },
                        },
                    }
                }
            },
        }
    }
}

/// A title after the destination ending at `after`, followed only by white
/// space on its line: its range (if it can be sliced out) and where parsing
/// resumes.
pub open spec fn link_title_part(input: &str, after: int) -> Option<(Option<(int, int)>, int)> {
    let b = sbytes(input);
    match spec_title_after(b, after) {
        Some((ts, te, ta)) => match spec_line_end_resume(b, ta) {
            Some(res) => Some(
                (
                    if sliceable(input, ts, te) {
                        Some((ts, te))
                    } else {
                        None
                    },
                    res,
                ),
            ),
            None => None,
        },
        None => None,
    }
}

/// `d` and `resume` are the definition of the shape `shape` in `input`.
pub open spec fn def_matches(
    input: &str,
    d: LinkDef,
    resume: usize,
    shape: (int, int, int, int, Option<(int, int)>, int),
) -> bool {
    let (ls, le, us, ue, t, res) = shape;
    &&& resume == res
    &&& sbytes(d.label) == sbytes(input).subrange(ls, le)
    &&& sbytes(d.url) == sbytes(input).subrange(us, ue)
    &&& match t {
        Some((ts, te)) => d.title matches Some(x) && sbytes(x) == sbytes(input).subrange(ts, te),
        None => d.title is None,
    }
}

/// Try to parse a link reference definition beginning at `start` (the `[`).
/// Returns the definition and the byte offset at which parsing should resume.
#[must_use]
#[verifier::rlimit(60)]
pub fn scan_link_def<'a>(input: &'a str, start: usize) -> (r: Option<(LinkDef<'a>, usize)>)
    ensures
        match spec_link_def(input, start as int) {
            Some(shape) => r matches Some((d, resume)) && def_matches(input, d, resume, shape),
            None => r is None,
        },
        r matches Some((d, resume)) ==> {
            &&& start < resume <= sbytes(input).len()
            &&& sbytes(input)[start as int] == 91u8
            &&& sbytes(d.label) == sbytes(input).subrange(start + 1, start + 1 + sbytes(
                d.label,
            ).len())
            &&& sbytes(input)[start + 1 + sbytes(d.label).len()] == 93u8
            &&& sbytes(input)[start + 2 + sbytes(d.label).len()] == 58u8
            &&& sbytes(d.label).len() <= 999
            &&& !all_white(d.label@, 0, d.label@.len() as int)
            &&& borrowed_from(d.label, input)
            &&& borrowed_from(d.url, input)
            &&& opt_borrowed_from(d.title, input)
        },
        (start >= sbytes(input).len() || sbytes(input)[start as int] != 91u8) ==> r is None,
{
    let bytes = input.as_bytes();
    proof {
        lemma_borrowed_refl(input);
    }
    if !(start < bytes.len() && bytes[start] == 91u8) {
        return None;
    }
    let label_start = start + 1;
    let label_end = match scan_label_end(bytes, label_start) {
        Some(e) => e,
        None => return None,
    };
    let label = match sub_str(input, label_start, label_end, Ghost(input)) {
        Some(l) => l,
        None => return None,
    };
    proof {
        encode_utf8_decode_utf8(label@);
    }
    if label.len() > 999 || str_all_white(label) {
        return None;
    }
    assert(sbytes(label).len() == label_end - label_start);
    let mut i = label_end + 1;
    if !(i < bytes.len() && bytes[i] == 58u8) {
        return None;
    }
    i = i + 1;
    i = match skip_ws_one_nl(bytes, i) {
        Some(j) => j,
        None => return None,
    };
    let (url_start, url_end, after_dest) = match scan_destination(bytes, i) {
        Some(t) => t,
        None => return None,
    };
    let url = match sub_str(input, url_start, url_end, Ghost(input)) {
        Some(u) => u,
        None => return None,
    };
    let no_title_resume = line_end_resume(bytes, after_dest);
    assert(sbytes(label) == sbytes(input).subrange(start + 1, start + 1 + sbytes(label).len()));
    if let Some((t_start, t_end, t_after)) = title_after(bytes, after_dest) {
        if let Some(resume) = line_end_resume(bytes, t_after) {
            let title = sub_str(input, t_start, t_end, Ghost(input));
            return Some((LinkDef { label, url, title }, resume));
        }
    }
    match no_title_resume {
        Some(resume) => Some((LinkDef { label, url, title: None }, resume)),
        None => None,
    }
}

/// A title delimiter is `"`, `'` or `(`, closed by `"`, `'` or `)`.
pub open spec fn title_delims(o: u8, c: u8) -> bool {
    (o == 34u8 && c == 34u8) || (o == 39u8 && c == 39u8) || (o == 40u8 && c == 41u8)
}

proof fn lemma_title_end_plain(b: Seq<u8>, j: int, k: int, c: u8)
    requires
        0 <= j <= k < b.len(),
        b[k] == c,
        c != 92u8,
        forall|t: int| j <= t < k ==> #[trigger] b[t] != c && b[t] != 92u8 && (b[t] == 10u8 ==> b[t + 1] != 10u8),
    ensures
        title_end(b, j, c) == Some(k),
    decreases k - j,
{
    if j < k {
        assert(b[j] != c && b[j] != 92u8);
        lemma_title_end_plain(b, j + 1, k, c);
    }
}

/// A link title opened at `i` by `"`, `'` or `(` is found whenever its
/// closing `"`, `'` or `)` follows with no backslash, no other closing
/// byte and no blank line in between: the title is the bytes between the
/// two delimiters, and what follows starts after the closing one.
pub proof fn law_title_delimited(b: Seq<u8>, i: int, k: int)
    requires
        0 <= i < k < b.len(),
        title_delims(b[i], b[k]),
        forall|t: int| i < t < k ==> #[trigger] b[t] != b[k] && b[t] != 92u8 && (b[t] == 10u8 ==> b[t + 1] != 10u8),
    ensures
        spec_title(b, i) == Some((i + 1, k, k + 1)),
{
    assert(title_close(b[i]) == Some(b[k]));
    lemma_title_end_plain(b, i + 1, k, b[k]);
}

} // verus!
