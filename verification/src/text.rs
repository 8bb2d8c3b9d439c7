use vstd::prelude::*;
use vstd::utf8::*;
use vstd::string::StringSliceAdditionalSpecFns;

verus! {


/// The UTF-8 bytes of a string slice.
pub open spec fn sbytes(s: &str) -> Seq<u8> {
    s.spec_bytes()
}

/// `t` is a contiguous byte range of `src`: the slice borrows from the
/// source text rather than owning a copy.
#[verifier::opaque]
pub open spec fn borrowed_from(t: &str, src: &str) -> bool {
    exists|a: int, b: int|
        0 <= a <= b <= sbytes(src).len() && #[trigger] sbytes(src).subrange(a, b) == sbytes(t)
}

/// An optional slice that, when present, borrows from `src`.
pub open spec fn opt_borrowed_from(t: Option<&str>, src: &str) -> bool {
    match t {
        Some(x) => borrowed_from(x, src),
        None => true,
    }
}

/// Whether the byte range `start..end` of `s` can be sliced out of it.
pub open spec fn sliceable(s: &str, start: int, end: int) -> bool {
    &&& 0 <= start <= end <= sbytes(s).len()
    &&& is_char_boundary(sbytes(s), start)
    &&& is_char_boundary(sbytes(s), end)
}

/// A slice of a slice borrows from whatever the outer slice borrows from.
pub proof fn lemma_borrowed_trans(t: &str, u: &str, src: &str, a: int, b: int)
    requires
        borrowed_from(u, src),
        0 <= a <= b <= sbytes(u).len(),
        sbytes(t) == sbytes(u).subrange(a, b),
    ensures
        borrowed_from(t, src),
{
    reveal(borrowed_from);
    let (c, d) = choose|c: int, d: int|
        0 <= c <= d <= sbytes(src).len() && #[trigger] sbytes(src).subrange(c, d) == sbytes(u);
    assert(sbytes(src).subrange(c + a, c + b) == sbytes(t));
}

/// Borrowing is transitive.
pub proof fn lemma_borrowed_chain(t: &str, u: &str, src: &str)
    requires
        borrowed_from(t, u),
        borrowed_from(u, src),
    ensures
        borrowed_from(t, src),
{
    reveal(borrowed_from);
    let (a, b) = choose|a: int, b: int|
        0 <= a <= b <= sbytes(u).len() && #[trigger] sbytes(u).subrange(a, b) == sbytes(t);
    lemma_borrowed_trans(t, u, src, a, b);
}

/// Every slice borrows from itself.
pub proof fn lemma_borrowed_refl(s: &str)
    ensures
        borrowed_from(s, s),
{
    reveal(borrowed_from);
    assert(sbytes(s).subrange(0, sbytes(s).len() as int) == sbytes(s));
}

/// The byte range `start..end` of `s`, or `None` when it is out of range or
/// does not fall on character boundaries (the behaviour of `str::get`).
pub fn str_get<'a>(s: &'a str, start: usize, end: usize) -> (r: Option<&'a str>)
    ensures
        r is Some <==> sliceable(s, start as int, end as int),
        r matches Some(t) ==> sbytes(t) == sbytes(s).subrange(start as int, end as int),
{
    let n = s.as_bytes().len();
    if start > end || end > n {
        return None;
    }
    if !s.is_char_boundary(start) || !s.is_char_boundary(end) {
        return None;
    }
    proof {
        encode_utf8_valid_utf8(s@);
    }
    let (_, rest) = s.split_at(start);
    let ghost bs = sbytes(s);
    let ghost rb = sbytes(rest);
    proof {
        assert(rb == bs.subrange(start as int, bs.len() as int));
        encode_utf8_valid_utf8(rest@);
        let k = (end - start) as int;
        if k < rb.len() {
            is_char_boundary_iff_not_is_continuation_byte(bs, end as int);
            is_char_boundary_iff_not_is_continuation_byte(rb, k);
            assert(rb[k] == bs[end as int]);
        } else {
            is_char_boundary_start_end_of_seq(rb);
        }
    }
    let (piece, _) = rest.split_at(end - start);
    proof {
        assert(sbytes(piece) == bs.subrange(start as int, end as int));
    }
    Some(piece)
}

/// A byte range of `src` borrows from it.
pub proof fn lemma_borrowed_intro(t: &str, src: &str, a: int, b: int)
    requires
        0 <= a <= b <= sbytes(src).len(),
        sbytes(t) == sbytes(src).subrange(a, b),
    ensures
        borrowed_from(t, src),
{
    reveal(borrowed_from);
}

/// Slicing a slice that borrows from `src` yields a slice that borrows from it.
pub fn sub_str<'a>(s: &'a str, start: usize, end: usize, Ghost(src): Ghost<&str>) -> (r: Option<&'a str>)
    requires
        borrowed_from(s, src),
    ensures
        r is Some <==> sliceable(s, start as int, end as int),
        r matches Some(t) ==> sbytes(t) == sbytes(s).subrange(start as int, end as int)
            && borrowed_from(t, src),
{
    let r = str_get(s, start, end);
    proof {
        if let Some(t) = r {
            lemma_borrowed_trans(t, s, src, start as int, end as int);
        }
    }
    r
}

/// An index that holds an ASCII byte, or the end of the text, is a character
/// boundary.
pub proof fn lemma_ascii_boundary(s: &str, i: int)
    requires
        0 <= i <= sbytes(s).len(),
        i < sbytes(s).len() ==> sbytes(s)[i] < 0x80,
    ensures
        is_char_boundary(sbytes(s), i),
{
    encode_utf8_valid_utf8(s@);
    if i < sbytes(s).len() {
        is_char_boundary_iff_not_is_continuation_byte(sbytes(s), i);
        let b: u8 = sbytes(s)[i];
        assert(!is_continuation_byte(b)) by (bit_vector)
            requires
                b < 0x80,
        ;
    } else {
        is_char_boundary_start_end_of_seq(sbytes(s));
    }
}

/// The index just after an ASCII byte that starts a character is a
/// character boundary too.
pub proof fn lemma_boundary_after_ascii(bytes: Seq<u8>, i: int)
    requires
        valid_utf8(bytes),
        0 <= i < bytes.len(),
        is_char_boundary(bytes, i),
        bytes[i] < 0x80,
    ensures
        is_char_boundary(bytes, i + 1),
    decreases bytes.len(),
{
    let l = length_of_first_scalar(bytes);
    let rest = pop_first_scalar(bytes);
    if i == 0 {
        assert(is_leading_byte_width_1(bytes[0]));
        assert(l == 1);
        assert(is_char_boundary(rest, 0));
    } else {
        assert(rest.len() < bytes.len());
        assert(is_char_boundary(rest, i - l));
        assert(rest[i - l] == bytes[i]);
        lemma_boundary_after_ascii(rest, i - l);
    }
}

/// The bytes of an ASCII string are its characters' codes.
pub proof fn lemma_ascii_literal(s: &str)
    requires
        is_ascii_chars(s@),
    ensures
        sbytes(s) == Seq::new(s@.len(), |i: int| s@[i] as u8),
        sbytes(s).len() == s@.len(),
{
    is_ascii_chars_encode_utf8(s@);
    assert(sbytes(s) =~= Seq::new(s@.len(), |i: int| s@[i] as u8));
}

/// Space, tab, line feed, form feed or carriage return (`u8::is_ascii_whitespace`).
pub open spec fn is_ws(b: u8) -> bool {
    b == 32 || b == 9 || b == 10 || b == 12 || b == 13
}

/// `u8::is_ascii_punctuation`.
pub open spec fn is_punct(b: u8) -> bool {
    (33 <= b <= 47) || (58 <= b <= 64) || (91 <= b <= 96) || (123 <= b <= 126)
}

pub open spec fn is_alpha(b: u8) -> bool {
    (65 <= b <= 90) || (97 <= b <= 122)
}

pub open spec fn is_digit(b: u8) -> bool {
    48 <= b <= 57
}

pub open spec fn is_alnum(b: u8) -> bool {
    is_alpha(b) || is_digit(b)
}

pub fn ascii_ws(b: u8) -> (r: bool)
    ensures
        r == is_ws(b),
{
    b == 32 || b == 9 || b == 10 || b == 12 || b == 13
}

pub fn ascii_punct(b: u8) -> (r: bool)
    ensures
        r == is_punct(b),
{
    (33 <= b && b <= 47) || (58 <= b && b <= 64) || (91 <= b && b <= 96) || (123 <= b && b
        <= 126)
}

pub fn ascii_alpha(b: u8) -> (r: bool)
    ensures
        r == is_alpha(b),
{
    (65 <= b && b <= 90) || (97 <= b && b <= 122)
}

pub fn ascii_digit(b: u8) -> (r: bool)
    ensures
        r == is_digit(b),
{
    48 <= b && b <= 57
}

pub fn ascii_alnum(b: u8) -> (r: bool)
    ensures
        r == is_alnum(b),
{
    ascii_alpha(b) || ascii_digit(b)
}

/// ASCII lowercase of one byte.
pub open spec fn lower(b: u8) -> u8 {
    if 65 <= b <= 90 { (b + 32) as u8 } else { b }
}

pub fn ascii_lower(b: u8) -> (r: u8)
    ensures
        r == lower(b),
{
    if 65 <= b && b <= 90 {
        b + 32
    } else {
        b
    }
}

/// Every byte of `start..end` is ASCII whitespace.
pub open spec fn all_ws(s: Seq<u8>, start: int, end: int) -> bool {
    forall|j: int| start <= j < end ==> is_ws(#[trigger] s[j])
}

/// Whether `bytes[start..end]` holds only ASCII whitespace (true when empty).
pub fn is_blank_range(bytes: &[u8], start: usize, end: usize) -> (r: bool)
    requires
        end <= bytes@.len(),
    ensures
        r == all_ws(bytes@, start as int, end as int),
{
    let mut i = start;
    while i < end
        invariant
            start <= i,
            end <= bytes@.len(),
            all_ws(bytes@, start as int, i as int),
        decreases end - i,
    {
        if !ascii_ws(bytes[i]) {
            return false;
        }
        i = i + 1;
    }
    true
}

/// Count the ASCII spaces that open `bytes[start..end]`.
pub fn count_spaces(bytes: &[u8], start: usize, end: usize) -> (n: usize)
    requires
        start <= end <= bytes@.len(),
    ensures
        start + n <= end,
        forall|j: int| start <= j < start + n ==> bytes@[j] == 32u8,
        start + n == end || bytes@[start + n] != 32u8,
{
    let mut i = start;
    while i < end && bytes[i] == 32u8
        invariant
            start <= i <= end,
            end <= bytes@.len(),
            forall|j: int| start <= j < i ==> bytes@[j] == 32u8,
        decreases end - i,
    {
        i = i + 1;
    }
    i - start
}

/// Count the copies of `b` that open `bytes[start..end]`.
pub fn count_run(bytes: &[u8], start: usize, end: usize, b: u8) -> (n: usize)
    requires
        start <= end <= bytes@.len(),
    ensures
        start + n <= end,
        forall|j: int| start <= j < start + n ==> bytes@[j] == b,
        start + n == end || bytes@[start + n] != b,
{
    let mut i = start;
    while i < end && bytes[i] == b
        invariant
            start <= i <= end,
            end <= bytes@.len(),
            forall|j: int| start <= j < i ==> bytes@[j] == b,
        decreases end - i,
    {
        i = i + 1;
    }
    i - start
}


/// Index just past the run of bytes satisfying `p` from `i`, stopping at `e`.
pub open spec fn run_to(b: Seq<u8>, i: int, e: int, p: spec_fn(u8) -> bool) -> int
    decreases e - i,
{
    if 0 <= i < e && i < b.len() && p(b[i]) {
        run_to(b, i + 1, e, p)
    } else {
        i
    }
}

/// Index where the run of bytes satisfying `p` that ends at `z` starts, not
/// going below `lo`.
pub open spec fn rrun_to(b: Seq<u8>, lo: int, z: int, p: spec_fn(u8) -> bool) -> int
    decreases z - lo,
{
    if lo < z && 0 < z <= b.len() && p(b[z - 1]) {
        rrun_to(b, lo, z - 1, p)
    } else {
        z
    }
}

/// A run ends where its predicate first fails.
pub proof fn lemma_run_to(b: Seq<u8>, i: int, j: int, e: int, p: spec_fn(u8) -> bool)
    requires
        0 <= i <= j <= e <= b.len(),
        forall|t: int| i <= t < j ==> p(#[trigger] b[t]),
        j == e || !p(b[j]),
    ensures
        run_to(b, i, e, p) == j,
    decreases j - i,
{
    if i < j {
        lemma_run_to(b, i + 1, j, e, p);
    }
}

/// A run never ends before it starts.
pub proof fn lemma_run_to_from(b: Seq<u8>, i: int, e: int, p: spec_fn(u8) -> bool)
    ensures
        run_to(b, i, e, p) >= i,
    decreases e - i,
{
    if 0 <= i < e && i < b.len() && p(b[i]) {
        lemma_run_to_from(b, i + 1, e, p);
    }
}

/// A run that holds on `b[i..j]` reaches at least `j`.
pub proof fn lemma_run_to_ge(b: Seq<u8>, i: int, j: int, e: int, p: spec_fn(u8) -> bool)
    requires
        0 <= i <= j <= e <= b.len(),
        forall|t: int| i <= t < j ==> p(#[trigger] b[t]),
    ensures
        run_to(b, i, e, p) >= j,
    decreases j - i,
{
    if i < j {
        lemma_run_to_ge(b, i + 1, j, e, p);
    } else {
        lemma_run_to_from(b, i, e, p);
    }
}

/// A run stops at the latest at a byte that fails its predicate.
pub proof fn lemma_run_to_le(b: Seq<u8>, i: int, j: int, e: int, p: spec_fn(u8) -> bool)
    requires
        i <= j < e <= b.len(),
        0 <= i,
        !p(b[j]),
    ensures
        run_to(b, i, e, p) <= j,
    decreases j - i,
{
    if i < j && p(b[i]) {
        lemma_run_to_le(b, i + 1, j, e, p);
    }
}

/// A backward run stops above a byte that fails its predicate.
pub proof fn lemma_rrun_to_gt(b: Seq<u8>, lo: int, j: int, z: int, p: spec_fn(u8) -> bool)
    requires
        0 <= lo <= j < z <= b.len(),
        !p(b[j]),
    ensures
        rrun_to(b, lo, z, p) > j,
    decreases z - j,
{
    if j + 1 < z && p(b[z - 1]) {
        lemma_rrun_to_gt(b, lo, j, z - 1, p);
    }
}

/// A trailing run starts where its predicate first fails going backwards.
pub proof fn lemma_rrun_to(b: Seq<u8>, lo: int, j: int, z: int, p: spec_fn(u8) -> bool)
    requires
        0 <= lo <= j <= z <= b.len(),
        forall|t: int| j <= t < z ==> p(#[trigger] b[t]),
        j == lo || !p(b[j - 1]),
    ensures
        rrun_to(b, lo, z, p) == j,
    decreases z - j,
{
    if j < z {
        lemma_rrun_to(b, lo, j, z - 1, p);
    }
}

/// A trailing run in an empty or inverted range is empty.
pub proof fn lemma_rrun_to_empty(b: Seq<u8>, lo: int, z: int, p: spec_fn(u8) -> bool)
    requires
        lo >= z,
    ensures
        rrun_to(b, lo, z, p) == z,
{
}

/// The byte `c`.
pub open spec fn is_byte(c: u8) -> spec_fn(u8) -> bool {
    |x: u8| x == c
}

/// ASCII white space.
pub open spec fn ws() -> spec_fn(u8) -> bool {
    |x: u8| is_ws(x)
}

/// A space or a tab.
pub open spec fn blank() -> spec_fn(u8) -> bool {
    |x: u8| x == 32u8 || x == 9u8
}

/// Number of copies of `c` in `b[s..i]`.
pub open spec fn count_to(b: Seq<u8>, s: int, i: int, c: u8) -> int
    decreases i - s,
{
    if i <= s {
        0
    } else {
        count_to(b, s, i - 1, c) + (if b[i - 1] == c { 1int } else { 0int })
    }
}

pub proof fn lemma_count_none(b: Seq<u8>, s: int, i: int, c: u8)
    requires
        forall|t: int| s <= t < i ==> #[trigger] b[t] != c,
    ensures
        count_to(b, s, i, c) == 0,
    decreases i - s,
{
    if i > s {
        lemma_count_none(b, s, i - 1, c);
    }
}

} // verus!
