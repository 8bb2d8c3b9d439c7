use vstd::prelude::*;
use vstd::utf8::*;
use crate::line_ending::lemma_encode_append;
use crate::inline::Inline;
use crate::link_def::{char_is_white, is_white};
use crate::simd::ByteSliceExt;
use vstd::string::*;
use crate::section::{spec_pool_span, InlineSpan, LineRange, PoolLine, Section, SectionRange};
use crate::text::{lemma_ascii_boundary, lemma_boundary_after_ascii, sbytes, str_get};

verus! {

// ---------------------------------------------------------------------------
// Escaping
// ---------------------------------------------------------------------------

/// The four bytes that HTML text and attribute values escape.
pub open spec fn special(b: u8) -> bool {
    b == 38u8 || b == 60u8 || b == 62u8 || b == 34u8
}

/// One byte of text as HTML: `&`, `<`, `>` and `"` become entities.
pub open spec fn esc_byte(b: u8) -> Seq<u8> {
    if b == 38u8 {
        sbytes("&amp;")
    } else if b == 60u8 {
        sbytes("&lt;")
    } else if b == 62u8 {
        sbytes("&gt;")
    } else if b == 34u8 {
        sbytes("&quot;")
    } else {
        seq![b]
    }
}

/// Text escaped for HTML, byte by byte.
pub open spec fn esc_bytes(b: Seq<u8>) -> Seq<u8>
    decreases b.len(),
{
    if b.len() == 0 {
        Seq::empty()
    } else {
        esc_byte(b[0]) + esc_bytes(b.drop_first())
    }
}

/// Escaping distributes over concatenation.
proof fn lemma_esc_append(a: Seq<u8>, b: Seq<u8>)
    ensures
        esc_bytes(a + b) == esc_bytes(a) + esc_bytes(b),
    decreases a.len(),
{
    if a.len() > 0 {
        assert((a + b)[0] == a[0]);
        assert((a + b).drop_first() == a.drop_first() + b);
        lemma_esc_append(a.drop_first(), b);
    } else {
        assert(a + b == b);
    }
}

/// A line feed inside a code span reads as a space.
pub open spec fn nl_to_space(x: u8) -> u8 {
    if x == 10u8 { 32u8 } else { x }
}

/// The content of a code span as rendered (`CommonMark` §6.1): line feeds
/// become spaces, then one space is stripped from each end when the content
/// both begins and ends with a space but is not all spaces.
pub open spec fn code_text(c: Seq<u8>) -> Seq<u8> {
    let s = c.map_values(|x: u8| nl_to_space(x));
    if s.len() > 0 && s[0] == 32u8 && s.last() == 32u8 && exists|j: int| 0 <= j < s.len() && s[j] != 32u8 {
        s.subrange(1, s.len() - 1)
    } else {
        s
    }
}

/// Escaped text holds no `<`, `>` or `"`: nothing in it can open or close a
/// tag or end an attribute value.
pub proof fn lemma_escaped_has_no_markup(b: Seq<u8>)
    ensures
        forall|i: int|
            0 <= i < esc_bytes(b).len() ==> #[trigger] esc_bytes(b)[i] != 60u8 && esc_bytes(b)[i] != 62u8
                && esc_bytes(b)[i] != 34u8,
    decreases b.len(),
{
    reveal_strlit("&amp;");
    reveal_strlit("&lt;");
    reveal_strlit("&gt;");
    reveal_strlit("&quot;");
    if b.len() > 0 {
        lemma_escaped_has_no_markup(b.drop_first());
        lemma_entity_bytes();
        assert(sbytes("&amp;")[0] == 38u8);
        let head = esc_byte(b[0]);
        let rest = esc_bytes(b.drop_first());
        assert forall|i: int| 0 <= i < (head + rest).len() implies #[trigger] (head + rest)[i] != 60u8
            && (head + rest)[i] != 62u8 && (head + rest)[i] != 34u8 by {
            if i >= head.len() {
                assert((head + rest)[i] == rest[i - head.len()]);
            }
        }
    }
}

/// The bytes of the four entities hold no `<`, `>` or `"`.
proof fn lemma_entity_bytes()
    ensures
        sbytes("&amp;") == seq![38u8, 97u8, 109u8, 112u8, 59u8],
        sbytes("&lt;") == seq![38u8, 108u8, 116u8, 59u8],
        sbytes("&gt;") == seq![38u8, 103u8, 116u8, 59u8],
        sbytes("&quot;") == seq![38u8, 113u8, 117u8, 111u8, 116u8, 59u8],
{
    reveal_strlit("&amp;");
    reveal_strlit("&lt;");
    reveal_strlit("&gt;");
    reveal_strlit("&quot;");
    lemma_ascii_bytes("&amp;"@);
    lemma_ascii_bytes("&lt;"@);
    lemma_ascii_bytes("&gt;"@);
    lemma_ascii_bytes("&quot;"@);
}

/// The UTF-8 encoding of ASCII characters is their codes.
proof fn lemma_ascii_bytes(cs: Seq<char>)
    requires
        is_ascii_chars(cs),
    ensures
        encode_utf8(cs) == Seq::new(cs.len(), |i: int| cs[i] as u8),
{
    is_ascii_chars_encode_utf8(cs);
    assert(encode_utf8(cs) =~= Seq::new(cs.len(), |i: int| cs[i] as u8));
}

/// A decimal (or, with `hex`, hexadecimal) digit.
pub open spec fn is_dig(b: u8, hex: bool) -> bool {
    (48u8 <= b <= 57u8) || (hex && ((97u8 <= b <= 102u8) || (65u8 <= b <= 70u8)))
}

pub open spec fn dig_val(b: u8) -> int {
    if 48u8 <= b <= 57u8 {
        b - 48
    } else if 97u8 <= b <= 102u8 {
        b - 87
    } else {
        b - 55
    }
}

/// Number of consecutive digits in `b` from index `i`.
pub open spec fn digit_run(b: Seq<u8>, i: int, hex: bool) -> int
    decreases b.len() - i,
{
    if 0 <= i < b.len() && is_dig(b[i], hex) {
        1 + digit_run(b, i + 1, hex)
    } else {
        0
    }
}

/// The value of the `n` digits of `b` from index `i`.
pub open spec fn digits_value(b: Seq<u8>, i: int, n: int, hex: bool) -> int
    decreases n,
{
    if n <= 0 {
        0
    } else {
        digits_value(b, i, n - 1, hex) * (if hex { 16int } else { 10int }) + dig_val(b[i + n - 1])
    }
}

/// The character a numeric reference stands for: zero, surrogates and values
/// past U+10FFFF become U+FFFD.
pub open spec fn ref_scalar(v: int) -> u32 {
    if v <= 0 || v > 0x10FFFF || (0xD800 <= v <= 0xDFFF) {
        0xFFFDu32
    } else {
        v as u32
    }
}

/// A numeric character reference (`&#123;` or `&#x7B;`) at the start of `b`:
/// the character and the length of the reference.
pub open spec fn numeric_ref(b: Seq<u8>) -> Option<(u32, int)> {
    if b.len() >= 3 && b[0] == 38u8 && b[1] == 35u8 {
        let hex = b[2] == 120u8 || b[2] == 88u8;
        let ds: int = if hex { 3 } else { 2 };
        let n = digit_run(b, ds, hex);
        let maxd: int = if hex { 6 } else { 7 };
        if 1 <= n <= maxd && ds + n < b.len() && b[ds + n] == 59u8 {
            Some((ref_scalar(digits_value(b, ds, n, hex)), ds + n + 1))
        } else {
            None
        }
    } else {
        None
    }
}

/// A decoded character as escaped HTML.
pub open spec fn esc_scalar(v: u32) -> Seq<u8> {
    if v == 38u32 {
        sbytes("&amp;")
    } else if v == 60u32 {
        sbytes("&lt;")
    } else if v == 62u32 {
        sbytes("&gt;")
    } else if v == 34u32 {
        sbytes("&quot;")
    } else {
        encode_scalar(v)
    }
}

/// Document text as HTML: numeric character references are decoded, then
/// everything is escaped.
pub open spec fn text_bytes(b: Seq<u8>) -> Seq<u8>
    decreases b.len(),
{
    if b.len() == 0 {
        Seq::empty()
    } else {
        match numeric_ref(b) {
            Some((v, k)) => if 1 <= k <= b.len() {
                esc_scalar(v) + text_bytes(b.subrange(k, b.len() as int))
            } else {
                Seq::empty()
            },
            None => esc_byte(b[0]) + text_bytes(b.drop_first()),
        }
    }
}

/// Text escaped, with numeric references decoded when `decode`.
pub open spec fn render_text(b: Seq<u8>, decode: bool) -> Seq<u8> {
    if decode {
        text_bytes(b)
    } else {
        esc_bytes(b)
    }
}

pub open spec fn no_special(b: Seq<u8>) -> bool {
    forall|i: int| 0 <= i < b.len() ==> !special(#[trigger] b[i])
}

/// A run without special bytes passes through rendering unchanged.
pub proof fn lemma_render_prefix(a: Seq<u8>, b: Seq<u8>, decode: bool)
    requires
        no_special(a),
    ensures
        render_text(a + b, decode) == a + render_text(b, decode),
    decreases a.len(),
{
    if a.len() > 0 {
        assert((a + b)[0] == a[0]);
        assert(!special(a[0]));
        assert((a + b).drop_first() == a.drop_first() + b);
        lemma_render_prefix(a.drop_first(), b, decode);
        assert(seq![a[0]] + (a.drop_first() + render_text(b, decode)) == a + render_text(b, decode));
    } else {
        assert(a + b == b);
    }
}

/// The digit run from `i` is `c` digits followed by the run from `i + c`.
proof fn lemma_digit_run_split(b: Seq<u8>, i: int, c: int, hex: bool)
    requires
        0 <= i,
        0 <= c,
        i + c <= b.len(),
        forall|t: int| i <= t < i + c ==> is_dig(#[trigger] b[t], hex),
    ensures
        digit_run(b, i, hex) == c + digit_run(b, i + c, hex),
    decreases c,
{
    if c > 0 {
        lemma_digit_run_split(b, i + 1, c - 1, hex);
    }
}

proof fn lemma_digit_run_nonneg(b: Seq<u8>, i: int, hex: bool)
    ensures
        digit_run(b, i, hex) >= 0,
    decreases b.len() - i,
{
    if 0 <= i < b.len() && is_dig(b[i], hex) {
        lemma_digit_run_nonneg(b, i + 1, hex);
    }
}

/// A value clamped to one past the largest scalar.
pub open spec fn clamp_scalar(v: int) -> int {
    if v > 0x10FFFF {
        0x110000
    } else {
        v
    }
}

fn is_dig_exec(b: u8, hex: bool) -> (r: bool)
    ensures
        r == is_dig(b, hex),
{
    (48u8 <= b && b <= 57u8) || (hex && ((97u8 <= b && b <= 102u8) || (65u8 <= b && b <= 70u8)))
}

/// The numeric character reference at byte `i` of `b`, if there is one.
fn numeric_ref_at(b: &[u8], i: usize) -> (r: Option<(u32, usize)>)
    requires
        i <= b@.len(),
    ensures
        r matches Some((v, k)) ==> numeric_ref(b@.subrange(i as int, b@.len() as int)) == Some((v, k as int)),
        r is None ==> numeric_ref(b@.subrange(i as int, b@.len() as int)) is None,
{
    let n = b.len();
    let ghost rest = b@.subrange(i as int, n as int);
    if n - i < 3 || b[i] != 38u8 || b[i + 1] != 35u8 {
        return None;
    }
    let hex = b[i + 2] == 120u8 || b[i + 2] == 88u8;
    let ds: usize = if hex { 3 } else { 2 };
    let maxd: usize = if hex { 6 } else { 7 };
    let base: u32 = if hex { 16 } else { 10 };
    let mut cnt: usize = 0;
    let mut acc: u32 = 0;
    while i + ds + cnt < n && cnt <= maxd && is_dig_exec(b[i + ds + cnt], hex)
        invariant
            i + ds <= n,
            n == b@.len(),
            rest == b@.subrange(i as int, n as int),
            ds == (if hex { 3usize } else { 2usize }),
            maxd == (if hex { 6usize } else { 7usize }),
            base == (if hex { 16u32 } else { 10u32 }),
            cnt <= maxd + 1,
            i + ds + cnt <= n,
            forall|t: int| ds <= t < ds + cnt ==> is_dig(#[trigger] rest[t], hex),
            0 <= digits_value(rest, ds as int, cnt as int, hex),
            acc == clamp_scalar(digits_value(rest, ds as int, cnt as int, hex)),
        decreases n - (i + ds + cnt),
    {
        let d = b[i + ds + cnt];
        let dv: u32 = if 48u8 <= d && d <= 57u8 {
            (d - 48u8) as u32
        } else if 97u8 <= d && d <= 102u8 {
            (d - 87u8) as u32
        } else {
            (d - 55u8) as u32
        };
        let ghost v = digits_value(rest, ds as int, cnt as int, hex);
        proof {
            assert(rest[ds + cnt] == d);
            assert(dv == dig_val(d));
            assert(digits_value(rest, ds as int, cnt + 1, hex) == v * (base as int) + dv);
            assert(v * (base as int) >= v) by (nonlinear_arith)
                requires
                    v >= 0,
                    base >= 10,
            ;
        }
        if acc > 0x10FFFFu32 {
            acc = 0x110000u32;
        } else {
            proof {
                assert(acc * (base as int) <= 0x10FFFF * 16) by (nonlinear_arith)
                    requires
                        acc <= 0x10FFFF,
                        base <= 16,
                ;
            }
            let next = acc * base + dv;
            acc = if next > 0x10FFFFu32 { 0x110000u32 } else { next };
        }
        cnt = cnt + 1;
    }
    if cnt == 0 || cnt > maxd || i + ds + cnt >= n || b[i + ds + cnt] != 59u8 {
        proof {
            if cnt > maxd {
                lemma_digit_run_split(rest, ds as int, cnt as int, hex);
                lemma_digit_run_nonneg(rest, ds + cnt, hex);
            } else {
                lemma_digit_run_split(rest, ds as int, cnt as int, hex);
                assert(digit_run(rest, ds + cnt, hex) == 0);
            }
        }
        return None;
    }
    proof {
        lemma_digit_run_split(rest, ds as int, cnt as int, hex);
        assert(digit_run(rest, ds + cnt, hex) == 0);
        assert(rest[ds + cnt] == 59u8);
    }
    let v: u32 = if acc == 0 || acc > 0x10FFFFu32 || (0xD800u32 <= acc && acc <= 0xDFFFu32) {
        0xFFFDu32
    } else {
        acc
    };
    Some((v, ds + cnt + 1))
}

// ---------------------------------------------------------------------------
// Output primitives
// ---------------------------------------------------------------------------

/// `String::push`: appends one character.
#[verifier::external_body]
fn push_char(out: &mut String, c: char)
    ensures
        final(out)@ == old(out)@.push(c),
{
    out.push(c);
}

/// `char::from_u32`: the character with the given scalar value, or `None`
/// for a surrogate or a value past U+10FFFF.
#[verifier::external_body]
fn char_from_u32(v: u32) -> (r: Option<char>)
    ensures
        r is Some <==> (v <= 0x10FFFF && !(0xD800 <= v <= 0xDFFF)),
        r matches Some(c) ==> c as u32 == v,
{
    char::from_u32(v)
}

/// The UTF-8 bytes of what has been written so far.
pub open spec fn written(s: &String) -> Seq<u8> {
    encode_utf8(s@)
}

/// Append a string slice.
fn put(out: &mut String, s: &str)
    ensures
        written(final(out)) == written(old(out)) + sbytes(s),
{
    let ghost before = out@;
    out.append(s);
    proof {
        lemma_encode_append(before, s@);
    }
}

/// Append one character.
fn put_char(out: &mut String, c: char)
    ensures
        written(final(out)) == written(old(out)) + encode_scalar(c as u32),
{
    let ghost before = out@;
    push_char(out, c);
    proof {
        assert(out@ == before + seq![c]);
        lemma_encode_append(before, seq![c]);
        assert(seq![c].drop_first() == Seq::<char>::empty());
        assert(encode_scalar(c as u32) + Seq::<u8>::empty() == encode_scalar(c as u32));
        assert(encode_utf8(Seq::<char>::empty()) == Seq::<u8>::empty());
        assert(encode_utf8(seq![c]) == encode_scalar(c as u32) + Seq::<u8>::empty());
    }
}

/// Append the entity for a special byte.
fn put_entity(out: &mut String, b: u8)
    requires
        special(b),
    ensures
        written(final(out)) == written(old(out)) + esc_byte(b),
{
    if b == 38u8 {
        put(out, "&amp;");
    } else if b == 60u8 {
        put(out, "&lt;");
    } else if b == 62u8 {
        put(out, "&gt;");
    } else {
        put(out, "&quot;");
    }
}

/// The value of a decoded reference is always a Unicode scalar.
proof fn lemma_ref_scalar(x: int)
    ensures
        ref_scalar(x) <= 0x10FFFF,
        !(0xD800 <= ref_scalar(x) <= 0xDFFF),
{
}

/// Render the special byte at index `i` of `s` (an entity, or a decoded
/// numeric reference); returns the index just past what was consumed.
fn put_special(out: &mut String, s: &str, i: usize, decode: bool) -> (next: usize)
    requires
        i < sbytes(s).len(),
        special(sbytes(s)[i as int]),
    ensures
        i < next <= sbytes(s).len(),
        is_char_boundary(sbytes(s), next as int),
        written(old(out)) + render_text(sbytes(s).subrange(i as int, sbytes(s).len() as int), decode)
            == written(final(out)) + render_text(sbytes(s).subrange(next as int, sbytes(s).len() as int), decode),
        match (if decode { numeric_ref(sbytes(s).subrange(i as int, sbytes(s).len() as int)) } else { None }) {
            Some((v, k)) => next == i + k && written(final(out)) == written(old(out)) + esc_scalar(v),
            None => next == i + 1 && written(final(out)) == written(old(out)) + esc_byte(sbytes(s)[i as int]),
        },
{
    let b = s.as_bytes();
    let n = b.len();
    let c = b[i];
    let ghost all = b@;
    let ghost tail = all.subrange(i as int, n as int);
    proof {
        encode_utf8_valid_utf8(s@);
        lemma_ascii_boundary(s, i as int);
    }
    let r = if decode && c == 38u8 {
        numeric_ref_at(b, i)
    } else {
        None
    };
    match r {
        Some((v, k)) => {
            proof {
                assert(numeric_ref(tail) == Some((v, k as int)));
                lemma_ref_scalar(digits_value(tail, if tail[2] == 120u8 || tail[2] == 88u8 { 3int } else { 2int },
                    digit_run(tail, if tail[2] == 120u8 || tail[2] == 88u8 { 3int } else { 2int }, tail[2] == 120u8 || tail[2] == 88u8),
                    tail[2] == 120u8 || tail[2] == 88u8));
            }
            let ghost w = written(out);
            if v == 38u32 || v == 60u32 || v == 62u32 || v == 34u32 {
                put_entity(out, v as u8);
            } else {
                let ch = char_from_u32(v).unwrap();
                put_char(out, ch);
            }
            proof {
                assert(written(out) == w + esc_scalar(v));
                assert(tail.subrange(k as int, tail.len() as int) == all.subrange(i + k, n as int));
                assert(render_text(tail, decode) == esc_scalar(v) + render_text(all.subrange(i + k, n as int), decode));
                assert(all[i + k - 1] == tail[k - 1]);
                lemma_ascii_boundary(s, i + k - 1);
                if i + k < n {
                    lemma_boundary_after_ascii(all, i + k - 1);
                } else {
                    is_char_boundary_start_end_of_seq(all);
                }
            }
            i + k
        },
        None => {
            put_entity(out, c);
            proof {
                assert(tail[0] == c);
                assert(tail.drop_first() == all.subrange(i + 1, n as int));
                assert(render_text(tail, decode) == esc_byte(c) + render_text(all.subrange(i + 1, n as int), decode));
                lemma_boundary_after_ascii(all, i as int);
            }
            i + 1
        },
    }
}

/// Append `s` as HTML text: special bytes become entities and, when
/// `decode`, numeric character references are decoded first.
pub fn put_text(out: &mut String, s: &str, decode: bool)
    ensures
        written(final(out)) == written(old(out)) + render_text(sbytes(s), decode),
{
    let b = s.as_bytes();
    let n = b.len();
    let ghost all = b@;
    let ghost w0 = written(out);
    let mut start: usize = 0;
    let mut i: usize = 0;
    proof {
        encode_utf8_valid_utf8(s@);
        assert(all.subrange(0, n as int) == all);
    }
    while i < n
        invariant
            b@ == all,
            all == sbytes(s),
            n == all.len(),
            valid_utf8(all),
            start <= i <= n,
            is_char_boundary(all, start as int),
            no_special(all.subrange(start as int, i as int)),
            w0 + render_text(all, decode) == written(out) + render_text(all.subrange(start as int, n as int), decode),
        decreases n - i,
    {
        let c = b[i];
        if c == 38u8 || c == 60u8 || c == 62u8 || c == 34u8 {
            proof {
                lemma_ascii_boundary(s, i as int);
            }
            let run = str_get(s, start, i).unwrap();
            let ghost tail = all.subrange(i as int, n as int);
            proof {
                assert(all.subrange(start as int, n as int) == all.subrange(start as int, i as int) + tail);
                lemma_render_prefix(all.subrange(start as int, i as int), tail, decode);
            }
            put(out, run);
            i = put_special(out, s, i, decode);
            start = i;
            proof {
                assert(all.subrange(start as int, i as int) == Seq::<u8>::empty());
            }
        } else {
            i = i + 1;
            proof {
                assert(all.subrange(start as int, i as int) == all.subrange(start as int, i - 1).push(c));
            }
        }
    }
    proof {
        is_char_boundary_start_end_of_seq(all);
    }
    let run = str_get(s, start, n).unwrap();
    proof {
        lemma_render_prefix(all.subrange(start as int, n as int), Seq::<u8>::empty(), decode);
        assert(all.subrange(start as int, n as int) + Seq::<u8>::empty() == all.subrange(start as int, n as int));
        assert(all.subrange(n as int, n as int) == Seq::<u8>::empty());
    }
    put(out, run);
}

// ---------------------------------------------------------------------------
// The rendering of a document
// ---------------------------------------------------------------------------

/// The decimal digits of `n`.
pub open spec fn dec_bytes(n: nat) -> Seq<u8>
    decreases n,
{
    if n < 10 {
        seq![(48 + n) as u8]
    } else {
        dec_bytes(n / 10) + seq![(48 + n % 10) as u8]
    }
}

/// `n` spaces.
pub open spec fn spaces(n: nat) -> Seq<u8> {
    Seq::new(n, |i: int| 32u8)
}

/// A line break unless the output is empty or already ends with one.
pub open spec fn cr(acc: Seq<u8>) -> Seq<u8> {
    if acc.len() > 0 && acc.last() != 10u8 {
        acc.push(10u8)
    } else {
        acc
    }
}

/// A byte that stays as it is in a URL: an ASCII letter or digit, or one
/// of `;/?:@&=+$,-_.!~*'()#`.
pub open spec fn url_safe(b: u8) -> bool {
    ||| 48u8 <= b <= 57u8
    ||| 65u8 <= b <= 90u8
    ||| 97u8 <= b <= 122u8
    ||| b == 59u8 || b == 47u8 || b == 63u8 || b == 58u8 || b == 64u8 || b == 38u8 || b == 61u8
    ||| b == 43u8 || b == 36u8 || b == 44u8 || b == 45u8 || b == 95u8 || b == 46u8 || b == 33u8
    ||| b == 126u8 || b == 42u8 || b == 39u8 || b == 40u8 || b == 41u8 || b == 35u8
}

/// An ASCII hexadecimal digit.
pub open spec fn is_hex_byte(b: u8) -> bool {
    (48u8 <= b <= 57u8) || (65u8 <= b <= 70u8) || (97u8 <= b <= 102u8)
}

/// The upper-case hexadecimal digit for `d < 16`.
pub open spec fn hex_upper(d: u8) -> u8 {
    if d < 10 { (48 + d) as u8 } else { (55 + d) as u8 }
}

/// One byte of a URL in an attribute: `&` as its entity, a safe byte as it
/// is, any other byte percent-encoded.
pub open spec fn href_byte(b: u8) -> Seq<u8> {
    if b == 38u8 {
        sbytes("&amp;")
    } else if url_safe(b) {
        seq![b]
    } else {
        seq![37u8, hex_upper(b / 16), hex_upper(b % 16)]
    }
}

/// A URL percent-encoded for an attribute: a `%` followed by two hex digits
/// is kept as it is, every other byte goes through `href_byte`.
pub open spec fn pct_encode(t: Seq<u8>) -> Seq<u8>
    decreases t.len(),
{
    if t.len() == 0 {
        Seq::empty()
    } else if t[0] == 37u8 && t.len() >= 3 && is_hex_byte(t[1]) && is_hex_byte(t[2]) {
        t.subrange(0, 3) + pct_encode(t.subrange(3, t.len() as int))
    } else {
        href_byte(t[0]) + pct_encode(t.drop_first())
    }
}

/// Link destination or title text with backslash escapes resolved (a
/// backslash before ASCII punctuation drops) and numeric character
/// references decoded to UTF-8.
pub open spec fn unesc(s: Seq<u8>) -> Seq<u8>
    decreases s.len(),
{
    if s.len() == 0 {
        Seq::empty()
    } else if s[0] == 92u8 && s.len() >= 2 && crate::text::is_punct(s[1]) {
        seq![s[1]] + unesc(s.subrange(2, s.len() as int))
    } else {
        match numeric_ref(s) {
            Some((v, k)) => if 1 <= k <= s.len() {
                encode_scalar(v) + unesc(s.subrange(k, s.len() as int))
            } else {
                Seq::empty()
            },
            None => seq![s[0]] + unesc(s.drop_first()),
        }
    }
}

/// The `href`/`src` value of a link destination: escapes and references
/// resolved (for a link or image, not for an autolink), then percent-encoded.
pub open spec fn href_bytes(url: Seq<u8>, unescape: bool) -> Seq<u8> {
    pct_encode(if unescape { unesc(url) } else { url })
}

/// A link title as attribute text: escapes resolved, numeric references
/// decoded, then HTML-escaped.
pub open spec fn title_text(s: Seq<u8>) -> Seq<u8>
    decreases s.len(),
{
    if s.len() == 0 {
        Seq::empty()
    } else if s[0] == 92u8 && s.len() >= 2 && crate::text::is_punct(s[1]) {
        esc_byte(s[1]) + title_text(s.subrange(2, s.len() as int))
    } else {
        match numeric_ref(s) {
            Some((v, k)) => if 1 <= k <= s.len() {
                esc_scalar(v) + title_text(s.subrange(k, s.len() as int))
            } else {
                Seq::empty()
            },
            None => esc_byte(s[0]) + title_text(s.drop_first()),
        }
    }
}

/// The ` title="..."` attribute of a link or image.
pub open spec fn title_attr(t: Option<&str>) -> Seq<u8> {
    match t {
        Some(x) => sbytes(" title=\"") + title_text(sbytes(x)) + sbytes("\""),
        None => Seq::empty(),
    }
}

/// The inline elements `p[lo..hi]` as HTML; `plain` renders only their text
/// (the alt text of an image).
pub open spec fn inls_html(p: Seq<Inline>, lo: int, hi: int, plain: bool) -> Seq<u8>
    decreases hi, 1int,
{
    if lo < 0 || hi > p.len() || lo >= hi {
        Seq::empty()
    } else {
        inls_html(p, lo, hi - 1, plain) + inl_html(p, hi - 1, plain)
    }
}

/// The children of the inline element at `k`, whose span must lie before it.
pub open spec fn sub_html(p: Seq<Inline>, s: InlineSpan, k: int, plain: bool) -> Seq<u8>
    decreases k, 2int,
{
    if 0 <= k && s.start + s.len <= k {
        inls_html(p, s.start as int, s.start + s.len, plain)
    } else {
        Seq::empty()
    }
}

/// The inline element `p[k]` as HTML.
pub open spec fn inl_html(p: Seq<Inline>, k: int, plain: bool) -> Seq<u8>
    decreases k + 1, 0int,
{
    if k < 0 || k >= p.len() {
        Seq::empty()
    } else {
        match p[k] {
            Inline::Text(t) => text_bytes(sbytes(t)),
            Inline::Code(c) => if plain {
                esc_bytes(code_text(sbytes(c)))
            } else {
                sbytes("<code>") + esc_bytes(code_text(sbytes(c))) + sbytes("</code>")
            },
            Inline::RawHtml(r) => if plain {
                esc_bytes(sbytes(r))
            } else {
                sbytes(r)
            },
            Inline::Autolink { target, is_email } => if plain {
                esc_bytes(sbytes(target))
            } else {
                sbytes("<a href=\"") + (if is_email { sbytes("mailto:") } else { Seq::empty() })
                    + href_bytes(sbytes(target), false) + sbytes("\">") + esc_bytes(sbytes(target)) + sbytes("</a>")
            },
            Inline::SoftBreak => if plain {
                sbytes(" ")
            } else {
                sbytes("\n")
            },
            Inline::HardBreak => if plain {
                sbytes(" ")
            } else {
                sbytes("<br />\n")
            },
            Inline::Bold(sp) => if plain {
                sub_html(p, sp, k, plain)
            } else {
                sbytes("<strong>") + sub_html(p, sp, k, plain) + sbytes("</strong>")
            },
            Inline::Italic(sp) => if plain {
                sub_html(p, sp, k, plain)
            } else {
                sbytes("<em>") + sub_html(p, sp, k, plain) + sbytes("</em>")
            },
            Inline::Link { text, url, title } => if plain {
                sub_html(p, text, k, plain)
            } else {
                sbytes("<a href=\"") + href_bytes(sbytes(url), true) + sbytes("\"") + title_attr(title) + sbytes(">")
                    + sub_html(p, text, k, plain) + sbytes("</a>")
            },
            Inline::Image { alt, url, title } => if plain {
                sub_html(p, alt, k, true)
            } else {
                sbytes("<img src=\"") + href_bytes(sbytes(url), true) + sbytes("\" alt=\"") + sub_html(p, alt, k, true)
                    + sbytes("\"") + title_attr(title) + sbytes(" />")
            },
        }
    }
}

/// Index of the first character at or after `i` that is not white space.
pub open spec fn skip_white(cs: Seq<char>, i: int) -> int
    decreases cs.len() - i,
{
    if 0 <= i < cs.len() && is_white(cs[i]) {
        skip_white(cs, i + 1)
    } else {
        i
    }
}

/// Index of the first white-space character at or after `i`.
pub open spec fn word_end(cs: Seq<char>, i: int) -> int
    decreases cs.len() - i,
{
    if 0 <= i < cs.len() && !is_white(cs[i]) {
        word_end(cs, i + 1)
    } else {
        i
    }
}

/// The first white-space separated word (what `split_whitespace().next()`
/// gives).
pub open spec fn first_word(cs: Seq<char>) -> Seq<char> {
    cs.subrange(skip_white(cs, 0), word_end(cs, skip_white(cs, 0)))
}

/// The `class` attribute naming a code block's language.
pub open spec fn lang_attr(l: Option<&str>) -> Seq<u8> {
    match l {
        Some(x) => if first_word(x@).len() > 0 {
            sbytes(" class=\"language-") + esc_bytes(encode_utf8(first_word(x@))) + sbytes("\"")
        } else {
            Seq::empty()
        },
        None => Seq::empty(),
    }
}

/// The newline a code block's content gets when it does not end with one.
pub open spec fn code_tail(b: Seq<u8>) -> Seq<u8> {
    if b.len() > 0 && b.last() != 10u8 {
        seq![10u8]
    } else {
        Seq::empty()
    }
}

/// A pool line: its synthetic pad, its text (escaped when `escape`) and a
/// newline.
pub open spec fn line_html(l: PoolLine, escape: bool) -> Seq<u8> {
    spaces(l.pad as nat) + (if escape { esc_bytes(sbytes(l.text)) } else { sbytes(l.text) }) + seq![10u8]
}

/// The pool lines `l[lo..hi]`.
pub open spec fn lines_html(l: Seq<PoolLine>, lo: int, hi: int, escape: bool) -> Seq<u8>
    decreases hi - lo,
{
    if lo < 0 || hi > l.len() || lo >= hi {
        Seq::empty()
    } else {
        lines_html(l, lo, hi - 1, escape) + line_html(l[hi - 1], escape)
    }
}

/// Index of the line feed ending the line that starts at `i` (or the end).
pub open spec fn line_end(b: Seq<u8>, i: int) -> int
    decreases b.len() - i,
{
    if 0 <= i < b.len() && b[i] != 10u8 {
        line_end(b, i + 1)
    } else {
        i
    }
}

/// Number of bytes of up to four columns of indentation at the start of
/// `b[i..]`, `col` columns being already consumed.
pub open spec fn strip_len(b: Seq<u8>, i: int, col: int) -> int
    decreases b.len() - i,
{
    if 0 <= i < b.len() && col < 4 && (b[i] == 32u8 || b[i] == 9u8) {
        strip_len(b, i + 1, if b[i] == 32u8 { col + 1 } else { col + 4 - col % 4 })
    } else {
        i
    }
}

pub proof fn lemma_line_end(b: Seq<u8>, i: int)
    requires
        0 <= i <= b.len(),
    ensures
        i <= line_end(b, i) <= b.len(),
    decreases b.len() - i,
{
    if i < b.len() && b[i] != 10u8 {
        lemma_line_end(b, i + 1);
    }
}

/// The lines of an indented code block from byte `i`, each stripped of up to
/// four columns of indentation, escaped and joined with newlines.
pub open spec fn indented_html(b: Seq<u8>, i: int) -> Seq<u8>
    decreases b.len() - i,
{
    if i < 0 || i > b.len() {
        Seq::empty()
    } else {
        let e = line_end(b, i);
        let line = b.subrange(i, e);
        let body = esc_bytes(line.subrange(strip_len(line, 0, 0), line.len() as int));
        if e < b.len() {
            proof {
                lemma_line_end(b, i);
            }
            body + seq![10u8] + indented_html(b, e + 1)
        } else {
            body
        }
    }
}

/// The child sections of a range, or nothing if it leaves the pool.
pub open spec fn forest_of(q: Seq<Section>, r: SectionRange) -> Seq<Section> {
    if r.start + r.len <= q.len() {
        q.subrange(r.start as int, r.start + r.len)
    } else {
        Seq::empty()
    }
}

/// The output `acc` followed by the section `s` as HTML. `tight` marks the
/// children of an item of a tight list, whose paragraphs lose their tags;
/// `fuel` bounds the nesting of containers.
pub open spec fn block_html(
    p: Seq<Inline>,
    q: Seq<Section>,
    l: Seq<PoolLine>,
    acc: Seq<u8>,
    s: Section,
    tight: bool,
    fuel: nat,
) -> Seq<u8>
    decreases fuel, 0int,
{
    match s {
        Section::Heading { level, content } => cr(acc) + sbytes("<h") + dec_bytes(level as nat) + sbytes(">")
            + inls_html(p, content.start as int, content.start + content.len, false) + sbytes("</h")
            + dec_bytes(level as nat) + sbytes(">\n"),
        Section::Paragraph { content } => if tight {
            acc + inls_html(p, content.start as int, content.start + content.len, false)
        } else {
            cr(acc) + sbytes("<p>") + inls_html(p, content.start as int, content.start + content.len, false)
                + sbytes("</p>\n")
        },
        Section::CodeBlock { language, code } => cr(acc) + sbytes("<pre><code") + lang_attr(language)
            + sbytes(">") + esc_bytes(sbytes(code)) + code_tail(sbytes(code)) + sbytes("</code></pre>\n"),
        Section::CodeLines { language, lines } => cr(acc) + sbytes("<pre><code") + lang_attr(language)
            + sbytes(">") + lines_html(l, lines.start as int, lines.start + lines.len, true)
            + sbytes("</code></pre>\n"),
        Section::IndentedCode { code } => cr(acc) + sbytes("<pre><code>") + indented_html(sbytes(code), 0)
            + sbytes("\n</code></pre>\n"),
        Section::UnorderedList { tight: t, items } => if fuel == 0 {
            acc
        } else {
            cr(kids_html(p, q, l, cr(acc) + sbytes("<ul>\n"), forest_of(q, items), 0, t, (fuel - 1) as nat))
                + sbytes("</ul>\n")
        },
        Section::OrderedList { start, tight: t, items, .. } => if fuel == 0 {
            acc
        } else {
            cr(
                kids_html(
                    p,
                    q,
                    l,
                    cr(acc) + (if start == 1 {
                        sbytes("<ol>\n")
                    } else {
                        sbytes("<ol start=\"") + dec_bytes(start as nat) + sbytes("\">\n")
                    }),
                    forest_of(q, items),
                    0,
                    t,
                    (fuel - 1) as nat,
                ),
            ) + sbytes("</ol>\n")
        },
        Section::ListItem { children } => if fuel == 0 {
            acc
        } else {
            kids_html(p, q, l, cr(acc) + sbytes("<li>"), forest_of(q, children), 0, tight, (fuel - 1) as nat)
                + sbytes("</li>\n")
        },
        Section::Blockquote { children } => if fuel == 0 {
            acc
        } else {
            cr(kids_html(p, q, l, cr(acc) + sbytes("<blockquote>\n"), forest_of(q, children), 0, false, (fuel - 1) as nat))
                + sbytes("</blockquote>\n")
        },
        Section::HtmlBlock { html } => cr(cr(acc) + sbytes(html)),
        Section::HtmlLines { lines } => cr(cr(acc) + lines_html(l, lines.start as int, lines.start + lines.len, false)),
        Section::HorizontalRule => cr(acc) + sbytes("<hr />\n"),
    }
}

/// The output `acc` followed by the direct children of a pre-order forest
/// from `cursor` on, each child's subtree being skipped after it.
pub open spec fn kids_html(
    p: Seq<Inline>,
    q: Seq<Section>,
    l: Seq<PoolLine>,
    acc: Seq<u8>,
    forest: Seq<Section>,
    cursor: int,
    tight: bool,
    fuel: nat,
) -> Seq<u8>
    decreases fuel, forest.len() - cursor + 1,
{
    if cursor < 0 || cursor >= forest.len() {
        acc
    } else {
        let a = block_html(p, q, l, acc, forest[cursor], tight, fuel);
        let next = cursor + spec_pool_span(forest[cursor]);
        if next < forest.len() {
            kids_html(p, q, l, a, forest, next, tight, fuel)
        } else {
            a
        }
    }
}

/// The output `acc` followed by the top-level sections from `i` on.
pub open spec fn tops_html(
    p: Seq<Inline>,
    q: Seq<Section>,
    l: Seq<PoolLine>,
    acc: Seq<u8>,
    secs: Seq<Section>,
    i: int,
    fuel: nat,
) -> Seq<u8>
    decreases secs.len() - i,
{
    if i < 0 || i >= secs.len() {
        acc
    } else {
        tops_html(p, q, l, block_html(p, q, l, acc, secs[i], false, fuel), secs, i + 1, fuel)
    }
}

/// The nesting bound used to render a document whose section pool holds `n`
/// sections: every container level occupies at least one pool slot.
pub open spec fn render_fuel(n: nat) -> nat {
    if n < usize::MAX {
        n + 1
    } else {
        n
    }
}

/// The HTML of a document.
pub open spec fn doc_html(secs: Seq<Section>, p: Seq<Inline>, q: Seq<Section>, l: Seq<PoolLine>) -> Seq<u8> {
    tops_html(p, q, l, Seq::empty(), secs, 0, render_fuel(q.len()))
}

/// The child range of a container section.
pub open spec fn kid_range(s: Section) -> Option<SectionRange> {
    match s {
        Section::UnorderedList { items, .. } => Some(items),
        Section::OrderedList { items, .. } => Some(items),
        Section::ListItem { children } => Some(children),
        Section::Blockquote { children } => Some(children),
        _ => None,
    }
}

/// `fuel` covers every nesting level below `s`, whose descendants lie in the
/// pre-order pool `q` after the start of its child range.
pub open spec fn fuel_covers(q: Seq<Section>, s: Section, fuel: nat) -> bool {
    kid_range(s) matches Some(r) ==> {
        &&& r.start + r.len <= q.len()
        &&& fuel >= q.len() - r.start + 1
    }
}

/// A pre-order pool whose every child range lies inside it.
pub open spec fn pool_ranges_ok(q: Seq<Section>) -> bool {
    &&& crate::doc::pool_preorder(q)
    &&& forall|i: int| 0 <= i < q.len() ==> ((#[trigger] kid_range(q[i])) matches Some(r) ==> r.start + r.len <= q.len())
}

/// A section renders the same under any nesting bound that covers it.
proof fn lemma_block_fuel(
    p: Seq<Inline>,
    q: Seq<Section>,
    l: Seq<PoolLine>,
    acc: Seq<u8>,
    s: Section,
    tight: bool,
    f1: nat,
    f2: nat,
)
    requires
        pool_ranges_ok(q),
        fuel_covers(q, s, f1),
        fuel_covers(q, s, f2),
    ensures
        block_html(p, q, l, acc, s, tight, f1) == block_html(p, q, l, acc, s, tight, f2),
    decreases f1, 0int,
{
    if let Some(r) = kid_range(s) {
        let forest = forest_of(q, r);
        assert(forest == q.subrange(r.start as int, r.start + r.len));
        let t = match s {
            Section::UnorderedList { tight: t, .. } => t,
            Section::OrderedList { tight: t, .. } => t,
            Section::ListItem { .. } => tight,
            _ => false,
        };
        let a = match s {
            Section::UnorderedList { .. } => cr(acc) + sbytes("<ul>\n"),
            Section::OrderedList { start, .. } => cr(acc) + (if start == 1 {
                sbytes("<ol>\n")
            } else {
                sbytes("<ol start=\"") + dec_bytes(start as nat) + sbytes("\">\n")
            }),
            Section::ListItem { .. } => cr(acc) + sbytes("<li>"),
            _ => cr(acc) + sbytes("<blockquote>\n"),
        };
        lemma_kids_fuel(p, q, l, a, forest, 0, t, (f1 - 1) as nat, (f2 - 1) as nat, r.start as int);
    }
}

/// The children of a pool range render the same under any nesting bound that
/// covers the range.
proof fn lemma_kids_fuel(
    p: Seq<Inline>,
    q: Seq<Section>,
    l: Seq<PoolLine>,
    acc: Seq<u8>,
    forest: Seq<Section>,
    cursor: int,
    tight: bool,
    f1: nat,
    f2: nat,
    base: int,
)
    requires
        pool_ranges_ok(q),
        0 <= base,
        base + forest.len() <= q.len(),
        forest == q.subrange(base, base + forest.len()),
        f1 >= q.len() - base,
        f2 >= q.len() - base,
    ensures
        kids_html(p, q, l, acc, forest, cursor, tight, f1) == kids_html(p, q, l, acc, forest, cursor, tight, f2),
    decreases f1, forest.len() - cursor + 1,
{
    if 0 <= cursor < forest.len() {
        let j = base + cursor;
        let s = forest[cursor];
        assert(s == q[j]);
        assert(crate::doc::children_follow(q[j], j));
        assert(fuel_covers(q, s, f1) && fuel_covers(q, s, f2)) by {
            if let Some(r) = kid_range(s) {
                assert(kid_range(q[j]) == Some(r));
            }
        }
        lemma_block_fuel(p, q, l, acc, s, tight, f1, f2);
        let a = block_html(p, q, l, acc, s, tight, f1);
        let next = cursor + spec_pool_span(s);
        if next < forest.len() {
            assert(spec_pool_span(s) >= 1);
            lemma_kids_fuel(p, q, l, a, forest, next, tight, f1, f2, base);
        }
    }
}

/// Top-level sections render the same under any nesting bound that covers
/// them all.
proof fn lemma_tops_fuel(
    p: Seq<Inline>,
    q: Seq<Section>,
    l: Seq<PoolLine>,
    acc: Seq<u8>,
    secs: Seq<Section>,
    i: int,
    f1: nat,
    f2: nat,
)
    requires
        pool_ranges_ok(q),
        forall|k: int| 0 <= k < secs.len() ==> fuel_covers(q, #[trigger] secs[k], f1) && fuel_covers(q, secs[k], f2),
    ensures
        tops_html(p, q, l, acc, secs, i, f1) == tops_html(p, q, l, acc, secs, i, f2),
    decreases secs.len() - i,
{
    if 0 <= i < secs.len() {
        lemma_block_fuel(p, q, l, acc, secs[i], false, f1, f2);
        lemma_tops_fuel(p, q, l, block_html(p, q, l, acc, secs[i], false, f1), secs, i + 1, f1, f2);
    }
}

/// A document whose sections' child ranges lie in its pre-order pool renders
/// the same under every nesting bound from `render_fuel` on.
pub proof fn lemma_doc_fuel(secs: Seq<Section>, p: Seq<Inline>, q: Seq<Section>, l: Seq<PoolLine>, f: nat)
    requires
        pool_ranges_ok(q),
        forall|k: int| 0 <= k < secs.len() ==> ((#[trigger] kid_range(secs[k])) matches Some(r) ==> r.start + r.len <= q.len()),
        q.len() < usize::MAX,
        f >= render_fuel(q.len()),
    ensures
        tops_html(p, q, l, Seq::empty(), secs, 0, f) == doc_html(secs, p, q, l),
{
    assert forall|k: int| 0 <= k < secs.len() implies fuel_covers(q, #[trigger] secs[k], f) && fuel_covers(
        q,
        secs[k],
        render_fuel(q.len()),
    ) by {
        if let Some(r) = kid_range(secs[k]) {
            assert(kid_range(secs[k]) == Some(r));
        }
    }
    lemma_tops_fuel(p, q, l, Seq::empty(), secs, 0, f, render_fuel(q.len()));
}

// ---------------------------------------------------------------------------
// Rendering
// ---------------------------------------------------------------------------

/// An ASCII value encodes as the single byte it is.
proof fn lemma_encode_ascii(v: u32)
    requires
        v < 128,
    ensures
        encode_scalar(v) == seq![v as u8],
{
    assert((v & 0x7Fu32) as u8 == v as u8) by (bit_vector)
        requires
            v < 128u32,
    ;
}

/// Append one ASCII byte.
fn put_ascii(out: &mut String, b: u8)
    requires
        b < 128,
    ensures
        written(final(out)) == written(old(out)).push(b),
{
    let c = b as char;
    put_char(out, c);
    proof {
        lemma_encode_ascii(c as u32);
        assert(seq![(c as u32) as u8] == seq![b]);
    }
}

/// Append the content of a code span, escaped, as `code_text` says.
fn put_code(out: &mut String, c: &str)
    ensures
        written(final(out)) == written(old(out)) + esc_bytes(code_text(sbytes(c))),
{
    let b = c.as_bytes();
    let n = b.len();
    let ghost all = b@;
    let ghost m = all.map_values(|x: u8| nl_to_space(x));
    let ghost w0 = written(out);
    proof {
        encode_utf8_valid_utf8(c@);
    }
    let mut all_space = true;
    let mut j: usize = 0;
    while j < n
        invariant
            j <= n,
            n == all.len(),
            b@ == all,
            m == all.map_values(|x: u8| nl_to_space(x)),
            all_space == forall|t: int| 0 <= t < j ==> #[trigger] m[t] == 32u8,
        decreases n - j,
    {
        assert(m[j as int] == nl_to_space(all[j as int]));
        if b[j] != 32u8 && b[j] != 10u8 {
            all_space = false;
        }
        j = j + 1;
    }
    let strip = n > 0 && (b[0] == 32u8 || b[0] == 10u8) && (b[n - 1] == 32u8 || b[n - 1] == 10u8) && !all_space;
    let lo: usize = if strip {
        1
    } else {
        0
    };
    let hi: usize = if strip {
        n - 1
    } else {
        n
    };
    proof {
        if strip {
            let t = choose|t: int| 0 <= t < n && m[t] != 32u8;
            assert(m[t] != 32u8);
            assert(m.subrange(1, m.len() - 1) == m.subrange(lo as int, hi as int));
            assert(code_text(all) == m.subrange(lo as int, hi as int));
            is_char_boundary_start_end_of_seq(all);
            lemma_boundary_after_ascii(all, 0);
            lemma_ascii_boundary(c, n - 1);
        } else {
            if n > 0 && m[0] == 32u8 && m.last() == 32u8 {
                assert(forall|t: int| 0 <= t < m.len() ==> m[t] == 32u8);
            }
            assert(code_text(all) == m);
            assert(m.subrange(0, n as int) == m);
            is_char_boundary_start_end_of_seq(all);
        }
        assert(m.subrange(lo as int, lo as int) == Seq::<u8>::empty());
    }
    let mut k = lo;
    while k < hi
        invariant
            lo <= k <= hi <= n,
            n == all.len(),
            b@ == all,
            all == sbytes(c),
            valid_utf8(all),
            m == all.map_values(|x: u8| nl_to_space(x)),
            is_char_boundary(all, k as int),
            is_char_boundary(all, hi as int),
            written(out) == w0 + esc_bytes(m.subrange(lo as int, k as int)),
        decreases hi - k,
    {
        let mut e = k;
        while e < hi && b[e] != 10u8
            invariant
                k <= e <= hi,
                hi <= n,
                n == all.len(),
                b@ == all,
                forall|t: int| k <= t < e ==> all[t] != 10u8,
            decreases hi - e,
        {
            e = e + 1;
        }
        proof {
            if e < hi {
                lemma_ascii_boundary(c, e as int);
            }
        }
        let seg = str_get(c, k, e).unwrap();
        let ghost before = written(out);
        put_text(out, seg, false);
        proof {
            assert(m.subrange(k as int, e as int) == sbytes(seg)) by {
                assert forall|t: int| 0 <= t < e - k implies #[trigger] m.subrange(k as int, e as int)[t] == sbytes(seg)[t] by {
                    assert(all[k + t] != 10u8);
                }
            }
            assert(m.subrange(lo as int, e as int) == m.subrange(lo as int, k as int) + m.subrange(k as int, e as int));
            lemma_esc_append(m.subrange(lo as int, k as int), m.subrange(k as int, e as int));
        }
        if e < hi {
            put_ascii(out, 32u8);
            proof {
                assert(m[e as int] == 32u8);
                assert(m.subrange(lo as int, e + 1) == m.subrange(lo as int, e as int) + seq![32u8]);
                lemma_esc_append(m.subrange(lo as int, e as int), seq![32u8]);
                assert(seq![32u8].drop_first() == Seq::<u8>::empty());
                assert(esc_bytes(Seq::<u8>::empty()) == Seq::<u8>::empty());
                assert(esc_byte(32u8) == seq![32u8]);
                assert(esc_bytes(seq![32u8]) == esc_byte(32u8) + esc_bytes(Seq::<u8>::empty()));
                assert(esc_bytes(seq![32u8]) == seq![32u8]);
                lemma_boundary_after_ascii(all, e as int);
            }
            k = e + 1;
        } else {
            k = e;
        }
    }
}

/// Append a line break unless the output is empty or ends with one.
fn put_cr(out: &mut String)
    ensures
        written(final(out)) == cr(written(old(out))),
{
    let bytes = out.as_str().as_bytes();
    let n = bytes.len();
    if n > 0 && bytes[n - 1] != 10u8 {
        put_ascii(out, 10u8);
    }
}

/// Append the decimal digits of `n`.
fn put_decimal(out: &mut String, n: u32)
    ensures
        written(final(out)) == written(old(out)) + dec_bytes(n as nat),
    decreases n,
{
    let ghost w = written(out);
    if n >= 10 {
        put_decimal(out, n / 10);
    }
    let d = (n % 10) as u8;
    put_ascii(out, 48u8 + d);
    proof {
        if n < 10 {
            assert(written(out) == w + seq![(48 + n) as u8]);
        } else {
            assert(written(out) == w + dec_bytes((n / 10) as nat) + seq![(48 + n % 10) as u8]);
        }
    }
}

/// Append `k` spaces.
fn put_spaces(out: &mut String, k: u8)
    ensures
        written(final(out)) == written(old(out)) + spaces(k as nat),
{
    let ghost w = written(out);
    let mut i: u8 = 0;
    while i < k
        invariant
            i <= k,
            written(out) == w + spaces(i as nat),
        decreases k - i,
    {
        put_ascii(out, 32u8);
        proof {
            assert(spaces((i + 1) as nat) == spaces(i as nat).push(32u8));
        }
        i = i + 1;
    }
}

/// The line that starts at `i` ends at the first line feed after it.
proof fn lemma_line_end_found(b: Seq<u8>, i: int, e: int)
    requires
        0 <= i <= e <= b.len(),
        forall|t: int| i <= t < e ==> #[trigger] b[t] != 10u8,
        e == b.len() || b[e] == 10u8,
    ensures
        line_end(b, i) == e,
    decreases e - i,
{
    if i < e {
        lemma_line_end_found(b, i + 1, e);
    }
}

/// Append the lines of an indented code block, each stripped of up to four
/// columns of indentation and escaped, joined with newlines.
fn put_indented(out: &mut String, code: &str)
    ensures
        written(final(out)) == written(old(out)) + indented_html(sbytes(code), 0),
{
    let b = code.as_bytes();
    let n = b.len();
    let ghost all = b@;
    let ghost w0 = written(out);
    let mut i: usize = 0;
    let mut done = false;
    proof {
        encode_utf8_valid_utf8(code@);
    }
    while !done
        invariant
            b@ == all,
            all == sbytes(code),
            n == all.len(),
            valid_utf8(all),
            i <= n,
            is_char_boundary(all, i as int),
            !done ==> w0 + indented_html(all, 0) == written(out) + indented_html(all, i as int),
            done ==> written(out) == w0 + indented_html(all, 0),
        decreases n - i + (if done { 0int } else { 1int }),
    {
        let e = match b.find_byte(i, 10u8) {
            Some(e) => e,
            None => n,
        };
        proof {
            lemma_line_end_found(all, i as int, e as int);
        }
        let ghost line = all.subrange(i as int, e as int);
        let mut j = i;
        let mut col: usize = 0;
        while j < e && col < 4 && (b[j] == 32u8 || b[j] == 9u8)
            invariant
                b@ == all,
                i <= j <= e,
                e <= n,
                n == all.len(),
                col < 8,
                valid_utf8(all),
                is_char_boundary(all, j as int),
                line == all.subrange(i as int, e as int),
                strip_len(line, 0, 0) == strip_len(line, j - i, col as int),
            decreases e - j,
        {
            proof {
                assert(line[j - i] == b[j as int]);
                lemma_boundary_after_ascii(all, j as int);
            }
            col = if b[j] == 32u8 { col + 1 } else { col + 4 - col % 4 };
            j = j + 1;
        }
        proof {
            if j < e {
                assert(line[j - i] == all[j as int]);
            }
            assert(strip_len(line, j - i, col as int) == j - i);
            if e < n {
                lemma_ascii_boundary(code, e as int);
            } else {
                is_char_boundary_start_end_of_seq(all);
            }
        }
        let piece = str_get(code, j, e).unwrap();
        proof {
            assert(sbytes(piece) == line.subrange(j - i, line.len() as int));
        }
        let ghost before = written(out);
        put_text(out, piece, false);
        if e < n {
            put_ascii(out, 10u8);
            proof {
                lemma_ascii_boundary(code, e as int);
                lemma_boundary_after_ascii(all, e as int);
                assert(indented_html(all, i as int) == esc_bytes(sbytes(piece)) + seq![10u8] + indented_html(all, e + 1));
                assert(written(out) == before + esc_bytes(sbytes(piece)) + seq![10u8]);
            }
            i = e + 1;
        } else {
            proof {
                assert(indented_html(all, i as int) == esc_bytes(sbytes(piece)));
            }
            done = true;
        }
    }
}

/// Append the `class` attribute naming a code block's language.
fn put_lang(out: &mut String, language: Option<&str>)
    ensures
        written(final(out)) == written(old(out)) + lang_attr(language),
{
    if let Some(x) = language {
        let n = x.unicode_len();
        let mut a: usize = 0;
        while a < n && char_is_white(x.get_char(a))
            invariant
                a <= n,
                n == x@.len(),
                skip_white(x@, 0) == skip_white(x@, a as int),
            decreases n - a,
        {
            a = a + 1;
        }
        let mut e = a;
        while e < n && !char_is_white(x.get_char(e))
            invariant
                a <= e <= n,
                n == x@.len(),
                skip_white(x@, 0) == a,
                word_end(x@, a as int) == word_end(x@, e as int),
            decreases n - e,
        {
            e = e + 1;
        }
        proof {
            assert(first_word(x@) == x@.subrange(a as int, e as int));
        }
        if e > a {
            let w = x.substring_char(a, e);
            put(out, " class=\"language-");
            put_text(out, w, false);
            put(out, "\"");
        }
    }
}

/// Borrowed views of a document's pools: inline elements, child sections and
/// code/HTML lines.
pub struct Pools<'a, 'src> {
    pub inl: &'a [Inline<'src>],
    pub sec: &'a [Section<'src>],
    pub lin: &'a [PoolLine<'src>],
}

impl<'a, 'src> Pools<'a, 'src> {
    /// Append the inline elements `lo..hi`.
    fn render_inls(&self, out: &mut String, lo: usize, hi: usize, plain: bool)
        requires
            lo <= hi <= self.inl@.len(),
        ensures
            written(final(out)) == written(old(out)) + inls_html(self.inl@, lo as int, hi as int, plain),
        decreases hi, 1int,
    {
        let ghost w0 = written(out);
        let mut k = lo;
        while k < hi
            invariant
                lo <= k <= hi,
                hi <= self.inl@.len(),
                written(out) == w0 + inls_html(self.inl@, lo as int, k as int, plain),
            decreases hi - k,
        {
            self.render_inl(out, k, plain);
            k = k + 1;
        }
    }

    /// Append the children of the inline element at `k`.
    fn render_sub(&self, out: &mut String, sp: InlineSpan, k: usize, plain: bool)
        requires
            k < self.inl@.len(),
        ensures
            written(final(out)) == written(old(out)) + sub_html(self.inl@, sp, k as int, plain),
        decreases k, 2int,
    {
        let end: u64 = (sp.start as u64) + (sp.len as u64);
        if end <= k as u64 {
            self.render_inls(out, sp.start as usize, end as usize, plain);
        }
    }

    /// Append the inline element at `k`.
    #[verifier::rlimit(40)]
    fn render_inl(&self, out: &mut String, k: usize, plain: bool)
        requires
            k < self.inl@.len(),
        ensures
            written(final(out)) == written(old(out)) + inl_html(self.inl@, k as int, plain),
        decreases k + 1, 0int,
    {
        let ghost w = written(out);
        match self.inl[k] {
            Inline::Text(t) => {
                put_text(out, t, true);
            },
            Inline::Code(c) => {
                if !plain {
                    put(out, "<code>");
                }
                put_code(out, c);
                if !plain {
                    put(out, "</code>");
                }
            },
            Inline::RawHtml(r) => {
                if plain {
                    put_text(out, r, false);
                } else {
                    put(out, r);
                }
            },
            Inline::Autolink { target, is_email } => {
                if plain {
                    put_text(out, target, false);
                } else {
                    put(out, "<a href=\"");
                    let ghost w1 = written(out);
                    if is_email {
                        put(out, "mailto:");
                    }
                    let ghost w2 = written(out);
                    put_url(out, target, false);
                    put(out, "\">");
                    put_text(out, target, false);
                    put(out, "</a>");
                    proof {
                        assert(w2 == w1 + (if is_email { sbytes("mailto:") } else { Seq::<u8>::empty() }));
                    }
                }
            },
            Inline::SoftBreak => {
                if plain {
                    put(out, " ");
                } else {
                    put(out, "\n");
                }
            },
            Inline::HardBreak => {
                if plain {
                    put(out, " ");
                } else {
                    put(out, "<br />\n");
                }
            },
            Inline::Bold(sp) => {
                if !plain {
                    put(out, "<strong>");
                }
                self.render_sub(out, sp, k, plain);
                if !plain {
                    put(out, "</strong>");
                }
            },
            Inline::Italic(sp) => {
                if !plain {
                    put(out, "<em>");
                }
                self.render_sub(out, sp, k, plain);
                if !plain {
                    put(out, "</em>");
                }
            },
            Inline::Link { text, url, title } => {
                if plain {
                    self.render_sub(out, text, k, plain);
                } else {
                    put(out, "<a href=\"");
                    put_url(out, url, true);
                    put(out, "\"");
                    put_title(out, title);
                    put(out, ">");
                    self.render_sub(out, text, k, plain);
                    put(out, "</a>");
                }
            },
            Inline::Image { alt, url, title } => {
                if plain {
                    self.render_sub(out, alt, k, true);
                } else {
                    put(out, "<img src=\"");
                    put_url(out, url, true);
                    put(out, "\" alt=\"");
                    self.render_sub(out, alt, k, true);
                    put(out, "\"");
                    put_title(out, title);
                    put(out, " />");
                }
            },
        }
    }
}

/// A run free of `\` and `&` passes through title rendering escaped byte by
/// byte.
proof fn lemma_title_run(a: Seq<u8>, b: Seq<u8>)
    requires
        forall|i: int| 0 <= i < a.len() ==> a[i] != 92u8 && a[i] != 38u8,
    ensures
        title_text(a + b) == esc_bytes(a) + title_text(b),
    decreases a.len(),
{
    if a.len() > 0 {
        assert((a + b)[0] == a[0]);
        assert((a + b).drop_first() == a.drop_first() + b);
        lemma_title_run(a.drop_first(), b);
    } else {
        assert(a + b == b);
    }
}

/// Percent-encoding runs byte by byte over bytes that start no `%XX`.
proof fn lemma_pct_step(t: Seq<u8>, i: int)
    requires
        0 <= i < t.len(),
        !(t[i] == 37u8 && i + 3 <= t.len() && is_hex_byte(t[i + 1]) && is_hex_byte(t[i + 2])),
    ensures
        pct_encode(t.subrange(i, t.len() as int)) == href_byte(t[i]) + pct_encode(t.subrange(i + 1, t.len() as int)),
{
    let r = t.subrange(i, t.len() as int);
    assert(r[0] == t[i]);
    assert(r.drop_first() == t.subrange(i + 1, t.len() as int));
    if r.len() >= 3 {
        assert(r[1] == t[i + 1]);
        assert(r[2] == t[i + 2]);
    }
}

/// Append the UTF-8 encoding of a Unicode scalar.
fn push_scalar(out: &mut Vec<u8>, v: u32)
    requires
        v <= 0x10FFFF,
        !(0xD800 <= v <= 0xDFFF),
    ensures
        final(out)@ == old(out)@ + encode_scalar(v),
{
    if v <= 0x7F {
        out.push((v & 0x7F) as u8);
    } else if v <= 0x7FF {
        out.push(0xC0 | ((v >> 6) & 0x1F) as u8);
        out.push(0x80 | (v & 0x3F) as u8);
    } else if v <= 0xFFFF {
        out.push(0xE0 | ((v >> 12) & 0x0F) as u8);
        out.push(0x80 | ((v >> 6) & 0x3F) as u8);
        out.push(0x80 | (v & 0x3F) as u8);
    } else {
        out.push(0xF0 | ((v >> 18) & 0x7) as u8);
        out.push(0x80 | ((v >> 12) & 0x3F) as u8);
        out.push(0x80 | ((v >> 6) & 0x3F) as u8);
        out.push(0x80 | (v & 0x3F) as u8);
    }
}

/// Resolve the backslash escapes and numeric references of a link
/// destination.
fn unescape_bytes(s: &str) -> (r: Vec<u8>)
    ensures
        r@ == unesc(sbytes(s)),
{
    let b = s.as_bytes();
    let n = b.len();
    let ghost all = b@;
    let mut r: Vec<u8> = Vec::new();
    let mut i: usize = 0;
    proof {
        assert(all.subrange(0, n as int) == all);
    }
    while i < n
        invariant
            i <= n,
            n == all.len(),
            b@ == all,
            all == sbytes(s),
            unesc(all) == r@ + unesc(all.subrange(i as int, n as int)),
        decreases n - i,
    {
        let ghost rest = all.subrange(i as int, n as int);
        let c = b[i];
        if c == 92u8 && i + 1 < n && crate::text::ascii_punct(b[i + 1]) {
            proof {
                assert(rest[0] == 92u8 && rest[1] == all[i + 1]);
                assert(rest.subrange(2, rest.len() as int) == all.subrange(i + 2, n as int));
            }
            r.push(b[i + 1]);
            i = i + 2;
        } else {
            let nr = if c == 38u8 {
                numeric_ref_at(b, i)
            } else {
                None
            };
            proof {
                assert(rest[0] == c);
                if c != 38u8 {
                    assert(numeric_ref(rest) is None);
                }
            }
            match nr {
                Some((v, k)) => {
                    proof {
                        lemma_ref_scalar(digits_value(rest, if rest[2] == 120u8 || rest[2] == 88u8 { 3int } else { 2int },
                            digit_run(rest, if rest[2] == 120u8 || rest[2] == 88u8 { 3int } else { 2int }, rest[2] == 120u8 || rest[2] == 88u8),
                            rest[2] == 120u8 || rest[2] == 88u8));
                        assert(rest.subrange(k as int, rest.len() as int) == all.subrange(i + k, n as int));
                    }
                    push_scalar(&mut r, v);
                    i = i + k;
                },
                None => {
                    proof {
                        assert(rest.drop_first() == all.subrange(i + 1, n as int));
                    }
                    r.push(c);
                    i = i + 1;
                },
            }
        }
    }
    proof {
        assert(all.subrange(n as int, n as int) == Seq::<u8>::empty());
    }
    r
}

/// Whether a byte is an ASCII hexadecimal digit.
fn hex_digit(x: u8) -> (r: bool)
    ensures
        r == is_hex_byte(x),
{
    (48u8 <= x && x <= 57u8) || (65u8 <= x && x <= 70u8) || (97u8 <= x && x <= 102u8)
}

/// Append one byte of a URL as `href_byte` says.
fn put_href_byte(out: &mut String, b: u8)
    ensures
        written(final(out)) == written(old(out)) + href_byte(b),
{
    if b == 38u8 {
        put(out, "&amp;");
    } else if (48u8 <= b && b <= 57u8) || (65u8 <= b && b <= 90u8) || (97u8 <= b && b <= 122u8) || b == 59u8
        || b == 47u8 || b == 63u8 || b == 58u8 || b == 64u8 || b == 61u8 || b == 43u8 || b == 36u8 || b == 44u8
        || b == 45u8 || b == 95u8 || b == 46u8 || b == 33u8 || b == 126u8 || b == 42u8 || b == 39u8 || b == 40u8
        || b == 41u8 || b == 35u8 {
        put_ascii(out, b);
    } else {
        let hi = b / 16;
        let lo = b % 16;
        put_ascii(out, 37u8);
        put_ascii(out, if hi < 10 { 48 + hi } else { 55 + hi });
        put_ascii(out, if lo < 10 { 48 + lo } else { 55 + lo });
    }
}

/// Append bytes percent-encoded as `pct_encode` says.
fn put_pct(out: &mut String, t: &[u8])
    ensures
        written(final(out)) == written(old(out)) + pct_encode(t@),
{
    let n = t.len();
    let ghost all = t@;
    let ghost w0 = written(out);
    let mut i: usize = 0;
    proof {
        assert(all.subrange(0, n as int) == all);
    }
    while i < n
        invariant
            i <= n,
            n == all.len(),
            t@ == all,
            w0 + pct_encode(all) == written(out) + pct_encode(all.subrange(i as int, n as int)),
        decreases n - i,
    {
        let c = t[i];
        if c == 37u8 && n - i > 2 && hex_digit(t[i + 1]) && hex_digit(t[i + 2]) {
            let ghost rest = all.subrange(i as int, n as int);
            let ghost w = written(out);
            put_ascii(out, 37u8);
            put_ascii(out, t[i + 1]);
            put_ascii(out, t[i + 2]);
            proof {
                assert(rest[0] == 37u8 && rest[1] == all[i + 1] && rest[2] == all[i + 2]);
                assert(rest.subrange(0, 3) == seq![37u8, all[i + 1], all[i + 2]]);
                assert(rest.subrange(3, rest.len() as int) == all.subrange(i + 3, n as int));
                assert(written(out) == w + seq![37u8, all[i + 1], all[i + 2]]);
            }
            i = i + 3;
        } else {
            proof {
                lemma_pct_step(all, i as int);
            }
            put_href_byte(out, c);
            i = i + 1;
        }
    }
    proof {
        assert(all.subrange(n as int, n as int) == Seq::<u8>::empty());
    }
}

/// Append a link destination as `href_bytes` says.
fn put_url(out: &mut String, url: &str, unescape: bool)
    ensures
        written(final(out)) == written(old(out)) + href_bytes(sbytes(url), unescape),
{
    if unescape {
        let u = unescape_bytes(url);
        put_pct(out, u.as_slice());
    } else {
        put_pct(out, url.as_bytes());
    }
}

/// Render the `\` that escapes nothing, or the `&`, at `j` of a title.
fn put_title_special(out: &mut String, t: &str, j: usize) -> (next: usize)
    requires
        j < sbytes(t).len(),
        sbytes(t)[j as int] == 92u8 || sbytes(t)[j as int] == 38u8,
        sbytes(t)[j as int] == 92u8 ==> !(j + 1 < sbytes(t).len() && crate::text::is_punct(sbytes(t)[j + 1])),
    ensures
        j < next <= sbytes(t).len(),
        is_char_boundary(sbytes(t), next as int),
        written(old(out)) + title_text(sbytes(t).subrange(j as int, sbytes(t).len() as int))
            == written(final(out)) + title_text(sbytes(t).subrange(next as int, sbytes(t).len() as int)),
{
    let b = t.as_bytes();
    let n = b.len();
    let ghost all = b@;
    let ghost rest = all.subrange(j as int, n as int);
    proof {
        encode_utf8_valid_utf8(t@);
        lemma_ascii_boundary(t, j as int);
        assert(rest[0] == all[j as int]);
    }
    if b[j] == 92u8 {
        put_ascii(out, 92u8);
        proof {
            assert(numeric_ref(rest) is None);
            assert(esc_byte(92u8) == seq![92u8]);
            assert(rest.drop_first() == all.subrange(j + 1, n as int));
            if j + 1 < n {
                assert(rest[1] == all[j + 1]);
            }
            assert(title_text(rest) == esc_byte(92u8) + title_text(rest.drop_first()));
            lemma_boundary_after_ascii(all, j as int);
        }
        j + 1
    } else {
        let next = put_special(out, t, j, true);
        proof {
            match numeric_ref(rest) {
                Some((v, k)) => {
                    assert(rest.subrange(k, rest.len() as int) == all.subrange(j + k, n as int));
                    assert(title_text(rest) == esc_scalar(v) + title_text(rest.subrange(k, rest.len() as int)));
                },
                None => {
                    assert(rest.drop_first() == all.subrange(j + 1, n as int));
                    assert(title_text(rest) == esc_byte(38u8) + title_text(rest.drop_first()));
                },
            }
        }
        next
    }
}

/// Append a link title as `title_text` says.
fn put_title_text(out: &mut String, t: &str)
    ensures
        written(final(out)) == written(old(out)) + title_text(sbytes(t)),
{
    let b = t.as_bytes();
    let n = b.len();
    let ghost all = b@;
    let ghost w0 = written(out);
    let mut i: usize = 0;
    proof {
        encode_utf8_valid_utf8(t@);
        assert(all.subrange(0, n as int) == all);
        is_char_boundary_start_end_of_seq(all);
    }
    while i < n
        invariant
            i <= n,
            n == all.len(),
            b@ == all,
            all == sbytes(t),
            valid_utf8(all),
            is_char_boundary(all, i as int),
            w0 + title_text(all) == written(out) + title_text(all.subrange(i as int, n as int)),
        decreases n - i,
    {
        let mut j = i;
        while j < n && b[j] != 92u8 && b[j] != 38u8
            invariant
                i <= j <= n,
                n == all.len(),
                b@ == all,
                forall|x: int| i <= x < j ==> all[x] != 92u8 && all[x] != 38u8,
            decreases n - j,
        {
            j = j + 1;
        }
        proof {
            if j < n {
                lemma_ascii_boundary(t, j as int);
            } else {
                is_char_boundary_start_end_of_seq(all);
            }
        }
        let run = str_get(t, i, j).unwrap();
        put_text(out, run, false);
        proof {
            let a = all.subrange(i as int, j as int);
            assert(all.subrange(i as int, n as int) == a + all.subrange(j as int, n as int));
            lemma_title_run(a, all.subrange(j as int, n as int));
        }
        if j >= n {
            i = j;
        } else if b[j] == 92u8 && j + 1 < n && crate::text::ascii_punct(b[j + 1]) {
            let ghost rest = all.subrange(j as int, n as int);
            let p = b[j + 1];
            if p == 38u8 || p == 60u8 || p == 62u8 || p == 34u8 {
                put_entity(out, p);
            } else {
                put_ascii(out, p);
            }
            proof {
                assert(rest[0] == 92u8 && rest[1] == p);
                assert(rest.subrange(2, rest.len() as int) == all.subrange(j + 2, n as int));
                lemma_boundary_after_ascii(all, j as int);
                lemma_boundary_after_ascii(all, j + 1);
            }
            i = j + 2;
        } else {
            i = put_title_special(out, t, j);
        }
    }
    proof {
        assert(all.subrange(n as int, n as int) == Seq::<u8>::empty());
    }
}

/// Append the ` title="..."` attribute of a link or image.
fn put_title(out: &mut String, title: Option<&str>)
    ensures
        written(final(out)) == written(old(out)) + title_attr(title),
{
    if let Some(t) = title {
        put(out, " title=\"");
        put_title_text(out, t);
        put(out, "\"");
    }
}

impl<'a, 'src> Pools<'a, 'src> {
    /// Append the inline content of a span (nothing if it leaves the pool).
    fn render_content(&self, out: &mut String, sp: InlineSpan)
        ensures
            written(final(out)) == written(old(out)) + inls_html(
                self.inl@,
                sp.start as int,
                sp.start + sp.len,
                false,
            ),
    {
        let end: u64 = (sp.start as u64) + (sp.len as u64);
        if end <= self.inl.len() as u64 {
            self.render_inls(out, sp.start as usize, end as usize, false);
        }
    }

    /// Append the pool lines of a range (nothing if it leaves the pool).
    fn render_lines(&self, out: &mut String, r: LineRange, escape: bool)
        ensures
            written(final(out)) == written(old(out)) + lines_html(
                self.lin@,
                r.start as int,
                r.start + r.len,
                escape,
            ),
    {
        let end: u64 = (r.start as u64) + (r.len as u64);
        if end > self.lin.len() as u64 {
            return;
        }
        let lo = r.start as usize;
        let hi = end as usize;
        let ghost w0 = written(out);
        let mut k = lo;
        while k < hi
            invariant
                lo <= k <= hi,
                hi <= self.lin@.len(),
                written(out) == w0 + lines_html(self.lin@, lo as int, k as int, escape),
            decreases hi - k,
        {
            let line = self.lin[k];
            put_spaces(out, line.pad);
            if escape {
                put_text(out, line.text, false);
            } else {
                put(out, line.text);
            }
            put_ascii(out, 10u8);
            k = k + 1;
        }
    }

    /// The child sections of a range, or none if it leaves the pool.
    fn forest(&self, r: SectionRange) -> (f: &'a [Section<'src>])
        ensures
            f@ == forest_of(self.sec@, r),
    {
        let end: u64 = (r.start as u64) + (r.len as u64);
        if end <= self.sec.len() as u64 {
            vstd::slice::slice_subrange(self.sec, r.start as usize, end as usize)
        } else {
            vstd::slice::slice_subrange(self.sec, 0, 0)
        }
    }

    /// Append a section (and, for a container, its subtree).
    fn render_block(&self, out: &mut String, s: &Section<'src>, tight: bool, fuel: usize)
        ensures
            written(final(out)) == block_html(
                self.inl@,
                self.sec@,
                self.lin@,
                written(old(out)),
                *s,
                tight,
                fuel as nat,
            ),
        decreases fuel, 0int,
    {
        match *s {
            Section::Heading { level, content } => {
                put_cr(out);
                put(out, "<h");
                put_decimal(out, level as u32);
                put(out, ">");
                self.render_content(out, content);
                put(out, "</h");
                put_decimal(out, level as u32);
                put(out, ">\n");
            },
            Section::Paragraph { content } => {
                if tight {
                    self.render_content(out, content);
                } else {
                    put_cr(out);
                    put(out, "<p>");
                    self.render_content(out, content);
                    put(out, "</p>\n");
                }
            },
            Section::CodeBlock { language, code } => {
                put_cr(out);
                put(out, "<pre><code");
                put_lang(out, language);
                put(out, ">");
                put_text(out, code, false);
                let cb = code.as_bytes();
                if cb.len() > 0 && cb[cb.len() - 1] != 10u8 {
                    put_ascii(out, 10u8);
                }
                put(out, "</code></pre>\n");
            },
            Section::CodeLines { language, lines } => {
                put_cr(out);
                put(out, "<pre><code");
                put_lang(out, language);
                put(out, ">");
                self.render_lines(out, lines, true);
                put(out, "</code></pre>\n");
            },
            Section::IndentedCode { code } => {
                put_cr(out);
                put(out, "<pre><code>");
                put_indented(out, code);
                put(out, "\n</code></pre>\n");
            },
            Section::UnorderedList { tight: t, items } => {
                if fuel > 0 {
                    put_cr(out);
                    put(out, "<ul>\n");
                    let f = self.forest(items);
                    self.render_kids(out, f, 0, t, fuel - 1);
                    put_cr(out);
                    put(out, "</ul>\n");
                }
            },
            Section::OrderedList { start, tight: t, items, .. } => {
                if fuel > 0 {
                    put_cr(out);
                    let ghost w1 = written(out);
                    if start == 1 {
                        put(out, "<ol>\n");
                    } else {
                        put(out, "<ol start=\"");
                        put_decimal(out, start);
                        put(out, "\">\n");
                    }
                    proof {
                        assert(written(out) == w1 + (if start == 1 {
                            sbytes("<ol>\n")
                        } else {
                            sbytes("<ol start=\"") + dec_bytes(start as nat) + sbytes("\">\n")
                        }));
                    }
                    let f = self.forest(items);
                    self.render_kids(out, f, 0, t, fuel - 1);
                    put_cr(out);
                    put(out, "</ol>\n");
                }
            },
            Section::ListItem { children } => {
                if fuel > 0 {
                    put_cr(out);
                    put(out, "<li>");
                    let f = self.forest(children);
                    self.render_kids(out, f, 0, tight, fuel - 1);
                    put(out, "</li>\n");
                }
            },
            Section::Blockquote { children } => {
                if fuel > 0 {
                    put_cr(out);
                    put(out, "<blockquote>\n");
                    let f = self.forest(children);
                    self.render_kids(out, f, 0, false, fuel - 1);
                    put_cr(out);
                    put(out, "</blockquote>\n");
                }
            },
            Section::HtmlBlock { html } => {
                put_cr(out);
                put(out, html);
                put_cr(out);
            },
            Section::HtmlLines { lines } => {
                put_cr(out);
                self.render_lines(out, lines, false);
                put_cr(out);
            },
            Section::HorizontalRule => {
                put_cr(out);
                put(out, "<hr />\n");
            },
        }
    }

    /// Append the direct children of a pre-order forest from `cursor` on,
    /// skipping each child's subtree.
    fn render_kids(&self, out: &mut String, forest: &[Section<'src>], cursor: usize, tight: bool, fuel: usize)
        requires
            cursor <= forest@.len(),
        ensures
            written(final(out)) == kids_html(
                self.inl@,
                self.sec@,
                self.lin@,
                written(old(out)),
                forest@,
                cursor as int,
                tight,
                fuel as nat,
            ),
        decreases fuel, forest@.len() - cursor + 1,
    {
        let n = forest.len();
        let ghost goal = kids_html(self.inl@, self.sec@, self.lin@, written(out), forest@, cursor as int, tight, fuel as nat);
        let mut c = cursor;
        while c < n
            invariant
                cursor <= c <= n,
                n == forest@.len(),
                goal == kids_html(self.inl@, self.sec@, self.lin@, written(out), forest@, c as int, tight, fuel as nat),
            decreases n - c,
        {
            let child = &forest[c];
            self.render_block(out, child, tight, fuel);
            let span = child.pool_span();
            if span >= n - c {
                c = n;
            } else {
                c = c + span;
            }
        }
    }
}

/// The HTML of a document given its top-level sections and pools.
pub fn render_document(pools: &Pools, sections: &[Section]) -> (r: String)
    ensures
        written(&r) == doc_html(sections@, pools.inl@, pools.sec@, pools.lin@),
{
    let n = pools.sec.len();
    let fuel = if n < usize::MAX {
        n + 1
    } else {
        n
    };
    let mut out = String::new();
    let ghost goal = doc_html(sections@, pools.inl@, pools.sec@, pools.lin@);
    proof {
        assert(out@ == Seq::<char>::empty());
        assert(written(&out) == Seq::<u8>::empty());
    }
    let mut i: usize = 0;
    while i < sections.len()
        invariant
            i <= sections@.len(),
            fuel == render_fuel(pools.sec@.len()),
            goal == tops_html(pools.inl@, pools.sec@, pools.lin@, written(&out), sections@, i as int, fuel as nat),
        decreases sections@.len() - i,
    {
        pools.render_block(&mut out, &sections[i], false, fuel);
        i = i + 1;
    }
    out
}

/// The bytes a URL may hold as they are: ASCII letters and digits and
/// `;/?:@&=+$,-_.!~*'()#`.
pub open spec fn url_reserved_or_plain(b: u8) -> bool {
    ||| b == 33u8 || b == 35u8 || b == 36u8 || b == 38u8 || b == 39u8
    ||| b == 40u8 || b == 41u8 || b == 42u8 || b == 43u8 || b == 44u8
    ||| b == 45u8 || b == 46u8 || b == 47u8
    ||| (48u8 <= b && b <= 57u8)
    ||| b == 58u8 || b == 59u8 || b == 61u8 || b == 63u8 || b == 64u8
    ||| (65u8 <= b && b <= 90u8)
    ||| b == 95u8
    ||| (97u8 <= b && b <= 122u8)
    ||| b == 126u8
}

/// In an `href`, every URL character is kept as it is (so `+` stays `+`),
/// but for `&`, which becomes `&amp;`.
pub proof fn law_href_keeps_url_chars(b: u8)
    requires
        url_reserved_or_plain(b),
    ensures
        b != 38u8 ==> href_byte(b) == seq![b],
        b == 38u8 ==> href_byte(b) == sbytes("&amp;"),
{
}

/// A destination made only of URL characters other than `&` comes out in
/// the `href` unchanged.
pub proof fn law_href_url_unchanged(t: Seq<u8>)
    requires
        forall|k: int| 0 <= k < t.len() ==> url_reserved_or_plain(#[trigger] t[k]) && t[k] != 38u8,
    ensures
        href_bytes(t, false) == t,
    decreases t.len(),
{
    if t.len() > 0 {
        assert(url_reserved_or_plain(t[0]) && t[0] != 38u8);
        let r = t.drop_first();
        assert forall|k: int| 0 <= k < r.len() implies url_reserved_or_plain(#[trigger] r[k]) && r[k] != 38u8 by {
            assert(r[k] == t[k + 1]);
        }
        law_href_url_unchanged(r);
        assert(href_byte(t[0]) == seq![t[0]]);
        assert(t =~= seq![t[0]] + r);
    }
}

/// In an `href`, any other byte is percent-encoded: `%` and its two hex
/// digits, upper case.
pub proof fn law_href_percent_encodes(b: u8)
    requires
        !url_reserved_or_plain(b),
    ensures
        href_byte(b) == seq![
            37u8,
            (if b / 16 < 10 { 48 + b / 16 } else { 65 + (b / 16 - 10) }) as u8,
            (if b % 16 < 10 { 48 + b % 16 } else { 65 + (b % 16 - 10) }) as u8,
        ],
{
}

/// Text holding none of `&`, `<`, `>` and `"` is written as it is.
pub proof fn law_escape_plain_text(t: Seq<u8>)
    requires
        forall|k: int| 0 <= k < t.len() ==> #[trigger] t[k] != 38u8 && t[k] != 60u8 && t[k] != 62u8 && t[k] != 34u8,
    ensures
        esc_bytes(t) == t,
    decreases t.len(),
{
    if t.len() > 0 {
        let r = t.drop_first();
        assert(t[0] != 38u8 && t[0] != 60u8 && t[0] != 62u8 && t[0] != 34u8);
        assert forall|k: int| 0 <= k < r.len() implies #[trigger] r[k] != 38u8 && r[k] != 60u8 && r[k] != 62u8 && r[k] != 34u8 by {
            assert(r[k] == t[k + 1]);
        }
        law_escape_plain_text(r);
        assert(t =~= seq![t[0]] + r);
    }
}

/// Escaping `&`, `<`, `>` or `"` gives its named entity.
pub proof fn law_escape_specials()
    ensures
        esc_byte(38u8) == sbytes("&amp;"),
        esc_byte(60u8) == sbytes("&lt;"),
        esc_byte(62u8) == sbytes("&gt;"),
        esc_byte(34u8) == sbytes("&quot;"),
{
}

} // verus!
