use vstd::prelude::*;
use vstd::utf8::*;

verus! {

/// The bytes of `b` with every line ending made LF: `\r\n` and a bare `\r`
/// each become one `\n`; every other byte is kept.
pub open spec fn lf_bytes(b: Seq<u8>) -> Seq<u8>
    decreases b.len(),
{
    if b.len() == 0 {
        Seq::empty()
    } else if b[0] == 13u8 {
        if b.len() >= 2 && b[1] == 10u8 {
            seq![10u8] + lf_bytes(b.subrange(2, b.len() as int))
        } else {
            seq![10u8] + lf_bytes(b.drop_first())
        }
    } else {
        seq![b[0]] + lf_bytes(b.drop_first())
    }
}

/// `b` holds no carriage return.
pub open spec fn no_cr(b: Seq<u8>) -> bool {
    forall|i: int| 0 <= i < b.len() ==> #[trigger] b[i] != 13u8
}

/// Bytes without a carriage return are already normalized.
pub proof fn lemma_lf_no_cr(b: Seq<u8>)
    requires
        no_cr(b),
    ensures
        lf_bytes(b) == b,
    decreases b.len(),
{
    if b.len() > 0 {
        lemma_lf_no_cr(b.drop_first());
        assert(seq![b[0]] + b.drop_first() == b);
    }
}

/// A prefix without carriage returns passes through unchanged.
pub proof fn lemma_lf_prefix(a: Seq<u8>, b: Seq<u8>)
    requires
        no_cr(a),
    ensures
        lf_bytes(a + b) == a + lf_bytes(b),
    decreases a.len(),
{
    if a.len() > 0 {
        assert((a + b)[0] == a[0]);
        assert((a + b).drop_first() == a.drop_first() + b);
        lemma_lf_prefix(a.drop_first(), b);
        assert(seq![a[0]] + (a.drop_first() + lf_bytes(b)) == a + lf_bytes(b));
    } else {
        assert(a + b == b);
    }
}

/// The output of the normalization holds no carriage return.
pub proof fn lemma_lf_output_no_cr(b: Seq<u8>)
    ensures
        no_cr(lf_bytes(b)),
    decreases b.len(),
{
    if b.len() > 0 {
        if b[0] == 13u8 && b.len() >= 2 && b[1] == 10u8 {
            lemma_lf_output_no_cr(b.subrange(2, b.len() as int));
        } else {
            lemma_lf_output_no_cr(b.drop_first());
        }
    }
}

/// Normalizing line endings twice is the same as normalizing them once.
pub proof fn lemma_lf_idempotent(b: Seq<u8>)
    ensures
        lf_bytes(lf_bytes(b)) == lf_bytes(b),
{
    lemma_lf_output_no_cr(b);
    lemma_lf_no_cr(lf_bytes(b));
}

/// A line feed encodes as the single byte 10.
pub proof fn lemma_encode_lf()
    ensures
        encode_utf8(seq!['\n']) == seq![10u8],
{
    let v: u32 = '\n' as u32;
    assert(v == 10u32);
    assert((v & 0x7Fu32) as u8 == 10u8) by (bit_vector)
        requires
            v == 10u32,
    ;
    assert(seq!['\n'].drop_first() == Seq::<char>::empty());
    assert(encode_utf8(Seq::<char>::empty()) == Seq::<u8>::empty());
}

/// The UTF-8 encoding of a concatenation is the concatenation of the
/// encodings.
pub proof fn lemma_encode_append(a: Seq<char>, b: Seq<char>)
    ensures
        encode_utf8(a + b) == encode_utf8(a) + encode_utf8(b),
    decreases a.len(),
{
    if a.len() == 0 {
        assert(a + b == b);
    } else {
        assert((a + b)[0] == a[0]);
        assert((a + b).drop_first() == a.drop_first() + b);
        lemma_encode_append(a.drop_first(), b);
        assert(encode_scalar(a[0] as u32) + (encode_utf8(a.drop_first()) + encode_utf8(b))
            == (encode_scalar(a[0] as u32) + encode_utf8(a.drop_first())) + encode_utf8(b));
    }
}

} // verus!
