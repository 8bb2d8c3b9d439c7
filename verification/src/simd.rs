use vstd::prelude::*;

verus! {

/// `r` is the first index at or after `from` whose byte satisfies `p`, or
/// `None` when no byte there does.
pub open spec fn first_match(s: Seq<u8>, from: int, p: spec_fn(u8) -> bool, r: Option<usize>) -> bool {
    match r {
        Some(i) => {
            &&& from <= i < s.len()
            &&& p(s[i as int])
            &&& forall|j: int| from <= j < i ==> !p(#[trigger] s[j])
        },
        None => forall|j: int| from <= j < s.len() ==> !p(#[trigger] s[j]),
    }
}

/// A pre-computed set of bytes to search for.
pub struct ByteSet {
    table: [bool; 256],
}

impl ByteSet {
    /// The set of bytes it holds.
    pub closed spec fn has(&self, b: u8) -> bool {
        self.table@[b as int]
    }

    /// Create a `ByteSet` from one to eight bytes.
    pub fn new(needles: &[u8]) -> (set: Self)
        requires
            1 <= needles@.len() <= 8,
        ensures
            forall|b: u8| set.has(b) <==> needles@.contains(b),
    {
        let mut table = [false; 256];
        let mut i: usize = 0;
        while i < needles.len()
            invariant
                i <= needles@.len(),
                table@.len() == 256,
                forall|b: u8| table@[b as int] <==> needles@.subrange(0, i as int).contains(b),
            decreases needles.len() - i,
        {
            let n = needles[i];
            let ghost old_t = table@;
            table[n as usize] = true;
            proof {
                assert(table@ == old_t.update(n as int, true));
                assert forall|b: u8| table@[b as int] <==> needles@.subrange(0, i + 1).contains(
                    b,
                ) by {
                    let prev = needles@.subrange(0, i as int);
                    let next = needles@.subrange(0, i + 1);
                    assert(next == prev.push(n));
                    assert(next[i as int] == n);
                    if b != n {
                        assert(table@[b as int] == old_t[b as int]);
                    }
                    if prev.contains(b) {
                        let k = choose|k: int| 0 <= k < prev.len() && prev[k] == b;
                        assert(next[k] == b);
                    }
                    if next.contains(b) && b != n {
                        let k = choose|k: int| 0 <= k < next.len() && next[k] == b;
                        assert(k < i);
                        assert(prev[k] == b);
                    }
                }
            }
            i = i + 1;
        }
        assert(needles@.subrange(0, needles@.len() as int) == needles@);
        ByteSet { table }
    }

    /// Whether `b` is in the set.
    pub fn contains(&self, b: u8) -> (r: bool)
        ensures
            r == self.has(b),
    {
        self.table[b as usize]
    }
}

/// Byte-slice searches used by the parsers.
pub trait ByteSliceExt {
    spec fn byte_view(&self) -> Seq<u8>;

    /// Find the first occurrence of `needle` at or after `offset`.
    fn find_byte(&self, offset: usize, needle: u8) -> (r: Option<usize>)
        ensures
            first_match(self.byte_view(), offset as int, |b: u8| b == needle, r),
    ;

    /// Find the first byte at or after `offset` that is contained in `set`.
    fn find_byte_set(&self, offset: usize, set: &ByteSet) -> (r: Option<usize>)
        ensures
            first_match(self.byte_view(), offset as int, |b: u8| set.has(b), r),
    ;
}

impl ByteSliceExt for [u8] {
    open spec fn byte_view(&self) -> Seq<u8> {
        self@
    }

    fn find_byte(&self, offset: usize, needle: u8) -> (r: Option<usize>) {
        let mut i = offset;
        while i < self.len()
            invariant
                offset <= i,
                forall|j: int| offset <= j < i && j < self@.len() ==> self@[j] != needle,
            decreases self.len() - i,
        {
            if self[i] == needle {
                return Some(i);
            }
            i = i + 1;
        }
        None
    }

    fn find_byte_set(&self, offset: usize, set: &ByteSet) -> (r: Option<usize>) {
        let mut i = offset;
        while i < self.len()
            invariant
                offset <= i,
                forall|j: int| offset <= j < i && j < self@.len() ==> !set.has(self@[j]),
            decreases self.len() - i,
        {
            if set.contains(self[i]) {
                return Some(i);
            }
            i = i + 1;
        }
        None
    }
}

} // verus!
