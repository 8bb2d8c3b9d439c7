use vstd::prelude::*;
use vstd::slice::slice_subrange;

verus! {

/// Inline capacity before spilling to the heap.
pub const INLINE: usize = 8;

/// A growable `bool` sequence that stores its first [`INLINE`] elements inline
/// and spills to a `Vec<bool>` only when it grows past that.
pub enum SmallBoolVec {
    /// Inline storage: `buf[..len]` are live.
    Inline { buf: [bool; 8], len: usize },
    /// Spilled to the heap once the inline capacity was exceeded.
    Spilled(Vec<bool>),
}

impl View for SmallBoolVec {
    type V = Seq<bool>;

    open spec fn view(&self) -> Seq<bool> {
        match self {
            SmallBoolVec::Inline { buf, len } => {
                let n = if *len <= 8 { *len as int } else { 8 };
                buf@.subrange(0, n)
            },
            SmallBoolVec::Spilled(v) => v@,
        }
    }
}

impl SmallBoolVec {
    /// A new, empty sequence using inline storage (no allocation).
    pub fn new() -> (v: Self)
        ensures
            v@ == Seq::<bool>::empty(),
            v is Inline,
    {
        SmallBoolVec::Inline { buf: [false; 8], len: 0 }
    }

    /// Append a flag, spilling to the heap if the inline buffer is full.
    pub fn push(&mut self, value: bool)
        ensures
            final(self)@ == old(self)@.push(value),
            ((*final(self)) is Spilled) <==> ((*old(self)) is Spilled || old(self)@.len() >= INLINE),
    {
        match self {
            SmallBoolVec::Inline { buf, len } => {
                let n = *len;
                if n < 8 {
                    let ghost before = buf@;
                    buf[n] = value;
                    *len = n + 1;
                    proof {
                        assert(buf@ == before.update(n as int, value));
                        assert(buf@.subrange(0, n + 1) == before.subrange(0, n as int).push(
                            value,
                        ));
                    }
                } else {
                    let mut v: Vec<bool> = Vec::new();
                    let mut k: usize = 0;
                    while k < 8
                        invariant
                            k <= 8,
                            v@ == buf@.subrange(0, k as int),
                        decreases 8 - k,
                    {
                        v.push(buf[k]);
                        proof {
                            assert(buf@.subrange(0, k + 1) == buf@.subrange(0, k as int).push(
                                buf@[k as int],
                            ));
                        }
                        k = k + 1;
                    }
                    v.push(value);
                    *self = SmallBoolVec::Spilled(v);
                }
            },
            SmallBoolVec::Spilled(v) => {
                v.push(value);
            },
        }
    }

    /// Remove and return the last flag, or `None` when empty.
    pub fn pop(&mut self) -> (r: Option<bool>)
        ensures
            old(self)@.len() == 0 ==> r is None && final(self)@ == old(self)@,
            old(self)@.len() > 0 ==> r == Some(old(self)@.last()) && final(self)@ == old(
                self,
            )@.drop_last(),
            ((*final(self)) is Spilled) <==> ((*old(self)) is Spilled),
    {
        match self {
            SmallBoolVec::Inline { buf, len } => {
                let n: usize = if *len <= 8 {
                    *len
                } else {
                    8
                };
                if n == 0 {
                    None
                } else {
                    *len = n - 1;
                    proof {
                        assert(buf@.subrange(0, n - 1) == buf@.subrange(0, n as int).drop_last());
                    }
                    Some(buf[n - 1])
                }
            },
            SmallBoolVec::Spilled(v) => v.pop(),
        }
    }

    /// View the live flags as a slice.
    pub fn as_slice(&self) -> (s: &[bool])
        ensures
            s@ == self@,
    {
        match self {
            SmallBoolVec::Inline { buf, len } => {
                let n: usize = if *len <= 8 {
                    *len
                } else {
                    8
                };
                slice_subrange(buf.as_slice(), 0, n)
            },
            SmallBoolVec::Spilled(v) => v.as_slice(),
        }
    }
}

/// Popping right after a push gives back the pushed flag and leaves the
/// sequence as it was before the push.
pub proof fn lemma_push_then_pop(s: Seq<bool>, b: bool)
    ensures
        s.push(b).len() > 0,
        s.push(b).last() == b,
        s.push(b).drop_last() == s,
{
    assert(s.push(b).drop_last() =~= s);
}

impl std::ops::Deref for SmallBoolVec {
    type Target = [bool];

    fn deref(&self) -> (s: &[bool]) {
        self.as_slice()
    }
}

} // verus!
