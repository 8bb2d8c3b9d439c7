use vstd::prelude::*;

verus! {

/// The ASCII bytes that carry meaning for Markdown block and inline syntax.
#[derive(Debug, Clone, Copy, PartialEq, Eq, Structural)]
pub enum SpecialChar {
    Tab,
    Newline,
    CarriageReturn,
    Space,
    ExclamationMark,
    DoubleQuote,
    Hash,
    SingleQuote,
    OpenParen,
    CloseParen,
    Asterisk,
    Plus,
    Dash,
    Dot,
    Zero,
    LessThan,
    GreaterThan,
    OpenBracket,
    Backslash,
    CloseBracket,
    Underscore,
    Tilde,
    Backtick,
}

/// The byte value of each special character.
pub open spec fn special_byte(c: SpecialChar) -> u8 {
    match c {
        SpecialChar::Tab => 9u8,
        SpecialChar::Newline => 10u8,
        SpecialChar::CarriageReturn => 13u8,
        SpecialChar::Space => 32u8,
        SpecialChar::ExclamationMark => 33u8,
        SpecialChar::DoubleQuote => 34u8,
        SpecialChar::Hash => 35u8,
        SpecialChar::SingleQuote => 39u8,
        SpecialChar::OpenParen => 40u8,
        SpecialChar::CloseParen => 41u8,
        SpecialChar::Asterisk => 42u8,
        SpecialChar::Plus => 43u8,
        SpecialChar::Dash => 45u8,
        SpecialChar::Dot => 46u8,
        SpecialChar::Zero => 48u8,
        SpecialChar::LessThan => 60u8,
        SpecialChar::GreaterThan => 62u8,
        SpecialChar::OpenBracket => 91u8,
        SpecialChar::Backslash => 92u8,
        SpecialChar::CloseBracket => 93u8,
        SpecialChar::Underscore => 95u8,
        SpecialChar::Tilde => 126u8,
        SpecialChar::Backtick => 96u8,
    }
}

/// Number of leading bytes of `s` equal to `b`.
pub open spec fn leading_run(s: Seq<u8>, b: u8) -> nat
    decreases s.len(),
{
    if s.len() == 0 || s[0] != b {
        0
    } else {
        1 + leading_run(s.drop_first(), b)
    }
}

/// A run of `r` copies of `b` opens `s` and is maximal.
pub open spec fn is_leading_run(s: Seq<u8>, b: u8, r: int) -> bool {
    &&& 0 <= r <= s.len()
    &&& forall|j: int| 0 <= j < r ==> s[j] == b
    &&& (r == s.len() || s[r] != b)
}

pub proof fn lemma_leading_run_unique(s: Seq<u8>, b: u8, r: int)
    requires
        is_leading_run(s, b, r),
    ensures
        leading_run(s, b) == r,
    decreases s.len(),
{
    if s.len() > 0 && s[0] == b {
        assert(r > 0);
        let t = s.drop_first();
        assert forall|j: int| 0 <= j < r - 1 implies t[j] == b by {
            assert(t[j] == s[j + 1]);
        }
        if r - 1 < t.len() {
            assert(t[r - 1] == s[r]);
        }
        lemma_leading_run_unique(t, b, r - 1);
    }
}

impl SpecialChar {
    /// Returns the `u8` value of this character.
    pub fn byte(self) -> (b: u8)
        ensures
            b == special_byte(self),
    {
        match self {
            SpecialChar::Tab => 9u8,
            SpecialChar::Newline => 10u8,
            SpecialChar::CarriageReturn => 13u8,
            SpecialChar::Space => 32u8,
            SpecialChar::ExclamationMark => 33u8,
            SpecialChar::DoubleQuote => 34u8,
            SpecialChar::Hash => 35u8,
            SpecialChar::SingleQuote => 39u8,
            SpecialChar::OpenParen => 40u8,
            SpecialChar::CloseParen => 41u8,
            SpecialChar::Asterisk => 42u8,
            SpecialChar::Plus => 43u8,
            SpecialChar::Dash => 45u8,
            SpecialChar::Dot => 46u8,
            SpecialChar::Zero => 48u8,
            SpecialChar::LessThan => 60u8,
            SpecialChar::GreaterThan => 62u8,
            SpecialChar::OpenBracket => 91u8,
            SpecialChar::Backslash => 92u8,
            SpecialChar::CloseBracket => 93u8,
            SpecialChar::Underscore => 95u8,
            SpecialChar::Tilde => 126u8,
            SpecialChar::Backtick => 96u8,
        }
    }

    /// Look up the special character with byte value `b`, if any.
    pub fn from_byte(b: u8) -> (r: Option<SpecialChar>)
        ensures
            r matches Some(c) ==> special_byte(c) == b,
            r is None ==> forall|c: SpecialChar| special_byte(c) != b,
    {
        match b {
            9u8 => Some(SpecialChar::Tab),
            10u8 => Some(SpecialChar::Newline),
            13u8 => Some(SpecialChar::CarriageReturn),
            32u8 => Some(SpecialChar::Space),
            33u8 => Some(SpecialChar::ExclamationMark),
            34u8 => Some(SpecialChar::DoubleQuote),
            35u8 => Some(SpecialChar::Hash),
            39u8 => Some(SpecialChar::SingleQuote),
            40u8 => Some(SpecialChar::OpenParen),
            41u8 => Some(SpecialChar::CloseParen),
            42u8 => Some(SpecialChar::Asterisk),
            43u8 => Some(SpecialChar::Plus),
            45u8 => Some(SpecialChar::Dash),
            46u8 => Some(SpecialChar::Dot),
            48u8 => Some(SpecialChar::Zero),
            60u8 => Some(SpecialChar::LessThan),
            62u8 => Some(SpecialChar::GreaterThan),
            91u8 => Some(SpecialChar::OpenBracket),
            92u8 => Some(SpecialChar::Backslash),
            93u8 => Some(SpecialChar::CloseBracket),
            95u8 => Some(SpecialChar::Underscore),
            126u8 => Some(SpecialChar::Tilde),
            96u8 => Some(SpecialChar::Backtick),
            _ => None,
        }
    }

    /// True for the three bullet-list marker characters `-`, `*`, `+`.
    pub fn is_list_char(self) -> (r: bool)
        ensures
            r == (self == SpecialChar::Dash || self == SpecialChar::Asterisk || self
                == SpecialChar::Plus),
    {
        match self {
            SpecialChar::Dash | SpecialChar::Asterisk | SpecialChar::Plus => true,
            _ => false,
        }
    }

    /// Count how many leading bytes of `bytes` equal this character.
    pub fn count_leading_bytes(self, bytes: &[u8]) -> (n: usize)
        ensures
            is_leading_run(bytes@, special_byte(self), n as int),
            n == leading_run(bytes@, special_byte(self)),
    {
        let needle = self.byte();
        let mut n: usize = 0;
        while n < bytes.len() && bytes[n] == needle
            invariant
                n <= bytes.len(),
                needle == special_byte(self),
                forall|j: int| 0 <= j < n ==> bytes@[j] == needle,
            decreases bytes.len() - n,
        {
            n = n + 1;
        }
        proof {
            lemma_leading_run_unique(bytes@, needle, n as int);
        }
        n
    }
}

/// Reading a character's byte back through the lookup table gives the
/// character again.
pub proof fn lemma_from_byte_roundtrip(c: SpecialChar)
    ensures
        forall|d: SpecialChar| special_byte(d) == special_byte(c) ==> d == c,
{
}

} // verus!
