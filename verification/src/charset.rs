//! The bytes that the grammar names, and the sets of bytes that each part of a
//! content line may hold.

use vstd::prelude::*;

verus! {

pub const TAB: u8 = 9;

pub const LF: u8 = 10;

pub const CR: u8 = 13;

pub const SPACE: u8 = 32;

pub const DQUOTE: u8 = 34;

pub const COMMA: u8 = 44;

pub const HYPHEN: u8 = 45;

pub const COLON: u8 = 58;

pub const SEMICOLON: u8 = 59;

pub const EQUALS: u8 = 61;

/// The set of bytes that one part of a content line may hold.
#[derive(Clone, Copy, Debug, PartialEq, Eq)]
pub enum Charset {
    /// ASCII letters, ASCII digits and `-`: line names and parameter names.
    Name,
    /// Everything but control bytes, `"`, `;`, `:` and `,`: unquoted
    /// parameter values. TAB is a control byte and is not in this set.
    Safe,
    /// Everything but control bytes other than TAB, and `"`: quoted parameter
    /// values.
    QuotedSafe,
    /// Everything but control bytes other than TAB: line values.
    Value,
}

/// An ASCII control byte: below SPACE, or DEL.
pub open spec fn is_control(b: u8) -> bool {
    b < 32 || b == 127
}

pub open spec fn is_alphanumeric(b: u8) -> bool {
    (48 <= b <= 57) || (65 <= b <= 90) || (97 <= b <= 122)
}

impl Charset {
    /// Whether the set holds the byte `b`.
    pub open spec fn allows(self, b: u8) -> bool {
        match self {
            Charset::Name => is_alphanumeric(b) || b == HYPHEN,
            Charset::Safe => !is_control(b) && b != DQUOTE && b != SEMICOLON && b != COLON && b
                != COMMA,
            Charset::QuotedSafe => (!is_control(b) || b == TAB) && b != DQUOTE,
            Charset::Value => !is_control(b) || b == TAB,
        }
    }

    /// Whether the set holds every byte of `s`.
    pub open spec fn allows_all(self, s: Seq<u8>) -> bool {
        forall|i: int| 0 <= i < s.len() ==> self.allows(#[trigger] s[i])
    }

    /// The index of the first byte of `s`, at or after `from`, that the set
    /// does not hold; the length of `s` if there is none.
    pub open spec fn first_rejected(self, s: Seq<u8>, from: int) -> int
        decreases s.len() - from,
    {
        if from >= s.len() {
            s.len() as int
        } else if !self.allows(s[from]) {
            from
        } else {
            self.first_rejected(s, from + 1)
        }
    }

    /// Tells whether the set holds `b`.
    pub fn contains(self, b: u8) -> (r: bool)
        ensures
            r == self.allows(b),
    {
        let printing: bool = b >= 32 && b != 127;
        let plain: bool = printing || b == TAB;
        match self {
            Charset::Name => (b >= 48 && b <= 57) || (b >= 65 && b <= 90) || (b >= 97 && b
                <= 122) || b == HYPHEN,
            Charset::Safe => printing && b != DQUOTE && b != SEMICOLON && b != COLON && b
                != COMMA,
            Charset::QuotedSafe => plain && b != DQUOTE,
            Charset::Value => plain,
        }
    }

    /// The index of the first byte of `bytes` that the set does not hold.
    pub fn find_rejected(self, bytes: &[u8]) -> (r: Option<usize>)
        ensures
            match r {
                Some(i) => i < bytes@.len() && i == self.first_rejected(bytes@, 0),
                None => self.allows_all(bytes@),
            },
            r is None <==> self.allows_all(bytes@),
    {
        let mut i: usize = 0;
        while i < bytes.len()
            invariant
                i <= bytes@.len(),
                forall|j: int| 0 <= j < i ==> self.allows(#[trigger] bytes@[j]),
                self.first_rejected(bytes@, 0) == self.first_rejected(bytes@, i as int),
            decreases bytes@.len() - i,
        {
            if !self.contains(bytes[i]) {
                return Some(i);
            }
            i = i + 1;
        }
        None
    }
}

/// The first rejected byte lies between `from` and the end, every byte before
/// it is allowed, and it is the end exactly if every byte from `from` on is
/// allowed.
pub proof fn lemma_first_rejected(cs: Charset, s: Seq<u8>, from: int)
    requires
        0 <= from <= s.len(),
    ensures
        from <= cs.first_rejected(s, from) <= s.len(),
        forall|j: int| from <= j < cs.first_rejected(s, from) ==> cs.allows(#[trigger] s[j]),
        cs.first_rejected(s, from) < s.len() ==> !cs.allows(s[cs.first_rejected(s, from)]),
    decreases s.len() - from,
{
    if from < s.len() && cs.allows(s[from]) {
        lemma_first_rejected(cs, s, from + 1);
    }
}

} // verus!
