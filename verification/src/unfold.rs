//! Unfolding: from the bytes of a stream to its logical lines.
//!
//! A physical line is a run of bytes without CR or LF, followed by CR LF. A
//! physical line whose first byte is SPACE or TAB continues the logical line
//! before it: that byte is dropped and the rest is appended. The first
//! physical line of a stream starts a logical line whatever its first byte is.
//! A logical line ends where the next physical line does not continue it, or
//! where the stream ends.

use vstd::prelude::*;
use vstd::slice::slice_subrange;
use vstd::utf8::*;
use crate::charset::{CR, LF, SPACE, TAB};
use crate::error::{viewed, Error};
use crate::scan::{find2, lemma_find3, seek2};

verus! {

/// The index of the CR that ends the physical line starting at `pos`, if that
/// line is terminated as it must be: no CR or LF in it, then CR LF.
pub open spec fn physical_end(input: Seq<u8>, pos: int) -> Option<int> {
    let end = find2(input, pos, CR, LF);
    if end + 1 < input.len() && input[end] == CR && input[end + 1] == LF {
        Some(end)
    } else {
        None
    }
}

/// Whether a physical line that continues a logical line starts at `pos`.
pub open spec fn continues_at(input: Seq<u8>, pos: int) -> bool {
    0 <= pos < input.len() && (input[pos] == SPACE || input[pos] == TAB)
}

/// The logical line whose bytes so far are `acc`, with the physical lines
/// that continue it from `pos` on joined to it, and the place where the next
/// logical line starts.
pub open spec fn joined(input: Seq<u8>, pos: int, acc: Seq<u8>) -> Result<(Seq<u8>, int), Error>
    decreases input.len() - pos,
{
    if continues_at(input, pos) {
        match physical_end(input, pos) {
            None => Err(Error::MalformedTermination { at: pos as usize }),
            Some(end) => {
                proof {
                    lemma_find3(input, pos, CR, LF, LF);
                }
                joined(input, end + 2, acc + input.subrange(pos + 1, end))
            },
        }
    } else {
        Ok((acc, pos))
    }
}

/// The bytes of the logical line that starts at `pos`, and the place where
/// the next one starts.
pub open spec fn logical_line(input: Seq<u8>, pos: int) -> Result<(Seq<u8>, int), Error> {
    match physical_end(input, pos) {
        None => Err(Error::MalformedTermination { at: pos as usize }),
        Some(end) => joined(input, end + 2, input.subrange(pos, end)),
    }
}

/// What unfolding yields from `pos` on: the logical lines in order, up to and
/// including the first failure.
pub open spec fn unfold_from(input: Seq<u8>, pos: int) -> Seq<Result<Seq<char>, Error>>
    decreases input.len() - pos,
{
    if pos < 0 || pos >= input.len() {
        Seq::empty()
    } else {
        match logical_line(input, pos) {
            Err(e) => seq![Err(e)],
            Ok((bytes, next)) => {
                if bytes.len() == 0 {
                    seq![Err(Error::EmptyLine { at: pos as usize })]
                } else if !valid_utf8(bytes) {
                    seq![Err(Error::EncodingFailure { at: pos as usize })]
                } else {
                    proof {
                        lemma_logical_line_advances(input, pos);
                    }
                    seq![Ok(decode_utf8(bytes))] + unfold_from(input, next)
                }
            },
        }
    }
}

/// What unfolding a whole stream yields.
pub open spec fn unfold(input: Seq<u8>) -> Seq<Result<Seq<char>, Error>> {
    unfold_from(input, 0)
}

/// Joining continuation lines never moves backwards, nor past the end.
pub proof fn lemma_joined_advances(input: Seq<u8>, pos: int, acc: Seq<u8>)
    requires
        0 <= pos <= input.len(),
    ensures
        joined(input, pos, acc) matches Ok((_, next)) ==> pos <= next <= input.len(),
    decreases input.len() - pos,
{
    if continues_at(input, pos) {
        lemma_find3(input, pos, CR, LF, LF);
        match physical_end(input, pos) {
            None => {},
            Some(end) => {
                lemma_joined_advances(input, end + 2, acc + input.subrange(pos + 1, end));
            },
        }
    }
}

/// A logical line ends after the place where it starts, and not past the end.
pub proof fn lemma_logical_line_advances(input: Seq<u8>, pos: int)
    requires
        0 <= pos <= input.len(),
    ensures
        logical_line(input, pos) matches Ok((_, next)) ==> pos < next <= input.len(),
{
    lemma_find3(input, pos, CR, LF, LF);
    match physical_end(input, pos) {
        None => {},
        Some(end) => {
            lemma_joined_advances(input, end + 2, input.subrange(pos, end));
        },
    }
}

/// Finds the CR that ends the physical line starting at `pos`.
fn read_physical(bytes: &[u8], pos: usize) -> (r: Option<usize>)
    requires
        pos <= bytes@.len(),
    ensures
        match r {
            Some(end) => physical_end(bytes@, pos as int) == Some(end as int) && pos <= end
                && end + 2 <= bytes@.len(),
            None => physical_end(bytes@, pos as int) is None,
        },
{
    let end: usize = seek2(bytes, pos, CR, LF);
    if end < bytes.len() && bytes.len() - end >= 2 && bytes[end] == CR && bytes[end + 1] == LF {
        Some(end)
    } else {
        None
    }
}

/// Reads the logical line that starts at `start`: its bytes, and the place
/// where the next logical line starts.
fn read_logical(bytes: &[u8], start: usize) -> (r: Result<(Vec<u8>, usize), Error>)
    requires
        start < bytes@.len(),
    ensures
        match r {
            Ok((line, next)) => logical_line(bytes@, start as int) == Ok::<_, Error>(
                (line@, next as int),
            ) && start < next <= bytes@.len(),
            Err(e) => logical_line(bytes@, start as int) == Err::<(Seq<u8>, int), _>(e),
        },
{
    let len: usize = bytes.len();
    let first_end: usize = match read_physical(bytes, start) {
        Some(end) => end,
        None => {
            return Err(Error::MalformedTermination { at: start });
        },
    };
    let mut acc: Vec<u8> = Vec::new();
    acc.extend_from_slice(slice_subrange(bytes, start, first_end));
    assert(acc@ == bytes@.subrange(start as int, first_end as int));
    let mut pos: usize = first_end + 2;
    while pos < len && (bytes[pos] == SPACE || bytes[pos] == TAB)
        invariant
            len == bytes@.len(),
            start < pos <= len,
            joined(bytes@, pos as int, acc@) == logical_line(bytes@, start as int),
        decreases len - pos,
    {
        let end: usize = match read_physical(bytes, pos) {
            Some(end) => end,
            None => {
                return Err(Error::MalformedTermination { at: pos });
            },
        };
        proof {
            lemma_find3(bytes@, pos as int, CR, LF, LF);
        }
        let ghost before = acc@;
        acc.extend_from_slice(slice_subrange(bytes, pos + 1, end));
        assert(acc@ == before + bytes@.subrange(pos + 1, end as int));
        pos = end + 2;
    }
    Ok((acc, pos))
}

/// The logical lines of a stream of bytes, one at a time.
pub struct Unfold {
    input: Vec<u8>,
    pos: usize,
    failed: bool,
}

impl Unfold {
    #[verifier::type_invariant]
    spec fn inv(self) -> bool {
        self.pos <= self.input@.len()
    }

    /// What is still to come: lines, then at most one failure.
    pub closed spec fn remaining(&self) -> Seq<Result<Seq<char>, Error>> {
        if self.failed {
            Seq::empty()
        } else {
            unfold_from(self.input@, self.pos as int)
        }
    }

    /// An unfolder at the start of `input`.
    pub fn new(input: Vec<u8>) -> (r: Unfold)
        ensures
            r.remaining() == unfold(input@),
    {
        Unfold { input, pos: 0, failed: false }
    }

    /// The next logical line, or the failure that ends the stream, or `None`
    /// when nothing is left. After a failure nothing is left.
    pub fn next(&mut self) -> (r: Option<Result<String, Error>>)
        ensures
            old(self).remaining().len() == 0 ==> r is None && final(self).remaining() == old(
                self,
            ).remaining(),
            old(self).remaining().len() > 0 ==> r is Some && viewed(r.unwrap()) == old(
                self,
            ).remaining()[0] && final(self).remaining() == old(self).remaining().drop_first(),
    {
        proof {
            use_type_invariant(&*self);
        }
        if self.failed || self.pos >= self.input.len() {
            return None;
        }
        let start: usize = self.pos;
        let (line, next) = match read_logical(self.input.as_slice(), start) {
            Ok(read) => read,
            Err(e) => {
                self.failed = true;
                return Some(Err(e));
            },
        };
        self.pos = next;
        if line.len() == 0 {
            self.failed = true;
            return Some(Err(Error::EmptyLine { at: start }));
        }
        match core::str::from_utf8(line.as_slice()) {
            Ok(s) => {
                proof {
                    encode_utf8_decode_utf8(s@);
                }
                let text = s.to_owned();
                assert(old(self).remaining() == seq![Ok::<Seq<char>, Error>(text@)] + self.remaining());
                assert(self.remaining() == old(self).remaining().drop_first());
                Some(Ok(text))
            },
            Err(_) => {
                self.failed = true;
                Some(Err(Error::EncodingFailure { at: start }))
            },
        }
    }
}

} // verus!
