//! What every unfolded stream is like, and which streams fail.

use vstd::prelude::*;
use vstd::utf8::*;
use crate::charset::{CR, LF};
use crate::error::Error;
use crate::scan::{find2, lemma_find3};
use crate::unfold::{
    continues_at,
    joined,
    lemma_logical_line_advances,
    logical_line,
    physical_end,
    unfold,
    unfold_from,
};

verus! {

/// Whether the items end in a failure.
pub open spec fn fails(items: Seq<Result<Seq<char>, Error>>) -> bool {
    items.len() > 0 && items.last() is Err
}

/// Whether LF stands at `at` without CR before it.
pub open spec fn lone_lf_at(input: Seq<u8>, at: int) -> bool {
    0 <= at < input.len() && input[at] == LF && (at == 0 || input[at - 1] != CR)
}

/// Whether an empty physical line that nothing continues starts at `at`: `at`
/// is the start of the stream or the place behind CR LF, CR LF stands there,
/// and no physical line that starts with SPACE or TAB follows.
pub open spec fn empty_line_at(input: Seq<u8>, at: int) -> bool {
    &&& at == 0 || (at >= 2 && input[at - 2] == CR && input[at - 1] == LF)
    &&& 0 <= at && at + 1 < input.len()
    &&& input[at] == CR
    &&& input[at + 1] == LF
    &&& !continues_at(input, at + 2)
}

/// Of an unfolded stream only the last item can be a failure, and no line is
/// empty.
pub proof fn lemma_unfold_shape(input: Seq<u8>, pos: int)
    ensures
        forall|i: int|
            0 <= i < unfold_from(input, pos).len() - 1 ==> (#[trigger] unfold_from(input, pos)[i])
                is Ok,
        forall|i: int|
            0 <= i < unfold_from(input, pos).len() ==> (#[trigger] unfold_from(input, pos)[i]
                matches Ok(text) ==> text.len() > 0),
    decreases input.len() - pos,
{
    if 0 <= pos < input.len() {
        match logical_line(input, pos) {
            Err(e) => {},
            Ok((bytes, next)) => {
                if bytes.len() > 0 && valid_utf8(bytes) {
                    lemma_logical_line_advances(input, pos);
                    lemma_unfold_shape(input, next);
                    assert(decode_utf8(bytes).len() > 0);
                }
            },
        }
    }
}

/// Joining continuation lines before a lone LF ends before it, if it does not
/// fail.
proof fn lemma_joined_before_lone_lf(input: Seq<u8>, pos: int, acc: Seq<u8>, at: int)
    requires
        0 <= pos <= at,
        lone_lf_at(input, at),
    ensures
        joined(input, pos, acc) matches Ok((_, next)) ==> pos <= next <= at,
    decreases input.len() - pos,
{
    if continues_at(input, pos) {
        lemma_find3(input, pos, CR, LF, LF);
        match physical_end(input, pos) {
            None => {},
            Some(end) => {
                assert(end <= at);
                lemma_joined_before_lone_lf(
                    input,
                    end + 2,
                    acc + input.subrange(pos + 1, end),
                    at,
                );
            },
        }
    }
}

/// A stream that holds LF without CR before it fails.
pub proof fn lemma_lone_lf_fails(input: Seq<u8>, pos: int, at: int)
    requires
        0 <= pos <= at,
        lone_lf_at(input, at),
    ensures
        fails(unfold_from(input, pos)),
    decreases input.len() - pos,
{
    lemma_find3(input, pos, CR, LF, LF);
    match logical_line(input, pos) {
        Err(e) => {},
        Ok((bytes, next)) => {
            let end = find2(input, pos, CR, LF);
            assert(end <= at);
            lemma_joined_before_lone_lf(input, end + 2, input.subrange(pos, end), at);
            if bytes.len() > 0 && valid_utf8(bytes) {
                lemma_logical_line_advances(input, pos);
                lemma_lone_lf_fails(input, next, at);
            }
        },
    }
}

/// Joining continuation lines before an empty line ends at it or before it,
/// if it does not fail.
proof fn lemma_joined_before_empty_line(input: Seq<u8>, pos: int, acc: Seq<u8>, at: int)
    requires
        0 <= pos <= at,
        empty_line_at(input, at),
    ensures
        joined(input, pos, acc) matches Ok((_, next)) ==> pos <= next <= at,
    decreases input.len() - pos,
{
    if continues_at(input, pos) {
        lemma_find3(input, pos, CR, LF, LF);
        match physical_end(input, pos) {
            None => {},
            Some(end) => {
                assert(pos < at);
                assert(end <= at - 2);
                assert(end + 2 != at - 1);
                lemma_joined_before_empty_line(
                    input,
                    end + 2,
                    acc + input.subrange(pos + 1, end),
                    at,
                );
            },
        }
    }
}

/// A stream that holds an empty physical line that nothing continues fails.
pub proof fn lemma_empty_line_fails(input: Seq<u8>, pos: int, at: int)
    requires
        0 <= pos <= at,
        empty_line_at(input, at),
    ensures
        fails(unfold_from(input, pos)),
    decreases input.len() - pos,
{
    lemma_find3(input, pos, CR, LF, LF);
    let end = find2(input, pos, CR, LF);
    if pos == at {
        assert(end == at);
        assert(input.subrange(pos, end).len() == 0);
    } else {
        match logical_line(input, pos) {
            Err(e) => {},
            Ok((bytes, next)) => {
                assert(end <= at - 2);
                assert(end + 2 != at - 1);
                lemma_joined_before_empty_line(input, end + 2, input.subrange(pos, end), at);
                if bytes.len() > 0 && valid_utf8(bytes) {
                    lemma_logical_line_advances(input, pos);
                    lemma_empty_line_fails(input, next, at);
                }
            },
        }
    }
}

} // verus!
