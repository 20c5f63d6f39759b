//! What is read conforms to the grammar.

use vstd::prelude::*;
use vstd::utf8::*;
use crate::charset::{Charset, COLON, COMMA, DQUOTE, EQUALS, SEMICOLON};
use crate::content_line::{
    cut_after_ascii,
    parse_line,
    parse_params,
    parse_values,
    ParamView,
};
use crate::scan::{find1, find2, find3, lemma_find3};
use crate::text::{lemma_scalar_bytes, lemma_valid_between};

verus! {

/// The text that a part of a line stands for is made of the bytes of that
/// part, if the part lies between ASCII bytes or ends of the line.
proof fn lemma_part_bytes(line: Seq<u8>, from: int, to: int)
    requires
        valid_utf8(line),
        0 <= from <= to <= line.len(),
        cut_after_ascii(line, from),
        to == line.len() || line[to] < 128,
    ensures
        encode_utf8(decode_utf8(line.subrange(from, to))) == line.subrange(from, to),
{
    lemma_valid_between(line, from, to);
    decode_utf8_encode_utf8(line.subrange(from, to));
}

/// The values that are read hold no `"` and no control byte other than TAB,
/// and there is one at least.
proof fn lemma_values_conform(line: Seq<u8>, cursor: int, acc: Seq<Seq<char>>)
    requires
        valid_utf8(line),
        0 <= cursor <= line.len(),
        cut_after_ascii(line, cursor),
        forall|i: int|
            0 <= i < acc.len() ==> Charset::QuotedSafe.allows_all(encode_utf8(#[trigger] acc[i])),
    ensures
        parse_values(line, cursor, acc) matches Ok((values, next)) ==> {
            &&& values.len() > acc.len()
            &&& cursor <= next <= line.len()
            &&& forall|i: int|
                0 <= i < values.len() ==> Charset::QuotedSafe.allows_all(
                    encode_utf8(#[trigger] values[i]),
                )
        },
    decreases line.len() - cursor,
{
    if cursor < line.len() && line[cursor] == DQUOTE {
        let end = find1(line, cursor + 1, DQUOTE);
        let text = line.subrange(cursor + 1, end);
        lemma_find3(line, cursor + 1, DQUOTE, DQUOTE, DQUOTE);
        if end < line.len() && Charset::QuotedSafe.allows_all(text) {
            lemma_part_bytes(line, cursor + 1, end);
            let more = acc.push(decode_utf8(text));
            assert forall|i: int| 0 <= i < more.len() implies Charset::QuotedSafe.allows_all(
                encode_utf8(#[trigger] more[i]),
            ) by {
                if i < acc.len() {
                    assert(more[i] == acc[i]);
                }
            }
            if end + 1 < line.len() && line[end + 1] == COMMA {
                lemma_values_conform(line, end + 2, more);
            }
        }
    } else {
        let end = find3(line, cursor, COMMA, SEMICOLON, COLON);
        let text = line.subrange(cursor, end);
        lemma_find3(line, cursor, COMMA, SEMICOLON, COLON);
        if end < line.len() && Charset::Safe.allows_all(text) {
            lemma_part_bytes(line, cursor, end);
            let more = acc.push(decode_utf8(text));
            assert forall|i: int| 0 <= i < more.len() implies Charset::QuotedSafe.allows_all(
                encode_utf8(#[trigger] more[i]),
            ) by {
                if i < acc.len() {
                    assert(more[i] == acc[i]);
                } else {
                    assert forall|j: int| 0 <= j < text.len() implies Charset::QuotedSafe.allows(
                        #[trigger] text[j],
                    ) by {
                        assert(Charset::Safe.allows(text[j]));
                    }
                }
            }
            if line[end] == COMMA {
                lemma_values_conform(line, end + 1, more);
            }
        }
    }
}

/// The parameters that are read conform to the grammar.
proof fn lemma_params_conform(line: Seq<u8>, cursor: int, acc: Seq<ParamView>)
    requires
        valid_utf8(line),
        0 <= cursor <= line.len(),
        forall|i: int| 0 <= i < acc.len() ==> (#[trigger] acc[i]).conforms(),
    ensures
        parse_params(line, cursor, acc) matches Ok((params, next)) ==> {
            &&& cursor <= next <= line.len()
            &&& forall|i: int| 0 <= i < params.len() ==> (#[trigger] params[i]).conforms()
        },
    decreases line.len() - cursor,
{
    if cursor < line.len() && line[cursor] == SEMICOLON {
        let end = find1(line, cursor + 1, EQUALS);
        let name = line.subrange(cursor + 1, end);
        lemma_find3(line, cursor + 1, EQUALS, EQUALS, EQUALS);
        if end < line.len() && Charset::Name.allows_all(name) {
            lemma_part_bytes(line, cursor + 1, end);
            lemma_values_conform(line, end + 1, Seq::empty());
            match parse_values(line, end + 1, Seq::empty()) {
                Err(e) => {},
                Ok((values, next)) => {
                    let param = ParamView { name: decode_utf8(name), values };
                    let more = acc.push(param);
                    assert(param.conforms());
                    assert forall|i: int| 0 <= i < more.len() implies (#[trigger] more[i]).conforms(
                    ) by {
                        if i < acc.len() {
                            assert(more[i] == acc[i]);
                        }
                    }
                    lemma_params_conform(line, next, more);
                },
            }
        }
    }
}

/// A line that is read conforms to the grammar: its name and the names of
/// its parameters are names, each parameter has a value, no parameter value
/// holds `"` or a control byte other than TAB, and the line's value holds no
/// control byte other than TAB.
pub proof fn lemma_parsed_line_conforms(text: Seq<char>)
    ensures
        parse_line(text) matches Ok(line) ==> line.conforms(),
{
    let line = encode_utf8(text);
    encode_utf8_valid_utf8(text);
    let name_end = find2(line, 0, SEMICOLON, COLON);
    let name = line.subrange(0, name_end);
    lemma_find3(line, 0, SEMICOLON, COLON, COLON);
    if name_end < line.len() && Charset::Name.allows_all(name) {
        lemma_part_bytes(line, 0, name_end);
        lemma_params_conform(line, name_end, Seq::empty());
        match parse_params(line, name_end, Seq::empty()) {
            Err(e) => {},
            Ok((params, cursor)) => {
                if cursor < line.len() && line[cursor] == COLON {
                    lemma_part_bytes(line, cursor + 1, line.len() as int);
                }
            },
        }
    }
}

/// A logical line that starts with SPACE or TAB is no content line: where
/// the first physical line of a stream starts with one of them, unfolding
/// keeps it, and reading the line fails.
pub proof fn lemma_leading_space_rejected(text: Seq<char>)
    requires
        text.len() > 0,
        text[0] == ' ' || text[0] == '\t',
    ensures
        parse_line(text) is Err,
{
    let line = encode_utf8(text);
    let name_end = find2(line, 0, SEMICOLON, COLON);
    lemma_scalar_bytes(text[0]);
    lemma_find3(line, 0, SEMICOLON, COLON, COLON);
    assert(line[0] == encode_scalar(text[0] as u32)[0]);
    if name_end < line.len() {
        assert(line.subrange(0, name_end)[0] == line[0]);
        assert(!Charset::Name.allows(line[0]));
    }
}

} // verus!
