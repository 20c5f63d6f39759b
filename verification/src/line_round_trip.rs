//! What is written is read back as it was.

use vstd::prelude::*;
use vstd::utf8::*;
use crate::charset::{Charset, COLON, COMMA, DQUOTE, EQUALS, SEMICOLON, SPACE, TAB};
use crate::content_line::{
    format_line,
    format_more_values,
    format_param,
    format_params,
    format_value,
    format_values,
    needs_quotes,
    parse_line,
    parse_params,
    parse_values,
    valid_value,
    ContentLineView,
    ParamView,
};
use crate::error::Error;
use crate::scan::{find3, lemma_find3_across, lemma_find3_is};
use crate::text::{lemma_encode_ascii, lemma_encode_concat};

verus! {

/// The bytes of a written parameter value: the value's bytes, between two
/// `"` if it needs them.
proof fn lemma_value_bytes(value: Seq<char>)
    ensures
        encode_utf8(format_value(value)) == if needs_quotes(value) {
            seq![DQUOTE] + encode_utf8(value) + seq![DQUOTE]
        } else {
            encode_utf8(value)
        },
{
    if needs_quotes(value) {
        lemma_encode_ascii('"');
        lemma_encode_concat(seq!['"'] + value, seq!['"']);
        lemma_encode_concat(seq!['"'], value);
    }
}

/// The bytes of written values: those of the first value, then those of the
/// others, each after a comma.
proof fn lemma_values_bytes(values: Seq<Seq<char>>)
    requires
        values.len() >= 1,
    ensures
        encode_utf8(format_values(values)) == encode_utf8(format_value(values[0])) + if values.len()
            == 1 {
            Seq::<u8>::empty()
        } else {
            seq![COMMA] + encode_utf8(format_values(values.drop_first()))
        },
{
    let rest = values.drop_first();
    lemma_encode_concat(format_value(values[0]), format_more_values(rest));
    if rest.len() > 0 {
        assert(format_more_values(rest) == seq![','] + format_values(rest));
        lemma_encode_ascii(',');
        lemma_encode_concat(seq![','], format_values(rest));
    } else {
        assert(encode_utf8(format_more_values(rest)) == Seq::<u8>::empty());
    }
}

/// Reading a quoted value: where `line` holds `"`, then `bytes` without a
/// `"` in them, then `"`, reading values goes on behind a comma that follows,
/// and ends behind the closing `"` if another byte follows.
proof fn lemma_read_quoted(line: Seq<u8>, cursor: int, bytes: Seq<u8>, acc: Seq<Seq<char>>)
    requires
        0 <= cursor,
        cursor + bytes.len() + 2 < line.len(),
        line[cursor] == DQUOTE,
        line.subrange(cursor + 1, cursor + 1 + bytes.len()) == bytes,
        line[cursor + 1 + bytes.len()] == DQUOTE,
        Charset::QuotedSafe.allows_all(bytes),
    ensures
        parse_values(line, cursor, acc) == if line[cursor + bytes.len() + 2] == COMMA {
            parse_values(line, cursor + bytes.len() + 3, acc.push(decode_utf8(bytes)))
        } else {
            Ok((acc.push(decode_utf8(bytes)), cursor + bytes.len() + 2))
        },
{
    let end = cursor + 1 + bytes.len();
    assert forall|j: int| cursor + 1 <= j < end implies #[trigger] line[j] != DQUOTE by {
        assert(line[j] == bytes[j - (cursor + 1)]);
        assert(Charset::QuotedSafe.allows(bytes[j - (cursor + 1)]));
    }
    lemma_find3_is(line, cursor + 1, DQUOTE, DQUOTE, DQUOTE, end);
}

/// Reading an unquoted value: where `line` holds `bytes` without `"`, `,`,
/// `;` or `:` in them, then one of `,`, `;` and `:`, reading values goes on
/// behind the comma, and ends at the `;` or `:`.
proof fn lemma_read_plain(line: Seq<u8>, cursor: int, bytes: Seq<u8>, acc: Seq<Seq<char>>)
    requires
        0 <= cursor,
        cursor + bytes.len() < line.len(),
        line.subrange(cursor, cursor + bytes.len()) == bytes,
        line[cursor + bytes.len()] == COMMA || line[cursor + bytes.len()] == SEMICOLON || line[cursor
            + bytes.len()] == COLON,
        Charset::Safe.allows_all(bytes),
    ensures
        parse_values(line, cursor, acc) == if line[cursor + bytes.len()] == COMMA {
            parse_values(line, cursor + bytes.len() + 1, acc.push(decode_utf8(bytes)))
        } else {
            Ok((acc.push(decode_utf8(bytes)), cursor + bytes.len()))
        },
{
    let end = cursor + bytes.len();
    assert forall|j: int| cursor <= j < end implies #[trigger] line[j] != COMMA && line[j]
        != SEMICOLON && line[j] != COLON && line[j] != DQUOTE by {
        assert(line[j] == bytes[j - cursor]);
        assert(Charset::Safe.allows(bytes[j - cursor]));
    }
    lemma_find3_is(line, cursor, COMMA, SEMICOLON, COLON, end);
}

/// Where the first of the written values stands in a line that holds them
/// from `pre.len()` on, and what follows it.
proof fn lemma_first_value_place(pre: Seq<u8>, values: Seq<Seq<char>>, post: Seq<u8>)
    requires
        values.len() >= 1,
        post.len() > 0,
    ensures
        ({
            let line = pre + encode_utf8(format_values(values)) + post;
            let first = encode_utf8(format_value(values[0]));
            let end = pre.len() as int + first.len();
            &&& line.subrange(pre.len() as int, end) == first
            &&& end < line.len()
            &&& values.len() == 1 ==> line[end] == post[0]
            &&& values.len() > 1 ==> line[end] == COMMA && line == pre + first + seq![COMMA]
                + encode_utf8(format_values(values.drop_first())) + post
        }),
{
    let line = pre + encode_utf8(format_values(values)) + post;
    let first = encode_utf8(format_value(values[0]));
    let tail = encode_utf8(format_values(values.drop_first()));
    let end = pre.len() as int + first.len();
    lemma_values_bytes(values);
    if values.len() > 1 {
        assert(line =~= pre + first + (seq![COMMA] + tail + post));
        assert(line =~= pre + first + seq![COMMA] + tail + post);
    } else {
        assert(line =~= pre + first + post);
    }
    assert(line.subrange(pre.len() as int, end) =~= first);
}

/// Reading the first of the written values: where `line` holds from `cursor`
/// on a value as it is written and then another byte, reading values there
/// goes on behind a comma that follows, and ends behind the value if one of
/// `;` and `:` follows.
proof fn lemma_read_written(line: Seq<u8>, cursor: int, value: Seq<char>, acc: Seq<Seq<char>>)
    requires
        0 <= cursor,
        valid_value(value),
        cursor + encode_utf8(format_value(value)).len() < line.len(),
        line.subrange(cursor, cursor + encode_utf8(format_value(value)).len()) == encode_utf8(
            format_value(value),
        ),
        ({
            let next = line[cursor + encode_utf8(format_value(value)).len()];
            next == COMMA || next == SEMICOLON || next == COLON
        }),
    ensures
        ({
            let end = cursor + encode_utf8(format_value(value)).len();
            parse_values(line, cursor, acc) == if line[end] == COMMA {
                parse_values(line, end + 1, acc.push(value))
            } else {
                Ok((acc.push(value), end))
            }
        }),
{
    let bytes = encode_utf8(value);
    let first = encode_utf8(format_value(value));
    lemma_value_bytes(value);
    encode_utf8_decode_utf8(value);
    if needs_quotes(value) {
        assert(line[cursor] == DQUOTE && line.subrange(cursor + 1, cursor + 1 + bytes.len())
            == bytes && line[cursor + 1 + bytes.len()] == DQUOTE) by {
            assert(line[cursor] == first[0]);
            assert(line[cursor + 1 + bytes.len()] == first[1 + bytes.len() as int]);
            assert(line.subrange(cursor + 1, cursor + 1 + bytes.len()) =~= first.subrange(
                1,
                1 + bytes.len() as int,
            ));
            assert(first.subrange(1, 1 + bytes.len() as int) =~= bytes);
        }
        lemma_read_quoted(line, cursor, bytes, acc);
    } else {
        lemma_read_plain(line, cursor, bytes, acc);
    }
}

/// Written values are read back: in a line that holds them from `pre.len()`
/// on, followed by `;` or `:`, reading values there gives them and ends behind
/// them.
proof fn lemma_values_read_back(
    pre: Seq<u8>,
    values: Seq<Seq<char>>,
    post: Seq<u8>,
    acc: Seq<Seq<char>>,
)
    requires
        values.len() >= 1,
        forall|i: int| 0 <= i < values.len() ==> valid_value(#[trigger] values[i]),
        post.len() > 0,
        post[0] == SEMICOLON || post[0] == COLON,
    ensures
        parse_values(pre + encode_utf8(format_values(values)) + post, pre.len() as int, acc) == Ok::<
            _,
            Error,
        >((acc + values, pre.len() as int + encode_utf8(format_values(values)).len())),
    decreases values.len(),
{
    let line = pre + encode_utf8(format_values(values)) + post;
    let cursor = pre.len() as int;
    let value = values[0];
    let first = encode_utf8(format_value(value));
    let rest = values.drop_first();
    lemma_first_value_place(pre, values, post);
    lemma_read_written(line, cursor, value, acc);
    if values.len() > 1 {
        let next_pre = pre + first + seq![COMMA];
        assert forall|i: int| 0 <= i < rest.len() implies valid_value(#[trigger] rest[i]) by {
            assert(rest[i] == values[i + 1]);
        }
        lemma_values_read_back(next_pre, rest, post, acc.push(value));
        assert(acc.push(value) + rest =~= acc + values);
    } else {
        assert(acc.push(value) =~= acc + values);
    }
}

/// The bytes of written parameters: for the first one `;`, its name, `=` and
/// its values; then those of the others.
proof fn lemma_params_bytes(params: Seq<ParamView>)
    requires
        params.len() >= 1,
    ensures
        encode_utf8(format_params(params)) == seq![SEMICOLON] + encode_utf8(params[0].name) + seq![
            EQUALS,
        ] + encode_utf8(format_values(params[0].values)) + encode_utf8(
            format_params(params.drop_first()),
        ),
{
    let first = params[0];
    lemma_encode_concat(format_param(first), format_params(params.drop_first()));
    lemma_encode_concat(seq![';'] + first.name + seq!['='], format_values(first.values));
    lemma_encode_concat(seq![';'] + first.name, seq!['=']);
    lemma_encode_concat(seq![';'], first.name);
    lemma_encode_ascii(';');
    lemma_encode_ascii('=');
}

/// Written parameters are read back: in a line that holds them from
/// `pre.len()` on, followed by `:`, reading parameters there gives them and
/// ends behind them.
proof fn lemma_params_read_back(
    pre: Seq<u8>,
    params: Seq<ParamView>,
    post: Seq<u8>,
    acc: Seq<ParamView>,
)
    requires
        forall|i: int| 0 <= i < params.len() ==> (#[trigger] params[i]).valid(),
        post.len() > 0,
        post[0] == COLON,
    ensures
        parse_params(pre + encode_utf8(format_params(params)) + post, pre.len() as int, acc) == Ok::<
            _,
            Error,
        >((acc + params, pre.len() as int + encode_utf8(format_params(params)).len())),
    decreases params.len(),
{
    let written = encode_utf8(format_params(params));
    let line = pre + written + post;
    let cursor = pre.len() as int;
    if params.len() == 0 {
        assert(line[cursor] == post[0]);
        assert(acc + params == acc);
    } else {
        let first = params[0];
        let rest = params.drop_first();
        let name = encode_utf8(first.name);
        let values = encode_utf8(format_values(first.values));
        let tail = encode_utf8(format_params(rest));
        let after = tail + post;
        let values_pre = pre + seq![SEMICOLON] + name + seq![EQUALS];
        let next_pre = values_pre + values;
        let end = cursor + 1 + name.len();
        let next = next_pre.len() as int;
        assert(first.valid());
        assert(written == seq![SEMICOLON] + name + seq![EQUALS] + values + tail) by {
            lemma_params_bytes(params);
        }
        assert(after.len() > 0 && (after[0] == SEMICOLON || after[0] == COLON)) by {
            if rest.len() > 0 {
                lemma_params_bytes(rest);
            } else {
                assert(tail == Seq::<u8>::empty());
            }
        }
        assert(line == values_pre + values + after) by {
            assert(line =~= values_pre + values + after);
        }
        assert(line == next_pre + tail + post) by {
            assert(line =~= next_pre + tail + post);
        }
        assert(line[cursor] == SEMICOLON && find3(line, cursor + 1, EQUALS, EQUALS, EQUALS) == end
            && line.subrange(cursor + 1, end) == name) by {
            let opened = pre + seq![SEMICOLON];
            let assigned = seq![EQUALS] + values + after;
            assert(line =~= opened + name + assigned);
            assert forall|j: int| 0 <= j < name.len() implies #[trigger] name[j] != EQUALS by {
                assert(Charset::Name.allows(name[j]));
            }
            lemma_find3_across(opened, name, assigned, EQUALS, EQUALS, EQUALS);
        }
        assert(parse_values(line, end + 1, Seq::empty()) == Ok::<_, Error>((first.values, next)))
            by {
            lemma_values_read_back(values_pre, first.values, after, Seq::empty());
            assert(Seq::<Seq<char>>::empty() + first.values == first.values);
        }
        assert(parse_params(line, next, acc.push(first)) == Ok::<_, Error>(
            (acc + params, cursor + written.len()),
        )) by {
            assert forall|i: int| 0 <= i < rest.len() implies (#[trigger] rest[i]).valid() by {
                assert(rest[i] == params[i + 1]);
            }
            lemma_params_read_back(next_pre, rest, post, acc.push(first));
            assert(acc.push(first) + rest == acc + params);
        }
        assert(decode_utf8(name) == first.name) by {
            encode_utf8_decode_utf8(first.name);
        }
        assert(first == ParamView { name: first.name, values: first.values });
        assert(end < line.len());
        assert(Charset::Name.allows_all(name));
    }
}

/// The bytes of a written line: those of its name, of its parameters as
/// they are written, `:`, and those of its value.
pub proof fn lemma_line_bytes(line: ContentLineView)
    ensures
        encode_utf8(format_line(line)) == encode_utf8(line.name) + encode_utf8(
            format_params(line.params),
        ) + seq![COLON] + encode_utf8(line.value),
{
    lemma_encode_concat(line.name + format_params(line.params) + seq![':'], line.value);
    lemma_encode_concat(line.name + format_params(line.params), seq![':']);
    lemma_encode_concat(line.name, format_params(line.params));
    lemma_encode_ascii(':');
}

/// Written values hold no control byte other than TAB, if the values hold
/// none.
proof fn lemma_values_plain(values: Seq<Seq<char>>)
    requires
        forall|i: int| 0 <= i < values.len() ==> valid_value(#[trigger] values[i]),
    ensures
        Charset::Value.allows_all(encode_utf8(format_values(values))),
    decreases values.len(),
{
    if values.len() == 0 {
        assert(encode_utf8(format_values(values)).len() == 0);
    } else {
        let value = values[0];
        let bytes = encode_utf8(value);
        let first = encode_utf8(format_value(value));
        let rest = values.drop_first();
        let tail = encode_utf8(format_values(rest));
        let written = encode_utf8(format_values(values));
        lemma_values_bytes(values);
        lemma_value_bytes(value);
        assert(valid_value(value));
        assert forall|j: int| 0 <= j < first.len() implies Charset::Value.allows(
            #[trigger] first[j],
        ) by {
            if needs_quotes(value) {
                if 0 < j <= bytes.len() {
                    assert(first[j] == bytes[j - 1]);
                    assert(Charset::QuotedSafe.allows(bytes[j - 1]));
                }
            } else {
                assert(Charset::Safe.allows(bytes[j]));
            }
        }
        if values.len() > 1 {
            assert forall|i: int| 0 <= i < rest.len() implies valid_value(#[trigger] rest[i]) by {
                assert(rest[i] == values[i + 1]);
            }
            lemma_values_plain(rest);
            assert forall|j: int| 0 <= j < written.len() implies Charset::Value.allows(
                #[trigger] written[j],
            ) by {
                if j < first.len() {
                    assert(written[j] == first[j]);
                } else if j > first.len() {
                    assert(written[j] == tail[j - first.len() - 1]);
                }
            }
        }
    }
}

/// Written parameters hold no control byte other than TAB, if the parameters
/// are valid; and they start with `;` if there is one.
proof fn lemma_params_plain(params: Seq<ParamView>)
    requires
        forall|i: int| 0 <= i < params.len() ==> (#[trigger] params[i]).valid(),
    ensures
        Charset::Value.allows_all(encode_utf8(format_params(params))),
        params.len() > 0 ==> encode_utf8(format_params(params)).len() > 0 && encode_utf8(
            format_params(params),
        )[0] == SEMICOLON,
        params.len() == 0 ==> encode_utf8(format_params(params)).len() == 0,
    decreases params.len(),
{
    if params.len() > 0 {
        let first = params[0];
        let rest = params.drop_first();
        let name = encode_utf8(first.name);
        let values = encode_utf8(format_values(first.values));
        let tail = encode_utf8(format_params(rest));
        let written = encode_utf8(format_params(params));
        lemma_params_bytes(params);
        assert(first.valid());
        lemma_values_plain(first.values);
        assert forall|i: int| 0 <= i < rest.len() implies (#[trigger] rest[i]).valid() by {
            assert(rest[i] == params[i + 1]);
        }
        lemma_params_plain(rest);
        let head = seq![SEMICOLON] + name + seq![EQUALS];
        assert(written =~= head + values + tail);
        assert forall|j: int| 0 <= j < written.len() implies Charset::Value.allows(
            #[trigger] written[j],
        ) by {
            if 0 < j <= name.len() {
                assert(written[j] == name[j - 1]);
                assert(Charset::Name.allows(name[j - 1]));
            } else if head.len() <= j < head.len() + values.len() {
                assert(written[j] == values[j - head.len()]);
            } else if j >= head.len() + values.len() {
                assert(written[j] == tail[j - head.len() - values.len()]);
            }
        }
    }
}

/// A valid line as it is written is not empty, does not start with SPACE or
/// TAB, and holds no control byte other than TAB.
pub proof fn lemma_line_plain(line: ContentLineView)
    requires
        line.valid(),
    ensures
        encode_utf8(format_line(line)).len() > 0,
        encode_utf8(format_line(line))[0] != SPACE,
        encode_utf8(format_line(line))[0] != TAB,
        Charset::Value.allows_all(encode_utf8(format_line(line))),
{
    let name = encode_utf8(line.name);
    let params = encode_utf8(format_params(line.params));
    let value = encode_utf8(line.value);
    let bytes = encode_utf8(format_line(line));
    lemma_line_bytes(line);
    lemma_params_plain(line.params);
    let head = name + params;
    assert(bytes =~= head + seq![COLON] + value);
    assert forall|j: int| 0 <= j < bytes.len() implies Charset::Value.allows(
        #[trigger] bytes[j],
    ) by {
        if j < name.len() {
            assert(bytes[j] == name[j]);
            assert(Charset::Name.allows(name[j]));
        } else if j < head.len() {
            assert(bytes[j] == params[j - name.len()]);
        } else if j > head.len() {
            assert(bytes[j] == value[j - head.len() - 1]);
        }
    }
    if name.len() > 0 {
        assert(bytes[0] == name[0]);
        assert(Charset::Name.allows(name[0]));
    } else if params.len() > 0 {
        assert(bytes[0] == params[0]);
    }
}

/// A valid content line that is written and read again is the line it was.
pub proof fn lemma_line_read_back(line: ContentLineView)
    requires
        line.valid(),
    ensures
        parse_line(format_line(line)) == Ok::<ContentLineView, Error>(line),
{
    let name = encode_utf8(line.name);
    let params = encode_utf8(format_params(line.params));
    let value = encode_utf8(line.value);
    let bytes = encode_utf8(format_line(line));
    lemma_line_bytes(line);
    encode_utf8_decode_utf8(line.name);
    encode_utf8_decode_utf8(line.value);
    let after = params + seq![COLON] + value;
    assert(bytes == name + params + seq![COLON] + value);
    assert(after.len() > 0 && (after[0] == SEMICOLON || after[0] == COLON)) by {
        if line.params.len() > 0 {
            lemma_params_bytes(line.params);
        } else {
            assert(params == Seq::<u8>::empty());
        }
    }
    assert forall|j: int| 0 <= j < name.len() implies #[trigger] name[j] != SEMICOLON && name[j]
        != COLON by {
        assert(Charset::Name.allows(name[j]));
    }
    assert(bytes == Seq::<u8>::empty() + name + after);
    lemma_find3_across(Seq::empty(), name, after, SEMICOLON, COLON, COLON);
    let post = seq![COLON] + value;
    assert(bytes == name + params + post);
    lemma_params_read_back(name, line.params, post, Seq::empty());
    assert(Seq::<ParamView>::empty() + line.params == line.params);
    let cursor = name.len() as int + params.len();
    assert(bytes[cursor] == COLON);
    assert(bytes.subrange(cursor + 1, bytes.len() as int) == value);
    assert(line == ContentLineView { name: line.name, params: line.params, value: line.value });
}

} // verus!
