//! Content lines: `name *(";" param) ":" value`, where a parameter is
//! `name "=" value *("," value)` and a parameter value is either quoted or
//! free of `"`, `;`, `:` and `,`.

use vstd::prelude::*;
use vstd::slice::slice_subrange;
use vstd::string::StringExecFns;
use vstd::utf8::*;
use crate::charset::{Charset, lemma_first_rejected, COLON, COMMA, DQUOTE, EQUALS, SEMICOLON};
use crate::error::{viewed, Error, GrammarRule};
use crate::scan::{find1, find2, find3, lemma_find3, seek1, seek2, seek3};
use crate::text::lemma_valid_between;

verus! {

/// One parameter of a content line: a name and its values.
#[derive(Debug, PartialEq, Eq, Clone)]
pub struct Param {
    name: String,
    values: Vec<String>,
}

/// One logical line: a name, parameters, and a value.
#[derive(Debug, PartialEq, Eq, Clone)]
pub struct ContentLine {
    pub name: String,
    pub params: Vec<Param>,
    pub value: String,
}

/// What a `Param` holds.
pub struct ParamView {
    pub name: Seq<char>,
    pub values: Seq<Seq<char>>,
}

/// What a `ContentLine` holds.
pub struct ContentLineView {
    pub name: Seq<char>,
    pub params: Seq<ParamView>,
    pub value: Seq<char>,
}

/// The texts that strings hold.
pub open spec fn texts(strings: Seq<String>) -> Seq<Seq<char>> {
    strings.map_values(|s: String| s@)
}

/// What parameters hold.
pub open spec fn param_views(params: Seq<Param>) -> Seq<ParamView> {
    params.map_values(|p: Param| p@)
}

impl View for Param {
    type V = ParamView;

    closed spec fn view(&self) -> ParamView {
        ParamView { name: self.name@, values: texts(self.values@) }
    }
}

impl View for ContentLine {
    type V = ContentLineView;

    open spec fn view(&self) -> ContentLineView {
        ContentLineView {
            name: self.name@,
            params: param_views(self.params@),
            value: self.value@,
        }
    }
}

/// Whether a parameter value can be written and read again: it holds no `"`
/// and no control byte other than TAB, and no TAB if it is written without
/// quotes.
pub open spec fn valid_value(value: Seq<char>) -> bool {
    if needs_quotes(value) {
        Charset::QuotedSafe.allows_all(encode_utf8(value))
    } else {
        Charset::Safe.allows_all(encode_utf8(value))
    }
}

impl ParamView {
    /// Whether the parameter is as the grammar has it: its name is a name,
    /// it has a value, and no value holds `"` or a control byte other than
    /// TAB.
    pub open spec fn conforms(self) -> bool {
        &&& Charset::Name.allows_all(encode_utf8(self.name))
        &&& self.values.len() >= 1
        &&& forall|i: int|
            0 <= i < self.values.len() ==> Charset::QuotedSafe.allows_all(
                encode_utf8(#[trigger] self.values[i]),
            )
    }

    /// Whether the parameter can be written and read again: its name is a
    /// name, it has a value, and each value can be written and read again.
    pub open spec fn valid(self) -> bool {
        &&& Charset::Name.allows_all(encode_utf8(self.name))
        &&& self.values.len() >= 1
        &&& forall|i: int| 0 <= i < self.values.len() ==> valid_value(#[trigger] self.values[i])
    }
}

impl ContentLineView {
    /// Whether the line is as the grammar has it: its name is a name, its
    /// parameters conform, and its value holds no control byte other than
    /// TAB. No text of such a line holds CR or LF.
    pub open spec fn conforms(self) -> bool {
        &&& Charset::Name.allows_all(encode_utf8(self.name))
        &&& forall|i: int| 0 <= i < self.params.len() ==> (#[trigger] self.params[i]).conforms()
        &&& Charset::Value.allows_all(encode_utf8(self.value))
    }

    /// Whether the line can be written and read again: its name is a name,
    /// its parameters are valid, and its value holds no control byte other
    /// than TAB.
    pub open spec fn valid(self) -> bool {
        &&& Charset::Name.allows_all(encode_utf8(self.name))
        &&& forall|i: int| 0 <= i < self.params.len() ==> (#[trigger] self.params[i]).valid()
        &&& Charset::Value.allows_all(encode_utf8(self.value))
    }
}

impl Param {
    /// A parameter of this name and these values, whatever they hold.
    pub fn new(name: String, values: Vec<String>) -> (r: Self)
        ensures
            r@ == (ParamView { name: name@, values: texts(values@) }),
    {
        Self { name, values }
    }

    /// The parameter's name.
    pub fn name(&self) -> (r: &String)
        ensures
            r@ == self@.name,
    {
        &self.name
    }

    /// The parameter's values.
    pub fn values(&self) -> (r: &Vec<String>)
        ensures
            texts(r@) == self@.values,
    {
        &self.values
    }
}

impl ContentLine {
    /// A line of this name, these parameters and this value, whatever they
    /// hold.
    pub fn new(name: String, params: Vec<Param>, value: String) -> (r: Self)
        ensures
            r == (ContentLine { name, params, value }),
    {
        Self { name, params, value }
    }
}

/// A breach of the grammar at byte `at` of a line.
pub open spec fn breach(rule: GrammarRule, at: int) -> Error {
    Error::GrammarViolation { rule, at: at as usize }
}

/// The text that `bytes` stand for, if `charset` holds them all; else the
/// failure by `rule` at the first byte that it does not hold.
pub open spec fn checked_text(bytes: Seq<u8>, charset: Charset, rule: GrammarRule) -> Result<
    Seq<char>,
    Error,
> {
    if !charset.allows_all(bytes) {
        Err(breach(rule, charset.first_rejected(bytes, 0)))
    } else if !valid_utf8(bytes) {
        Err(Error::EncodingFailure { at: 0 })
    } else {
        Ok(decode_utf8(bytes))
    }
}

/// The values of a parameter, read from `cursor` on, after those in `acc`; and
/// the place after the last of them.
pub open spec fn parse_values(line: Seq<u8>, cursor: int, acc: Seq<Seq<char>>) -> Result<
    (Seq<Seq<char>>, int),
    Error,
>
    decreases line.len() - cursor,
    when cursor >= 0
{
    if cursor < line.len() && line[cursor] == DQUOTE {
        let end = find1(line, cursor + 1, DQUOTE);
        let text = line.subrange(cursor + 1, end);
        if end >= line.len() {
            Err(breach(GrammarRule::MissingClosingQuote, cursor + 1))
        } else if !Charset::QuotedSafe.allows_all(text) {
            Err(
                breach(
                    GrammarRule::InvalidQuotedSafe,
                    cursor + 1 + Charset::QuotedSafe.first_rejected(text, 0),
                ),
            )
        } else if end + 1 < line.len() && line[end + 1] == COMMA {
            proof {
                lemma_find3(line, cursor + 1, DQUOTE, DQUOTE, DQUOTE);
            }
            parse_values(line, end + 2, acc.push(decode_utf8(text)))
        } else {
            Ok((acc.push(decode_utf8(text)), end + 1))
        }
    } else {
        let end = find3(line, cursor, COMMA, SEMICOLON, COLON);
        let text = line.subrange(cursor, end);
        if end >= line.len() {
            Err(breach(GrammarRule::MissingValueEnd, cursor))
        } else if !Charset::Safe.allows_all(text) {
            Err(breach(GrammarRule::InvalidSafe, cursor + Charset::Safe.first_rejected(text, 0)))
        } else if line[end] == COMMA {
            proof {
                lemma_find3(line, cursor, COMMA, SEMICOLON, COLON);
            }
            parse_values(line, end + 1, acc.push(decode_utf8(text)))
        } else {
            Ok((acc.push(decode_utf8(text)), end))
        }
    }
}

/// The parameters read from `cursor` on, after those in `acc`; and the place
/// after the last of them. A parameter starts with `;`.
pub open spec fn parse_params(line: Seq<u8>, cursor: int, acc: Seq<ParamView>) -> Result<
    (Seq<ParamView>, int),
    Error,
>
    decreases line.len() - cursor,
    when cursor >= 0
{
    if cursor < line.len() && line[cursor] == SEMICOLON {
        let end = find1(line, cursor + 1, EQUALS);
        let name = line.subrange(cursor + 1, end);
        if end >= line.len() {
            Err(breach(GrammarRule::MissingEquals, cursor + 1))
        } else if !Charset::Name.allows_all(name) {
            Err(
                breach(
                    GrammarRule::InvalidName,
                    cursor + 1 + Charset::Name.first_rejected(name, 0),
                ),
            )
        } else {
            match parse_values(line, end + 1, Seq::empty()) {
                Err(e) => Err(e),
                Ok((values, next)) => {
                    proof {
                        lemma_find3(line, cursor + 1, EQUALS, EQUALS, EQUALS);
                        lemma_values_advance(line, end + 1, Seq::empty());
                    }
                    parse_params(
                        line,
                        next,
                        acc.push(ParamView { name: decode_utf8(name), values }),
                    )
                },
            }
        }
    } else {
        Ok((acc, cursor))
    }
}

/// The content line that the bytes of a logical line stand for.
pub open spec fn parse_bytes(line: Seq<u8>) -> Result<ContentLineView, Error> {
    let name_end = find2(line, 0, SEMICOLON, COLON);
    let name = line.subrange(0, name_end);
    if name_end >= line.len() {
        Err(breach(GrammarRule::MissingNameEnd, 0))
    } else if !Charset::Name.allows_all(name) {
        Err(breach(GrammarRule::InvalidName, Charset::Name.first_rejected(name, 0)))
    } else {
        match parse_params(line, name_end, Seq::empty()) {
            Err(e) => Err(e),
            Ok((params, cursor)) => {
                let value = line.subrange(cursor + 1, line.len() as int);
                if cursor >= line.len() || line[cursor] != COLON {
                    Err(breach(GrammarRule::MissingColon, cursor))
                } else if !Charset::Value.allows_all(value) {
                    Err(
                        breach(
                            GrammarRule::InvalidValue,
                            cursor + 1 + Charset::Value.first_rejected(value, 0),
                        ),
                    )
                } else {
                    Ok(ContentLineView { name: decode_utf8(name), params, value: decode_utf8(value) })
                }
            },
        }
    }
}

/// The content line that a logical line stands for.
pub open spec fn parse_line(text: Seq<char>) -> Result<ContentLineView, Error> {
    parse_bytes(encode_utf8(text))
}

/// Reading values ends after the place where it starts, at a byte of the
/// line, and that byte is not a comma.
pub proof fn lemma_values_advance(line: Seq<u8>, cursor: int, acc: Seq<Seq<char>>)
    requires
        0 <= cursor <= line.len(),
    ensures
        parse_values(line, cursor, acc) matches Ok((values, next)) ==> cursor <= next <= line.len()
            && values.len() > acc.len(),
    decreases line.len() - cursor,
{
    if cursor < line.len() && line[cursor] == DQUOTE {
        let end = find1(line, cursor + 1, DQUOTE);
        let text = line.subrange(cursor + 1, end);
        lemma_find3(line, cursor + 1, DQUOTE, DQUOTE, DQUOTE);
        if end < line.len() && Charset::QuotedSafe.allows_all(text) && end + 1 < line.len()
            && line[end + 1] == COMMA {
            lemma_values_advance(line, end + 2, acc.push(decode_utf8(text)));
        }
    } else {
        let end = find3(line, cursor, COMMA, SEMICOLON, COLON);
        let text = line.subrange(cursor, end);
        lemma_find3(line, cursor, COMMA, SEMICOLON, COLON);
        if end < line.len() && Charset::Safe.allows_all(text) && line[end] == COMMA {
            lemma_values_advance(line, end + 1, acc.push(decode_utf8(text)));
        }
    }
}

/// Whether a parameter value is written in quotes: whether it holds `;`, `:`
/// or `,`.
pub open spec fn needs_quotes(value: Seq<char>) -> bool {
    find3(encode_utf8(value), 0, SEMICOLON, COLON, COMMA) < encode_utf8(value).len()
}

/// A parameter value as it is written.
pub open spec fn format_value(value: Seq<char>) -> Seq<char> {
    if needs_quotes(value) {
        seq!['"'] + value + seq!['"']
    } else {
        value
    }
}

/// Parameter values as they are written after the first one: each after a
/// comma.
pub open spec fn format_more_values(values: Seq<Seq<char>>) -> Seq<char>
    decreases values.len(),
{
    if values.len() == 0 {
        Seq::empty()
    } else {
        seq![','] + format_value(values[0]) + format_more_values(values.drop_first())
    }
}

/// The values of a parameter as they are written: separated by commas.
pub open spec fn format_values(values: Seq<Seq<char>>) -> Seq<char> {
    if values.len() == 0 {
        Seq::empty()
    } else {
        format_value(values[0]) + format_more_values(values.drop_first())
    }
}

/// A parameter as it is written: `;`, its name, `=`, its values.
pub open spec fn format_param(param: ParamView) -> Seq<char> {
    seq![';'] + param.name + seq!['='] + format_values(param.values)
}

/// Parameters as they are written, one after the other.
pub open spec fn format_params(params: Seq<ParamView>) -> Seq<char>
    decreases params.len(),
{
    if params.len() == 0 {
        Seq::empty()
    } else {
        format_param(params[0]) + format_params(params.drop_first())
    }
}

/// A content line as it is written: its name, its parameters, `:`, its
/// value.
pub open spec fn format_line(line: ContentLineView) -> Seq<char> {
    line.name + format_params(line.params) + seq![':'] + line.value
}

/// Checks `bytes` against `charset` and makes a string of them.
fn build(bytes: &[u8], charset: Charset, rule: GrammarRule) -> (r: Result<String, Error>)
    ensures
        viewed(r) == checked_text(bytes@, charset, rule),
{
    match charset.find_rejected(bytes) {
        Some(i) => Err(Error::GrammarViolation { rule, at: i }),
        None => match core::str::from_utf8(bytes) {
            Ok(s) => {
                proof {
                    encode_utf8_decode_utf8(s@);
                }
                Ok(s.to_owned())
            },
            Err(_) => Err(Error::EncodingFailure { at: 0 }),
        },
    }
}

/// A line name or parameter name: ASCII letters, ASCII digits and `-`.
pub fn build_name(name: &[u8]) -> (r: Result<String, Error>)
    ensures
        viewed(r) == checked_text(name@, Charset::Name, GrammarRule::InvalidName),
{
    build(name, Charset::Name, GrammarRule::InvalidName)
}

/// A quoted parameter value: no control byte but TAB, no `"`.
pub fn build_qsafe(value: &[u8]) -> (r: Result<String, Error>)
    ensures
        viewed(r) == checked_text(
            value@,
            Charset::QuotedSafe,
            GrammarRule::InvalidQuotedSafe,
        ),
{
    build(value, Charset::QuotedSafe, GrammarRule::InvalidQuotedSafe)
}

/// An unquoted parameter value: no control byte, no `"`, `;`, `:` or `,`.
pub fn build_safe(value: &[u8]) -> (r: Result<String, Error>)
    ensures
        viewed(r) == checked_text(value@, Charset::Safe, GrammarRule::InvalidSafe),
{
    build(value, Charset::Safe, GrammarRule::InvalidSafe)
}

/// A line value: no control byte but TAB.
pub fn build_value(value: &[u8]) -> (r: Result<String, Error>)
    ensures
        viewed(r) == checked_text(value@, Charset::Value, GrammarRule::InvalidValue),
{
    build(value, Charset::Value, GrammarRule::InvalidValue)
}

/// The failure of a field that starts at byte `base` of its line, with its
/// place counted from the start of the line.
fn within_line(r: Result<String, Error>, base: usize) -> (out: Result<String, Error>)
    requires
        r matches Err(Error::GrammarViolation { at, .. }) ==> at + base <= usize::MAX,
    ensures
        match r {
            Ok(s) => out == Ok::<String, Error>(s),
            Err(Error::GrammarViolation { rule, at }) => out == Err::<String, Error>(
                Error::GrammarViolation { rule, at: (at + base) as usize },
            ),
            Err(e) => out == Err::<String, Error>(e),
        },
{
    match r {
        Ok(s) => Ok(s),
        Err(Error::GrammarViolation { rule, at }) => Err(
            Error::GrammarViolation { rule, at: at + base },
        ),
        Err(e) => Err(e),
    }
}

/// Whether `at` is the start of `bytes` or the place behind an ASCII byte: a
/// place where valid UTF-8 can be cut.
pub open spec fn cut_after_ascii(bytes: Seq<u8>, at: int) -> bool {
    at == 0 || (0 < at <= bytes.len() && bytes[at - 1] < 128)
}

/// Reads the values of one parameter from `cursor` on.
fn read_values(bytes: &[u8], cursor: usize) -> (r: Result<(Vec<String>, usize), Error>)
    requires
        valid_utf8(bytes@),
        cursor <= bytes@.len(),
        cut_after_ascii(bytes@, cursor as int),
    ensures
        match r {
            Ok((values, next)) => parse_values(bytes@, cursor as int, Seq::empty()) == Ok::<
                _,
                Error,
            >((texts(values@), next as int)) && cursor <= next <= bytes@.len(),
            Err(e) => parse_values(bytes@, cursor as int, Seq::empty()) == Err::<
                (Seq<Seq<char>>, int),
                _,
            >(e),
        },
{
    let len: usize = bytes.len();
    let mut values: Vec<String> = Vec::new();
    let mut cur: usize = cursor;
    assert(texts(values@) == Seq::<Seq<char>>::empty());
    loop
        invariant
            valid_utf8(bytes@),
            len == bytes@.len(),
            cursor <= cur <= len,
            cut_after_ascii(bytes@, cur as int),
            parse_values(bytes@, cur as int, texts(values@)) == parse_values(
                bytes@,
                cursor as int,
                Seq::empty(),
            ),
        decreases len - cur,
    {
        let ghost before = texts(values@);
        if cur < len && bytes[cur] == DQUOTE {
            let start: usize = cur + 1;
            let end: usize = seek1(bytes, start, DQUOTE);
            if end >= len {
                return Err(Error::GrammarViolation { rule: GrammarRule::MissingClosingQuote, at: start });
            }
            proof {
                lemma_find3(bytes@, start as int, DQUOTE, DQUOTE, DQUOTE);
                lemma_valid_between(bytes@, start as int, end as int);
                lemma_first_rejected(
                    Charset::QuotedSafe,
                    bytes@.subrange(start as int, end as int),
                    0,
                );
            }
            let text = match within_line(build_qsafe(slice_subrange(bytes, start, end)), start) {
                Ok(text) => text,
                Err(e) => {
                    return Err(e);
                },
            };
            values.push(text);
            assert(texts(values@) == before.push(text@));
            if end + 1 < len && bytes[end + 1] == COMMA {
                cur = end + 2;
            } else {
                return Ok((values, end + 1));
            }
        } else {
            let end: usize = seek3(bytes, cur, COMMA, SEMICOLON, COLON);
            if end >= len {
                return Err(Error::GrammarViolation { rule: GrammarRule::MissingValueEnd, at: cur });
            }
            proof {
                lemma_find3(bytes@, cur as int, COMMA, SEMICOLON, COLON);
                lemma_valid_between(bytes@, cur as int, end as int);
                lemma_first_rejected(Charset::Safe, bytes@.subrange(cur as int, end as int), 0);
            }
            let text = match within_line(build_safe(slice_subrange(bytes, cur, end)), cur) {
                Ok(text) => text,
                Err(e) => {
                    return Err(e);
                },
            };
            values.push(text);
            assert(texts(values@) == before.push(text@));
            if bytes[end] == COMMA {
                cur = end + 1;
            } else {
                return Ok((values, end));
            }
        }
    }
}

/// Reads the parameters of a line from `cursor` on.
fn read_params(bytes: &[u8], cursor: usize) -> (r: Result<(Vec<Param>, usize), Error>)
    requires
        valid_utf8(bytes@),
        cursor <= bytes@.len(),
    ensures
        match r {
            Ok((params, next)) => parse_params(bytes@, cursor as int, Seq::empty()) == Ok::<
                _,
                Error,
            >((param_views(params@), next as int)) && cursor <= next <= bytes@.len(),
            Err(e) => parse_params(bytes@, cursor as int, Seq::empty()) == Err::<
                (Seq<ParamView>, int),
                _,
            >(e),
        },
{
    let len: usize = bytes.len();
    let mut params: Vec<Param> = Vec::new();
    let mut cur: usize = cursor;
    assert(param_views(params@) == Seq::<ParamView>::empty());
    while cur < len && bytes[cur] == SEMICOLON
        invariant
            valid_utf8(bytes@),
            len == bytes@.len(),
            cursor <= cur <= len,
            parse_params(bytes@, cur as int, param_views(params@)) == parse_params(
                bytes@,
                cursor as int,
                Seq::empty(),
            ),
        decreases len - cur,
    {
        let ghost before = param_views(params@);
        let start: usize = cur + 1;
        let end: usize = seek1(bytes, start, EQUALS);
        if end >= len {
            return Err(Error::GrammarViolation { rule: GrammarRule::MissingEquals, at: start });
        }
        proof {
            lemma_find3(bytes@, start as int, EQUALS, EQUALS, EQUALS);
            lemma_valid_between(bytes@, start as int, end as int);
            lemma_first_rejected(Charset::Name, bytes@.subrange(start as int, end as int), 0);
        }
        let name = match within_line(build_name(slice_subrange(bytes, start, end)), start) {
            Ok(name) => name,
            Err(e) => {
                return Err(e);
            },
        };
        let (values, next) = match read_values(bytes, end + 1) {
            Ok(read) => read,
            Err(e) => {
                return Err(e);
            },
        };
        let param = Param::new(name, values);
        params.push(param);
        assert(param_views(params@) == before.push(param@));
        cur = next;
    }
    Ok((params, cur))
}

/// Writes one parameter value, in quotes if it needs them.
fn write_value(out: &mut String, value: &String)
    ensures
        final(out)@ == old(out)@ + format_value(value@),
{
    let bytes = value.as_str().as_bytes();
    if seek3(bytes, 0, SEMICOLON, COLON, COMMA) < bytes.len() {
        out.push('"');
        out.append(value.as_str());
        out.push('"');
        assert(out@ == old(out)@ + (seq!['"'] + value@ + seq!['"']));
    } else {
        out.append(value.as_str());
    }
}

/// Writes the values of one parameter, separated by commas.
fn write_values(out: &mut String, values: &Vec<String>)
    ensures
        final(out)@ == old(out)@ + format_values(texts(values@)),
{
    let ghost all = texts(values@);
    let mut j: usize = 0;
    while j < values.len()
        invariant
            j <= values@.len(),
            all == texts(values@),
            old(out)@ + format_values(all) == out@ + if j == 0 {
                format_values(all)
            } else {
                format_more_values(all.skip(j as int))
            },
        decreases values@.len() - j,
    {
        let ghost before = out@;
        if j > 0 {
            out.push(',');
        }
        write_value(out, &values[j]);
        proof {
            assert(all.skip(j as int).drop_first() == all.skip(j + 1));
            assert(all.skip(0) == all);
            assert(all[j as int] == values@[j as int]@);
            if j == 0 {
                assert(out@ + format_more_values(all.skip(1)) == before + format_values(all));
            } else {
                assert(out@ + format_more_values(all.skip(j + 1)) == before + format_more_values(
                    all.skip(j as int),
                ));
            }
        }
        j = j + 1;
    }
    assert(all.skip(values@.len() as int).len() == 0);
    assert(out@ + Seq::<char>::empty() == out@);
}

impl ContentLine {
    /// Writes the line: its name, then `;name=values` for each parameter,
    /// then `:` and its value.
    pub fn to_string(&self) -> (out: String)
        ensures
            out@ == format_line(self@),
    {
        let ghost params = param_views(self.params@);
        let mut out = String::new();
        out.append(self.name.as_str());
        assert(out@ == self.name@);
        assert(params.skip(0) == params);
        let mut i: usize = 0;
        while i < self.params.len()
            invariant
                i <= self.params@.len(),
                params == param_views(self.params@),
                out@ + format_params(params.skip(i as int)) == self.name@ + format_params(params),
            decreases self.params@.len() - i,
        {
            let ghost before = out@;
            let param = &self.params[i];
            out.push(';');
            out.append(param.name.as_str());
            out.push('=');
            write_values(&mut out, &param.values);
            proof {
                assert(params.skip(i as int).drop_first() == params.skip(i + 1));
                assert(params[i as int] == param@);
                assert(out@ == before + format_param(param@));
                assert(out@ + format_params(params.skip(i + 1)) == before + format_params(
                    params.skip(i as int),
                ));
            }
            i = i + 1;
        }
        assert(params.skip(self.params@.len() as int).len() == 0);
        assert(out@ + Seq::<char>::empty() == out@);
        out.push(':');
        out.append(self.value.as_str());
        out
    }

    /// Reads one logical line.
    pub fn from_str(raw_line: &str) -> (r: Result<ContentLine, Error>)
        ensures
            viewed(r) == parse_line(raw_line@),
    {
        let bytes = raw_line.as_bytes();
        let len: usize = bytes.len();
        proof {
            encode_utf8_valid_utf8(raw_line@);
        }
        let name_end: usize = seek2(bytes, 0, SEMICOLON, COLON);
        if name_end >= len {
            return Err(Error::GrammarViolation { rule: GrammarRule::MissingNameEnd, at: 0 });
        }
        proof {
            lemma_find3(bytes@, 0, SEMICOLON, COLON, COLON);
            lemma_valid_between(bytes@, 0, name_end as int);
            lemma_first_rejected(Charset::Name, bytes@.subrange(0, name_end as int), 0);
        }
        let name = match within_line(build_name(slice_subrange(bytes, 0, name_end)), 0) {
            Ok(name) => name,
            Err(e) => {
                return Err(e);
            },
        };
        let (params, cursor) = match read_params(bytes, name_end) {
            Ok(read) => read,
            Err(e) => {
                return Err(e);
            },
        };
        if cursor >= len || bytes[cursor] != COLON {
            return Err(Error::GrammarViolation { rule: GrammarRule::MissingColon, at: cursor });
        }
        proof {
            lemma_valid_between(bytes@, cursor + 1, len as int);
            lemma_first_rejected(Charset::Value, bytes@.subrange(cursor + 1, len as int), 0);
        }
        let value = match within_line(build_value(slice_subrange(bytes, cursor + 1, len)), cursor + 1) {
            Ok(value) => value,
            Err(e) => {
                return Err(e);
            },
        };
        Ok(ContentLine { name, params, value })
    }
}

} // verus!
