//! An object that is written is read back as it was.

use vstd::prelude::*;
use vstd::utf8::*;
use crate::charset::{Charset, CR, LF};
use crate::content_line::{format_line, format_params, ContentLineView, ParamView};
use crate::error::Error;
use crate::fold_round_trip::{
    all_ok,
    default_widths,
    lemma_fold_wide,
    lemma_rendered_concat,
    lemma_unfold_rendered,
    rendered,
    unfoldable,
};
use crate::ical_object::{
    build_body,
    build_object,
    content_lines,
    crlf,
    format_object,
    format_objects,
    format_properties,
    is_begin,
    is_end,
    parse_object,
    parsed,
    ICalObjectView,
};
use crate::line_round_trip::{lemma_line_plain, lemma_line_read_back};
use crate::unfold::unfold;

verus! {

/// The `BEGIN` line of an object of the type `object_type`.
pub open spec fn begin_line(object_type: Seq<char>) -> ContentLineView {
    ContentLineView {
        name: seq!['B', 'E', 'G', 'I', 'N'],
        params: Seq::empty(),
        value: object_type,
    }
}

/// The `END` line of an object of the type `object_type`.
pub open spec fn end_line(object_type: Seq<char>) -> ContentLineView {
    ContentLineView { name: seq!['E', 'N', 'D'], params: Seq::empty(), value: object_type }
}

/// The content lines of an object in the order in which they are written:
/// its `BEGIN` line, its own lines, the lines of the objects nested in it,
/// its `END` line.
pub open spec fn flatten(object: ICalObjectView) -> Seq<ContentLineView>
    decreases object,
{
    seq![begin_line(object.object_type)] + object.properties + flatten_all(object.sub_objects)
        + seq![end_line(object.object_type)]
}

/// The content lines of objects that are written one after the other.
pub open spec fn flatten_all(objects: Seq<ICalObjectView>) -> Seq<ContentLineView>
    decreases objects,
{
    if objects.len() == 0 {
        Seq::empty()
    } else {
        flatten(objects[0]) + flatten_all(objects.drop_first())
    }
}

/// Whether a line can stand in an object and be read back from there: it is
/// valid, and its name is neither `BEGIN` nor `END`.
pub open spec fn valid_property(line: ContentLineView) -> bool {
    line.valid() && !is_begin(line.name) && !is_end(line.name)
}

/// Whether an object can be written and read again: its type holds no
/// control byte other than TAB, its lines are valid lines of other names than
/// `BEGIN` and `END`, and the objects nested in it can be written and read
/// again.
pub open spec fn valid_object(object: ICalObjectView) -> bool
    decreases object,
{
    &&& Charset::Value.allows_all(encode_utf8(object.object_type))
    &&& forall|i: int|
        0 <= i < object.properties.len() ==> valid_property(#[trigger] object.properties[i])
    &&& forall|i: int|
        0 <= i < object.sub_objects.len() ==> valid_object(#[trigger] object.sub_objects[i])
}

/// The lines as items that did not fail.
pub open spec fn all_read(lines: Seq<ContentLineView>) -> Seq<Result<ContentLineView, Error>> {
    lines.map_values(|line: ContentLineView| Ok::<ContentLineView, Error>(line))
}

/// `BEGIN` is a name that opens an object and does not close one; `END` is a
/// name that closes one.
proof fn lemma_keywords()
    ensures
        is_begin(seq!['B', 'E', 'G', 'I', 'N']),
        !is_end(seq!['B', 'E', 'G', 'I', 'N']),
        is_end(seq!['E', 'N', 'D']),
{
    let begin = seq!['B', 'E', 'G', 'I', 'N'];
    let end = seq!['E', 'N', 'D'];
    assert(is_ascii_chars(begin));
    assert(is_ascii_chars(end));
    is_ascii_chars_encode_utf8(begin);
    is_ascii_chars_encode_utf8(end);
    let b = encode_utf8(begin);
    let e = encode_utf8(end);
    assert(b[0] == begin[0] as u8 && b[1] == begin[1] as u8 && b[2] == begin[2] as u8 && b[3]
        == begin[3] as u8 && b[4] == begin[4] as u8);
    assert(e[0] == end[0] as u8 && e[1] == end[1] as u8 && e[2] == end[2] as u8);
}

/// Reading a body takes the lines of an object as they come: where lines of
/// other names than `BEGIN` and `END` stand first, they join the lines that
/// were read, and reading goes on behind them.
proof fn lemma_read_properties(
    lines: Seq<ContentLineView>,
    rest: Seq<Result<ContentLineView, Error>>,
    object_type: Seq<char>,
    properties: Seq<ContentLineView>,
    sub_objects: Seq<ICalObjectView>,
)
    requires
        forall|i: int| 0 <= i < lines.len() ==> valid_property(#[trigger] lines[i]),
    ensures
        build_body(all_read(lines) + rest, object_type, properties, sub_objects).0 == build_body(
            rest,
            object_type,
            properties + lines,
            sub_objects,
        ).0,
        build_body(all_read(lines) + rest, object_type, properties, sub_objects).1 == lines.len()
            + build_body(rest, object_type, properties + lines, sub_objects).1,
    decreases lines.len(),
{
    let items = all_read(lines) + rest;
    if lines.len() == 0 {
        assert(items =~= rest);
        assert(properties + lines =~= properties);
    } else {
        let line = lines[0];
        let more = lines.drop_first();
        assert(valid_property(line));
        assert(items[0] == Ok::<ContentLineView, Error>(line));
        assert(items.skip(1) =~= all_read(more) + rest);
        assert forall|i: int| 0 <= i < more.len() implies valid_property(#[trigger] more[i]) by {
            assert(more[i] == lines[i + 1]);
        }
        lemma_read_properties(more, rest, object_type, properties.push(line), sub_objects);
        assert(properties.push(line) + more =~= properties + lines);
    }
}

/// Reading a body takes the objects nested in an object as they come: where
/// the lines of valid objects stand first, the objects join those that were
/// read, and reading goes on behind them.
proof fn lemma_read_sub_objects(
    objects: Seq<ICalObjectView>,
    rest: Seq<Result<ContentLineView, Error>>,
    object_type: Seq<char>,
    properties: Seq<ContentLineView>,
    sub_objects: Seq<ICalObjectView>,
)
    requires
        forall|i: int| 0 <= i < objects.len() ==> valid_object(#[trigger] objects[i]),
    ensures
        build_body(
            all_read(flatten_all(objects)) + rest,
            object_type,
            properties,
            sub_objects,
        ).0 == build_body(rest, object_type, properties, sub_objects + objects).0,
        build_body(
            all_read(flatten_all(objects)) + rest,
            object_type,
            properties,
            sub_objects,
        ).1 == flatten_all(objects).len() + build_body(
            rest,
            object_type,
            properties,
            sub_objects + objects,
        ).1,
    decreases objects,
{
    let items = all_read(flatten_all(objects)) + rest;
    if objects.len() == 0 {
        assert(items =~= rest);
        assert(sub_objects + objects =~= sub_objects);
    } else {
        let first = objects[0];
        let more = objects.drop_first();
        let behind = all_read(flatten_all(more)) + rest;
        let taken = flatten(first).len() as int;
        assert(valid_object(first));
        assert(items =~= all_read(flatten(first)) + behind);
        lemma_read_object(first, behind);
        lemma_keywords();
        assert(items[0] == Ok::<ContentLineView, Error>(begin_line(first.object_type)));
        assert(items.skip(taken) =~= behind);
        assert forall|i: int| 0 <= i < more.len() implies valid_object(#[trigger] more[i]) by {
            assert(more[i] == objects[i + 1]);
        }
        lemma_read_sub_objects(more, rest, object_type, properties, sub_objects.push(first));
        assert(sub_objects.push(first) + more =~= sub_objects + objects);
    }
}

/// Reading an object from its lines gives the object, and takes its lines
/// and no more.
pub proof fn lemma_read_object(object: ICalObjectView, rest: Seq<Result<ContentLineView, Error>>)
    requires
        valid_object(object),
    ensures
        build_object(all_read(flatten(object)) + rest) == (
            Ok::<ICalObjectView, Error>(object),
            flatten(object).len() as int,
        ),
    decreases object,
{
    let object_type = object.object_type;
    let items = all_read(flatten(object)) + rest;
    let closing = seq![Ok::<ContentLineView, Error>(end_line(object_type))] + rest;
    let nested = all_read(flatten_all(object.sub_objects)) + closing;
    lemma_keywords();
    assert(items[0] == Ok::<ContentLineView, Error>(begin_line(object_type)));
    assert(items.skip(1) =~= all_read(object.properties) + nested);
    lemma_read_properties(object.properties, nested, object_type, Seq::empty(), Seq::empty());
    assert(Seq::<ContentLineView>::empty() + object.properties =~= object.properties);
    lemma_read_sub_objects(
        object.sub_objects,
        closing,
        object_type,
        object.properties,
        Seq::empty(),
    );
    assert(Seq::<ICalObjectView>::empty() + object.sub_objects =~= object.sub_objects);
    assert(closing[0] == Ok::<ContentLineView, Error>(end_line(object_type)));
    assert(object == ICalObjectView {
        object_type,
        properties: object.properties,
        sub_objects: object.sub_objects,
    });
}

/// The texts of content lines as they are written.
pub open spec fn line_texts(lines: Seq<ContentLineView>) -> Seq<Seq<char>> {
    lines.map_values(|line: ContentLineView| format_line(line))
}

/// The width to which each content line of an object is folded when the
/// object is written: its own lines to the default width, its `BEGIN` and
/// `END` lines to their own length, which is not to fold them.
pub open spec fn object_widths(object: ICalObjectView) -> Seq<int>
    decreases object,
{
    seq![encode_utf8(format_line(begin_line(object.object_type))).len() as int] + default_widths(
        object.properties.len(),
    ) + widths_all(object.sub_objects) + seq![
        encode_utf8(format_line(end_line(object.object_type))).len() as int,
    ]
}

/// The widths to which the content lines of objects are folded that are
/// written one after the other.
pub open spec fn widths_all(objects: Seq<ICalObjectView>) -> Seq<int>
    decreases objects,
{
    if objects.len() == 0 {
        Seq::empty()
    } else {
        object_widths(objects[0]) + widths_all(objects.drop_first())
    }
}

/// An object has a width for each of its content lines.
proof fn lemma_widths_len(object: ICalObjectView)
    ensures
        object_widths(object).len() == flatten(object).len(),
    decreases object,
{
    lemma_widths_all_len(object.sub_objects);
}

/// Objects have a width for each of their content lines.
proof fn lemma_widths_all_len(objects: Seq<ICalObjectView>)
    ensures
        widths_all(objects).len() == flatten_all(objects).len(),
    decreases objects,
{
    if objects.len() > 0 {
        lemma_widths_len(objects[0]);
        lemma_widths_all_len(objects.drop_first());
    }
}

/// A line that is written without folding is a line folded to its own
/// length.
proof fn lemma_marker_rendered(line: ContentLineView)
    ensures
        rendered(
            line_texts(seq![line]),
            seq![encode_utf8(format_line(line)).len() as int],
        ) == format_line(line) + crlf(),
{
    let texts = line_texts(seq![line]);
    let widths = seq![encode_utf8(format_line(line)).len() as int];
    assert(texts[0] == format_line(line));
    lemma_fold_wide(format_line(line), widths[0], 0);
    assert(rendered(texts.drop_first(), widths.drop_first()) == Seq::<char>::empty());
    assert(format_line(line) + crlf() + Seq::<char>::empty() =~= format_line(line) + crlf());
}

/// The lines of an object are written as lines folded to the default width.
proof fn lemma_properties_rendered(properties: Seq<ContentLineView>)
    ensures
        format_properties(properties) == rendered(
            line_texts(properties),
            default_widths(properties.len()),
        ),
    decreases properties.len(),
{
    if properties.len() > 0 {
        let rest = properties.drop_first();
        lemma_properties_rendered(rest);
        assert(line_texts(properties).drop_first() =~= line_texts(rest));
        assert(default_widths(properties.len()).drop_first() =~= default_widths(rest.len()));
    }
}

/// An object is written as its content lines, each folded to its width.
proof fn lemma_object_rendered(object: ICalObjectView)
    ensures
        format_object(object) == rendered(line_texts(flatten(object)), object_widths(object)),
    decreases object,
{
    let object_type = object.object_type;
    let begin = seq![begin_line(object_type)];
    let end = seq![end_line(object_type)];
    let begin_width = seq![encode_utf8(format_line(begin_line(object_type))).len() as int];
    let end_width = seq![encode_utf8(format_line(end_line(object_type))).len() as int];
    let own = object.properties;
    let own_widths = default_widths(own.len());
    let nested = flatten_all(object.sub_objects);
    let nested_widths = widths_all(object.sub_objects);
    lemma_marker_rendered(begin_line(object_type));
    lemma_marker_rendered(end_line(object_type));
    lemma_properties_rendered(own);
    lemma_objects_rendered(object.sub_objects);
    lemma_widths_all_len(object.sub_objects);
    assert(line_texts(flatten(object)) =~= line_texts(begin) + line_texts(own) + line_texts(nested)
        + line_texts(end));
    lemma_rendered_concat(
        line_texts(begin) + line_texts(own) + line_texts(nested),
        begin_width + own_widths + nested_widths,
        line_texts(end),
        end_width,
    );
    lemma_rendered_concat(
        line_texts(begin) + line_texts(own),
        begin_width + own_widths,
        line_texts(nested),
        nested_widths,
    );
    lemma_rendered_concat(line_texts(begin), begin_width, line_texts(own), own_widths);
    assert(format_line(begin_line(object_type)) =~= seq!['B', 'E', 'G', 'I', 'N', ':']
        + object_type) by {
        assert(format_params(Seq::<ParamView>::empty()) == Seq::<char>::empty());
    }
    assert(format_line(end_line(object_type)) =~= seq!['E', 'N', 'D', ':'] + object_type) by {
        assert(format_params(Seq::<ParamView>::empty()) == Seq::<char>::empty());
    }
    assert(format_object(object) =~= (format_line(begin_line(object_type)) + crlf())
        + format_properties(own) + format_objects(object.sub_objects) + (format_line(
        end_line(object_type),
    ) + crlf()));
}

/// Objects are written as their content lines, each folded to its width.
proof fn lemma_objects_rendered(objects: Seq<ICalObjectView>)
    ensures
        format_objects(objects) == rendered(line_texts(flatten_all(objects)), widths_all(objects)),
    decreases objects,
{
    if objects.len() == 0 {
        assert(line_texts(flatten_all(objects)) =~= Seq::<Seq<char>>::empty());
    } else {
        let first = objects[0];
        let rest = objects.drop_first();
        lemma_object_rendered(first);
        lemma_objects_rendered(rest);
        lemma_widths_len(first);
        assert(line_texts(flatten_all(objects)) =~= line_texts(flatten(first)) + line_texts(
            flatten_all(rest),
        ));
        lemma_rendered_concat(
            line_texts(flatten(first)),
            object_widths(first),
            line_texts(flatten_all(rest)),
            widths_all(rest),
        );
    }
}

/// The content lines of a valid object are valid.
proof fn lemma_flatten_valid(object: ICalObjectView)
    requires
        valid_object(object),
    ensures
        forall|i: int| 0 <= i < flatten(object).len() ==> (#[trigger] flatten(object)[i]).valid(),
    decreases object,
{
    let lines = flatten(object);
    let own = object.properties;
    let nested = flatten_all(object.sub_objects);
    lemma_flatten_all_valid(object.sub_objects);
    let begin = seq!['B', 'E', 'G', 'I', 'N'];
    let end = seq!['E', 'N', 'D'];
    assert(Charset::Name.allows_all(encode_utf8(begin)) && Charset::Name.allows_all(
        encode_utf8(end),
    )) by {
        assert(is_ascii_chars(begin));
        assert(is_ascii_chars(end));
        is_ascii_chars_encode_utf8(begin);
        is_ascii_chars_encode_utf8(end);
        let b = encode_utf8(begin);
        let e = encode_utf8(end);
        assert(b[0] == begin[0] as u8 && b[1] == begin[1] as u8 && b[2] == begin[2] as u8 && b[3]
            == begin[3] as u8 && b[4] == begin[4] as u8);
        assert(e[0] == end[0] as u8 && e[1] == end[1] as u8 && e[2] == end[2] as u8);
    }
    assert(begin_line(object.object_type).valid());
    assert(end_line(object.object_type).valid());
    assert forall|i: int| 0 <= i < lines.len() implies (#[trigger] lines[i]).valid() by {
        if i == 0 {
        } else if i <= own.len() {
            assert(lines[i] == own[i - 1]);
            assert(valid_property(own[i - 1]));
        } else if i <= own.len() + nested.len() {
            assert(lines[i] == nested[i - 1 - own.len()]);
        } else {
        }
    }
}

/// The content lines of valid objects are valid.
proof fn lemma_flatten_all_valid(objects: Seq<ICalObjectView>)
    requires
        forall|i: int| 0 <= i < objects.len() ==> valid_object(#[trigger] objects[i]),
    ensures
        forall|i: int|
            0 <= i < flatten_all(objects).len() ==> (#[trigger] flatten_all(objects)[i]).valid(),
    decreases objects,
{
    if objects.len() > 0 {
        let first = flatten(objects[0]);
        let rest = objects.drop_first();
        assert(valid_object(objects[0]));
        lemma_flatten_valid(objects[0]);
        assert forall|i: int| 0 <= i < rest.len() implies valid_object(#[trigger] rest[i]) by {
            assert(rest[i] == objects[i + 1]);
        }
        lemma_flatten_all_valid(rest);
        let lines = flatten_all(objects);
        assert forall|i: int| 0 <= i < lines.len() implies (#[trigger] lines[i]).valid() by {
            if i < first.len() {
                assert(lines[i] == first[i]);
            } else {
                assert(lines[i] == flatten_all(rest)[i - first.len()]);
            }
        }
    }
}

/// The bytes of a written valid object are read as the content lines of the
/// object.
pub proof fn lemma_lines_read_back(object: ICalObjectView)
    requires
        valid_object(object),
    ensures
        content_lines(encode_utf8(format_object(object))) == all_read(flatten(object)),
{
    let lines = flatten(object);
    let texts = line_texts(lines);
    let bytes = encode_utf8(format_object(object));
    lemma_flatten_valid(object);
    lemma_object_rendered(object);
    lemma_widths_len(object);
    assert forall|i: int| 0 <= i < texts.len() implies unfoldable(#[trigger] texts[i]) by {
        assert(lines[i].valid());
        lemma_line_plain(lines[i]);
        let line = encode_utf8(format_line(lines[i]));
        assert forall|j: int| 0 <= j < line.len() implies #[trigger] line[j] != CR && line[j]
            != LF by {
            assert(Charset::Value.allows(line[j]));
        }
    }
    lemma_unfold_rendered(Seq::empty(), texts, object_widths(object));
    assert(Seq::<u8>::empty() + bytes =~= bytes);
    assert(unfold(bytes) == all_ok(texts));
    assert forall|i: int| 0 <= i < lines.len() implies parsed(#[trigger] all_ok(texts)[i])
        == all_read(lines)[i] by {
        assert(lines[i].valid());
        lemma_line_read_back(lines[i]);
    }
    assert(content_lines(bytes) =~= all_read(lines));
}

/// A valid object that is written and read again is the object it was.
pub proof fn lemma_object_read_back(object: ICalObjectView)
    requires
        valid_object(object),
    ensures
        parse_object(encode_utf8(format_object(object))) == Ok::<ICalObjectView, Error>(object),
{
    lemma_lines_read_back(object);
    lemma_read_object(object, Seq::empty());
    assert(all_read(flatten(object)) + Seq::<Result<ContentLineView, Error>>::empty() =~= all_read(
        flatten(object),
    ));
}

} // verus!
