//! Objects: the tree that `BEGIN` and `END` lines make of content lines.
//!
//! `BEGIN` and `END` are told from other names without regard to the case of
//! ASCII letters. The type that an `END` line names must equal, byte for
//! byte, the type that the `BEGIN` line named.

use std::collections::VecDeque;
use vstd::prelude::*;
use vstd::utf8::*;
use vstd::string::{StrSliceExecFns, StringExecFns};
use crate::content_line::{
    format_line,
    parse_line,
    ContentLine,
    ContentLineView,
};
use crate::error::{viewed, Error, StructuralKind};
use crate::fold::{fold, fold_text, DEFAULT_WIDTH};
use crate::unfold::{unfold, Unfold};

verus! {

/// An object: its type, its own lines, and the objects nested in it.
#[derive(Debug, PartialEq, Eq)]
pub struct ICalObject {
    pub object_type: String,
    pub properties: Vec<ContentLine>,
    pub sub_objects: Vec<ICalObject>,
}

/// What an `ICalObject` holds.
pub struct ICalObjectView {
    pub object_type: Seq<char>,
    pub properties: Seq<ContentLineView>,
    pub sub_objects: Seq<ICalObjectView>,
}

/// What content lines hold.
pub open spec fn line_views(lines: Seq<ContentLine>) -> Seq<ContentLineView> {
    lines.map_values(|line: ContentLine| line@)
}

/// What objects hold.
pub open spec fn object_views(objects: Seq<ICalObject>) -> Seq<ICalObjectView> {
    Seq::new(objects.len(), |i: int| objects[i]@)
}

/// What an object holds.
pub open spec fn object_view(object: ICalObject) -> ICalObjectView
    decreases object,
{
    ICalObjectView {
        object_type: object.object_type@,
        properties: line_views(object.properties@),
        sub_objects: Seq::new(
            object.sub_objects@.len(),
            |i: int|
                if 0 <= i < object.sub_objects@.len() {
                    object_view(object.sub_objects@[i])
                } else {
                    arbitrary()
                },
        ),
    }
}

impl View for ICalObject {
    type V = ICalObjectView;

    open spec fn view(&self) -> ICalObjectView {
        object_view(*self)
    }
}

/// The view of an object holds the views of its nested objects.
pub proof fn lemma_view_sub_objects(object: ICalObject)
    ensures
        object@.sub_objects == object_views(object.sub_objects@),
{
    assert(object@.sub_objects =~= object_views(object.sub_objects@));
}

/// An ASCII lower-case letter as its upper-case letter; another byte as it is.
pub open spec fn to_upper(b: u8) -> u8 {
    if 97 <= b <= 122 {
        (b - 32) as u8
    } else {
        b
    }
}

/// Whether `name` is `keyword`, without regard to the case of ASCII letters.
pub open spec fn is_keyword(name: Seq<char>, keyword: Seq<u8>) -> bool {
    let bytes = encode_utf8(name);
    bytes.len() == keyword.len() && forall|i: int|
        0 <= i < bytes.len() ==> to_upper(#[trigger] bytes[i]) == to_upper(keyword[i])
}

/// The bytes of `BEGIN`.
pub open spec fn begin_keyword() -> Seq<u8> {
    seq![66u8, 69u8, 71u8, 73u8, 78u8]
}

/// The bytes of `END`.
pub open spec fn end_keyword() -> Seq<u8> {
    seq![69u8, 78u8, 68u8]
}

/// Whether a line of this name opens an object.
pub open spec fn is_begin(name: Seq<char>) -> bool {
    is_keyword(name, begin_keyword())
}

/// Whether a line of this name closes an object.
pub open spec fn is_end(name: Seq<char>) -> bool {
    is_keyword(name, end_keyword())
}

fn upper(b: u8) -> (r: u8)
    ensures
        r == to_upper(b),
{
    if b >= 97 && b <= 122 {
        b - 32
    } else {
        b
    }
}

/// Tells whether a line of this name opens an object.
pub fn names_begin(name: &String) -> (r: bool)
    ensures
        r == is_begin(name@),
{
    let bytes = name.as_str().as_bytes();
    bytes.len() == 5 && upper(bytes[0]) == 66 && upper(bytes[1]) == 69 && upper(bytes[2]) == 71
        && upper(bytes[3]) == 73 && upper(bytes[4]) == 78
}

/// Tells whether a line of this name closes an object.
pub fn names_end(name: &String) -> (r: bool)
    ensures
        r == is_end(name@),
{
    let bytes = name.as_str().as_bytes();
    bytes.len() == 3 && upper(bytes[0]) == 69 && upper(bytes[1]) == 78 && upper(bytes[2]) == 68
}

/// A structural failure.
pub open spec fn misplaced(kind: StructuralKind) -> Error {
    Error::StructuralViolation { kind }
}

/// The body of an object of type `object_type`, read from `items` after the
/// lines in `properties` and the objects in `sub_objects`: the object or the
/// failure, and the number of items taken.
pub open spec fn build_body(
    items: Seq<Result<ContentLineView, Error>>,
    object_type: Seq<char>,
    properties: Seq<ContentLineView>,
    sub_objects: Seq<ICalObjectView>,
) -> (Result<ICalObjectView, Error>, int)
    decreases items.len(), 1nat,
{
    if items.len() == 0 {
        (Err(misplaced(StructuralKind::UnexpectedEnd)), 0)
    } else {
        match items[0] {
            Err(e) => (Err(e), 1),
            Ok(line) => {
                if is_end(line.name) {
                    if line.value == object_type {
                        (Ok(ICalObjectView { object_type, properties, sub_objects }), 1)
                    } else {
                        (Err(misplaced(StructuralKind::MismatchedEnd)), 1)
                    }
                } else if is_begin(line.name) {
                    match build_object(items) {
                        (Err(e), taken) => (Err(e), taken),
                        (Ok(sub), taken) => {
                            // An object takes its `BEGIN` line at least, and no
                            // more than there is: the other branch is never
                            // taken (`lemma_object_taken`).
                            if 0 < taken <= items.len() {
                                let (result, more) = build_body(
                                    items.skip(taken),
                                    object_type,
                                    properties,
                                    sub_objects.push(sub),
                                );
                                (result, taken + more)
                            } else {
                                (Err(misplaced(StructuralKind::UnexpectedEnd)), taken)
                            }
                        },
                    }
                } else {
                    let (result, more) = build_body(
                        items.skip(1),
                        object_type,
                        properties.push(line),
                        sub_objects,
                    );
                    (result, 1 + more)
                }
            },
        }
    }
}

/// The object read from the start of `items`: the object or the failure, and
/// the number of items taken. The first item must be a `BEGIN` line; the
/// object ends with the `END` line that closes it.
pub open spec fn build_object(items: Seq<Result<ContentLineView, Error>>) -> (
    Result<ICalObjectView, Error>,
    int,
)
    decreases items.len(), 0nat,
{
    if items.len() == 0 {
        (Err(misplaced(StructuralKind::ExpectedBegin)), 0)
    } else {
        match items[0] {
            Err(_) => (Err(misplaced(StructuralKind::ExpectedBegin)), 1),
            Ok(line) => {
                if is_begin(line.name) {
                    let (result, more) = build_body(
                        items.skip(1),
                        line.value,
                        Seq::empty(),
                        Seq::empty(),
                    );
                    (result, 1 + more)
                } else {
                    (Err(misplaced(StructuralKind::ExpectedBegin)), 1)
                }
            },
        }
    }
}

/// Reading a body takes no more items than there are, and one at least if it
/// succeeds.
pub proof fn lemma_body_taken(
    items: Seq<Result<ContentLineView, Error>>,
    object_type: Seq<char>,
    properties: Seq<ContentLineView>,
    sub_objects: Seq<ICalObjectView>,
)
    ensures
        0 <= build_body(items, object_type, properties, sub_objects).1 <= items.len(),
        build_body(items, object_type, properties, sub_objects).0 is Ok ==> build_body(
            items,
            object_type,
            properties,
            sub_objects,
        ).1 >= 1,
    decreases items.len(), 1nat,
{
    if items.len() > 0 {
        match items[0] {
            Err(e) => {},
            Ok(line) => {
                if is_end(line.name) {
                } else if is_begin(line.name) {
                    lemma_object_taken(items);
                    match build_object(items) {
                        (Err(e), taken) => {},
                        (Ok(sub), taken) => {
                            lemma_body_taken(
                                items.skip(taken),
                                object_type,
                                properties,
                                sub_objects.push(sub),
                            );
                        },
                    }
                } else {
                    lemma_body_taken(items.skip(1), object_type, properties.push(line), sub_objects);
                }
            },
        }
    }
}

/// Reading an object takes no more items than there are, and two at least if
/// it succeeds.
pub proof fn lemma_object_taken(items: Seq<Result<ContentLineView, Error>>)
    ensures
        0 <= build_object(items).1 <= items.len(),
        build_object(items).0 is Ok ==> build_object(items).1 >= 2,
    decreases items.len(), 0nat,
{
    if items.len() > 0 {
        match items[0] {
            Err(_) => {},
            Ok(line) => {
                if is_begin(line.name) {
                    lemma_body_taken(items.skip(1), line.value, Seq::empty(), Seq::empty());
                }
            },
        }
    }
}

/// CR LF, the end of a physical line.
pub open spec fn crlf() -> Seq<char> {
    seq!['\r', '\n']
}

/// The lines of an object as they are written: each folded to the default
/// width and followed by CR LF.
pub open spec fn format_properties(properties: Seq<ContentLineView>) -> Seq<char>
    decreases properties.len(),
{
    if properties.len() == 0 {
        Seq::empty()
    } else {
        fold_text(format_line(properties[0]), DEFAULT_WIDTH as int) + crlf() + format_properties(
            properties.drop_first(),
        )
    }
}

/// Objects as they are written, one after the other.
pub open spec fn format_objects(objects: Seq<ICalObjectView>) -> Seq<char>
    decreases objects,
{
    if objects.len() == 0 {
        Seq::empty()
    } else {
        format_object(objects[0]) + format_objects(objects.drop_first())
    }
}

/// An object as it is written: `BEGIN:` and its type, its lines, the objects
/// nested in it, `END:` and its type. The `BEGIN` and `END` lines are not
/// folded.
pub open spec fn format_object(object: ICalObjectView) -> Seq<char>
    decreases object,
{
    seq!['B', 'E', 'G', 'I', 'N', ':'] + object.object_type + crlf() + format_properties(
        object.properties,
    ) + format_objects(object.sub_objects) + seq!['E', 'N', 'D', ':'] + object.object_type
        + crlf()
}

/// What the lines of a stream stand for: each logical line read as a content
/// line, each failure of unfolding as it is.
pub open spec fn content_lines(input: Seq<u8>) -> Seq<Result<ContentLineView, Error>> {
    content_lines_of(unfold(input))
}

/// The content line that a logical line stands for, or the failure that came
/// in its place.
pub open spec fn parsed(item: Result<Seq<char>, Error>) -> Result<ContentLineView, Error> {
    match item {
        Ok(text) => parse_line(text),
        Err(e) => Err(e),
    }
}

/// The object that a stream holds at its start.
pub open spec fn parse_object(input: Seq<u8>) -> Result<ICalObjectView, Error> {
    build_object(content_lines(input)).0
}

/// What unfolded items stand for as content lines.
pub open spec fn content_lines_of(items: Seq<Result<Seq<char>, Error>>) -> Seq<
    Result<ContentLineView, Error>,
> {
    items.map_values(|item: Result<Seq<char>, Error>| parsed(item))
}

/// What items hold.
pub open spec fn item_views(items: Seq<Result<ContentLine, Error>>) -> Seq<
    Result<ContentLineView, Error>,
> {
    items.map_values(|item: Result<ContentLine, Error>| viewed(item))
}

/// Content lines and failures in a row, taken from the front one by one, with
/// a look at the next one before it is taken.
pub struct LineCursor {
    lines: VecDeque<Result<ContentLine, Error>>,
}

impl LineCursor {
    /// The items that are still to be taken.
    pub closed spec fn remaining(&self) -> Seq<Result<ContentLineView, Error>> {
        item_views(self.lines@)
    }

    /// A cursor with nothing to take.
    pub fn new() -> (r: Self)
        ensures
            r.remaining() == Seq::<Result<ContentLineView, Error>>::empty(),
    {
        let r = LineCursor { lines: VecDeque::new() };
        assert(r.remaining() =~= Seq::empty());
        r
    }

    /// Puts `item` behind the items that are there.
    pub fn push(&mut self, item: Result<ContentLine, Error>)
        ensures
            final(self).remaining() == old(self).remaining().push(viewed(item)),
    {
        self.lines.push_back(item);
        assert(self.remaining() =~= old(self).remaining().push(viewed(item)));
    }

    /// The next item, which stays.
    pub fn peek(&self) -> (r: Option<&Result<ContentLine, Error>>)
        ensures
            match r {
                Some(item) => self.remaining().len() > 0 && viewed(*item)
                    == self.remaining()[0],
                None => self.remaining().len() == 0,
            },
    {
        if self.lines.len() > 0 {
            Some(&self.lines[0])
        } else {
            None
        }
    }

    /// Takes the next item.
    pub fn next(&mut self) -> (r: Option<Result<ContentLine, Error>>)
        ensures
            match r {
                Some(item) => old(self).remaining().len() > 0 && viewed(item) == old(
                    self,
                ).remaining()[0] && final(self).remaining() == old(self).remaining().skip(1),
                None => old(self).remaining().len() == 0 && final(self).remaining() == old(
                    self,
                ).remaining(),
            },
    {
        let r = self.lines.pop_front();
        assert(self.remaining() =~= if r is Some {
            old(self).remaining().skip(1)
        } else {
            old(self).remaining()
        });
        r
    }
}

/// What the next item of a cursor is.
enum Upcoming {
    Nothing,
    Failure,
    End,
    Begin,
    Property,
}

/// Looks at the next item of `lines`.
fn upcoming(lines: &LineCursor) -> (r: Upcoming)
    ensures
        match r {
            Upcoming::Nothing => lines.remaining().len() == 0,
            Upcoming::Failure => lines.remaining().len() > 0 && lines.remaining()[0] is Err,
            Upcoming::End => lines.remaining().len() > 0 && (lines.remaining()[0] matches Ok(
                line,
            ) && is_end(line.name)),
            Upcoming::Begin => lines.remaining().len() > 0 && (lines.remaining()[0] matches Ok(
                line,
            ) && !is_end(line.name) && is_begin(line.name)),
            Upcoming::Property => lines.remaining().len() > 0 && (lines.remaining()[0] matches Ok(
                line,
            ) && !is_end(line.name) && !is_begin(line.name)),
        },
{
    match lines.peek() {
        None => Upcoming::Nothing,
        Some(Err(_)) => Upcoming::Failure,
        Some(Ok(line)) => {
            if names_end(&line.name) {
                Upcoming::End
            } else if names_begin(&line.name) {
                Upcoming::Begin
            } else {
                Upcoming::Property
            }
        },
    }
}

impl ICalObject {
    /// Reads one object from the front of `items`. What follows its `END`
    /// line is dropped.
    pub fn from_iterator(items: Vec<Result<ContentLine, Error>>) -> (r: Result<ICalObject, Error>)
        ensures
            viewed(r) == build_object(item_views(items@)).0,
    {
        let ghost all = item_views(items@);
        let mut lines = LineCursor::new();
        for item in it: items
            invariant
                it.seq() == items@,
                all == item_views(items@),
                lines.remaining() == all.take(it.index() as int),
        {
            lines.push(item);
            assert(all.take(it.index() + 1) == all.take(it.index() as int).push(all[it.index() as int]));
        }
        assert(all.take(all.len() as int) == all);
        ICalObject::from_peekable(&mut lines)
    }

    /// Reads the object at the start of a stream of bytes: unfolds the
    /// stream, reads each logical line as a content line, and builds the
    /// object of the lines.
    pub fn from_bytes(input: Vec<u8>) -> (r: Result<ICalObject, Error>)
        ensures
            viewed(r) == parse_object(input@),
    {
        let ghost all = content_lines(input@);
        let mut unfold = Unfold::new(input);
        let mut lines = LineCursor::new();
        assert(lines.remaining() + content_lines_of(unfold.remaining()) == all);
        loop
            invariant
                lines.remaining() + content_lines_of(unfold.remaining()) == all,
            ensures
                lines.remaining() == all,
            decreases unfold.remaining().len(),
        {
            let ghost before = lines.remaining();
            let ghost rest = unfold.remaining();
            match unfold.next() {
                None => {
                    assert(before + content_lines_of(rest) == before);
                    break ;
                },
                Some(Ok(text)) => {
                    lines.push(ContentLine::from_str(text.as_str()));
                    assert(before.push(parsed(rest[0])) + content_lines_of(rest.drop_first())
                        == before + content_lines_of(rest));
                },
                Some(Err(e)) => {
                    lines.push(Err(e));
                    assert(before.push(parsed(rest[0])) + content_lines_of(rest.drop_first())
                        == before + content_lines_of(rest));
                },
            }
        }
        ICalObject::from_peekable(&mut lines)
    }

    /// Reads the object at the start of a text.
    pub fn from_str(s: &str) -> (r: Result<ICalObject, Error>)
        ensures
            viewed(r) == parse_object(encode_utf8(s@)),
    {
        ICalObject::from_bytes(s.as_bytes_vec())
    }

    /// Writes the object behind what `out` holds.
    pub fn write_to(&self, out: &mut String)
        ensures
            final(out)@ == old(out)@ + format_object(self@),
        decreases self,
    {
        let ghost properties = line_views(self.properties@);
        let ghost objects = object_views(self.sub_objects@);
        proof {
            lemma_view_sub_objects(*self);
        }
        out.append("BEGIN:");
        out.append(self.object_type.as_str());
        out.append("\r\n");
        proof {
            reveal_strlit("BEGIN:");
            reveal_strlit("\r\n");
            reveal_strlit("END:");
            assert("BEGIN:"@ == seq!['B', 'E', 'G', 'I', 'N', ':']);
            assert("\r\n"@ == crlf());
            assert("END:"@ == seq!['E', 'N', 'D', ':']);
        }
        let ghost head = out@;
        assert(properties.skip(0) == properties);
        let mut i: usize = 0;
        while i < self.properties.len()
            invariant
                i <= self.properties@.len(),
                properties == line_views(self.properties@),
                out@ + format_properties(properties.skip(i as int)) == head + format_properties(
                    properties,
                ),
                "\r\n"@ == crlf(),
            decreases self.properties@.len() - i,
        {
            let ghost before = out@;
            let text = self.properties[i].to_string();
            let folded = fold(text.as_str());
            out.append(folded.as_str());
            out.append("\r\n");
            proof {
                assert(properties.skip(i as int).drop_first() == properties.skip(i + 1));
                assert(properties[i as int] == self.properties@[i as int]@);
                assert(out@ == before + (folded@ + crlf()));
            }
            i = i + 1;
        }
        assert(properties.skip(self.properties@.len() as int).len() == 0);
        assert(out@ == head + format_properties(properties));
        let ghost middle = out@;
        assert(objects.skip(0) == objects);
        let mut j: usize = 0;
        while j < self.sub_objects.len()
            invariant
                j <= self.sub_objects@.len(),
                objects == object_views(self.sub_objects@),
                out@ + format_objects(objects.skip(j as int)) == middle + format_objects(objects),
            decreases self.sub_objects@.len() - j,
        {
            let ghost before = out@;
            self.sub_objects[j].write_to(out);
            proof {
                assert(objects.skip(j as int).drop_first() == objects.skip(j + 1));
                assert(objects[j as int] == self.sub_objects@[j as int]@);
            }
            j = j + 1;
        }
        assert(objects.skip(self.sub_objects@.len() as int).len() == 0);
        assert(out@ == middle + format_objects(objects));
        out.append("END:");
        out.append(self.object_type.as_str());
        out.append("\r\n");
    }

    /// Writes the object: `BEGIN:` and its type, each of its lines folded,
    /// each nested object, `END:` and its type, each physical line followed
    /// by CR LF.
    pub fn to_string(&self) -> (out: String)
        ensures
            out@ == format_object(self@),
    {
        let mut out = String::new();
        self.write_to(&mut out);
        out
    }

    /// Reads one object from the front of `lines`: a `BEGIN` line, then
    /// lines and nested objects, then the `END` line of the same type. What
    /// follows that `END` line stays in `lines`.
    pub fn from_peekable(lines: &mut LineCursor) -> (r: Result<ICalObject, Error>)
        ensures
            viewed(r) == build_object(old(lines).remaining()).0,
            final(lines).remaining() == old(lines).remaining().skip(
                build_object(old(lines).remaining()).1,
            ),
        decreases old(lines).remaining().len(),
    {
        let ghost items = lines.remaining();
        let first = match lines.next() {
            Some(Ok(line)) => line,
            Some(Err(_)) => {
                return Err(Error::StructuralViolation { kind: StructuralKind::ExpectedBegin });
            },
            None => {
                assert(items.skip(0) == items);
                return Err(Error::StructuralViolation { kind: StructuralKind::ExpectedBegin });
            },
        };
        if !names_begin(&first.name) {
            return Err(Error::StructuralViolation { kind: StructuralKind::ExpectedBegin });
        }
        let object_type = first.value;
        let mut properties: Vec<ContentLine> = Vec::new();
        let mut sub_objects: Vec<ICalObject> = Vec::new();
        let ghost mut taken: int = 1;
        assert(line_views(properties@) == Seq::<ContentLineView>::empty());
        assert(object_views(sub_objects@) == Seq::<ICalObjectView>::empty());
        loop
            invariant
                1 <= taken <= items.len(),
                items == old(lines).remaining(),
                lines.remaining() == items.skip(taken),
                build_object(items).0 == build_body(
                    lines.remaining(),
                    object_type@,
                    line_views(properties@),
                    object_views(sub_objects@),
                ).0,
                build_object(items).1 == taken + build_body(
                    lines.remaining(),
                    object_type@,
                    line_views(properties@),
                    object_views(sub_objects@),
                ).1,
            decreases items.len() - taken,
        {
            let ghost rest = lines.remaining();
            let ghost lines_before = line_views(properties@);
            let ghost objects_before = object_views(sub_objects@);
            match upcoming(lines) {
                Upcoming::Nothing => {
                    assert(rest.skip(0) == rest);
                    return Err(Error::StructuralViolation { kind: StructuralKind::UnexpectedEnd });
                },
                Upcoming::Failure => {
                    assert(rest.skip(1) == items.skip(taken + 1));
                    match lines.next() {
                        Some(Err(e)) => {
                            return Err(e);
                        },
                        _ => {
                            return Err(
                                Error::StructuralViolation { kind: StructuralKind::UnexpectedEnd },
                            );
                        },
                    }
                },
                Upcoming::End => {
                    assert(rest.skip(1) == items.skip(taken + 1));
                    match lines.next() {
                        Some(Ok(line)) => {
                            if line.value != object_type {
                                return Err(
                                    Error::StructuralViolation {
                                        kind: StructuralKind::MismatchedEnd,
                                    },
                                );
                            }
                            let object = ICalObject { object_type, properties, sub_objects };
                            proof {
                                lemma_view_sub_objects(object);
                            }
                            return Ok(object);
                        },
                        _ => {
                            return Err(
                                Error::StructuralViolation { kind: StructuralKind::UnexpectedEnd },
                            );
                        },
                    }
                },
                Upcoming::Begin => {
                    proof {
                        lemma_object_taken(rest);
                    }
                    let ghost step = build_object(rest).1;
                    assert(rest.skip(step) == items.skip(taken + step));
                    match ICalObject::from_peekable(lines) {
                        Ok(sub) => {
                            sub_objects.push(sub);
                            assert(object_views(sub_objects@) == objects_before.push(sub@));
                            proof {
                                taken = taken + step;
                            }
                        },
                        Err(e) => {
                            return Err(e);
                        },
                    }
                },
                Upcoming::Property => {
                    assert(rest.skip(1) == items.skip(taken + 1));
                    match lines.next() {
                        Some(Ok(line)) => {
                            properties.push(line);
                            assert(line_views(properties@) == lines_before.push(line@));
                            proof {
                                taken = taken + 1;
                            }
                        },
                        _ => {
                            return Err(
                                Error::StructuralViolation { kind: StructuralKind::UnexpectedEnd },
                            );
                        },
                    }
                },
            }
        }
    }
}

} // verus!
