//! What is folded is unfolded to what it was.

use vstd::prelude::*;
use vstd::utf8::*;
use crate::charset::{CR, LF, SPACE, TAB};
use crate::error::Error;
use crate::fold::{
    fold_and_join_text,
    fold_from,
    fold_text,
    folded_lines,
    lemma_fold_bytes,
    DEFAULT_WIDTH,
};
use crate::scan::lemma_find3_is;
use crate::text::{
    lemma_byte_absent,
    lemma_encode_ascii,
    lemma_encode_concat,
    lemma_scalar_bytes,
    utf8_width,
};
use crate::unfold::{continues_at, joined, logical_line, physical_end, unfold, unfold_from};

verus! {

/// Whether a logical line comes back from folding and unfolding: it is not
/// empty, its first byte is neither SPACE nor TAB, and no byte of it is CR
/// or LF.
pub open spec fn unfoldable(line: Seq<char>) -> bool {
    let bytes = encode_utf8(line);
    bytes.len() > 0 && bytes[0] != SPACE && bytes[0] != TAB && forall|j: int|
        0 <= j < bytes.len() ==> #[trigger] bytes[j] != CR && bytes[j] != LF
}

/// Each line folded to its own width and followed by CR LF.
pub open spec fn rendered(lines: Seq<Seq<char>>, widths: Seq<int>) -> Seq<char>
    decreases lines.len(),
{
    if lines.len() == 0 {
        Seq::empty()
    } else {
        fold_text(lines[0], widths[0]) + seq!['\r', '\n'] + rendered(
            lines.drop_first(),
            widths.drop_first(),
        )
    }
}

/// The lines as items of an unfolded stream.
pub open spec fn all_ok(lines: Seq<Seq<char>>) -> Seq<Result<Seq<char>, Error>> {
    lines.map_values(|line: Seq<char>| Ok::<Seq<char>, Error>(line))
}

/// The logical line in the reading: its bytes from earlier physical lines
/// are `acc`, its present physical line starts at `at` and adds the bytes
/// from `from` on.
pub open spec fn line_from(input: Seq<u8>, at: int, from: int, acc: Seq<u8>) -> Result<
    (Seq<u8>, int),
    Error,
> {
    match physical_end(input, at) {
        None => Err(Error::MalformedTermination { at: at as usize }),
        Some(end) => joined(input, end + 2, acc + input.subrange(from, end)),
    }
}

/// A folded line is unfolded to what it was. Where `input` holds, from `pos`
/// on, a line folded and then CR LF, and no continuation behind that, the
/// logical line in the reading ends there, and its bytes are those it had up
/// to `pos` and those of the line.
proof fn lemma_unfold_folded(
    input: Seq<u8>,
    at: int,
    from: int,
    pos: int,
    acc: Seq<u8>,
    line: Seq<char>,
    max: int,
    used: int,
)
    requires
        0 <= at <= from <= pos,
        forall|j: int| at <= j < pos ==> #[trigger] input[j] != CR && input[j] != LF,
        forall|j: int|
            0 <= j < encode_utf8(line).len() ==> #[trigger] encode_utf8(line)[j] != CR
                && encode_utf8(line)[j] != LF,
        pos + encode_utf8(fold_from(line, max, used)).len() + 2 <= input.len(),
        input.subrange(pos, pos + encode_utf8(fold_from(line, max, used)).len()) == encode_utf8(
            fold_from(line, max, used),
        ),
        input[pos + encode_utf8(fold_from(line, max, used)).len()] == CR,
        input[pos + encode_utf8(fold_from(line, max, used)).len() + 1] == LF,
        !continues_at(input, pos + encode_utf8(fold_from(line, max, used)).len() + 2),
    ensures
        line_from(input, at, from, acc) == Ok::<_, Error>(
            (
                acc + input.subrange(from, pos) + encode_utf8(line),
                pos + encode_utf8(fold_from(line, max, used)).len() + 2,
            ),
        ),
    decreases line.len(),
{
    let folded = encode_utf8(fold_from(line, max, used));
    let after = pos + folded.len() + 2;
    if line.len() == 0 {
        lemma_find3_is(input, at, CR, LF, LF, pos);
        assert(acc + input.subrange(from, pos) + encode_utf8(line) =~= acc + input.subrange(
            from,
            pos,
        ));
    } else {
        let c = line[0];
        let rest = line.drop_first();
        let head = encode_scalar(c as u32);
        let width = utf8_width(c);
        lemma_fold_bytes(line, max, used);
        lemma_scalar_bytes(c);
        assert forall|j: int| 0 <= j < head.len() implies #[trigger] head[j] != CR && head[j]
            != LF by {
            assert(encode_utf8(line)[j] == head[j]);
        }
        assert forall|j: int| 0 <= j < encode_utf8(rest).len() implies #[trigger] encode_utf8(
            rest,
        )[j] != CR && encode_utf8(rest)[j] != LF by {
            assert(encode_utf8(line)[j + head.len()] == encode_utf8(rest)[j]);
        }
        if used + width > max {
            let more = encode_utf8(fold_from(rest, max, 1 + width));
            assert(folded == seq![CR, LF, SPACE] + head + more);
            assert(input[pos] == CR && input[pos + 1] == LF && input[pos + 2] == SPACE) by {
                assert(input[pos] == folded[0]);
                assert(input[pos + 1] == folded[1]);
                assert(input[pos + 2] == folded[2]);
            }
            lemma_find3_is(input, at, CR, LF, LF, pos);
            let acc1 = acc + input.subrange(from, pos);
            let pos1 = pos + 3 + width;
            assert(input.subrange(pos + 3, pos1) == head && input.subrange(pos1, pos1 + more.len())
                == more) by {
                assert(input.subrange(pos + 3, pos1) =~= folded.subrange(3, 3 + width));
                assert(folded.subrange(3, 3 + width) =~= head);
                assert(input.subrange(pos1, pos1 + more.len()) =~= folded.subrange(
                    3 + width,
                    folded.len() as int,
                ));
                assert(folded.subrange(3 + width, folded.len() as int) =~= more);
            }
            assert forall|j: int| pos + 2 <= j < pos1 implies #[trigger] input[j] != CR && input[j]
                != LF by {
                if j > pos + 2 {
                    assert(input[j] == head[j - (pos + 3)]);
                }
            }
            lemma_unfold_folded(input, pos + 2, pos + 3, pos1, acc1, rest, max, 1 + width);
            assert(acc1 + input.subrange(pos + 3, pos1) + encode_utf8(rest) =~= acc
                + input.subrange(from, pos) + encode_utf8(line));
            assert(continues_at(input, pos + 2));
            assert(joined(input, pos + 2, acc1) == line_from(input, pos + 2, pos + 3, acc1));
        } else {
            let more = encode_utf8(fold_from(rest, max, used + width));
            assert(folded == head + more);
            let pos1 = pos + width;
            assert(input.subrange(pos, pos1) == head && input.subrange(pos1, pos1 + more.len())
                == more) by {
                assert(input.subrange(pos, pos1) =~= folded.subrange(0, width));
                assert(folded.subrange(0, width) =~= head);
                assert(input.subrange(pos1, pos1 + more.len()) =~= folded.subrange(
                    width,
                    folded.len() as int,
                ));
                assert(folded.subrange(width, folded.len() as int) =~= more);
            }
            assert forall|j: int| at <= j < pos1 implies #[trigger] input[j] != CR && input[j]
                != LF by {
                if j >= pos {
                    assert(input[j] == head[j - pos]);
                }
            }
            lemma_unfold_folded(input, at, from, pos1, acc, rest, max, used + width);
            assert(acc + input.subrange(from, pos1) + encode_utf8(rest) =~= acc + input.subrange(
                from,
                pos,
            ) + encode_utf8(line));
        }
    }
}

/// What the bytes of a folded line followed by CR LF start with: not SPACE
/// and not TAB, if the line does not start with one of them.
proof fn lemma_folded_start(line: Seq<char>, max: int, tail: Seq<u8>)
    requires
        unfoldable(line),
    ensures
        ({
            let bytes = encode_utf8(fold_text(line, max)) + seq![CR, LF] + tail;
            bytes.len() > 0 && bytes[0] != SPACE && bytes[0] != TAB
        }),
{
    let folded = encode_utf8(fold_text(line, max));
    let bytes = folded + seq![CR, LF] + tail;
    assert(line.len() > 0) by {
        if line.len() == 0 {
            assert(encode_utf8(line).len() == 0);
        }
    }
    lemma_fold_bytes(line, max, 0);
    lemma_scalar_bytes(line[0]);
    let head = encode_scalar(line[0] as u32);
    assert(encode_utf8(line)[0] == head[0]);
    assert(bytes[0] == folded[0]);
}

/// Lines that are folded, each to its own width, and followed by CR LF each,
/// are unfolded to the lines they were; what stands behind them is unfolded
/// after them, if it does not continue the last line.
pub proof fn lemma_unfold_rendered_then(
    pre: Seq<u8>,
    lines: Seq<Seq<char>>,
    widths: Seq<int>,
    post: Seq<u8>,
)
    requires
        lines.len() == widths.len(),
        forall|i: int| 0 <= i < lines.len() ==> unfoldable(#[trigger] lines[i]),
        post.len() > 0 ==> post[0] != SPACE && post[0] != TAB,
    ensures
        unfold_from(pre + encode_utf8(rendered(lines, widths)) + post, pre.len() as int) == all_ok(
            lines,
        ) + unfold_from(
            pre + encode_utf8(rendered(lines, widths)) + post,
            pre.len() as int + encode_utf8(rendered(lines, widths)).len(),
        ),
    decreases lines.len(),
{
    let written = encode_utf8(rendered(lines, widths));
    let input = pre + written + post;
    let pos = pre.len() as int;
    if lines.len() == 0 {
        assert(written.len() == 0);
        assert(all_ok(lines) + unfold_from(input, pos) =~= unfold_from(input, pos));
    } else {
        let line = lines[0];
        let rest = lines.drop_first();
        let rest_widths = widths.drop_first();
        let folded = encode_utf8(fold_text(line, widths[0]));
        let tail = encode_utf8(rendered(rest, rest_widths));
        let next = pos + folded.len() + 2;
        assert(unfoldable(line));
        lemma_rendered_bytes(lines, widths);
        assert forall|i: int| 0 <= i < rest.len() implies unfoldable(#[trigger] rest[i]) by {
            assert(rest[i] == lines[i + 1]);
        }
        assert(input.subrange(pos, pos + folded.len()) == folded && input[pos + folded.len()] == CR
            && input[pos + folded.len() + 1] == LF && next <= input.len()) by {
            assert(input =~= pre + folded + seq![CR, LF] + tail + post);
            assert(input.subrange(pos, pos + folded.len()) =~= folded);
        }
        assert(!continues_at(input, next)) by {
            assert(input =~= pre + folded + seq![CR, LF] + tail + post);
            if rest.len() > 0 {
                let beyond = encode_utf8(rendered(rest.drop_first(), rest_widths.drop_first()));
                lemma_rendered_bytes(rest, rest_widths);
                lemma_folded_start(rest[0], rest_widths[0], beyond);
                assert(input[next] == tail[0]);
            } else {
                assert(tail.len() == 0);
                if post.len() > 0 {
                    assert(input[next] == post[0]);
                }
            }
        }
        lemma_unfold_folded(input, pos, pos, pos, Seq::empty(), line, widths[0], 0);
        assert(Seq::<u8>::empty() + input.subrange(pos, pos) + encode_utf8(line) =~= encode_utf8(
            line,
        ));
        assert(logical_line(input, pos) == line_from(input, pos, pos, Seq::empty())) by {
            match physical_end(input, pos) {
                None => {},
                Some(end) => {
                    assert(Seq::<u8>::empty() + input.subrange(pos, end) =~= input.subrange(
                        pos,
                        end,
                    ));
                },
            }
        }
        encode_utf8_valid_utf8(line);
        encode_utf8_decode_utf8(line);
        let next_pre = pre + folded + seq![CR, LF];
        assert(input =~= next_pre + tail + post);
        lemma_unfold_rendered_then(next_pre, rest, rest_widths, post);
        assert(all_ok(lines) =~= seq![Ok::<Seq<char>, Error>(line)] + all_ok(rest));
        assert(seq![Ok::<Seq<char>, Error>(line)] + (all_ok(rest) + unfold_from(
            input,
            next_pre.len() as int + tail.len(),
        )) =~= all_ok(lines) + unfold_from(input, pos + written.len()));
    }
}

/// The bytes of rendered lines: those of the first line folded, CR LF, and
/// those of the other lines rendered.
proof fn lemma_rendered_bytes(lines: Seq<Seq<char>>, widths: Seq<int>)
    requires
        lines.len() > 0,
    ensures
        encode_utf8(rendered(lines, widths)) == encode_utf8(fold_text(lines[0], widths[0])) + seq![
            CR,
            LF,
        ] + encode_utf8(rendered(lines.drop_first(), widths.drop_first())),
{
    let folded = fold_text(lines[0], widths[0]);
    lemma_encode_concat(folded + seq!['\r', '\n'], rendered(lines.drop_first(), widths.drop_first()));
    lemma_encode_concat(folded, seq!['\r', '\n']);
    lemma_encode_concat(seq!['\r'], seq!['\n']);
    assert(seq!['\r'] + seq!['\n'] =~= seq!['\r', '\n']);
    lemma_encode_ascii('\r');
    lemma_encode_ascii('\n');
    assert(seq![CR] + seq![LF] =~= seq![CR, LF]);
}

/// Lines that are folded, each to its own width, and followed by CR LF each,
/// are unfolded to the lines they were.
pub proof fn lemma_unfold_rendered(pre: Seq<u8>, lines: Seq<Seq<char>>, widths: Seq<int>)
    requires
        lines.len() == widths.len(),
        forall|i: int| 0 <= i < lines.len() ==> unfoldable(#[trigger] lines[i]),
    ensures
        unfold_from(pre + encode_utf8(rendered(lines, widths)), pre.len() as int) == all_ok(lines),
{
    let written = encode_utf8(rendered(lines, widths));
    lemma_unfold_rendered_then(pre, lines, widths, Seq::empty());
    assert(pre + written + Seq::<u8>::empty() =~= pre + written);
    assert(all_ok(lines) + Seq::<Result<Seq<char>, Error>>::empty() =~= all_ok(lines));
}

/// A stream with an empty line fails with `EmptyLine` there: after lines
/// that are unfolded, a CR LF at the start of a physical line that nothing
/// continues ends the stream with that failure.
pub proof fn lemma_empty_line_rejected(lines: Seq<Seq<char>>, widths: Seq<int>, post: Seq<u8>)
    requires
        lines.len() == widths.len(),
        forall|i: int| 0 <= i < lines.len() ==> unfoldable(#[trigger] lines[i]),
        post.len() > 0 ==> post[0] != SPACE && post[0] != TAB,
    ensures
        unfold(encode_utf8(rendered(lines, widths)) + seq![CR, LF] + post) == all_ok(lines).push(
            Err(Error::EmptyLine { at: encode_utf8(rendered(lines, widths)).len() as usize }),
        ),
{
    let written = encode_utf8(rendered(lines, widths));
    let input = written + seq![CR, LF] + post;
    let pos = written.len() as int;
    lemma_unfold_rendered_then(Seq::empty(), lines, widths, seq![CR, LF] + post);
    assert(Seq::<u8>::empty() + written + (seq![CR, LF] + post) =~= input);
    assert(input[pos] == CR && input[pos + 1] == LF);
    lemma_find3_is(input, pos, CR, LF, LF, pos);
    assert(!continues_at(input, pos + 2)) by {
        if post.len() > 0 {
            assert(input[pos + 2] == post[0]);
        }
    }
    assert(input.subrange(pos, pos).len() == 0);
    assert(unfold_from(input, pos) =~= seq![
        Err::<Seq<char>, Error>(Error::EmptyLine { at: pos as usize }),
    ]);
}

/// A physical line that ends in LF without CR before it fails with
/// `MalformedTermination`: after lines that are unfolded, a physical line
/// that starts a logical line and holds LF before any CR ends the stream with
/// that failure.
pub proof fn lemma_lone_lf_rejected(
    lines: Seq<Seq<char>>,
    widths: Seq<int>,
    body: Seq<u8>,
    post: Seq<u8>,
)
    requires
        lines.len() == widths.len(),
        forall|i: int| 0 <= i < lines.len() ==> unfoldable(#[trigger] lines[i]),
        forall|j: int| 0 <= j < body.len() ==> #[trigger] body[j] != CR && body[j] != LF,
        body.len() > 0 ==> body[0] != SPACE && body[0] != TAB,
    ensures
        unfold(encode_utf8(rendered(lines, widths)) + body + seq![LF] + post) == all_ok(
            lines,
        ).push(
            Err(
                Error::MalformedTermination {
                    at: encode_utf8(rendered(lines, widths)).len() as usize,
                },
            ),
        ),
{
    let written = encode_utf8(rendered(lines, widths));
    let input = written + body + seq![LF] + post;
    let pos = written.len() as int;
    let behind = body + seq![LF] + post;
    assert(behind[0] != SPACE && behind[0] != TAB) by {
        if body.len() > 0 {
            assert(behind[0] == body[0]);
        } else {
            assert(behind[0] == LF);
        }
    }
    lemma_unfold_rendered_then(Seq::empty(), lines, widths, behind);
    assert(Seq::<u8>::empty() + written + behind =~= input);
    assert forall|j: int| pos <= j < pos + body.len() implies #[trigger] input[j] != CR && input[j]
        != LF by {
        assert(input[j] == body[j - pos]);
    }
    assert(input[pos + body.len()] == LF);
    lemma_find3_is(input, pos, CR, LF, LF, pos + body.len());
    assert(unfold_from(input, pos) =~= seq![
        Err::<Seq<char>, Error>(Error::MalformedTermination { at: pos as usize }),
    ]);
}

/// Lines one after the other are rendered one after the other.
pub proof fn lemma_rendered_concat(
    first: Seq<Seq<char>>,
    first_widths: Seq<int>,
    second: Seq<Seq<char>>,
    second_widths: Seq<int>,
)
    requires
        first.len() == first_widths.len(),
    ensures
        rendered(first + second, first_widths + second_widths) == rendered(first, first_widths)
            + rendered(second, second_widths),
    decreases first.len(),
{
    if first.len() == 0 {
        assert(first + second =~= second);
        assert(first_widths + second_widths =~= second_widths);
    } else {
        assert((first + second).drop_first() =~= first.drop_first() + second);
        assert((first_widths + second_widths).drop_first() =~= first_widths.drop_first()
            + second_widths);
        lemma_rendered_concat(
            first.drop_first(),
            first_widths.drop_first(),
            second,
            second_widths,
        );
    }
}

/// A line that fits is not folded.
pub proof fn lemma_fold_wide(line: Seq<char>, max: int, used: int)
    requires
        used + encode_utf8(line).len() <= max,
    ensures
        fold_from(line, max, used) == line,
    decreases line.len(),
{
    if line.len() > 0 {
        lemma_fold_bytes(line, max, used);
        lemma_fold_wide(line.drop_first(), max, used + utf8_width(line[0]));
        assert(seq![line[0]] + line.drop_first() =~= line);
    }
}

/// The widths of `count` lines that are all folded to the default width.
pub open spec fn default_widths(count: nat) -> Seq<int> {
    Seq::new(count, |i: int| DEFAULT_WIDTH as int)
}

/// Folding lines to the default width is folding each to a width of its own.
proof fn lemma_folded_lines_rendered(lines: Seq<Seq<char>>)
    ensures
        folded_lines(lines) == rendered(lines, default_widths(lines.len())),
    decreases lines.len(),
{
    if lines.len() > 0 {
        lemma_folded_lines_rendered(lines.drop_first());
        assert(default_widths(lines.len()).drop_first() =~= default_widths(
            lines.drop_first().len(),
        ));
    }
}

/// A line of characters that is not empty, does not start with SPACE or TAB
/// and holds neither CR nor LF comes back from folding and unfolding.
pub proof fn lemma_unfoldable(line: Seq<char>)
    requires
        line.len() > 0,
        line[0] != ' ',
        line[0] != '\t',
        forall|k: int| 0 <= k < line.len() ==> #[trigger] line[k] != '\r' && line[k] != '\n',
    ensures
        unfoldable(line),
{
    let bytes = encode_utf8(line);
    let head = encode_scalar(line[0] as u32);
    lemma_scalar_bytes(line[0]);
    assert(bytes[0] == head[0]);
    assert(' ' as u32 == SPACE && '\t' as u32 == TAB && '\r' as u32 == CR && '\n' as u32 == LF);
    assert forall|k: int| 0 <= k < line.len() implies (#[trigger] line[k]) as u32 != CR && (
    line[k]) as u32 != LF by {
        char_u32_cast(line[k], line[k] as u32);
    }
    char_u32_cast(line[0], line[0] as u32);
    lemma_byte_absent(line, CR);
    lemma_byte_absent(line, LF);
}

/// Unfolding what `fold_and_join` made of lines gives the lines back, if
/// there is a line, and each line is not empty, does not start with SPACE or
/// TAB, and holds neither CR nor LF.
pub proof fn lemma_unfold_of_fold_and_join(lines: Seq<Seq<char>>)
    requires
        lines.len() > 0,
        forall|i: int|
            0 <= i < lines.len() ==> (#[trigger] lines[i]).len() > 0 && lines[i][0] != ' '
                && lines[i][0] != '\t',
        forall|i: int, k: int|
            0 <= i < lines.len() && 0 <= k < lines[i].len() ==> #[trigger] lines[i][k] != '\r'
                && lines[i][k] != '\n',
    ensures
        unfold(encode_utf8(fold_and_join_text(lines))) == all_ok(lines),
{
    assert forall|i: int| 0 <= i < lines.len() implies unfoldable(#[trigger] lines[i]) by {
        lemma_unfoldable(lines[i]);
    }
    lemma_folded_lines_rendered(lines);
    let bytes = encode_utf8(fold_and_join_text(lines));
    assert(Seq::<u8>::empty() + bytes =~= bytes);
    lemma_unfold_rendered(Seq::empty(), lines, default_widths(lines.len()));
}

} // verus!
