//! Folding: a logical line is split into physical lines of bounded width by
//! putting CR LF and one SPACE before a character.

use vstd::prelude::*;
use vstd::string::StringExecFns;
use vstd::utf8::*;
use crate::charset::{CR, LF, SPACE};
use crate::text::{lemma_encode_ascii, lemma_encode_concat, lemma_encode_one, utf8_width};

verus! {

/// The width that `fold` folds to, in bytes.
pub const DEFAULT_WIDTH: usize = 75;

/// What folding puts before a character: CR LF SPACE.
pub open spec fn line_break() -> Seq<char> {
    seq!['\r', '\n', ' ']
}

/// `line` folded to physical lines of at most `max` bytes, when the physical
/// line that it continues holds `used` bytes already. A character that would
/// take the physical line beyond `max` bytes gets CR LF SPACE before it, and
/// then stands on a physical line of the SPACE and itself.
pub open spec fn fold_from(line: Seq<char>, max: int, used: int) -> Seq<char>
    decreases line.len(),
{
    if line.len() == 0 {
        Seq::empty()
    } else if used + utf8_width(line[0]) > max {
        line_break().push(line[0]) + fold_from(line.drop_first(), max, 1 + utf8_width(line[0]))
    } else {
        seq![line[0]] + fold_from(line.drop_first(), max, used + utf8_width(line[0]))
    }
}

/// `line` folded to physical lines of at most `max` bytes.
pub open spec fn fold_text(line: Seq<char>, max: int) -> Seq<char> {
    fold_from(line, max, 0)
}

/// Each line folded to the default width and followed by CR LF.
pub open spec fn folded_lines(lines: Seq<Seq<char>>) -> Seq<char>
    decreases lines.len(),
{
    if lines.len() == 0 {
        Seq::empty()
    } else {
        fold_text(lines[0], DEFAULT_WIDTH as int) + seq!['\r', '\n'] + folded_lines(
            lines.drop_first(),
        )
    }
}

/// The lines folded to the default width and joined by CR LF, with CR LF at
/// the end.
pub open spec fn fold_and_join_text(lines: Seq<Seq<char>>) -> Seq<char> {
    if lines.len() == 0 {
        seq!['\r', '\n']
    } else {
        folded_lines(lines)
    }
}

/// Folds a logical line to physical lines of at most 75 bytes.
pub fn fold(line: &str) -> (r: String)
    ensures
        r@ == fold_text(line@, DEFAULT_WIDTH as int),
{
    fold_with_max_length(line, DEFAULT_WIDTH)
}

/// Folds a logical line to physical lines of at most `max_length` bytes. No
/// character is split.
pub fn fold_with_max_length(line: &str, max_length: usize) -> (r: String)
    ensures
        r@ == fold_text(line@, max_length as int),
{
    let mut out = String::new();
    let mut used: usize = 0;
    assert(line@.skip(0) == line@);
    for c in it: line.chars()
        invariant
            it.seq() == line@,
            used <= max_length || used <= 5,
            out@ + fold_from(line@.skip(it.index() as int), max_length as int, used as int)
                == fold_text(line@, max_length as int),
    {
        let ghost before = out@;
        let ghost rest = line@.skip(it.index() as int);
        let width: usize = c.len_utf8();
        proof {
            lemma_encode_one(c);
            assert(rest[0] == c);
            assert(rest.drop_first() == line@.skip(it.index() + 1));
        }
        if width > max_length || used > max_length - width {
            out.push('\r');
            out.push('\n');
            out.push(' ');
            out.push(c);
            used = 1 + width;
            assert(out@ == before + line_break().push(c));
        } else {
            out.push(c);
            used = used + width;
            assert(out@ == before + seq![c]);
        }
    }
    assert(line@.skip(line@.len() as int).len() == 0);
    assert(out@ + Seq::<char>::empty() == out@);
    out
}

/// Folds each line to the default width and joins the folded lines by CR LF,
/// with CR LF at the end.
pub fn fold_and_join(lines: &[String]) -> (r: String)
    ensures
        r@ == fold_and_join_text(crate::content_line::texts(lines@)),
{
    let ghost all = crate::content_line::texts(lines@);
    let mut out = String::new();
    if lines.len() == 0 {
        out.push('\r');
        out.push('\n');
        assert(out@ == seq!['\r', '\n']);
        return out;
    }
    assert(all.skip(0) == all);
    let mut i: usize = 0;
    while i < lines.len()
        invariant
            i <= lines@.len(),
            all == crate::content_line::texts(lines@),
            out@ + folded_lines(all.skip(i as int)) == folded_lines(all),
        decreases lines@.len() - i,
    {
        let ghost before = out@;
        let folded = fold(lines[i].as_str());
        out.append(folded.as_str());
        out.push('\r');
        out.push('\n');
        proof {
            assert(all.skip(i as int).drop_first() == all.skip(i + 1));
            assert(all[i as int] == lines@[i as int]@);
            assert(out@ == before + (folded@ + seq!['\r', '\n']));
        }
        i = i + 1;
    }
    assert(all.skip(lines@.len() as int).len() == 0);
    assert(out@ + Seq::<char>::empty() == out@);
    out
}

/// The bytes of a folded line: nothing for an empty line; else the bytes of
/// the first character, after CR LF SPACE if it does not fit, and the bytes of
/// the rest folded.
pub proof fn lemma_fold_bytes(line: Seq<char>, max: int, used: int)
    requires
        line.len() > 0,
    ensures
        encode_utf8(line) == encode_scalar(line[0] as u32) + encode_utf8(line.drop_first()),
        used + utf8_width(line[0]) > max ==> encode_utf8(fold_from(line, max, used)) == seq![
            CR,
            LF,
            SPACE,
        ] + encode_scalar(line[0] as u32) + encode_utf8(
            fold_from(line.drop_first(), max, 1 + utf8_width(line[0])),
        ),
        used + utf8_width(line[0]) <= max ==> encode_utf8(fold_from(line, max, used))
            == encode_scalar(line[0] as u32) + encode_utf8(
            fold_from(line.drop_first(), max, used + utf8_width(line[0])),
        ),
{
    let c = line[0];
    let rest = line.drop_first();
    if used + utf8_width(c) > max {
        let folded = fold_from(rest, max, 1 + utf8_width(c));
        lemma_encode_concat(line_break().push(c), folded);
        assert(line_break().push(c) =~= seq!['\r'] + seq!['\n'] + seq![' '] + seq![c]);
        lemma_encode_concat(seq!['\r'] + seq!['\n'] + seq![' '], seq![c]);
        lemma_encode_concat(seq!['\r'] + seq!['\n'], seq![' ']);
        lemma_encode_concat(seq!['\r'], seq!['\n']);
        lemma_encode_ascii('\r');
        lemma_encode_ascii('\n');
        lemma_encode_ascii(' ');
        lemma_encode_one(c);
        assert(seq![CR] + seq![LF] + seq![SPACE] =~= seq![CR, LF, SPACE]);
    } else {
        let folded = fold_from(rest, max, used + utf8_width(c));
        lemma_encode_concat(seq![c], folded);
        lemma_encode_one(c);
    }
}

/// No physical line of a folded line is longer than the width, if the width
/// is five bytes at least, which hold a SPACE and any one character: a run
/// of bytes of the folded line without CR and LF has at most `max` bytes; and
/// at most `max - used` bytes if it starts where the folded line starts.
pub proof fn lemma_fold_width(line: Seq<char>, max: int, used: int, from: int, to: int)
    requires
        max >= 5,
        0 <= used <= max,
        0 <= from <= to <= encode_utf8(fold_from(line, max, used)).len(),
        forall|j: int|
            from <= j < to ==> #[trigger] encode_utf8(fold_from(line, max, used))[j] != CR
                && encode_utf8(fold_from(line, max, used))[j] != LF,
    ensures
        to - from <= max,
        from == 0 ==> to <= max - used,
    decreases line.len(),
{
    let folded = encode_utf8(fold_from(line, max, used));
    if line.len() > 0 && from < to {
        let rest = line.drop_first();
        let head = encode_scalar(line[0] as u32);
        let width = utf8_width(line[0]);
        lemma_fold_bytes(line, max, used);
        lemma_encode_one(line[0]);
        if used + width > max {
            let more = encode_utf8(fold_from(rest, max, 1 + width));
            let start = 3 + width;
            assert(folded == seq![CR, LF, SPACE] + head + more);
            assert(folded[0] == CR && folded[1] == LF);
            assert(from >= 2);
            if to > start {
                let inner = if from > start {
                    from - start
                } else {
                    0
                };
                assert forall|j: int| inner <= j < to - start implies #[trigger] more[j] != CR
                    && more[j] != LF by {
                    assert(folded[j + start] == more[j]);
                }
                lemma_fold_width(rest, max, 1 + width, inner, to - start);
            }
        } else {
            let more = encode_utf8(fold_from(rest, max, used + width));
            assert(folded == head + more);
            if to > width {
                let inner = if from > width {
                    from - width
                } else {
                    0
                };
                assert forall|j: int| inner <= j < to - width implies #[trigger] more[j] != CR
                    && more[j] != LF by {
                    assert(folded[j + width] == more[j]);
                }
                lemma_fold_width(rest, max, used + width, inner, to - width);
            }
        }
    }
}

} // verus!
