//! The scanner keeps the source byte for byte: a line of code is a whole line
//! of the source; a source without directives comes out line by line as it
//! went in, and passing it through once more changes nothing.

use vstd::prelude::*;
use crate::blocks::{code_of, lemma_plain_file_emits, plain};
use crate::driver::process_spec;
use crate::line::{rows_piece, Row, Rules};
use crate::parser::{lemma_run_bounds, parse_at, start_state, Mode, NEWLINE, RETURN};
use crate::preprocessor::joined;
use crate::scan::{
    code_line, def_end, directive_of, in_class, lemma_def_end, lemma_seek, line_over, scan_all,
    scan_from, scan_line, seek, trim_cr, Class, Directive, LineScan, Scanned,
};
use crate::span::piece;

verus! {

/// Whether every row is a line of code.
pub open spec fn all_code(rows: Seq<Row<(int, int)>>) -> bool {
    forall|i: int| 0 <= i < rows.len() ==> #[trigger] rows[i] is Code
}

/// The text of each row of code.
pub open spec fn code_texts(bytes: Seq<u8>, rows: Seq<Row<(int, int)>>) -> Seq<Seq<u8>> {
    Seq::new(rows.len(), |i: int| piece(bytes, rows[i]->Code_0))
}

/// The bytes without the carriage returns that stand before a newline.
pub open spec fn uncr(bytes: Seq<u8>) -> Seq<u8>
    decreases bytes.len(),
{
    if bytes.len() == 0 {
        Seq::empty()
    } else if bytes[0] == RETURN && bytes.len() > 1 && bytes[1] == NEWLINE {
        uncr(bytes.skip(1))
    } else {
        seq![bytes[0]] + uncr(bytes.skip(1))
    }
}

/// Whether a line starts at `at`: at the start of the bytes, or behind a
/// newline.
pub open spec fn line_start(bytes: Seq<u8>, at: int) -> bool {
    0 <= at <= bytes.len() && (at == 0 || bytes[at - 1] == NEWLINE)
}

/// Whether the line that starts at `at` holds spaces and tabs, at least one,
/// and nothing else.
pub open spec fn blank_line(bytes: Seq<u8>, at: int) -> bool {
    let first = seek(bytes, at, Class::Indent, false);
    at < first < bytes.len() && bytes[first] == NEWLINE
}

/// Whether the source is made of whole lines, none of which holds spaces and
/// tabs only: it is empty or ends in a newline.
pub open spec fn whole_lines(bytes: Seq<u8>) -> bool {
    &&& (bytes.len() == 0 || bytes.last() == NEWLINE)
    &&& forall|at: int| line_start(bytes, at) ==> !#[trigger] blank_line(bytes, at)
}

/// What `seek` finds is the place before which nothing fits and at which a
/// byte fits, or the bytes end.
pub proof fn lemma_seek_is(bytes: Seq<u8>, from: int, class: Class, wanted: bool, at: int)
    requires
        0 <= from <= at <= bytes.len(),
        forall|k: int| from <= k < at ==> in_class(#[trigger] bytes[k], class) != wanted,
        at == bytes.len() || in_class(bytes[at], class) == wanted,
    ensures
        seek(bytes, from, class, wanted) == at,
    decreases at - from,
{
    if from < at {
        lemma_seek_is(bytes, from + 1, class, wanted, at);
    }
}

/// Lines joined: the first line, a newline, and the others joined.
pub proof fn lemma_joined_first(first: Seq<u8>, rest: Seq<Seq<u8>>)
    ensures
        joined(seq![first] + rest) == first + seq![NEWLINE] + joined(rest),
    decreases rest.len(),
{
    let all = seq![first] + rest;
    if rest.len() == 0 {
        assert(all.drop_last() =~= Seq::<Seq<u8>>::empty());
        assert(joined(all.drop_last()) =~= Seq::<u8>::empty());
        assert(joined(all) =~= first + seq![NEWLINE] + joined(rest));
    } else {
        assert(all.drop_last() =~= seq![first] + rest.drop_last());
        lemma_joined_first(first, rest.drop_last());
        assert(all.last() == rest.last());
        assert(joined(all) =~= first + seq![NEWLINE] + joined(rest));
    }
}

/// A line without its carriage return, then a newline, then the rest: that
/// is what is left of a line, its newline and the rest when the carriage
/// returns before newlines are taken out.
pub proof fn lemma_uncr_line(bytes: Seq<u8>, start: int, eol: int)
    requires
        0 <= start <= eol < bytes.len(),
        bytes[eol] == NEWLINE,
        forall|k: int| start <= k < eol ==> #[trigger] bytes[k] != NEWLINE,
    ensures
        uncr(bytes.skip(start)) == piece(bytes, trim_cr(bytes, start, eol)) + seq![NEWLINE] + uncr(
            bytes.skip(eol + 1),
        ),
    decreases eol - start,
{
    let here = bytes.skip(start);
    assert(here[0] == bytes[start]);
    assert(here.skip(1) =~= bytes.skip(start + 1));
    if start == eol {
        assert(piece(bytes, (start, start)) =~= Seq::<u8>::empty());
        assert(uncr(here) =~= piece(bytes, trim_cr(bytes, start, eol)) + seq![NEWLINE] + uncr(
            bytes.skip(eol + 1),
        ));
    } else {
        assert(here[1] == bytes[start + 1]);
        lemma_uncr_line(bytes, start + 1, eol);
        if bytes[start] == RETURN && start + 1 == eol {
            assert(piece(bytes, (start, start)) =~= Seq::<u8>::empty());
            assert(piece(bytes, (eol, eol)) =~= Seq::<u8>::empty());
            assert(uncr(here) =~= piece(bytes, trim_cr(bytes, start, eol)) + seq![NEWLINE] + uncr(
                bytes.skip(eol + 1),
            ));
        } else {
            let cut = trim_cr(bytes, start, eol);
            let inner = trim_cr(bytes, start + 1, eol);
            assert(cut.1 == inner.1);
            assert(piece(bytes, cut) =~= seq![bytes[start]] + piece(bytes, inner));
            assert(uncr(here) =~= piece(bytes, cut) + seq![NEWLINE] + uncr(bytes.skip(eol + 1)));
        }
    }
}

/// The lines of code that the scanner finds from the line on that starts at
/// `start`, each with a newline behind it, are the source from there on,
/// without the carriage returns before newlines.
pub proof fn lemma_code_lines_from(bytes: Seq<u8>, rules: Rules, start: int, done: int)
    requires
        line_start(bytes, start),
        whole_lines(bytes),
        scan_from(bytes, rules, start, done) matches Scanned::Done(rows) && all_code(rows),
    ensures
        joined(code_texts(bytes, scan_from(bytes, rules, start, done)->Done_0)) == uncr(
            bytes.skip(start),
        ),
    decreases bytes.len() - start,
{
    let rows = scan_from(bytes, rules, start, done)->Done_0;
    let first = seek(bytes, start, Class::Indent, false);
    lemma_seek(bytes, start, Class::Indent, false);
    if first >= bytes.len() {
        if start < bytes.len() {
            assert(in_class(bytes[bytes.len() - 1], Class::Indent));
        }
        assert(bytes.skip(start) =~= Seq::<u8>::empty());
        assert(code_texts(bytes, rows) =~= Seq::<Seq<u8>>::empty());
    } else {
        let c = bytes[first];
        let line = scan_line(bytes, rules, start, first);
        let eol = seek(bytes, first, Class::Newline, true);
        lemma_seek(bytes, first, Class::Newline, true);
        assert(eol < bytes.len()) by {
            if eol >= bytes.len() {
                assert(in_class(bytes[bytes.len() - 1], Class::Newline));
            }
        }
        assert(!blank_line(bytes, start));
        assert forall|k: int| start <= k < eol implies #[trigger] bytes[k] != NEWLINE by {
            if k < first {
                assert(in_class(bytes[k], Class::Indent));
            } else {
                assert(!in_class(bytes[k], Class::Newline));
            }
        }
        let cut = trim_cr(bytes, start, eol);
        let head = seq![Row::<(int, int)>::Code(cut)];
        let next = eol + 1;
        assert(line == (LineScan::Rows { rows: head, next })) by {
            if c == NEWLINE {
                assert(first == start);
                assert(eol == first);
            } else if c == rules.special {
                let word_end = seek(bytes, first + 1, Class::Space, true);
                if directive_of(bytes.subrange(first + 1, word_end)) is Some {
                    lemma_directive_row(bytes, rules, start, first);
                    assert(rows[0] is Code);
                }
            }
        }
        let rest = scan_from(bytes, rules, next, done + 1)->Done_0;
        assert(rows == head + rest);
        assert(all_code(rest)) by {
            assert forall|i: int| 0 <= i < rest.len() implies #[trigger] rest[i] is Code by {
                assert(rows[i + 1] == rest[i]);
            }
        }
        lemma_code_lines_from(bytes, rules, next, done + 1);
        assert(code_texts(bytes, rows) =~= seq![piece(bytes, cut)] + code_texts(bytes, rest));
        lemma_joined_first(piece(bytes, cut), code_texts(bytes, rest));
        lemma_uncr_line(bytes, start, eol);
    }
}

/// The first row of a line that is in error or holds a directive is no line
/// of code.
proof fn lemma_directive_row(bytes: Seq<u8>, rules: Rules, start: int, first: int)
    requires
        0 <= start <= first < bytes.len(),
        bytes[first] == rules.special,
        bytes[first] != NEWLINE,
        directive_of(bytes.subrange(first + 1, seek(bytes, first + 1, Class::Space, true))) is Some,
    ensures
        scan_line(bytes, rules, start, first) matches LineScan::Rows { rows, next } ==> rows.len()
            > 0 && !(rows[0] is Code),
{
}

/// Scanner round trip, for a source without directives: the lines of code
/// that the scanner finds, each with a newline behind it, are the source
/// without the carriage returns before newlines.
///
/// This holds of a source that is made of whole lines, none of which holds
/// spaces and tabs only.
pub proof fn lemma_code_lines_are_the_source(bytes: Seq<u8>, rules: Rules)
    requires
        whole_lines(bytes),
        scan_all(bytes, rules) matches Scanned::Done(rows) && all_code(rows),
    ensures
        joined(code_texts(bytes, scan_all(bytes, rules)->Done_0)) == uncr(bytes),
{
    lemma_code_lines_from(bytes, rules, 0, 0);
    assert(bytes.skip(0) =~= bytes);
}

/// Whether a line ends at `at`: the bytes end there, or a newline stands
/// there, or a carriage return before a newline or before the end.
pub open spec fn line_end(bytes: Seq<u8>, at: int) -> bool {
    at == bytes.len() || (0 <= at < bytes.len() && (bytes[at] == NEWLINE || (bytes[at] == RETURN
        && (at + 1 == bytes.len() || bytes[at + 1] == NEWLINE))))
}

/// Whether a piece is a whole line of the source without its ending; or
/// empty, at the start of a line that holds spaces and tabs only.
pub open spec fn whole_line(bytes: Seq<u8>, at: (int, int)) -> bool {
    &&& line_start(bytes, at.0)
    &&& at.0 <= at.1 <= bytes.len()
    &&& forall|k: int| at.0 <= k < at.1 ==> #[trigger] bytes[k] != NEWLINE
    &&& (line_end(bytes, at.1) || (at.0 == at.1 && blank_line(bytes, at.0)))
}

/// A line that is scanned starts the next line at the start of a line, or
/// ends the source; and if its first row is code, that is all of the line.
proof fn lemma_line_row_is_line(bytes: Seq<u8>, rules: Rules, start: int, first: int)
    requires
        line_start(bytes, start),
        first == seek(bytes, start, Class::Indent, false),
        first < bytes.len(),
    ensures
        scan_line(bytes, rules, start, first) matches LineScan::Rows { rows, next } ==> (next
            == bytes.len() || line_start(bytes, next)) && forall|i: int|
            0 <= i < rows.len() ==> (#[trigger] rows[i] matches Row::Code(at) ==> whole_line(
                bytes,
                at,
            )),
{
    lemma_seek(bytes, start, Class::Indent, false);
    let c = bytes[first];
    let eol = seek(bytes, first, Class::Newline, true);
    lemma_seek(bytes, first, Class::Newline, true);
    assert forall|k: int| start <= k < eol implies #[trigger] bytes[k] != NEWLINE by {
        if k < first {
            assert(in_class(bytes[k], Class::Indent));
        } else {
            assert(!in_class(bytes[k], Class::Newline));
        }
    }
    match scan_line(bytes, rules, start, first) {
        LineScan::Rows { rows, next } => {
            if c == NEWLINE {
            } else {
                let word_end = seek(bytes, first + 1, Class::Space, true);
                if c == rules.special && directive_of(bytes.subrange(first + 1, word_end)) is Some {
                    lemma_directive_rows(bytes, rules, start, first);
                } else {
                    assert(rows[0] == Row::<(int, int)>::Code(trim_cr(bytes, start, eol)));
                }
            }
        },
        _ => {},
    }
}

/// A line that holds a directive has no row of code, and the line behind it
/// starts at the start of a line, or the source ends.
proof fn lemma_directive_rows(bytes: Seq<u8>, rules: Rules, start: int, first: int)
    requires
        0 <= start <= first < bytes.len(),
        bytes[first] == rules.special,
        bytes[first] != NEWLINE,
        directive_of(bytes.subrange(first + 1, seek(bytes, first + 1, Class::Space, true))) is Some,
    ensures
        scan_line(bytes, rules, start, first) matches LineScan::Rows { rows, next } ==> (next
            == bytes.len() || line_start(bytes, next)) && forall|i: int|
            0 <= i < rows.len() ==> !(#[trigger] rows[i] is Code),
{
    match scan_line(bytes, rules, start, first) {
        LineScan::Rows { rows, next } => {
            lemma_directive_next(bytes, rules, start, first);
            let after = choose|after: int|
                0 <= after <= bytes.len() && next == line_over(bytes, after);
            lemma_seek(bytes, after, Class::Newline, true);
        },
        _ => {},
    }
}

/// The line behind a directive starts where the line is over in which the
/// directive ends.
proof fn lemma_directive_next(bytes: Seq<u8>, rules: Rules, start: int, first: int)
    requires
        0 <= start <= first < bytes.len(),
        bytes[first] == rules.special,
        bytes[first] != NEWLINE,
        directive_of(bytes.subrange(first + 1, seek(bytes, first + 1, Class::Space, true))) is Some,
    ensures
        scan_line(bytes, rules, start, first) matches LineScan::Rows { rows, next } ==> exists|
            after: int,
        |
            0 <= after <= bytes.len() && next == #[trigger] line_over(bytes, after),
{
    let word_end = seek(bytes, first + 1, Class::Space, true);
    lemma_seek(bytes, first + 1, Class::Space, true);
    match scan_line(bytes, rules, start, first) {
        LineScan::Rows { rows, next } => {
            let mode = Mode { line: true, strict: false, comment: rules.comment };
            lemma_run_bounds(bytes, mode, start_state(word_end));
            let s = seek(bytes, word_end, Class::Indent, false);
            lemma_seek(bytes, word_end, Class::Indent, false);
            lemma_def_end(bytes, s, rules.comment);
            if s < bytes.len() {
                lemma_seek(bytes, s + 1, Class::Byte(rules.end), true);
            }
            match directive_of(bytes.subrange(first + 1, word_end))->0 {
                Directive::If | Directive::Elif => {
                    let stop = parse_at(bytes, mode, word_end)->stop;
                    assert(next == line_over(bytes, stop));
                },
                Directive::Else | Directive::Endif => {
                    assert(next == line_over(bytes, word_end));
                },
                Directive::Define | Directive::Undef => {
                    assert(next == line_over(bytes, def_end(bytes, s, rules.comment)));
                },
                Directive::Include => {
                    let e = seek(bytes, s + 1, Class::Byte(rules.end), true);
                    assert(next == line_over(bytes, e + 1));
                },
            }
        },
        _ => {},
    }
}

/// Every line of code that the scanner finds from the line on that starts at
/// `start` is a whole line of the source without its ending; or it is empty
/// and stands for a line that holds spaces and tabs only.
pub proof fn lemma_code_rows_are_lines(bytes: Seq<u8>, rules: Rules, start: int, done: int)
    requires
        line_start(bytes, start),
    ensures
        scan_from(bytes, rules, start, done) matches Scanned::Done(rows) ==> forall|i: int|
            0 <= i < rows.len() ==> (#[trigger] rows[i] matches Row::Code(at) ==> whole_line(
                bytes,
                at,
            )),
    decreases bytes.len() - start,
{
    let first = seek(bytes, start, Class::Indent, false);
    if first < bytes.len() {
        lemma_line_row_is_line(bytes, rules, start, first);
        match scan_line(bytes, rules, start, first) {
            LineScan::Rows { rows, next } => {
                if start < next <= bytes.len() {
                    if next < bytes.len() {
                        lemma_code_rows_are_lines(bytes, rules, next, done + 1);
                    } else {
                        lemma_seek(bytes, next, Class::Indent, false);
                    }
                    match scan_from(bytes, rules, next, done + 1) {
                        Scanned::Done(tail) => {
                            let all = rows + tail;
                            assert forall|i: int| 0 <= i < all.len() implies (#[trigger] all[i] matches Row::Code(
                                at,
                            ) ==> whole_line(bytes, at)) by {
                                if i < rows.len() {
                                    assert(all[i] == rows[i]);
                                } else {
                                    assert(all[i] == tail[i - rows.len()]);
                                }
                            }
                        },
                        _ => {},
                    }
                }
            },
            _ => {},
        }
    }
}

/// Every line of code that the scanner finds, in a source with directives or
/// without, is a whole line of the source, byte for byte, without its
/// ending; or it is empty and stands for a line that holds spaces and tabs
/// only.
pub proof fn lemma_code_is_whole_lines(bytes: Seq<u8>, rules: Rules)
    ensures
        scan_all(bytes, rules) matches Scanned::Done(rows) ==> forall|i: int|
            0 <= i < rows.len() ==> (#[trigger] rows[i] matches Row::Code(at) ==> whole_line(
                bytes,
                at,
            )),
{
    lemma_code_rows_are_lines(bytes, rules, 0, 0);
}

/// The word that runs through `from`: up to the first byte that ends a word.
pub open spec fn word_of(text: Seq<u8>, from: int) -> Seq<u8> {
    text.subrange(from, seek(text, from, Class::Space, true))
}

/// Whether a text comes out of the scanner as it went in: it does not end
/// in a carriage return, and it is empty or holds more than spaces and tabs.
pub open spec fn steady(text: Seq<u8>) -> bool {
    &&& (text.len() == 0 || text.last() != RETURN)
    &&& (text.len() > 0 ==> seek(text, 0, Class::Indent, false) < text.len())
}

/// Whether a text, put on a line of its own, is a line of code that the
/// scanner hands on as it is.
pub open spec fn code_text(text: Seq<u8>, rules: Rules) -> bool {
    let first = seek(text, 0, Class::Indent, false);
    &&& forall|k: int| 0 <= k < text.len() ==> #[trigger] text[k] != NEWLINE
    &&& steady(text)
    &&& (first < text.len() && text[first] == rules.special ==> directive_of(
        word_of(text, first + 1),
    ) is None)
}

/// What `seek` finds in a text is what it finds in bytes that hold the text,
/// as long as it finds something in the text.
proof fn lemma_seek_within(
    bytes: Seq<u8>,
    at: int,
    text: Seq<u8>,
    from: int,
    class: Class,
    wanted: bool,
)
    requires
        0 <= at,
        at + text.len() <= bytes.len(),
        bytes.subrange(at, at + text.len()) == text,
        0 <= from <= text.len(),
        seek(text, from, class, wanted) < text.len() || at + text.len() == bytes.len() || in_class(
            bytes[at + text.len()],
            class,
        ) == wanted,
    ensures
        seek(bytes, at + from, class, wanted) == at + seek(text, from, class, wanted),
{
    let found = seek(text, from, class, wanted);
    lemma_seek(text, from, class, wanted);
    let here = bytes.subrange(at, at + text.len());
    assert forall|k: int| at + from <= k < at + found implies in_class(#[trigger] bytes[k], class)
        != wanted by {
        assert(bytes[k] == here[k - at]);
    }
    if found < text.len() {
        assert(bytes[at + found] == here[found]);
    }
    lemma_seek_is(bytes, at + from, class, wanted, at + found);
}

/// A line of code on a line of its own is scanned as that line of code.
pub proof fn lemma_scan_code_text(bytes: Seq<u8>, rules: Rules, start: int, text: Seq<u8>)
    requires
        0 <= start,
        start + text.len() < bytes.len(),
        bytes.subrange(start, start + text.len()) == text,
        bytes[start + text.len()] == NEWLINE,
        code_text(text, rules),
    ensures
        seek(bytes, start, Class::Indent, false) < bytes.len(),
        scan_line(bytes, rules, start, seek(bytes, start, Class::Indent, false)) == (LineScan::Rows {
            rows: seq![Row::<(int, int)>::Code((start, start + text.len()))],
            next: start + text.len() + 1,
        }),
{
    let eol = start + text.len();
    assert(forall|k: int| 0 <= k < text.len() ==> bytes[start + k] == #[trigger] text[k]) by {
        let here = bytes.subrange(start, eol);
        assert(forall|k: int| 0 <= k < text.len() ==> bytes[start + k] == #[trigger] here[k]);
    }
    let first = seek(bytes, start, Class::Indent, false);
    let f = seek(text, 0, Class::Indent, false);
    lemma_seek(text, 0, Class::Indent, false);
    lemma_seek_within(bytes, start, text, 0, Class::Indent, false);
    assert(first == start + f);
    if text.len() > 0 {
        let c = bytes[first];
        assert(c == text[f]);
        lemma_seek(text, f, Class::Newline, true);
        assert(seek(text, f, Class::Newline, true) == text.len()) by {
            let found = seek(text, f, Class::Newline, true);
            if found < text.len() {
                assert(text[found] == NEWLINE);
            }
        }
        lemma_seek_within(bytes, start, text, f, Class::Newline, true);
        assert(seek(bytes, first, Class::Newline, true) == eol);
        assert(bytes[eol - 1] == text[text.len() - 1]);
        assert(trim_cr(bytes, start, eol) == (start, eol));
        if c == rules.special {
            lemma_seek(text, f + 1, Class::Space, true);
            lemma_seek_within(bytes, start, text, f + 1, Class::Space, true);
            let word_end = seek(bytes, first + 1, Class::Space, true);
            assert(bytes.subrange(first + 1, word_end) =~= word_of(text, f + 1));
        }
    }
}

/// Lines of code, each on a line of its own, are scanned as these lines of
/// code, whatever stands before them.
pub proof fn lemma_scan_code_texts(before: Seq<u8>, texts: Seq<Seq<u8>>, rules: Rules, done: int)
    requires
        forall|i: int| 0 <= i < texts.len() ==> code_text(#[trigger] texts[i], rules),
    ensures
        scan_from(before + joined(texts), rules, before.len() as int, done) matches Scanned::Done(
            rows,
        ) && all_code(rows) && code_texts(before + joined(texts), rows) == texts,
    decreases texts.len(),
{
    let bytes = before + joined(texts);
    let start = before.len() as int;
    if texts.len() == 0 {
        assert(bytes =~= before);
        lemma_seek(bytes, start, Class::Indent, false);
        let rows = scan_from(bytes, rules, start, done)->Done_0;
        assert(code_texts(bytes, rows) =~= texts);
    } else {
        let text = texts[0];
        let rest = texts.skip(1);
        assert(texts =~= seq![text] + rest);
        lemma_joined_first(text, rest);
        let eol = start + text.len();
        let next = eol + 1;
        let far = before + text + seq![NEWLINE];
        assert(bytes =~= far + joined(rest));
        assert(bytes.subrange(start, eol) =~= text);
        assert(bytes[eol] == NEWLINE);
        let head = seq![Row::<(int, int)>::Code((start, eol))];
        lemma_scan_code_text(bytes, rules, start, text);
        assert forall|i: int| 0 <= i < rest.len() implies code_text(#[trigger] rest[i], rules) by {
            assert(rest[i] == texts[i + 1]);
        }
        lemma_scan_code_texts(far, rest, rules, done + 1);
        let tail = scan_from(bytes, rules, next, done + 1)->Done_0;
        let rows = head + tail;
        assert(scan_from(bytes, rules, start, done) == Scanned::Done(rows));
        assert(all_code(rows)) by {
            assert forall|i: int| 0 <= i < rows.len() implies #[trigger] rows[i] is Code by {
                if i > 0 {
                    assert(rows[i] == tail[i - 1]);
                }
            }
        }
        assert(code_texts(bytes, rows) =~= seq![text] + code_texts(bytes, tail));
    }
}

/// A line that the scanner takes for a line of code is just that line of
/// code, and would be scanned as one on a line of its own, if it is steady.
pub proof fn lemma_scanned_code_text(bytes: Seq<u8>, rules: Rules, start: int, first: int)
    requires
        0 <= start <= bytes.len(),
        first == seek(bytes, start, Class::Indent, false),
        first < bytes.len(),
        scan_line(bytes, rules, start, first) matches LineScan::Rows { rows, next } && rows.len()
            > 0 && rows[0] is Code && steady(piece(bytes, rows[0]->Code_0)),
    ensures
        scan_line(bytes, rules, start, first)->rows.len() == 1,
        code_text(piece(bytes, scan_line(bytes, rules, start, first)->rows[0]->Code_0), rules),
{
    lemma_seek(bytes, start, Class::Indent, false);
    let c = bytes[first];
    let line = scan_line(bytes, rules, start, first);
    let head = line->rows;
    let text = piece(bytes, head[0]->Code_0);
    if c == NEWLINE {
        assert(text =~= Seq::<u8>::empty());
    } else {
        if c == rules.special {
            let word_end = seek(bytes, first + 1, Class::Space, true);
            if directive_of(bytes.subrange(first + 1, word_end)) is Some {
                lemma_directive_row(bytes, rules, start, first);
            }
        }
        let eol = seek(bytes, first, Class::Newline, true);
        lemma_seek(bytes, first, Class::Newline, true);
        let cut = trim_cr(bytes, start, eol);
        assert(line == code_line(bytes, start, first));
        assert(head[0] == Row::<(int, int)>::Code(cut));
        assert(text == piece(bytes, cut));
        assert(forall|k: int| 0 <= k < text.len() ==> bytes[start + k] == #[trigger] text[k]);
        assert forall|k: int| 0 <= k < text.len() implies #[trigger] text[k] != NEWLINE by {
            if start + k < first {
                assert(in_class(bytes[start + k], Class::Indent));
            } else {
                assert(!in_class(bytes[start + k], Class::Newline));
            }
        }
        let f = seek(text, 0, Class::Indent, false);
        lemma_seek(text, 0, Class::Indent, false);
        if text.len() > 0 {
            lemma_seek_within(bytes, start, text, 0, Class::Indent, false);
            assert(first == start + f);
            if text[f] == rules.special {
                lemma_word_within(bytes, rules, start, first, text, cut.1);
            }
        }
    }
}

/// The word behind the directive character of a line of code is the same in
/// the line as in the source.
proof fn lemma_word_within(
    bytes: Seq<u8>,
    rules: Rules,
    start: int,
    first: int,
    text: Seq<u8>,
    end: int,
)
    requires
        0 <= start <= first < end <= bytes.len(),
        text == bytes.subrange(start, end),
        end == bytes.len() || in_class(bytes[end], Class::Space),
    ensures
        bytes.subrange(first + 1, seek(bytes, first + 1, Class::Space, true)) == word_of(
            text,
            first - start + 1,
        ),
{
    let f = first - start;
    lemma_seek(text, f + 1, Class::Space, true);
    lemma_seek_within(bytes, start, text, f + 1, Class::Space, true);
    let word_end = seek(bytes, first + 1, Class::Space, true);
    assert(bytes.subrange(first + 1, word_end) =~= word_of(text, f + 1));
}

/// The lines of code that the scanner finds are such that, each on a line of
/// its own, they are scanned as lines of code again, as far as they are
/// steady.
pub proof fn lemma_scanned_code_texts(bytes: Seq<u8>, rules: Rules, start: int, done: int)
    requires
        0 <= start <= bytes.len(),
        scan_from(bytes, rules, start, done) matches Scanned::Done(rows) && all_code(rows)
            && forall|i: int|
            0 <= i < rows.len() ==> steady(#[trigger] code_texts(bytes, rows)[i]),
    ensures
        forall|i: int|
            0 <= i < scan_from(bytes, rules, start, done)->Done_0.len() ==> code_text(
                #[trigger] code_texts(bytes, scan_from(bytes, rules, start, done)->Done_0)[i],
                rules,
            ),
    decreases bytes.len() - start,
{
    let rows = scan_from(bytes, rules, start, done)->Done_0;
    let texts = code_texts(bytes, rows);
    let first = seek(bytes, start, Class::Indent, false);
    if first < bytes.len() {
        let line = scan_line(bytes, rules, start, first);
        let head = line->rows;
        let next = line->next;
        let tail = if start < next <= bytes.len() {
            scan_from(bytes, rules, next, done + 1)->Done_0
        } else {
            Seq::empty()
        };
        assert(rows == head + tail);
        assert(head.len() > 0) by {
            lemma_line_has_rows(bytes, rules, start, first);
        }
        assert(rows[0] == head[0]);
        assert(texts[0] == piece(bytes, head[0]->Code_0));
        lemma_scanned_code_text(bytes, rules, start, first);
        if start < next <= bytes.len() {
            assert forall|i: int| 0 <= i < tail.len() implies #[trigger] tail[i] is Code by {
                assert(rows[i + 1] == tail[i]);
            }
            assert forall|i: int| 0 <= i < tail.len() implies steady(
                #[trigger] code_texts(bytes, tail)[i],
            ) by {
                assert(rows[i + 1] == tail[i]);
                assert(code_texts(bytes, tail)[i] == texts[i + 1]);
            }
            lemma_scanned_code_texts(bytes, rules, next, done + 1);
        }
        assert forall|i: int| 0 <= i < rows.len() implies code_text(#[trigger] texts[i], rules) by {
            if i > 0 {
                assert(rows[i] == tail[i - 1]);
                assert(texts[i] == code_texts(bytes, tail)[i - 1]);
            }
        }
    }
}

/// A line that is scanned has a row.
proof fn lemma_line_has_rows(bytes: Seq<u8>, rules: Rules, start: int, first: int)
    ensures
        scan_line(bytes, rules, start, first) matches LineScan::Rows { rows, next } ==> rows.len()
            > 0,
{
}

/// Passing through is idempotent, for a source without directives: the
/// lines of code that the scanner finds, each written on a line of its own,
/// are scanned as the same lines of code again.
///
/// This holds where every line is steady: it does not end in a carriage
/// return once the one before its newline is taken off, and it is empty or
/// holds more than spaces and tabs.
pub proof fn lemma_passthrough_twice(bytes: Seq<u8>, rules: Rules)
    requires
        scan_all(bytes, rules) matches Scanned::Done(rows) && all_code(rows) && forall|i: int|
            0 <= i < rows.len() ==> steady(#[trigger] code_texts(bytes, rows)[i]),
    ensures
        scan_all(joined(code_texts(bytes, scan_all(bytes, rules)->Done_0)), rules) matches Scanned::Done(
            again,
        ) && all_code(again) && code_texts(
            joined(code_texts(bytes, scan_all(bytes, rules)->Done_0)),
            again,
        ) == code_texts(bytes, scan_all(bytes, rules)->Done_0),
{
    let rows = scan_all(bytes, rules)->Done_0;
    let texts = code_texts(bytes, rows);
    lemma_scanned_code_texts(bytes, rules, 0, 0);
    lemma_scan_code_texts(Seq::empty(), texts, rules, 0);
    assert(Seq::<u8>::empty() + joined(texts) =~= joined(texts));
}

/// The one file `root`, with the lines that scanning `bytes` gave.
pub open spec fn one_file(root: Seq<u8>, bytes: Seq<u8>, rows: Seq<Row<(int, int)>>) -> Map<
    Seq<u8>,
    Seq<Row<Seq<u8>>>,
> {
    Map::empty().insert(root, rows_piece(bytes, rows))
}

/// Rows of code, as text, are plain, and their code is their text.
pub proof fn lemma_code_rows_plain(bytes: Seq<u8>, rows: Seq<Row<(int, int)>>)
    requires
        all_code(rows),
    ensures
        plain(rows_piece(bytes, rows)),
        code_of(rows_piece(bytes, rows)) == code_texts(bytes, rows),
{
    assert forall|i: int| 0 <= i < rows.len() implies (#[trigger] rows_piece(bytes, rows)[i] is Code) by {
        assert(rows[i] is Code);
    }
    assert(code_of(rows_piece(bytes, rows)) =~= code_texts(bytes, rows)) by {
        assert forall|i: int| 0 <= i < rows.len() implies code_of(rows_piece(bytes, rows))[i]
            == code_texts(bytes, rows)[i] by {
            assert(rows[i] is Code);
        }
    }
}

/// Passing a source without directives through the preprocessor, and what
/// came out through it once more, emits the same lines both times.
///
/// This holds where every line is steady: it does not end in a carriage
/// return once the one before its newline is taken off, and it is empty or
/// holds more than spaces and tabs.
pub proof fn lemma_process_twice(
    root: Seq<u8>,
    bytes: Seq<u8>,
    rules: Rules,
    defines: Set<Seq<u8>>,
)
    requires
        scan_all(bytes, rules) matches Scanned::Done(rows) && all_code(rows) && forall|i: int|
            0 <= i < rows.len() ==> steady(#[trigger] code_texts(bytes, rows)[i]),
    ensures
        ({
            let rows = scan_all(bytes, rules)->Done_0;
            let once = process_spec(one_file(root, bytes, rows), root, defines);
            &&& once is Ok
            &&& scan_all(joined(once->Ok_0), rules) matches Scanned::Done(again) && process_spec(
                one_file(root, joined(once->Ok_0), again),
                root,
                defines,
            ) == once
        }),
{
    let rows = scan_all(bytes, rules)->Done_0;
    let texts = code_texts(bytes, rows);
    lemma_code_rows_plain(bytes, rows);
    lemma_plain_file_emits(one_file(root, bytes, rows), root, defines);
    lemma_passthrough_twice(bytes, rules);
    let again = scan_all(joined(texts), rules)->Done_0;
    lemma_code_rows_plain(joined(texts), again);
    lemma_plain_file_emits(one_file(root, joined(texts), again), root, defines);
}

} // verus!
