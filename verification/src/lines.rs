//! The scanner goes through the source line by line and in order: every
//! piece that it cuts out lies in its line, behind the pieces before it.

use vstd::prelude::*;
use crate::exp::Op;
use crate::line::Row;
use crate::line::Rules;
use crate::parser::{
    close_paren, drain, flush, lemma_name_end_bounds, name_end, op_of, parse_at, prec_of, run,
    start_state, step, Mode, ParseState, Parsed, Step, Token, NEWLINE,
};
use crate::passthrough::{blank_line, lemma_joined_first, lemma_seek_is, lemma_uncr_line, uncr};
use crate::preprocessor::joined;
use crate::scan::{
    def_end, directive_line, directive_of, in_class, is_space, lemma_def_end, lemma_seek,
    line_over, scan_all, scan_from, scan_line, seek, trim_cr, Class, Directive, LineScan, Scanned,
};
use crate::span::{piece, stands_at};

verus! {

/// The places of the names of an expression, in the order of the operators.
pub open spec fn names_at(ops: Seq<Op<(int, int)>>) -> Seq<(int, int)>
    decreases ops.len(),
{
    if ops.len() == 0 {
        Seq::empty()
    } else {
        match ops.last() {
            Op::Var(at) => names_at(ops.drop_last()).push(at),
            _ => names_at(ops.drop_last()),
        }
    }
}

/// Whether the pieces lie between `lo` and `hi`, each behind the one before.
pub open spec fn in_order(spans: Seq<(int, int)>, lo: int, hi: int) -> bool {
    &&& forall|i: int| 0 <= i < spans.len() ==> lo <= (#[trigger] spans[i]).0 <= spans[i].1 <= hi
    &&& forall|i: int, j: int|
        0 <= i < j < spans.len() ==> (#[trigger] spans[i]).1 <= (#[trigger] spans[j]).0
}

/// Pieces in order, and then pieces in order behind them, are in order.
pub proof fn lemma_in_order_then(
    a: Seq<(int, int)>,
    b: Seq<(int, int)>,
    lo: int,
    mid: int,
    hi: int,
)
    requires
        in_order(a, lo, mid),
        in_order(b, mid, hi),
        lo <= mid <= hi,
    ensures
        in_order(a + b, lo, hi),
{
    let all = a + b;
    assert forall|i: int| 0 <= i < all.len() implies lo <= (#[trigger] all[i]).0 <= all[i].1
        <= hi by {
        if i < a.len() {
            assert(all[i] == a[i]);
        } else {
            assert(all[i] == b[i - a.len()]);
        }
    }
    assert forall|i: int, j: int| 0 <= i < j < all.len() implies (#[trigger] all[i]).1 <= (
    #[trigger] all[j]).0 by {
        if i < a.len() {
            assert(all[i] == a[i]);
        } else {
            assert(all[i] == b[i - a.len()]);
        }
        if j < a.len() {
            assert(all[j] == a[j]);
        } else {
            assert(all[j] == b[j - a.len()]);
        }
    }
}

proof fn lemma_flush_names(stack: Seq<Token>, out: Seq<Op<(int, int)>>, prec: int)
    ensures
        names_at(flush(stack, out, prec).1) == names_at(out),
    decreases stack.len(),
{
    if stack.len() > 0 && stack.last() != Token::LParen && prec_of(stack.last()) >= prec {
        let more = out.push(op_of(stack.last()));
        assert(more.drop_last() =~= out);
        lemma_flush_names(stack.drop_last(), more, prec);
    }
}

proof fn lemma_close_names(stack: Seq<Token>, out: Seq<Op<(int, int)>>)
    ensures
        close_paren(stack, out) matches Some(r) ==> names_at(r.1) == names_at(out),
    decreases stack.len(),
{
    if stack.len() > 0 && stack.last() != Token::LParen {
        let more = out.push(op_of(stack.last()));
        assert(more.drop_last() =~= out);
        lemma_close_names(stack.drop_last(), more);
    }
}

proof fn lemma_drain_names(stack: Seq<Token>, out: Seq<Op<(int, int)>>)
    ensures
        drain(stack, out) matches Some(r) ==> names_at(r) == names_at(out),
    decreases stack.len(),
{
    if stack.len() > 0 && stack.last() != Token::LParen {
        let more = out.push(op_of(stack.last()));
        assert(more.drop_last() =~= out);
        lemma_drain_names(stack.drop_last(), more);
    }
}

/// The parser cuts out its names in order, between the place where it starts
/// and the place where it stops; and where it reads the argument of a
/// directive, it passes no newline.
pub proof fn lemma_run_in_order(bytes: Seq<u8>, mode: Mode, st: ParseState, from: int)
    requires
        0 <= from <= st.pos <= bytes.len(),
        in_order(names_at(st.out), from, st.pos),
        mode.line ==> forall|k: int| from <= k < st.pos ==> #[trigger] bytes[k] != NEWLINE,
    ensures
        run(bytes, mode, st) matches Parsed::Done { ops, stop } ==> st.pos <= stop <= bytes.len()
            && in_order(names_at(ops), from, stop) && (mode.line ==> forall|k: int|
            from <= k < stop ==> #[trigger] bytes[k] != NEWLINE),
    decreases bytes.len() - st.pos,
{
    match step(bytes, mode, st) {
        Step::Go(next) => {
            if st.pos < next.pos <= bytes.len() {
                let p = st.pos;
                lemma_flush_names(st.stack, st.out, 0);
                lemma_flush_names(st.stack, st.out, 1);
                lemma_close_names(st.stack, st.out);
                let e = name_end(bytes, p + 1, mode.comment);
                lemma_name_end_bounds(bytes, p + 1, mode.comment);
                let named = st.out.push(Op::Var((p, e)));
                assert(named.drop_last() =~= st.out);
                assert(names_at(next.out) == names_at(st.out) || (next.out == named && next.pos
                    == e));
                if next.out == named && next.pos == e {
                    lemma_in_order_then(names_at(st.out), seq![(p, e)], from, p, e);
                    assert(names_at(named) =~= names_at(st.out) + seq![(p, e)]);
                }
                assert(in_order(names_at(next.out), from, next.pos));
                lemma_run_in_order(bytes, mode, next, from);
            }
        },
        Step::Stop => {
            lemma_drain_names(st.stack, st.out);
        },
        Step::Fail(_, _, _) => {},
    }
}

/// The pieces of a row, in order.
pub open spec fn row_spans(row: Row<(int, int)>) -> Seq<(int, int)> {
    match row {
        Row::Code(at) => seq![at],
        Row::Rem(at) => seq![at],
        Row::Inc(at) => seq![at],
        Row::Def(at) => seq![at],
        Row::Undef(at) => seq![at],
        Row::If(ops) => names_at(ops),
        Row::Elif(ops) => names_at(ops),
        Row::Else => Seq::empty(),
        Row::Endif => Seq::empty(),
    }
}

/// The pieces of the rows, in order.
pub open spec fn spans_of(rows: Seq<Row<(int, int)>>) -> Seq<(int, int)>
    decreases rows.len(),
{
    if rows.len() == 0 {
        Seq::empty()
    } else {
        spans_of(rows.drop_last()) + row_spans(rows.last())
    }
}

/// The lines of the source from `start` on: each from its first byte up to
/// its newline, without the carriage return before that.
pub open spec fn source_lines(bytes: Seq<u8>, start: int) -> Seq<(int, int)>
    decreases bytes.len() - start,
{
    let next = line_over(bytes, start);
    if 0 <= start < next <= bytes.len() {
        seq![trim_cr(bytes, start, seek(bytes, start, Class::Newline, true))] + source_lines(
            bytes,
            next,
        )
    } else {
        Seq::empty()
    }
}

/// The bytes of each of the pieces.
pub open spec fn texts_at(bytes: Seq<u8>, spans: Seq<(int, int)>) -> Seq<Seq<u8>> {
    Seq::new(spans.len(), |i: int| piece(bytes, spans[i]))
}

/// The lines of a source that ends in a newline, each with a newline behind
/// it, are the source without the carriage returns before newlines.
pub proof fn lemma_lines_are_the_source(bytes: Seq<u8>, start: int)
    requires
        0 <= start <= bytes.len(),
        bytes.len() == 0 || bytes.last() == NEWLINE,
    ensures
        joined(texts_at(bytes, source_lines(bytes, start))) == uncr(bytes.skip(start)),
    decreases bytes.len() - start,
{
    if start == bytes.len() {
        assert(bytes.skip(start) =~= Seq::<u8>::empty());
        assert(texts_at(bytes, source_lines(bytes, start)) =~= Seq::<Seq<u8>>::empty());
    } else {
        let eol = seek(bytes, start, Class::Newline, true);
        lemma_seek(bytes, start, Class::Newline, true);
        assert(eol < bytes.len()) by {
            if eol >= bytes.len() {
                assert(in_class(bytes[bytes.len() - 1], Class::Newline));
            }
        }
        assert forall|k: int| start <= k < eol implies #[trigger] bytes[k] != NEWLINE by {
            assert(!in_class(bytes[k], Class::Newline));
        }
        let line = trim_cr(bytes, start, eol);
        lemma_lines_are_the_source(bytes, eol + 1);
        let rest = source_lines(bytes, eol + 1);
        assert(texts_at(bytes, source_lines(bytes, start)) =~= seq![piece(bytes, line)] + texts_at(
            bytes,
            rest,
        ));
        lemma_joined_first(piece(bytes, line), texts_at(bytes, rest));
        lemma_uncr_line(bytes, start, eol);
    }
}

/// Whether the rows are those of one line of the source: one row, with a
/// row of what is left behind it if it is a directive; their pieces lie in
/// the line, in order; a row of code is all of the line, or empty where the
/// line holds spaces and tabs only; and what is left of a directive's line
/// runs to the end of the line.
pub open spec fn line_rows(bytes: Seq<u8>, rows: Seq<Row<(int, int)>>, line: (int, int)) -> bool {
    &&& 1 <= rows.len() <= 2
    &&& !(rows[0] is Rem)
    &&& in_order(spans_of(rows), line.0, line.1 + 1)
    &&& (rows[0] matches Row::Code(at) ==> rows.len() == 1 && (at == line || (at == (line.0, line.0)
        && blank_line(bytes, line.0))))
    &&& (rows.len() == 2 ==> (rows[1] matches Row::Rem(at) && at.0 < at.1 && at.1 == line.1))
}

/// Whether the rows go by the lines: the first one or two rows are those of
/// the first line, and so on.
pub open spec fn rows_in_lines(
    bytes: Seq<u8>,
    rows: Seq<Row<(int, int)>>,
    lines: Seq<(int, int)>,
) -> bool
    decreases lines.len(),
{
    if lines.len() == 0 {
        rows.len() == 0
    } else {
        let k: int = if rows.len() > 1 && rows[1] is Rem {
            2
        } else {
            1
        };
        rows.len() >= k && line_rows(bytes, rows.take(k), lines[0]) && rows_in_lines(
            bytes,
            rows.skip(k),
            lines.drop_first(),
        )
    }
}

/// Whether no newline stands in the piece.
pub open spec fn in_one_line(bytes: Seq<u8>, at: (int, int)) -> bool {
    forall|k: int| at.0 <= k < at.1 ==> #[trigger] bytes[k] != NEWLINE
}

/// Whether the path of every include among the rows stands in one line.
pub open spec fn paths_in_one_line(bytes: Seq<u8>, rows: Seq<Row<(int, int)>>) -> bool {
    forall|i: int| 0 <= i < rows.len() ==> (#[trigger] rows[i] matches Row::Inc(at) ==> in_one_line(
        bytes,
        at,
    ))
}

/// The pieces of one row, and of one row with another behind it.
proof fn lemma_spans_of_few(a: Row<(int, int)>, b: Row<(int, int)>)
    ensures
        spans_of(seq![a]) == row_spans(a),
        spans_of(seq![a, b]) == row_spans(a) + row_spans(b),
{
    assert(seq![a].drop_last() =~= Seq::<Row<(int, int)>>::empty());
    assert(spans_of(seq![a].drop_last()) =~= Seq::<(int, int)>::empty());
    assert(seq![a].last() == a);
    assert(spans_of(seq![a]) =~= row_spans(a));
    assert(seq![a, b].drop_last() =~= seq![a]);
    assert(seq![a, b].last() == b);
    assert(spans_of(seq![a, b]) =~= row_spans(a) + row_spans(b));
}

/// A directive that ends at `after`, in the line that starts at `start`,
/// with no newline before `after`: its rows are those of the line, and the
/// next line starts where the line is over.
proof fn lemma_directive_in_line(bytes: Seq<u8>, row: Row<(int, int)>, start: int, after: int)
    requires
        0 <= start <= after <= bytes.len(),
        in_one_line(bytes, (start, after)),
        in_order(row_spans(row), start, after),
        !(row is Code),
        !(row is Rem),
    ensures
        directive_line(bytes, row, after) matches LineScan::Rows { rows, next } && next
            == line_over(bytes, start) && line_rows(
            bytes,
            rows,
            trim_cr(bytes, start, seek(bytes, start, Class::Newline, true)),
        ),
{
    let eol = seek(bytes, start, Class::Newline, true);
    lemma_seek(bytes, start, Class::Newline, true);
    assert(after <= eol) by {
        if after > eol {
            assert(in_class(bytes[eol], Class::Newline));
        }
    }
    assert forall|k: int| after <= k < eol implies in_class(#[trigger] bytes[k], Class::Newline)
        != true by {}
    lemma_seek_is(bytes, after, Class::Newline, true, eol);
    let line = trim_cr(bytes, start, eol);
    let rem = trim_cr(bytes, after, eol);
    lemma_spans_of_few(row, Row::Rem(rem));
    let rows = directive_line(bytes, row, after)->rows;
    if rem.0 < rem.1 {
        lemma_in_order_then(row_spans(row), seq![rem], start, after, line.1 + 1);
        assert(rows =~= seq![row, Row::Rem(rem)]);
    } else {
        lemma_in_order_then(row_spans(row), Seq::empty(), start, after, eol);
        assert(row_spans(row) + Seq::<(int, int)>::empty() =~= row_spans(row));
        assert(rows =~= seq![row]);
    }
}

/// What the scanner makes of a line are the rows of that line, and it goes
/// on with the line behind it.
pub proof fn lemma_line_in_line(bytes: Seq<u8>, rules: Rules, start: int, first: int)
    requires
        0 <= start,
        first == seek(bytes, start, Class::Indent, false),
        first < bytes.len(),
        rules.begin != NEWLINE,
        rules.end != NEWLINE,
        scan_line(bytes, rules, start, first) matches LineScan::Rows { rows, next }
            ==> paths_in_one_line(bytes, rows),
    ensures
        scan_line(bytes, rules, start, first) matches LineScan::Rows { rows, next } ==> next
            == line_over(bytes, start) && line_rows(
            bytes,
            rows,
            trim_cr(bytes, start, seek(bytes, start, Class::Newline, true)),
        ),
{
    lemma_seek(bytes, start, Class::Indent, false);
    let eol = seek(bytes, start, Class::Newline, true);
    lemma_seek(bytes, start, Class::Newline, true);
    let c = bytes[first];
    let word_end = seek(bytes, first + 1, Class::Space, true);
    lemma_seek(bytes, first + 1, Class::Space, true);
    assert forall|k: int| start <= k < first implies #[trigger] bytes[k] != NEWLINE by {
        assert(in_class(bytes[k], Class::Indent));
    }
    match scan_line(bytes, rules, start, first) {
        LineScan::Rows { rows, next } => {
            if c == NEWLINE {
                assert(eol == first) by {
                    lemma_seek_is(bytes, start, Class::Newline, true, first);
                }
                lemma_spans_of_few(rows[0], rows[0]);
                assert(rows =~= seq![rows[0]]);
            } else if c == rules.special && directive_of(bytes.subrange(first + 1, word_end))
                is Some {
                assert forall|k: int| start <= k < word_end implies #[trigger] bytes[k]
                    != NEWLINE by {
                    if k > first {
                        assert(!in_class(bytes[k], Class::Space));
                    }
                }
                lemma_directive_kinds(bytes, rules, start, first);
            } else {
                let from_first = seek(bytes, first, Class::Newline, true);
                lemma_seek(bytes, first, Class::Newline, true);
                assert(from_first == eol) by {
                    assert forall|k: int| start <= k < from_first implies in_class(
                        #[trigger] bytes[k],
                        Class::Newline,
                    ) != true by {}
                    lemma_seek_is(bytes, start, Class::Newline, true, from_first);
                }
                lemma_spans_of_few(rows[0], rows[0]);
                assert(rows =~= seq![rows[0]]);
            }
        },
        _ => {},
    }
}

/// No byte that ends a word stands in the name of a definition.
proof fn lemma_def_name(bytes: Seq<u8>, from: int, comment: Seq<u8>)
    requires
        0 <= from <= bytes.len(),
    ensures
        forall|k: int| from <= k < def_end(bytes, from, comment) ==> !is_space(#[trigger] bytes[k]),
    decreases bytes.len() - from,
{
    if from < bytes.len() && !is_space(bytes[from]) && !stands_at(bytes, from, comment) {
        lemma_def_name(bytes, from + 1, comment);
    }
}

/// The rows of a line that holds a directive are the rows of that line.
proof fn lemma_directive_kinds(bytes: Seq<u8>, rules: Rules, start: int, first: int)
    requires
        0 <= start <= first < bytes.len(),
        bytes[first] == rules.special,
        bytes[first] != NEWLINE,
        rules.begin != NEWLINE,
        rules.end != NEWLINE,
        directive_of(bytes.subrange(first + 1, seek(bytes, first + 1, Class::Space, true))) is Some,
        in_one_line(bytes, (start, seek(bytes, first + 1, Class::Space, true))),
        scan_line(bytes, rules, start, first) matches LineScan::Rows { rows, next }
            ==> paths_in_one_line(bytes, rows),
    ensures
        scan_line(bytes, rules, start, first) matches LineScan::Rows { rows, next } ==> next
            == line_over(bytes, start) && line_rows(
            bytes,
            rows,
            trim_cr(bytes, start, seek(bytes, start, Class::Newline, true)),
        ),
{
    let word_end = seek(bytes, first + 1, Class::Space, true);
    lemma_seek(bytes, first + 1, Class::Space, true);
    let none = Seq::<(int, int)>::empty();
    match directive_of(bytes.subrange(first + 1, word_end))->0 {
        Directive::If | Directive::Elif => {
            let mode = Mode { line: true, strict: false, comment: rules.comment };
            assert(names_at(start_state(word_end).out) =~= none);
            lemma_run_in_order(bytes, mode, start_state(word_end), word_end);
            match parse_at(bytes, mode, word_end) {
                Parsed::Done { ops, stop } => {
                    assert(in_order(names_at(ops), start, stop));
                    lemma_directive_in_line(bytes, Row::If(ops), start, stop);
                    lemma_directive_in_line(bytes, Row::Elif(ops), start, stop);
                },
                _ => {},
            }
        },
        Directive::Else => {
            lemma_directive_in_line(bytes, Row::Else, start, word_end);
        },
        Directive::Endif => {
            lemma_directive_in_line(bytes, Row::Endif, start, word_end);
        },
        Directive::Define | Directive::Undef => {
            let s = seek(bytes, word_end, Class::Indent, false);
            lemma_seek(bytes, word_end, Class::Indent, false);
            let e = def_end(bytes, s, rules.comment);
            lemma_def_end(bytes, s, rules.comment);
            lemma_def_name(bytes, s, rules.comment);
            if s < e {
                assert forall|k: int| start <= k < e implies #[trigger] bytes[k] != NEWLINE by {
                    if word_end <= k < s {
                        assert(in_class(bytes[k], Class::Indent));
                    }
                }
                lemma_directive_in_line(bytes, Row::Def((s, e)), start, e);
                lemma_directive_in_line(bytes, Row::Undef((s, e)), start, e);
            }
        },
        Directive::Include => {
            let s = seek(bytes, word_end, Class::Indent, false);
            lemma_seek(bytes, word_end, Class::Indent, false);
            if s < bytes.len() && bytes[s] == rules.begin {
                let e = seek(bytes, s + 1, Class::Byte(rules.end), true);
                lemma_seek(bytes, s + 1, Class::Byte(rules.end), true);
                if e < bytes.len() {
                    let rows = scan_line(bytes, rules, start, first)->rows;
                    assert(rows[0] == Row::<(int, int)>::Inc((s + 1, e)));
                    assert(in_one_line(bytes, (s + 1, e)));
                    assert forall|k: int| start <= k < e + 1 implies #[trigger] bytes[k]
                        != NEWLINE by {
                        if word_end <= k < s {
                            assert(in_class(bytes[k], Class::Indent));
                        }
                    }
                    lemma_directive_in_line(bytes, Row::Inc((s + 1, e)), start, e + 1);
                }
            }
        },
    }
}

/// The rows that the scanner finds from the line on that starts at `start`
/// go by the lines of the source from there on.
pub proof fn lemma_rows_go_by_lines_from(bytes: Seq<u8>, rules: Rules, start: int, done: int)
    requires
        0 <= start <= bytes.len(),
        bytes.len() == 0 || bytes.last() == NEWLINE,
        rules.begin != NEWLINE,
        rules.end != NEWLINE,
        scan_from(bytes, rules, start, done) matches Scanned::Done(rows) && paths_in_one_line(
            bytes,
            rows,
        ),
    ensures
        rows_in_lines(
            bytes,
            scan_from(bytes, rules, start, done)->Done_0,
            source_lines(bytes, start),
        ),
    decreases bytes.len() - start,
{
    let rows = scan_from(bytes, rules, start, done)->Done_0;
    let lines = source_lines(bytes, start);
    let first = seek(bytes, start, Class::Indent, false);
    lemma_seek(bytes, start, Class::Indent, false);
    let eol = seek(bytes, start, Class::Newline, true);
    lemma_seek(bytes, start, Class::Newline, true);
    if start < bytes.len() {
        assert(first < bytes.len()) by {
            if first >= bytes.len() {
                assert(in_class(bytes[bytes.len() - 1], Class::Indent));
            }
        }
        assert(eol < bytes.len()) by {
            if eol >= bytes.len() {
                assert(in_class(bytes[bytes.len() - 1], Class::Newline));
            }
        }
        let line = trim_cr(bytes, start, eol);
        let scanned = scan_line(bytes, rules, start, first);
        let head = scanned->rows;
        let next = scanned->next;
        let tail = scan_from(bytes, rules, next, done + 1)->Done_0;
        assert(paths_in_one_line(bytes, head)) by {
            assert forall|i: int| 0 <= i < head.len() implies (#[trigger] head[i] matches Row::Inc(
                at,
            ) ==> in_one_line(bytes, at)) by {
                if start < next <= bytes.len() {
                    assert(rows[i] == head[i]);
                } else {
                    assert(rows[i] == head[i]);
                }
            }
        }
        lemma_line_in_line(bytes, rules, start, first);
        assert(next == eol + 1);
        assert(rows == head + tail);
        assert(paths_in_one_line(bytes, tail)) by {
            assert forall|i: int| 0 <= i < tail.len() implies (#[trigger] tail[i] matches Row::Inc(
                at,
            ) ==> in_one_line(bytes, at)) by {
                assert(rows[head.len() + i] == tail[i]);
            }
        }
        lemma_rows_go_by_lines_from(bytes, rules, next, done + 1);
        let rest = source_lines(bytes, next);
        assert(lines =~= seq![line] + rest);
        assert(lines.drop_first() =~= rest);
        assert(lines[0] == line);
        let k: int = if rows.len() > 1 && rows[1] is Rem {
            2
        } else {
            1
        };
        assert(k == head.len()) by {
            if head.len() == 2 {
                assert(rows[1] == head[1]);
            } else if tail.len() > 0 {
                assert(rows[1] == tail[0]);
                let inner: int = if tail.len() > 1 && tail[1] is Rem {
                    2
                } else {
                    1
                };
                assert(rest.len() > 0);
                assert(tail.take(inner)[0] == tail[0]);
            }
        }
        assert(rows.take(k) =~= head);
        assert(rows.skip(k) =~= tail);
    }
}

/// The scanner goes through a source line by line and in order. Of each line
/// it gives one row, and behind the row of a directive a row of what is left
/// of the line, if anything is. The pieces of these rows lie in that line,
/// each behind the one before; a row of code is all of the line, and what is
/// left of a directive's line runs to the end of the line. The lines, each
/// with a newline behind it, are the source without the carriage returns
/// before newlines.
///
/// This holds of a source that ends in a newline, where no path of an
/// include runs over a newline and no delimiter of includes is a newline.
pub proof fn lemma_rows_go_by_lines(bytes: Seq<u8>, rules: Rules)
    requires
        bytes.len() == 0 || bytes.last() == NEWLINE,
        rules.begin != NEWLINE,
        rules.end != NEWLINE,
        scan_all(bytes, rules) matches Scanned::Done(rows) && paths_in_one_line(bytes, rows),
    ensures
        rows_in_lines(bytes, scan_all(bytes, rules)->Done_0, source_lines(bytes, 0)),
        joined(texts_at(bytes, source_lines(bytes, 0))) == uncr(bytes),
{
    lemma_rows_go_by_lines_from(bytes, rules, 0, 0);
    lemma_lines_are_the_source(bytes, 0);
    assert(bytes.skip(0) =~= bytes);
}

} // verus!
