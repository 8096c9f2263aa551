//! The line scanner: from the bytes of a source to its lines.

use vstd::prelude::*;
use crate::exp::{Error, ErrorKind, Exp};
use crate::line::{line_cut, lines_cut, row_ok, rows_ok, Config, Line, Row, Rules};
use crate::parser::{
    cuts, lemma_run_cuts, parse_at, parse_ops, start_state, Mode, Parsed, NEWLINE, NUL, RETURN,
    SPACE, TAB,
};
use crate::span::{has_at, stands_at, Span};
use crate::text::cut_ok;

verus! {

/// What is wrong with a source.
#[derive(Debug, PartialEq, Eq, Clone, Copy, Structural)]
pub enum ScanErrorKind {
    /// A definition, or the end of one, names no symbol.
    MissingName,
    /// The path of an include does not start with its delimiter.
    MissingBegin,
    /// The path of an include has no delimiter at its end.
    MissingEnd,
    /// The condition of a conditional block cannot be parsed.
    Expression(ErrorKind),
}

/// An error of the scanner: what is wrong, the number of the line, counted
/// from 1, and the place and the length in bytes of what it is about.
#[derive(Debug, PartialEq, Eq, Clone, Copy, Structural)]
pub struct ScanError {
    pub line: usize,
    pub offset: usize,
    pub len: usize,
    pub kind: ScanErrorKind,
}

/// The bytes that the scanner looks for.
#[derive(Debug, PartialEq, Eq, Clone, Copy, Structural)]
pub enum Class {
    /// A space or a tab.
    Indent,
    /// A newline.
    Newline,
    /// A space, a tab, a carriage return, a newline or a NUL.
    Space,
    /// This byte.
    Byte(u8),
}

/// A byte that ends a word.
pub open spec fn is_space(c: u8) -> bool {
    c == SPACE || c == TAB || c == RETURN || c == NEWLINE || c == NUL
}

/// Whether the byte belongs to the class.
pub open spec fn in_class(c: u8, class: Class) -> bool {
    match class {
        Class::Indent => c == SPACE || c == TAB,
        Class::Newline => c == NEWLINE,
        Class::Space => is_space(c),
        Class::Byte(b) => c == b,
    }
}

/// The first place from `from` on whose byte is in the class, if `wanted`, or
/// is not in it, if not; the end of the bytes if there is none.
pub open spec fn seek(bytes: Seq<u8>, from: int, class: Class, wanted: bool) -> int
    decreases bytes.len() - from,
{
    if from < 0 || from >= bytes.len() || in_class(bytes[from], class) == wanted {
        from
    } else {
        seek(bytes, from + 1, class, wanted)
    }
}

/// What `seek` finds lies from `from` on, nothing before it fits, and the
/// byte at it fits unless it is the end.
pub proof fn lemma_seek(bytes: Seq<u8>, from: int, class: Class, wanted: bool)
    requires
        0 <= from <= bytes.len(),
    ensures
        from <= seek(bytes, from, class, wanted) <= bytes.len(),
        forall|k: int|
            from <= k < seek(bytes, from, class, wanted) ==> in_class(#[trigger] bytes[k], class)
                != wanted,
        seek(bytes, from, class, wanted) < bytes.len() ==> in_class(
            bytes[seek(bytes, from, class, wanted)],
            class,
        ) == wanted,
    decreases bytes.len() - from,
{
    if from < bytes.len() && in_class(bytes[from], class) != wanted {
        lemma_seek(bytes, from + 1, class, wanted);
    }
}

fn byte_in(c: u8, class: Class) -> (b: bool)
    ensures
        b == in_class(c, class),
{
    match class {
        Class::Indent => c == SPACE || c == TAB,
        Class::Newline => c == NEWLINE,
        Class::Space => c == SPACE || c == TAB || c == RETURN || c == NEWLINE || c == NUL,
        Class::Byte(b) => c == b,
    }
}

fn seek_in(data: &[u8], from: usize, class: Class, wanted: bool) -> (at: usize)
    requires
        from <= data@.len(),
    ensures
        at == seek(data@, from as int, class, wanted),
        from <= at <= data@.len(),
        at < data@.len() ==> in_class(data@[at as int], class) == wanted,
{
    let n: usize = data.len();
    let mut at: usize = from;
    while at < n && byte_in(data[at], class) != wanted
        invariant
            n == data@.len(),
            from <= at <= n,
            seek(data@, at as int, class, wanted) == seek(data@, from as int, class, wanted),
        decreases n - at,
    {
        at = at + 1;
    }
    at
}

/// Where the name of a definition ends that runs through `from`: at the
/// first byte that ends a word or where the comment lead stands, or at the
/// end of the bytes.
pub open spec fn def_end(bytes: Seq<u8>, from: int, comment: Seq<u8>) -> int
    decreases bytes.len() - from,
{
    if from < 0 || from >= bytes.len() || is_space(bytes[from]) || stands_at(bytes, from, comment) {
        from
    } else {
        def_end(bytes, from + 1, comment)
    }
}

/// What `def_end` finds lies from `from` on and within the bytes; the byte at
/// it ends a word or starts the comment lead, unless it is the end.
pub proof fn lemma_def_end(bytes: Seq<u8>, from: int, comment: Seq<u8>)
    requires
        0 <= from <= bytes.len(),
    ensures
        from <= def_end(bytes, from, comment) <= bytes.len(),
        def_end(bytes, from, comment) < bytes.len() ==> is_space(
            bytes[def_end(bytes, from, comment)],
        ) || stands_at(bytes, def_end(bytes, from, comment), comment),
    decreases bytes.len() - from,
{
    if from < bytes.len() && !is_space(bytes[from]) && !stands_at(bytes, from, comment) {
        lemma_def_end(bytes, from + 1, comment);
    }
}

fn find_def_end(data: &[u8], from: usize, comment: &[u8]) -> (at: usize)
    requires
        from <= data@.len(),
    ensures
        at == def_end(data@, from as int, comment@),
        from <= at <= data@.len(),
{
    let n: usize = data.len();
    let mut at: usize = from;
    while at < n && !byte_in(data[at], Class::Space) && !has_at(data, at, comment)
        invariant
            n == data@.len(),
            from <= at <= n,
            def_end(data@, at as int, comment@) == def_end(data@, from as int, comment@),
        decreases n - at,
    {
        at = at + 1;
    }
    at
}

/// The piece from `a` to `b` without the carriage return at its end, if it
/// has one.
pub open spec fn trim_cr(bytes: Seq<u8>, a: int, b: int) -> (int, int) {
    if a < b && bytes[b - 1] == RETURN {
        (a, b - 1)
    } else {
        (a, b)
    }
}

fn trimmed(data: &[u8], a: usize, b: usize) -> (s: Span)
    requires
        a <= b <= data@.len(),
    ensures
        s@ == trim_cr(data@, a as int, b as int),
{
    if a < b && data[b - 1] == RETURN {
        Span { start: a, end: b - 1 }
    } else {
        Span { start: a, end: b }
    }
}

/// The directives.
#[derive(Debug, PartialEq, Eq, Clone, Copy, Structural)]
pub enum Directive {
    If,
    Elif,
    Else,
    Endif,
    Define,
    Undef,
    Include,
}

/// The name of a directive: `if`, `elif`, `else`, `endif`, `define`, `undef`
/// or `include`.
pub open spec fn directive_name(d: Directive) -> Seq<u8> {
    match d {
        Directive::If => seq![0x69u8, 0x66u8],
        Directive::Elif => seq![0x65u8, 0x6cu8, 0x69u8, 0x66u8],
        Directive::Else => seq![0x65u8, 0x6cu8, 0x73u8, 0x65u8],
        Directive::Endif => seq![0x65u8, 0x6eu8, 0x64u8, 0x69u8, 0x66u8],
        Directive::Define => seq![0x64u8, 0x65u8, 0x66u8, 0x69u8, 0x6eu8, 0x65u8],
        Directive::Undef => seq![0x75u8, 0x6eu8, 0x64u8, 0x65u8, 0x66u8],
        Directive::Include => seq![0x69u8, 0x6eu8, 0x63u8, 0x6cu8, 0x75u8, 0x64u8, 0x65u8],
    }
}

/// The directive that a word names, if it names one.
pub open spec fn directive_of(word: Seq<u8>) -> Option<Directive> {
    if word == directive_name(Directive::If) {
        Some(Directive::If)
    } else if word == directive_name(Directive::Elif) {
        Some(Directive::Elif)
    } else if word == directive_name(Directive::Else) {
        Some(Directive::Else)
    } else if word == directive_name(Directive::Endif) {
        Some(Directive::Endif)
    } else if word == directive_name(Directive::Define) {
        Some(Directive::Define)
    } else if word == directive_name(Directive::Undef) {
        Some(Directive::Undef)
    } else if word == directive_name(Directive::Include) {
        Some(Directive::Include)
    } else {
        None
    }
}

fn word_is(data: &[u8], a: usize, b: usize, d: Directive) -> (yes: bool)
    requires
        a <= b <= data@.len(),
    ensures
        yes == (data@.subrange(a as int, b as int) == directive_name(d)),
{
    let ghost word = data@.subrange(a as int, b as int);
    let ghost name = directive_name(d);
    let yes = match d {
        Directive::If => b - a == 2 && data[a] == 0x69 && data[a + 1] == 0x66,
        Directive::Elif => b - a == 4 && data[a] == 0x65 && data[a + 1] == 0x6c && data[a + 2]
            == 0x69 && data[a + 3] == 0x66,
        Directive::Else => b - a == 4 && data[a] == 0x65 && data[a + 1] == 0x6c && data[a + 2]
            == 0x73 && data[a + 3] == 0x65,
        Directive::Endif => b - a == 5 && data[a] == 0x65 && data[a + 1] == 0x6e && data[a + 2]
            == 0x64 && data[a + 3] == 0x69 && data[a + 4] == 0x66,
        Directive::Define => b - a == 6 && data[a] == 0x64 && data[a + 1] == 0x65 && data[a + 2]
            == 0x66 && data[a + 3] == 0x69 && data[a + 4] == 0x6e && data[a + 5] == 0x65,
        Directive::Undef => b - a == 5 && data[a] == 0x75 && data[a + 1] == 0x6e && data[a + 2]
            == 0x64 && data[a + 3] == 0x65 && data[a + 4] == 0x66,
        Directive::Include => b - a == 7 && data[a] == 0x69 && data[a + 1] == 0x6e && data[a + 2]
            == 0x63 && data[a + 3] == 0x6c && data[a + 4] == 0x75 && data[a + 5] == 0x64 && data[a
            + 6] == 0x65,
    };
    proof {
        if yes {
            assert(word =~= name);
        } else if word == name {
            assert(word.len() == name.len());
            assert(forall|k: int| 0 <= k < name.len() ==> word[k] == data@[a + k]);
            assert(forall|k: int| 0 <= k < name.len() ==> word[k] == name[k]);
            assert(false);
        }
    }
    yes
}

fn classify(data: &[u8], a: usize, b: usize) -> (d: Option<Directive>)
    requires
        a <= b <= data@.len(),
    ensures
        d == directive_of(data@.subrange(a as int, b as int)),
{
    if word_is(data, a, b, Directive::If) {
        Some(Directive::If)
    } else if word_is(data, a, b, Directive::Elif) {
        Some(Directive::Elif)
    } else if word_is(data, a, b, Directive::Else) {
        Some(Directive::Else)
    } else if word_is(data, a, b, Directive::Endif) {
        Some(Directive::Endif)
    } else if word_is(data, a, b, Directive::Define) {
        Some(Directive::Define)
    } else if word_is(data, a, b, Directive::Undef) {
        Some(Directive::Undef)
    } else if word_is(data, a, b, Directive::Include) {
        Some(Directive::Include)
    } else {
        None
    }
}

/// What the scanner makes of one line.
pub enum LineScan {
    /// The rows of the line, and where the next line starts.
    Rows { rows: Seq<Row<(int, int)>>, next: int },
    /// The kind of the error, and the place and the length of what it is about.
    Fail { kind: ScanErrorKind, offset: int, len: int },
}

/// Where the line that runs through `from` is over: behind its newline, or at
/// the end of the bytes.
pub open spec fn line_over(bytes: Seq<u8>, from: int) -> int {
    let eol = seek(bytes, from, Class::Newline, true);
    if eol < bytes.len() {
        eol + 1
    } else {
        eol
    }
}

/// A line of code that starts at `start` and runs through `from`: all of it
/// up to its newline, less one carriage return before that.
pub open spec fn code_line(bytes: Seq<u8>, start: int, from: int) -> LineScan {
    let eol = seek(bytes, from, Class::Newline, true);
    LineScan::Rows {
        rows: seq![Row::Code(trim_cr(bytes, start, eol))],
        next: line_over(bytes, from),
    }
}

/// A directive that ends at `after`: its row and, if anything but a carriage
/// return is left of the line, what is left.
pub open spec fn directive_line(bytes: Seq<u8>, row: Row<(int, int)>, after: int) -> LineScan {
    let eol = seek(bytes, after, Class::Newline, true);
    let rem = trim_cr(bytes, after, eol);
    LineScan::Rows {
        rows: if rem.0 < rem.1 {
            seq![row, Row::Rem(rem)]
        } else {
            seq![row]
        },
        next: line_over(bytes, after),
    }
}

/// A conditional whose expression starts at `from`.
pub open spec fn condition_line(bytes: Seq<u8>, comment: Seq<u8>, from: int, first: bool) -> LineScan {
    match parse_at(bytes, Mode { line: true, strict: false, comment }, from) {
        Parsed::Done { ops, stop } => directive_line(
            bytes,
            if first {
                Row::If(ops)
            } else {
                Row::Elif(ops)
            },
            stop,
        ),
        Parsed::Failed { kind, offset, len } => LineScan::Fail {
            kind: ScanErrorKind::Expression(kind),
            offset,
            len,
        },
    }
}

/// A definition, or the end of one, whose name is looked for from `from` on:
/// behind spaces and tabs, up to the end of the word or to the comment lead.
/// The name must not be empty.
pub open spec fn name_line(bytes: Seq<u8>, comment: Seq<u8>, from: int, define: bool) -> LineScan {
    let s = seek(bytes, from, Class::Indent, false);
    let e = def_end(bytes, s, comment);
    if e <= s {
        LineScan::Fail { kind: ScanErrorKind::MissingName, offset: s, len: 0 }
    } else {
        directive_line(
            bytes,
            if define {
                Row::Def((s, e))
            } else {
                Row::Undef((s, e))
            },
            e,
        )
    }
}

/// An include whose path is looked for from `from` on: behind spaces and
/// tabs, between its two delimiters.
pub open spec fn include_line(bytes: Seq<u8>, begin: u8, end: u8, from: int) -> LineScan {
    let s = seek(bytes, from, Class::Indent, false);
    if s >= bytes.len() || bytes[s] != begin {
        LineScan::Fail { kind: ScanErrorKind::MissingBegin, offset: s, len: 0 }
    } else {
        let e = seek(bytes, s + 1, Class::Byte(end), true);
        if e >= bytes.len() {
            LineScan::Fail { kind: ScanErrorKind::MissingEnd, offset: s, len: bytes.len() - s }
        } else {
            directive_line(bytes, Row::Inc((s + 1, e)), e + 1)
        }
    }
}

/// The line that starts at `start` and whose first byte that is neither a
/// space nor a tab stands at `first`.
pub open spec fn scan_line(bytes: Seq<u8>, rules: Rules, start: int, first: int) -> LineScan {
    let c = bytes[first];
    if c == NEWLINE {
        LineScan::Rows { rows: seq![Row::Code((start, start))], next: first + 1 }
    } else if c == rules.special {
        let word_end = seek(bytes, first + 1, Class::Space, true);
        match directive_of(bytes.subrange(first + 1, word_end)) {
            None => code_line(bytes, start, first),
            Some(Directive::If) => condition_line(bytes, rules.comment, word_end, true),
            Some(Directive::Elif) => condition_line(bytes, rules.comment, word_end, false),
            Some(Directive::Else) => directive_line(bytes, Row::Else, word_end),
            Some(Directive::Endif) => directive_line(bytes, Row::Endif, word_end),
            Some(Directive::Define) => name_line(bytes, rules.comment, word_end, true),
            Some(Directive::Undef) => name_line(bytes, rules.comment, word_end, false),
            Some(Directive::Include) => include_line(bytes, rules.begin, rules.end, word_end),
        }
    } else {
        code_line(bytes, start, first)
    }
}

/// What the scanner makes of a source.
pub enum Scanned {
    /// The rows of the source.
    Done(Seq<Row<(int, int)>>),
    /// The kind of the error, the number of its line, counted from 1, and
    /// the place and the length of what it is about.
    Failed { kind: ScanErrorKind, line: int, offset: int, len: int },
}

/// `rows`, and then what `rest` holds.
pub open spec fn rows_then(rows: Seq<Row<(int, int)>>, rest: Scanned) -> Scanned {
    match rest {
        Scanned::Done(more) => Scanned::Done(rows + more),
        failed => failed,
    }
}

/// The rows from the line on that starts at `start`, `done` lines having
/// come before it. Spaces and tabs at the end of the source make no line.
pub open spec fn scan_from(bytes: Seq<u8>, rules: Rules, start: int, done: int) -> Scanned
    decreases bytes.len() - start,
{
    let first = seek(bytes, start, Class::Indent, false);
    if start < 0 || first >= bytes.len() {
        Scanned::Done(Seq::empty())
    } else {
        match scan_line(bytes, rules, start, first) {
            LineScan::Rows { rows, next } => if start < next <= bytes.len() {
                rows_then(rows, scan_from(bytes, rules, next, done + 1))
            } else {
                Scanned::Done(rows)
            },
            LineScan::Fail { kind, offset, len } => Scanned::Failed {
                kind,
                line: done + 1,
                offset,
                len,
            },
        }
    }
}

/// The rows of a source.
pub open spec fn scan_all(bytes: Seq<u8>, rules: Rules) -> Scanned {
    scan_from(bytes, rules, 0, 0)
}

fn push_line(lines: &mut Vec<Line<Span>>, line: Line<Span>)
    ensures
        final(lines)@ == old(lines)@.push(line),
        lines_cut(final(lines)@) == lines_cut(old(lines)@).push(line_cut(line)),
{
    lines.push(line);
    assert(lines_cut(lines@) =~= lines_cut(old(lines)@).push(line_cut(line)));
}

fn end_code(data: &[u8], start: usize, from: usize, lines: &mut Vec<Line<Span>>) -> (next: usize)
    requires
        start <= from < data@.len(),
    ensures
        line_result(
            code_line(data@, start as int, from as int),
            lines_cut(old(lines)@),
            lines_cut(final(lines)@),
            Ok(next),
        ),
        from < next <= data@.len(),
{
    let eol = seek_in(data, from, Class::Newline, true);
    push_line(lines, Line::Code(trimmed(data, start, eol)));
    proof {
        assert(lines_cut(lines@) =~= lines_cut(old(lines)@) + seq![
            Row::Code(trim_cr(data@, start as int, eol as int)),
        ]);
    }
    if eol < data.len() {
        eol + 1
    } else {
        eol
    }
}

fn end_directive(data: &[u8], line: Line<Span>, after: usize, lines: &mut Vec<Line<Span>>) -> (next:
    usize)
    requires
        after <= data@.len(),
    ensures
        line_result(
            directive_line(data@, line_cut(line), after as int),
            lines_cut(old(lines)@),
            lines_cut(final(lines)@),
            Ok(next),
        ),
        after <= next <= data@.len(),
        after < data@.len() ==> after < next,
{
    let eol = seek_in(data, after, Class::Newline, true);
    let rem = trimmed(data, after, eol);
    let ghost row = line_cut(line);
    push_line(lines, line);
    if rem.start < rem.end {
        push_line(lines, Line::Rem(rem));
    }
    proof {
        if rem.start < rem.end {
            assert(lines_cut(lines@) =~= lines_cut(old(lines)@) + seq![row, Row::Rem(rem@)]);
        } else {
            assert(lines_cut(lines@) =~= lines_cut(old(lines)@) + seq![row]);
        }
    }
    if eol < data.len() {
        eol + 1
    } else {
        eol
    }
}

/// The outcome of a line as the scanner hands it on: where the next line
/// starts, or the kind, the place and the length of the error.
pub open spec fn line_result(
    scan: LineScan,
    before: Seq<Row<(int, int)>>,
    after: Seq<Row<(int, int)>>,
    r: Result<usize, (ScanErrorKind, usize, usize)>,
) -> bool {
    match scan {
        LineScan::Rows { rows, next } => r == Ok::<usize, (ScanErrorKind, usize, usize)>(
            next as usize,
        ) && next == next as usize && after == before + rows,
        LineScan::Fail { kind, offset, len } => r == Err::<usize, (ScanErrorKind, usize, usize)>(
            (kind, offset as usize, len as usize),
        ) && offset == offset as usize && len == len as usize,
    }
}

fn scan_condition(
    data: &[u8],
    comment: &[u8],
    from: usize,
    first: bool,
    lines: &mut Vec<Line<Span>>,
) -> (r: Result<usize, (ScanErrorKind, usize, usize)>)
    requires
        from <= data@.len(),
    ensures
        line_result(
            condition_line(data@, comment@, from as int, first),
            lines_cut(old(lines)@),
            lines_cut(final(lines)@),
            r,
        ),
        r matches Ok(next) ==> from <= next <= data@.len() && (from < data@.len() ==> from < next),
{
    match parse_ops(data, from, true, false, comment) {
        Ok((ops, stop)) => {
            let line = if first {
                Line::If(Exp { ops })
            } else {
                Line::Elif(Exp { ops })
            };
            let next = end_directive(data, line, stop, lines);
            Ok(next)
        },
        Err(e) => Err((ScanErrorKind::Expression(e.kind), e.offset, e.len)),
    }
}

fn scan_name(data: &[u8], comment: &[u8], from: usize, define: bool, lines: &mut Vec<Line<Span>>) -> (r:
    Result<usize, (ScanErrorKind, usize, usize)>)
    requires
        from <= data@.len(),
    ensures
        line_result(
            name_line(data@, comment@, from as int, define),
            lines_cut(old(lines)@),
            lines_cut(final(lines)@),
            r,
        ),
        r matches Ok(next) ==> from <= next <= data@.len() && (from < data@.len() ==> from < next),
{
    let s = seek_in(data, from, Class::Indent, false);
    let e = find_def_end(data, s, comment);
    if e <= s {
        return Err((ScanErrorKind::MissingName, s, 0));
    }
    let name = Span { start: s, end: e };
    let line = if define {
        Line::Def(name)
    } else {
        Line::Undef(name)
    };
    let next = end_directive(data, line, e, lines);
    Ok(next)
}

fn scan_include(data: &[u8], begin: u8, end: u8, from: usize, lines: &mut Vec<Line<Span>>) -> (r:
    Result<usize, (ScanErrorKind, usize, usize)>)
    requires
        from <= data@.len(),
    ensures
        line_result(
            include_line(data@, begin, end, from as int),
            lines_cut(old(lines)@),
            lines_cut(final(lines)@),
            r,
        ),
        r matches Ok(next) ==> from < next <= data@.len(),
{
    let n: usize = data.len();
    let s = seek_in(data, from, Class::Indent, false);
    if s >= n || data[s] != begin {
        return Err((ScanErrorKind::MissingBegin, s, 0));
    }
    let e = seek_in(data, s + 1, Class::Byte(end), true);
    if e >= n {
        return Err((ScanErrorKind::MissingEnd, s, n - s));
    }
    let next = end_directive(data, Line::Inc(Span { start: s + 1, end: e }), e + 1, lines);
    Ok(next)
}

fn scan_one(data: &[u8], config: &Config, start: usize, first: usize, lines: &mut Vec<Line<Span>>) -> (r:
    Result<usize, (ScanErrorKind, usize, usize)>)
    requires
        start <= first < data@.len(),
    ensures
        line_result(
            scan_line(data@, config.rules(), start as int, first as int),
            lines_cut(old(lines)@),
            lines_cut(final(lines)@),
            r,
        ),
        r matches Ok(next) ==> first < next <= data@.len(),
{
    let c = data[first];
    if c == NEWLINE {
        push_line(lines, Line::Code(Span { start, end: start }));
        proof {
            assert(lines_cut(lines@) =~= lines_cut(old(lines)@) + seq![
                Row::Code((start as int, start as int)),
            ]);
        }
        return Ok(first + 1);
    }
    if c != config.special_char {
        let next = end_code(data, start, first, lines);
        return Ok(next);
    }
    let comment = config.comment.as_str().as_bytes();
    let word_end = seek_in(data, first + 1, Class::Space, true);
    match classify(data, first + 1, word_end) {
        None => {
            let next = end_code(data, start, first, lines);
            Ok(next)
        },
        Some(Directive::If) => scan_condition(data, comment, word_end, true, lines),
        Some(Directive::Elif) => scan_condition(data, comment, word_end, false, lines),
        Some(Directive::Else) => {
            let next = end_directive(data, Line::Else, word_end, lines);
            Ok(next)
        },
        Some(Directive::Endif) => {
            let next = end_directive(data, Line::Endif, word_end, lines);
            Ok(next)
        },
        Some(Directive::Define) => scan_name(data, comment, word_end, true, lines),
        Some(Directive::Undef) => scan_name(data, comment, word_end, false, lines),
        Some(Directive::Include) => scan_include(
            data,
            config.include_begin,
            config.include_end,
            word_end,
            lines,
        ),
    }
}

/// Scans a source into its lines, each piece of text by its place.
///
/// A line whose first byte behind spaces and tabs is the directive character,
/// followed by the name of a directive, is that directive, and what is left
/// of its line a `Rem`; every other line is `Code`, from its first byte to
/// its newline, less one carriage return before that.
pub fn scan(data: &[u8], config: &Config) -> (r: Result<Vec<Line<Span>>, ScanError>)
    ensures
        match scan_all(data@, config.rules()) {
            Scanned::Done(rows) => r matches Ok(v) && lines_cut(v@) == rows,
            Scanned::Failed { kind, line, offset, len } => r matches Err(e) && e.kind == kind
                && e.line == line && e.offset == offset && e.len == len,
        },
{
    let n: usize = data.len();
    let ghost rules = config.rules();
    let ghost goal = scan_all(data@, rules);
    let mut lines: Vec<Line<Span>> = Vec::new();
    let mut start: usize = 0;
    let mut done: usize = 0;
    proof {
        assert(lines_cut(lines@) =~= Seq::empty());
        assert(Seq::<Row<(int, int)>>::empty() + Seq::<Row<(int, int)>>::empty() =~= Seq::empty());
    }
    loop
        invariant
            n == data@.len(),
            rules == config.rules(),
            goal == scan_all(data@, rules),
            start <= n,
            done <= start,
            goal == rows_then(lines_cut(lines@), scan_from(data@, rules, start as int, done as int)),
        ensures
            goal == Scanned::Done(lines_cut(lines@)),
        decreases n - start,
    {
        let first = seek_in(data, start, Class::Indent, false);
        if first >= n {
            proof {
                assert(lines_cut(lines@) + Seq::<Row<(int, int)>>::empty() =~= lines_cut(lines@));
            }
            break ;
        }
        let ghost before = lines_cut(lines@);
        match scan_one(data, config, start, first, &mut lines) {
            Ok(next) => {
                proof {
                    let rest = scan_from(data@, rules, next as int, done + 1);
                    let rows = scan_line(data@, rules, start as int, first as int)->rows;
                    match rest {
                        Scanned::Done(more) => {
                            assert(before + (rows + more) =~= (before + rows) + more);
                        },
                        _ => {},
                    }
                }
                start = next;
                done = done + 1;
            },
            Err((kind, offset, len)) => {
                return Err(ScanError { line: done + 1, offset, len, kind });
            },
        }
    }
    Ok(lines)
}

/// The word that names a directive is not empty and ends in an ASCII byte.
proof fn lemma_directive_word(bytes: Seq<u8>, a: int, b: int)
    requires
        0 <= a <= b <= bytes.len(),
        directive_of(bytes.subrange(a, b)) is Some,
    ensures
        a < b,
        bytes[b - 1] < 0x80,
{
    let word = bytes.subrange(a, b);
    let d = directive_of(word)->0;
    assert(word == directive_name(d));
    assert(word.len() > 0);
    assert(word[word.len() - 1] == bytes[b - 1]);
}

proof fn lemma_directive_line_ok(bytes: Seq<u8>, row: Row<(int, int)>, after: int)
    requires
        row_ok(bytes, row),
        cut_ok(bytes, after),
    ensures
        directive_line(bytes, row, after) matches LineScan::Rows { rows, next } && rows_ok(
            bytes,
            rows,
        ) && cut_ok(bytes, next),
{
    lemma_seek(bytes, after, Class::Newline, true);
}

proof fn lemma_code_line_ok(bytes: Seq<u8>, start: int, from: int)
    requires
        cut_ok(bytes, start),
        start <= from <= bytes.len(),
    ensures
        code_line(bytes, start, from) matches LineScan::Rows { rows, next } && rows_ok(bytes, rows)
            && cut_ok(bytes, next),
{
    lemma_seek(bytes, from, Class::Newline, true);
}

/// The scanner cuts the pieces of a line out at cuts, and the next line
/// starts at one.
pub proof fn lemma_scan_line_ok(bytes: Seq<u8>, rules: Rules, start: int, first: int)
    requires
        rules.wf(),
        cut_ok(bytes, start),
        first == seek(bytes, start, Class::Indent, false),
        first < bytes.len(),
    ensures
        scan_line(bytes, rules, start, first) matches LineScan::Rows { rows, next } ==> rows_ok(
            bytes,
            rows,
        ) && cut_ok(bytes, next),
{
    lemma_seek(bytes, start, Class::Indent, false);
    let c = bytes[first];
    if c == NEWLINE {
    } else if c == rules.special {
        let word_end = seek(bytes, first + 1, Class::Space, true);
        lemma_seek(bytes, first + 1, Class::Space, true);
        let d = directive_of(bytes.subrange(first + 1, word_end));
        if d is None {
            lemma_code_line_ok(bytes, start, first);
        } else {
            lemma_directive_word(bytes, first + 1, word_end);
            assert(cut_ok(bytes, word_end));
            match d->0 {
                Directive::If | Directive::Elif => {
                    let mode = Mode { line: true, strict: false, comment: rules.comment };
                    lemma_run_cuts(bytes, mode, start_state(word_end));
                    match parse_at(bytes, mode, word_end) {
                        Parsed::Done { ops, stop } => {
                            lemma_directive_line_ok(bytes, Row::If(ops), stop);
                            lemma_directive_line_ok(bytes, Row::Elif(ops), stop);
                        },
                        _ => {},
                    }
                },
                Directive::Else => {
                    lemma_directive_line_ok(bytes, Row::Else, word_end);
                },
                Directive::Endif => {
                    lemma_directive_line_ok(bytes, Row::Endif, word_end);
                },
                Directive::Define | Directive::Undef => {
                    let s = seek(bytes, word_end, Class::Indent, false);
                    lemma_seek(bytes, word_end, Class::Indent, false);
                    let e = def_end(bytes, s, rules.comment);
                    lemma_def_end(bytes, s, rules.comment);
                    if s < e {
                        assert(cut_ok(bytes, s)) by {
                            if s > word_end {
                                assert(in_class(bytes[s - 1], Class::Indent));
                            }
                        }
                        assert(cut_ok(bytes, e)) by {
                            if e < bytes.len() && !is_space(bytes[e]) {
                                assert(stands_at(bytes, e, rules.comment));
                                assert(!stands_at(bytes, s, rules.comment));
                                assert(rules.comment.len() > 0) by {
                                    if rules.comment.len() == 0 {
                                        assert(bytes.subrange(s, s) =~= rules.comment);
                                    }
                                }
                                assert(bytes.subrange(e, e + rules.comment.len())[0] == bytes[e]);
                            }
                        }
                        lemma_directive_line_ok(bytes, Row::Def((s, e)), e);
                        lemma_directive_line_ok(bytes, Row::Undef((s, e)), e);
                    }
                },
                Directive::Include => {
                    let s = seek(bytes, word_end, Class::Indent, false);
                    lemma_seek(bytes, word_end, Class::Indent, false);
                    if s < bytes.len() && bytes[s] == rules.begin {
                        let e = seek(bytes, s + 1, Class::Byte(rules.end), true);
                        lemma_seek(bytes, s + 1, Class::Byte(rules.end), true);
                        if e < bytes.len() {
                            lemma_directive_line_ok(bytes, Row::Inc((s + 1, e)), e + 1);
                        }
                    }
                },
            }
        }
    } else {
        lemma_code_line_ok(bytes, start, first);
    }
}

/// The scanner cuts out every piece of every line at cuts.
pub proof fn lemma_scan_from_ok(bytes: Seq<u8>, rules: Rules, start: int, done: int)
    requires
        rules.wf(),
        cut_ok(bytes, start),
    ensures
        scan_from(bytes, rules, start, done) matches Scanned::Done(rows) ==> rows_ok(bytes, rows),
    decreases bytes.len() - start,
{
    let first = seek(bytes, start, Class::Indent, false);
    if first < bytes.len() {
        lemma_scan_line_ok(bytes, rules, start, first);
        match scan_line(bytes, rules, start, first) {
            LineScan::Rows { rows, next } => {
                if start < next <= bytes.len() {
                    lemma_scan_from_ok(bytes, rules, next, done + 1);
                }
            },
            _ => {},
        }
    }
}

/// What is said of an error of the scanner.
pub open spec fn scan_error_text(kind: ScanErrorKind) -> Seq<char> {
    match kind {
        ScanErrorKind::MissingName => "missing name of `define` or `undef`"@,
        ScanErrorKind::MissingBegin => "missing start delimiter of `include`"@,
        ScanErrorKind::MissingEnd => "missing end delimiter of `include`"@,
        ScanErrorKind::Expression(kind) => crate::exp::error_text(kind),
    }
}

impl ScanError {
    /// What is wrong, in words.
    pub fn message(&self) -> (text: &'static str)
        ensures
            text@ == scan_error_text(self.kind),
    {
        match self.kind {
            ScanErrorKind::MissingName => "missing name of `define` or `undef`",
            ScanErrorKind::MissingBegin => "missing start delimiter of `include`",
            ScanErrorKind::MissingEnd => "missing end delimiter of `include`",
            ScanErrorKind::Expression(kind) => (Error { offset: 0, len: 0, kind }).message(),
        }
    }
}

} // verus!
