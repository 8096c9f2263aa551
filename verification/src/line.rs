//! The lines of a source, and how the scanner is configured.

use vstd::prelude::*;
use vstd::string::*;
use vstd::utf8::*;
use crate::exp::{exp_text, pieces, Exp, Op};
use crate::parser::{cuts, ops_ok};
use crate::span::{piece, Span};
use crate::text::piece_ok;

verus! {

/// How directives are written.
pub struct Config {
    /// The ASCII byte that starts a directive; `#` by default.
    pub special_char: u8,
    /// What starts a comment that runs to the end of its line; `//` by
    /// default. At most 16 bytes.
    pub comment: String,
    /// The ASCII byte that starts the path of an include; `"` by default.
    pub include_begin: u8,
    /// The ASCII byte that ends the path of an include; `"` by default.
    pub include_end: u8,
}

/// A configuration as the scanner sees it.
pub struct Rules {
    pub special: u8,
    pub comment: Seq<u8>,
    pub begin: u8,
    pub end: u8,
}

impl Rules {
    /// Whether the three bytes are ASCII and the comment lead is no longer
    /// than 16 bytes and starts like a character.
    pub open spec fn wf(self) -> bool {
        &&& self.special < 0x80
        &&& self.begin < 0x80
        &&& self.end < 0x80
        &&& self.comment.len() <= 16
        &&& (self.comment.len() > 0 ==> !is_continuation_byte(self.comment[0]))
    }
}

/// The rules by default: `#`, `//`, `"` and `"`.
pub open spec fn default_rules() -> Rules {
    Rules { special: 0x23, comment: seq![0x2fu8, 0x2fu8], begin: 0x22, end: 0x22 }
}

impl Config {
    /// The configuration as the scanner sees it.
    pub open spec fn rules(&self) -> Rules {
        Rules {
            special: self.special_char,
            comment: encode_utf8(self.comment@),
            begin: self.include_begin,
            end: self.include_end,
        }
    }

    /// Whether the three bytes are ASCII and the comment lead is no longer
    /// than 16 bytes.
    pub open spec fn wf(&self) -> bool {
        &&& self.special_char < 0x80
        &&& self.include_begin < 0x80
        &&& self.include_end < 0x80
        &&& encode_utf8(self.comment@).len() <= 16
    }

    /// A well-formed configuration gives well-formed rules: text never starts
    /// in the middle of a character.
    pub proof fn lemma_rules_wf(&self)
        requires
            self.wf(),
        ensures
            self.rules().wf(),
    {
        let bytes = encode_utf8(self.comment@);
        encode_utf8_valid_utf8(self.comment@);
        if bytes.len() > 0 {
            is_char_boundary_start_end_of_seq(bytes);
            is_char_boundary_iff_not_is_continuation_byte(bytes, 0);
        }
    }

    /// Tells whether the configuration is well-formed.
    pub fn is_valid(&self) -> (b: bool)
        ensures
            b == self.wf(),
    {
        self.special_char < 0x80 && self.include_begin < 0x80 && self.include_end < 0x80
            && self.comment.as_str().as_bytes().len() <= 16
    }
}

impl Default for Config {
    fn default() -> (c: Config)
        ensures
            c.rules() == default_rules(),
            c.wf(),
    {
        let c = Config {
            special_char: 0x23,
            comment: "//".to_owned(),
            include_begin: 0x22,
            include_end: 0x22,
        };
        proof {
            reveal_strlit("//");
            is_ascii_chars_encode_utf8("//"@);
            assert(encode_utf8("//"@) =~= seq![0x2fu8, 0x2fu8]);
        }
        c
    }
}

/// A line of a source. `T` is what stands for a piece of text: the text
/// itself, or its place in the source.
#[derive(Debug, PartialEq, Eq)]
pub enum Line<T> {
    /// A line that is passed through, without its line ending.
    Code(T),
    /// What follows a directive on its line.
    Rem(T),
    /// An include, with its path.
    Inc(T),
    /// A definition, with the name of the symbol.
    Def(T),
    /// The end of a definition, with the name of the symbol.
    Undef(T),
    /// The start of a conditional block.
    If(Exp<T>),
    /// Another branch of a conditional block, with its own condition.
    Elif(Exp<T>),
    /// The branch of a conditional block that is taken if none before was.
    Else,
    /// The end of a conditional block.
    Endif,
}

/// A line as contracts see it.
pub enum Row<T> {
    Code(T),
    Rem(T),
    Inc(T),
    Def(T),
    Undef(T),
    If(Seq<Op<T>>),
    Elif(Seq<Op<T>>),
    Else,
    Endif,
}

/// The line, with each piece of text by its start and end.
pub open spec fn line_cut(line: Line<Span>) -> Row<(int, int)> {
    match line {
        Line::Code(s) => Row::Code(s@),
        Line::Rem(s) => Row::Rem(s@),
        Line::Inc(s) => Row::Inc(s@),
        Line::Def(s) => Row::Def(s@),
        Line::Undef(s) => Row::Undef(s@),
        Line::If(e) => Row::If(cuts(e.ops@)),
        Line::Elif(e) => Row::Elif(cuts(e.ops@)),
        Line::Else => Row::Else,
        Line::Endif => Row::Endif,
    }
}

/// The lines, with each piece of text by its start and end.
pub open spec fn lines_cut(lines: Seq<Line<Span>>) -> Seq<Row<(int, int)>> {
    Seq::new(lines.len(), |i: int| line_cut(lines[i]))
}

/// The line, with each piece of text as bytes.
pub open spec fn line_text(line: Line<&str>) -> Row<Seq<u8>> {
    match line {
        Line::Code(s) => Row::Code(s.spec_bytes()),
        Line::Rem(s) => Row::Rem(s.spec_bytes()),
        Line::Inc(s) => Row::Inc(s.spec_bytes()),
        Line::Def(s) => Row::Def(s.spec_bytes()),
        Line::Undef(s) => Row::Undef(s.spec_bytes()),
        Line::If(e) => Row::If(exp_text(e.ops@)),
        Line::Elif(e) => Row::Elif(exp_text(e.ops@)),
        Line::Else => Row::Else,
        Line::Endif => Row::Endif,
    }
}

/// The lines, with each piece of text as bytes.
pub open spec fn lines_text(lines: Seq<Line<&str>>) -> Seq<Row<Seq<u8>>> {
    Seq::new(lines.len(), |i: int| line_text(lines[i]))
}

/// The row, with the bytes of `bytes` that stand at each place.
pub open spec fn row_piece(bytes: Seq<u8>, row: Row<(int, int)>) -> Row<Seq<u8>> {
    match row {
        Row::Code(at) => Row::Code(piece(bytes, at)),
        Row::Rem(at) => Row::Rem(piece(bytes, at)),
        Row::Inc(at) => Row::Inc(piece(bytes, at)),
        Row::Def(at) => Row::Def(piece(bytes, at)),
        Row::Undef(at) => Row::Undef(piece(bytes, at)),
        Row::If(ops) => Row::If(pieces(bytes, ops)),
        Row::Elif(ops) => Row::Elif(pieces(bytes, ops)),
        Row::Else => Row::Else,
        Row::Endif => Row::Endif,
    }
}

/// The rows, with the bytes of `bytes` that stand at each place.
pub open spec fn rows_piece(bytes: Seq<u8>, rows: Seq<Row<(int, int)>>) -> Seq<Row<Seq<u8>>> {
    Seq::new(rows.len(), |i: int| row_piece(bytes, rows[i]))
}

/// Whether every piece of the row starts and ends at a cut of `bytes`.
pub open spec fn row_ok(bytes: Seq<u8>, row: Row<(int, int)>) -> bool {
    match row {
        Row::Code(at) => piece_ok(bytes, at),
        Row::Rem(at) => piece_ok(bytes, at),
        Row::Inc(at) => piece_ok(bytes, at),
        Row::Def(at) => piece_ok(bytes, at),
        Row::Undef(at) => piece_ok(bytes, at),
        Row::If(ops) => ops_ok(bytes, ops),
        Row::Elif(ops) => ops_ok(bytes, ops),
        Row::Else => true,
        Row::Endif => true,
    }
}

/// Whether every piece of every row starts and ends at a cut of `bytes`.
pub open spec fn rows_ok(bytes: Seq<u8>, rows: Seq<Row<(int, int)>>) -> bool {
    forall|i: int| 0 <= i < rows.len() ==> row_ok(bytes, #[trigger] rows[i])
}

} // verus!
