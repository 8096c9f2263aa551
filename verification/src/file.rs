//! A source and its lines, kept together.

use vstd::prelude::*;
use vstd::string::*;
use vstd::utf8::*;
use crate::exp::{resolve, Exp};
use crate::line::{
    line_cut, line_text, lines_cut, lines_text, row_ok, row_piece, rows_ok, rows_piece, Config,
    Line, Row, Rules,
};
use crate::scan::{lemma_scan_from_ok, scan, scan_all, ScanError, Scanned};
use crate::span::Span;
use crate::text::substr;

verus! {

/// Turns the places of a line into text.
pub fn resolve_line<'a>(s: &'a str, line: &Line<Span>) -> (r: Line<&'a str>)
    requires
        row_ok(s.spec_bytes(), line_cut(*line)),
    ensures
        line_text(r) == row_piece(s.spec_bytes(), line_cut(*line)),
{
    match line {
        Line::Code(at) => Line::Code(substr(s, *at)),
        Line::Rem(at) => Line::Rem(substr(s, *at)),
        Line::Inc(at) => Line::Inc(substr(s, *at)),
        Line::Def(at) => Line::Def(substr(s, *at)),
        Line::Undef(at) => Line::Undef(substr(s, *at)),
        Line::If(e) => Line::If(Exp { ops: resolve(s, &e.ops) }),
        Line::Elif(e) => Line::Elif(Exp { ops: resolve(s, &e.ops) }),
        Line::Else => Line::Else,
        Line::Endif => Line::Endif,
    }
}

/// What scanning the text `bytes` comes to: its lines, each piece as bytes,
/// or the error.
pub open spec fn scan_text(bytes: Seq<u8>, config: Config) -> Result<
    Seq<Row<Seq<u8>>>,
    ScanError,
> {
    match scan_all(bytes, config.rules()) {
        Scanned::Done(rows) => Ok(rows_piece(bytes, rows)),
        Scanned::Failed { kind, line, offset, len } => Err(
            ScanError { line: line as usize, offset: offset as usize, len: len as usize, kind },
        ),
    }
}

/// Scans a source text into its lines.
pub fn parse_file<'a>(input: &'a str, config: &Config) -> (r: Result<Vec<Line<&'a str>>, ScanError>)
    requires
        config.wf(),
    ensures
        match scan_text(input.spec_bytes(), *config) {
            Ok(rows) => r matches Ok(v) && lines_text(v@) == rows,
            Err(e) => r == Err::<Vec<Line<&'a str>>, ScanError>(e),
        },
{
    let ghost bytes = input.spec_bytes();
    let spans = match scan(input.as_bytes(), config) {
        Ok(spans) => spans,
        Err(e) => {
            return Err(e);
        },
    };
    proof {
        config.lemma_rules_wf();
        lemma_scan_from_ok(bytes, config.rules(), 0, 0);
    }
    let mut lines: Vec<Line<&'a str>> = Vec::with_capacity(spans.len());
    let mut i: usize = 0;
    while i < spans.len()
        invariant
            0 <= i <= spans@.len(),
            bytes == input.spec_bytes(),
            rows_ok(bytes, lines_cut(spans@)),
            lines@.len() == i,
            forall|k: int|
                0 <= k < i ==> line_text(#[trigger] lines@[k]) == row_piece(
                    bytes,
                    line_cut(spans@[k]),
                ),
        decreases spans@.len() - i,
    {
        proof {
            assert(lines_cut(spans@)[i as int] == line_cut(spans@[i as int]));
        }
        let line = resolve_line(input, &spans[i]);
        lines.push(line);
        i = i + 1;
    }
    proof {
        assert(lines_text(lines@) =~= rows_piece(bytes, lines_cut(spans@)));
    }
    Ok(lines)
}

/// A source together with its lines. The lines point into the source, so
/// the two live and die together.
pub struct File {
    data: String,
    lines: Vec<Line<Span>>,
}

impl File {
    /// The bytes of the source.
    pub closed spec fn source(&self) -> Seq<u8> {
        encode_utf8(self.data@)
    }

    /// The lines, each piece of text by its start and end in the source.
    pub closed spec fn rows(&self) -> Seq<Row<(int, int)>> {
        lines_cut(self.lines@)
    }

    /// The lines, each piece of text as bytes.
    pub open spec fn text(&self) -> Seq<Row<Seq<u8>>> {
        rows_piece(self.source(), self.rows())
    }

    /// Whether the lines are what the scanner makes of the source under
    /// `rules`.
    pub open spec fn scanned(&self, rules: Rules) -> bool {
        scan_all(self.source(), rules) == Scanned::Done(self.rows())
    }

    #[verifier::type_invariant]
    spec fn well_cut(&self) -> bool {
        rows_ok(encode_utf8(self.data@), lines_cut(self.lines@))
    }

    /// Scans `data` and keeps it with its lines.
    pub fn parse(data: String, config: &Config) -> (r: Result<File, ScanError>)
        requires
            config.wf(),
        ensures
            match scan_all(encode_utf8(data@), config.rules()) {
                Scanned::Done(rows) => r matches Ok(f) && f.source() == encode_utf8(data@)
                    && f.rows() == rows,
                Scanned::Failed { kind, line, offset, len } => r matches Err(e) && e.kind == kind
                    && e.line == line && e.offset == offset && e.len == len,
            },
    {
        let lines = match scan(data.as_str().as_bytes(), config) {
            Ok(lines) => lines,
            Err(e) => {
                return Err(e);
            },
        };
        proof {
            config.lemma_rules_wf();
            lemma_scan_from_ok(encode_utf8(data@), config.rules(), 0, 0);
        }
        Ok(File { data, lines })
    }

    /// The text of the source.
    pub fn data(&self) -> (s: &str)
        ensures
            s.spec_bytes() == self.source(),
    {
        self.data.as_str()
    }

    /// How many lines the file has.
    pub fn len(&self) -> (n: usize)
        ensures
            n == self.rows().len(),
            n == self.text().len(),
    {
        self.lines.len()
    }

    /// The line at `i`, as text.
    pub fn line(&self, i: usize) -> (r: Line<&str>)
        requires
            i < self.rows().len(),
        ensures
            line_text(r) == self.text()[i as int],
    {
        proof {
            use_type_invariant(self);
            assert(lines_cut(self.lines@)[i as int] == line_cut(self.lines@[i as int]));
        }
        resolve_line(self.data.as_str(), &self.lines[i])
    }
}

} // verus!
