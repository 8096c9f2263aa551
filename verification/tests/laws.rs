use preproc::exp::{Ctx, Error, ErrorKind, Exp, Op};
use preproc::machine::Flaw;
use preproc::scan::{scan, ScanError, ScanErrorKind};
use preproc::span::Span;
use preproc::{parse_file, Config, FileLoader, Line, PreProcessor};

struct One(String);

impl FileLoader for One {
    fn load(&self, path: &str) -> Option<String> {
        if path == "m" {
            Some(self.0.clone())
        } else {
            None
        }
    }
}

fn emitted(text: &str, defines: &[&str]) -> Vec<String> {
    let mut p = PreProcessor::with_loader(Box::new(One(text.to_string())));
    for d in defines {
        p.defines.insert(d);
    }
    p.process("m").expect("processing failed")
}

#[test]
fn a_parsed_expression_written_out_parses_to_itself() {
    let sources = [
        "a",
        "!a",
        "a!",
        "a && b || c",
        "!a && (b || !c)",
        "(((x)))",
        "!(a || b) && !(c && d!) || e",
        "a\n&&\tb\r||\0c",
        "ключ || 猴",
    ];
    for source in sources {
        let first = Exp::from_str(source).expect("failed to parse expression");
        let text = first.to_string().expect("malformed expression");
        let second = Exp::from_str(&text).expect("failed to parse expression");
        assert_eq!(first, second, "{}", source);
        for defined in [vec![], vec!["a"], vec!["b", "c"], vec!["a", "e", "ключ"]] {
            let mut ctx = Ctx::new();
            for name in &defined {
                ctx.vars.insert(name);
            }
            assert_eq!(first.eval(&mut ctx), second.eval(&mut ctx), "{}", source);
        }
    }
}

#[test]
fn code_lines_are_the_source() {
    let source = "// top\r\n\n  indented\n\ttabbed \r\nlast\n";
    let lines = parse_file(source, &Config::default()).expect("malformed source");
    let mut joined = String::new();
    for line in &lines {
        match line {
            Line::Code(text) => {
                joined.push_str(text);
                joined.push('\n');
            }
            other => panic!("not a line of code: {:?}", other),
        }
    }
    assert_eq!(joined, source.replace("\r\n", "\n"));
}

#[test]
fn a_block_emits_exactly_one_branch() {
    let text = "#if A\na1\na2\n#elif B\nb1\n#elif C\nc1\nc2\nc3\n#else\nd1\nd2\nd3\nd4\n#endif\n";
    let branches: [&[&str]; 4] =
        [&["a1", "a2"], &["b1"], &["c1", "c2", "c3"], &["d1", "d2", "d3", "d4"]];
    for mask in 0..8u8 {
        let mut defines = vec![];
        if mask & 1 != 0 {
            defines.push("A");
        }
        if mask & 2 != 0 {
            defines.push("B");
        }
        if mask & 4 != 0 {
            defines.push("C");
        }
        let out = emitted(text, &defines);
        let first = [mask & 1 != 0, mask & 2 != 0, mask & 4 != 0, true]
            .iter()
            .position(|held| *held)
            .unwrap();
        assert_eq!(out, branches[first], "{:?}", defines);
    }
    assert_eq!(emitted("#if A\nx\n#elif B\ny\n#endif\n", &[]), Vec::<String>::new());
}

#[test]
fn errors_say_what_is_wrong() {
    let kinds = [
        (ErrorKind::UnmatchedClose, "unmatched `)`"),
        (ErrorKind::UnmatchedOpen, "unmatched `(`"),
        (ErrorKind::ExpectedAnd, "expecting `&&`"),
        (ErrorKind::ExpectedOr, "expecting `||`"),
        (ErrorKind::Malformed, "malformed expression"),
    ];
    for (kind, text) in kinds {
        assert_eq!(Error { offset: 0, len: 0, kind }.message(), text);
        let scan = ScanError { line: 1, offset: 0, len: 0, kind: ScanErrorKind::Expression(kind) };
        assert_eq!(scan.message(), text);
    }
    let scan = |kind| ScanError { line: 1, offset: 0, len: 0, kind };
    assert_eq!(scan(ScanErrorKind::MissingName).message(), "missing name of `define` or `undef`");
    assert_eq!(scan(ScanErrorKind::MissingBegin).message(), "missing start delimiter of `include`");
    assert_eq!(scan(ScanErrorKind::MissingEnd).message(), "missing end delimiter of `include`");
    assert_eq!(Flaw::NotFound.message(), "file not found");
    assert_eq!(Flaw::Unscannable.message(), "file cannot be scanned");
    assert_eq!(Flaw::StrayElif.message(), "unmatched `#elif`");
    assert_eq!(Flaw::ElifAfterElse.message(), "`#elif` after `#else`");
    assert_eq!(Flaw::StrayElse.message(), "unmatched `#else`");
    assert_eq!(Flaw::ElseAfterElse.message(), "`#else` after `#else`");
    assert_eq!(Flaw::StrayEndif.message(), "unmatched `#endif`");
    assert_eq!(Flaw::Unterminated.message(), "unterminated `#if`");
    assert_eq!(Flaw::BadExpression.message(), "malformed expression");
    assert_eq!(Flaw::Cycle.message(), "file includes itself");
    assert_eq!(Flaw::TooDeep.message(), "includes nested too deep");
}

#[test]
fn defaults() {
    let config = Config::default();
    assert_eq!(config.special_char, b'#');
    assert_eq!(config.comment, "//");
    assert_eq!(config.include_begin, b'"');
    assert_eq!(config.include_end, b'"');
    assert!(config.is_valid());
    assert!(Exp::<&str>::default().is_empty());
    let mut ctx = Ctx::default();
    assert!(Exp { ops: vec![Op::Var("1")] }.eval(&mut ctx));
    assert!(Exp { ops: vec![Op::Var("true")] }.eval(&mut ctx));
    assert!(!Exp { ops: vec![Op::Var("yes")] }.eval(&mut ctx));
}

fn spans(line: &Line<Span>) -> Vec<Span> {
    match line {
        Line::Code(at) | Line::Rem(at) | Line::Inc(at) | Line::Def(at) | Line::Undef(at) => {
            vec![*at]
        }
        Line::If(exp) | Line::Elif(exp) => exp
            .ops
            .iter()
            .filter_map(|op| match op {
                Op::Var(at) => Some(*at),
                _ => None,
            })
            .collect(),
        Line::Else | Line::Endif => vec![],
    }
}

#[test]
fn rows_go_by_the_lines_of_the_source() {
    let source = "a\r\n  #if X && !Y // why\r\n#include \"p\" x\n#define D\n\n#else\r\nlast \n";
    let rows = scan(source.as_bytes(), &Config::default()).expect("malformed source");
    let mut start = 0;
    let mut row = 0;
    let mut joined = String::new();
    for line in source.split_inclusive('\n') {
        let text = line.trim_end_matches('\n');
        let text = text.strip_suffix('\r').unwrap_or(text);
        let end = start + text.len();
        let mut at = start;
        let mut taken = 0;
        while row < rows.len() && (taken == 0 || (taken == 1 && matches!(rows[row], Line::Rem(_)))) {
            for span in spans(&rows[row]) {
                assert!(at <= span.start && span.start <= span.end && span.end <= end + 1);
                at = span.end;
            }
            match &rows[row] {
                Line::Code(span) => assert_eq!((span.start, span.end), (start, end)),
                Line::Rem(span) => assert_eq!(span.end, end),
                _ => {}
            }
            row += 1;
            taken += 1;
        }
        assert!(taken >= 1);
        joined.push_str(text);
        joined.push('\n');
        start += line.len();
    }
    assert_eq!(row, rows.len());
    assert_eq!(rows.len(), 9);
    assert_eq!(joined, source.replace("\r\n", "\n"));
}

#[test]
fn names_of_every_branch_of_every_included_file_are_found() {
    struct Two;
    impl FileLoader for Two {
        fn load(&self, path: &str) -> Option<String> {
            match path {
                "m" => Some("#if 0\n#include \"n\"\n#elif A\n#endif\n".to_string()),
                "n" => Some("#if B || !C\n#else\n#define D\n#endif\n".to_string()),
                _ => None,
            }
        }
    }
    let mut p = PreProcessor::with_loader(Box::new(Two));
    p.defines.insert("A");
    let mut found = preproc::symbols::SymbolSet::new();
    p.find_defines_of("m", &mut found).unwrap();
    for name in ["A", "B", "C", "D"] {
        assert!(found.contains(name), "{}", name);
    }
    assert!(!found.contains("0"));
}
