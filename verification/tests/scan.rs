use preproc::exp::{ErrorKind, Exp, Op};
use preproc::file::{parse_file, File};
use preproc::line::{Config, Line};
use preproc::scan::{scan, ScanError, ScanErrorKind};
use preproc::span::Span;

fn written(lines: &[Line<&str>]) -> String {
    let mut text = String::default();
    for (i, line) in lines.iter().enumerate() {
        text.push_str(&line.to_string().expect("malformed expression"));
        if i < lines.len() - 1 {
            text.push('\n');
        }
    }
    text
}

fn test(lines: &[Line<&str>]) {
    let text = written(lines);
    let config = Config::default();
    let parsed_lines = parse_file(&text, &config).expect("malformed source");
    assert_eq!(parsed_lines, lines, "{}", &text);
}

fn lines_of(text: &str) -> Vec<Line<&str>> {
    parse_file(text, &Config::default()).expect("malformed source")
}

fn error_of(text: &str) -> ScanError {
    parse_file(text, &Config::default()).expect_err("source was scanned")
}

#[test]
fn no_directives() {
    test(&[
        Line::Code("// some comment"),
        Line::Code(""),
        Line::Code("fn func() -> f32 {"),
        Line::Code("    return 1.0;"),
        Line::Code("}"),
    ]);
}

#[test]
fn inc() {
    test(&[
        Line::Inc("other_fn_header.wgsl"),
        Line::Code("// some comment"),
        Line::Code(""),
        Line::Code("fn func() -> f32 {"),
        Line::Code("    return other_fn(0.0);"),
        Line::Code("}"),
    ]);
}

#[test]
fn ifelse() {
    test(&[
        Line::Code("// some comment"),
        Line::Code(""),
        Line::Code("fn func() -> f32 {"),
        Line::If(Exp::from_str("SHADOWS").unwrap()),
        Line::Code("    return 0.0;"),
        Line::Else,
        Line::Code("    return 1.0;"),
        Line::Endif,
        Line::Code("}"),
    ]);
}

#[test]
fn degenerated() {
    let blank_define = "fn func() -> f32 {\n#define // blank define\n}";
    let e = error_of(blank_define);
    assert_eq!((e.kind, e.line, e.offset, e.len), (ScanErrorKind::MissingName, 2, 27, 0));

    let text = "fn func() -> f32 {\n    /* some comment\n    #if SHADOWS */ // should be readed as a line of code\n    #if NOT_SHADOWS // line rem\n    return 0.0;\n    #else\n    return 1.0;\n    #endif\n}";
    assert_eq!(
        lines_of(text),
        vec![
            Line::Code("fn func() -> f32 {"),
            Line::Code("    /* some comment"),
            Line::If(Exp { ops: vec![Op::Var("SHADOWS"), Op::Var("*"), Op::Var("/")] }),
            Line::Rem("// should be readed as a line of code"),
            Line::If(Exp { ops: vec![Op::Var("NOT_SHADOWS")] }),
            Line::Rem("// line rem"),
            Line::Code("    return 0.0;"),
            Line::Else,
            Line::Code("    return 1.0;"),
            Line::Endif,
            Line::Code("}"),
        ]
    );
}

#[test]
fn line_endings() {
    assert_eq!(lines_of("a\r\nb\n"), vec![Line::Code("a"), Line::Code("b")]);
    assert_eq!(lines_of("a\r"), vec![Line::Code("a")]);
    assert_eq!(lines_of("a\r\r\n"), vec![Line::Code("a\r")]);
    assert_eq!(lines_of("#else\r\n#endif\r\n"), vec![Line::Else, Line::Endif]);
    assert_eq!(
        lines_of("#define FOO\r\nx"),
        vec![Line::Def("FOO"), Line::Code("x")]
    );
    assert_eq!(lines_of("#else \r\n"), vec![Line::Else, Line::Rem(" ")]);
}

#[test]
fn empty_and_blank_lines() {
    assert_eq!(lines_of(""), Vec::<Line<&str>>::new());
    assert_eq!(lines_of("   \t "), Vec::<Line<&str>>::new());
    assert_eq!(lines_of("\n"), vec![Line::Code("")]);
    assert_eq!(lines_of("  \n\n"), vec![Line::Code(""), Line::Code("")]);
    assert_eq!(lines_of("a\n  "), vec![Line::Code("a")]);
    assert_eq!(lines_of("  a  \n"), vec![Line::Code("  a  ")]);
}

#[test]
fn unknown_and_empty_directives_are_code() {
    assert_eq!(lines_of("#pragma once\nx"), vec![Line::Code("#pragma once"), Line::Code("x")]);
    assert_eq!(lines_of("#\nx"), vec![Line::Code("#"), Line::Code("x")]);
    assert_eq!(lines_of("#"), vec![Line::Code("#")]);
    assert_eq!(lines_of("  # if A"), vec![Line::Code("  # if A")]);
    assert_eq!(lines_of("#ifdef A"), vec![Line::Code("#ifdef A")]);
    assert_eq!(lines_of("#elsewhere"), vec![Line::Code("#elsewhere")]);
    assert_eq!(lines_of("x # if A"), vec![Line::Code("x # if A")]);
    assert_eq!(lines_of("a #else"), vec![Line::Code("a #else")]);
}

#[test]
fn directives_with_remainders() {
    assert_eq!(
        lines_of("  #if A && !B // why\n#endif // done"),
        vec![
            Line::If(Exp { ops: vec![Op::Var("A"), Op::Var("B"), Op::Not, Op::And] }),
            Line::Rem("// why"),
            Line::Endif,
            Line::Rem(" // done"),
        ]
    );
    assert_eq!(
        lines_of("#define  FOO bar\n#undef FOO// gone"),
        vec![Line::Def("FOO"), Line::Rem(" bar"), Line::Undef("FOO"), Line::Rem("// gone")]
    );
    assert_eq!(
        lines_of("#include   \"a/b.h\" tail\n#elif X"),
        vec![
            Line::Inc("a/b.h"),
            Line::Rem(" tail"),
            Line::Elif(Exp { ops: vec![Op::Var("X")] }),
        ]
    );
    assert_eq!(lines_of("#if"), vec![Line::If(Exp { ops: vec![] })]);
    assert_eq!(
        lines_of("#if a/b"),
        vec![Line::If(Exp { ops: vec![Op::Var("a"), Op::Var("/b")] })]
    );
}

#[test]
fn scan_errors() {
    let e = error_of("x\n#define\n");
    assert_eq!((e.kind, e.line, e.offset, e.len), (ScanErrorKind::MissingName, 2, 9, 0));
    let e = error_of("#undef   ");
    assert_eq!((e.kind, e.line, e.offset, e.len), (ScanErrorKind::MissingName, 1, 9, 0));
    let e = error_of("#include <a>");
    assert_eq!((e.kind, e.line, e.offset, e.len), (ScanErrorKind::MissingBegin, 1, 9, 0));
    let e = error_of("#include");
    assert_eq!((e.kind, e.line, e.offset, e.len), (ScanErrorKind::MissingBegin, 1, 8, 0));
    let e = error_of("a\nb\n#include \"a.h");
    assert_eq!((e.kind, e.line, e.offset, e.len), (ScanErrorKind::MissingEnd, 3, 13, 4));
    let e = error_of("#if (a");
    assert_eq!(
        (e.kind, e.line, e.offset, e.len),
        (ScanErrorKind::Expression(ErrorKind::UnmatchedOpen), 1, 6, 0)
    );
    let e = error_of("\n#elif a)\n");
    assert_eq!(
        (e.kind, e.line, e.offset, e.len),
        (ScanErrorKind::Expression(ErrorKind::UnmatchedClose), 2, 8, 1)
    );
    let e = error_of("#if a & b");
    assert_eq!(
        (e.kind, e.line, e.offset, e.len),
        (ScanErrorKind::Expression(ErrorKind::ExpectedAnd), 1, 6, 1)
    );
    let e = error_of("#if a |\n");
    assert_eq!(
        (e.kind, e.line, e.offset, e.len),
        (ScanErrorKind::Expression(ErrorKind::ExpectedOr), 1, 6, 1)
    );
}

#[test]
fn configured_characters() {
    let config = Config {
        special_char: b'@',
        comment: ";;".to_string(),
        include_begin: b'<',
        include_end: b'>',
    };
    assert!(config.is_valid());
    let lines = parse_file("@include <x.inc> ;; why\n#if A\n@if A ;; c\n@define B;;c\n", &config)
        .expect("malformed source");
    assert_eq!(
        lines,
        vec![
            Line::Inc("x.inc"),
            Line::Rem(" ;; why"),
            Line::Code("#if A"),
            Line::If(Exp { ops: vec![Op::Var("A")] }),
            Line::Rem(";; c"),
            Line::Def("B"),
            Line::Rem(";;c"),
        ]
    );
    let long = Config { comment: "0123456789abcdefg".to_string(), ..Config::default() };
    assert!(!long.is_valid());
    let wide = Config { include_begin: 0xc3, ..Config::default() };
    assert!(!wide.is_valid());
}

#[test]
fn scan_gives_places() {
    let config = Config::default();
    let lines = scan("ab\n #define X\n".as_bytes(), &config).expect("malformed source");
    assert_eq!(
        lines,
        vec![Line::Code(Span { start: 0, end: 2 }), Line::Def(Span { start: 12, end: 13 })]
    );
}

#[test]
fn file_keeps_text_and_lines() {
    let config = Config::default();
    let file = File::parse("ключ\n#if да\n".to_string(), &config).expect("malformed source");
    assert_eq!(file.data(), "ключ\n#if да\n");
    assert_eq!(file.len(), 2);
    assert_eq!(file.line(0), Line::Code("ключ"));
    assert_eq!(file.line(1), Line::If(Exp { ops: vec![Op::Var("да")] }));
    assert!(File::parse("#include x".to_string(), &config).is_err());
}

#[test]
fn lines_are_written_out() {
    assert_eq!(Line::Inc("a.h").to_string().unwrap(), "#include \"a.h\"");
    assert_eq!(Line::Def("A").to_string().unwrap(), "#define A");
    assert_eq!(Line::Undef("A").to_string().unwrap(), "#undef A");
    assert_eq!(Line::<&str>::Else.to_string().unwrap(), "#else");
    assert_eq!(Line::<&str>::Endif.to_string().unwrap(), "#endif");
    assert_eq!(Line::Rem("// x").to_string().unwrap(), "// x");
    assert_eq!(
        Line::If(Exp { ops: vec![Op::Var("a"), Op::Var("b"), Op::Or] }).to_string().unwrap(),
        "#if (a || b)"
    );
    assert_eq!(
        Line::Elif(Exp { ops: vec![Op::Var("a"), Op::Not] }).to_string().unwrap(),
        "#elif !(a)"
    );
    assert_eq!(Line::If(Exp::<&str> { ops: vec![Op::And] }).to_string(), None);
}
