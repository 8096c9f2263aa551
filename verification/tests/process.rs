use std::collections::HashMap;

use preproc::defines::collect;
use preproc::driver::{process_file, ProcessError};
use preproc::loader::{decode, DefaultFileLoader, FileLoader, NoFileLoader};
use preproc::machine::Flaw;
use preproc::preprocessor::PreProcessor;
use preproc::scan::ScanErrorKind;
use preproc::symbols::SymbolSet;

struct Shelf(HashMap<String, String>);

impl FileLoader for Shelf {
    fn load(&self, path: &str) -> Option<String> {
        self.0.get(path).cloned()
    }
}

fn shelf(files: &[(&str, &str)]) -> PreProcessor {
    let mut map = HashMap::new();
    for (path, text) in files {
        map.insert(path.to_string(), text.to_string());
    }
    PreProcessor::with_loader(Box::new(Shelf(map)))
}

fn emitted(files: &[(&str, &str)], defines: &[&str]) -> Vec<String> {
    let mut p = shelf(files);
    for d in defines {
        p.defines.insert(d);
    }
    p.process(files[0].0).expect("processing failed")
}

fn failure(files: &[(&str, &str)]) -> ProcessError {
    shelf(files).process(files[0].0).expect_err("processing went through")
}

const SIMPLE: &str = "// hdr\n#if SHADOWS\nA\n#else\nB\n#endif\n";

#[test]
fn simple_conditional_defined() {
    assert_eq!(emitted(&[("main", SIMPLE)], &["SHADOWS"]), vec!["// hdr", "A"]);
}

#[test]
fn simple_conditional_not_defined() {
    assert_eq!(emitted(&[("main", SIMPLE)], &[]), vec!["// hdr", "B"]);
}

const CHAIN: &str = "#if A\n1\n#elif B\n2\n#elif C\n3\n#else\n4\n#endif\n";

#[test]
fn elif_chain() {
    assert_eq!(emitted(&[("main", CHAIN)], &["B"]), vec!["2"]);
    assert_eq!(emitted(&[("main", CHAIN)], &["A", "B"]), vec!["1"]);
    assert_eq!(emitted(&[("main", CHAIN)], &[]), vec!["4"]);
    assert_eq!(emitted(&[("main", CHAIN)], &["C"]), vec!["3"]);
    assert_eq!(emitted(&[("main", CHAIN)], &["B", "C"]), vec!["2"]);
}

#[test]
fn nested_includes_with_define_flow() {
    let files = [("main", "#include \"a\"\nX\n#if FOO\nY\n#endif\n"), ("a", "#define FOO\n")];
    assert_eq!(emitted(&files, &[]), vec!["X", "Y"]);
}

#[test]
fn stray_else_is_an_error() {
    let e = failure(&[("main", "#else\n#endif\n")]);
    assert_eq!((e.flaw, e.path.as_str(), e.line), (Flaw::StrayElse, "main", 1));
}

#[test]
fn structural_errors() {
    let e = failure(&[("m", "x\n#elif A\n")]);
    assert_eq!((e.flaw, e.path.as_str(), e.line), (Flaw::StrayElif, "m", 2));
    let e = failure(&[("m", "#endif\n")]);
    assert_eq!((e.flaw, e.path.as_str(), e.line), (Flaw::StrayEndif, "m", 1));
    let e = failure(&[("m", "#if A\n#else\n#elif B\n#endif\n")]);
    assert_eq!((e.flaw, e.path.as_str(), e.line), (Flaw::ElifAfterElse, "m", 3));
    let e = failure(&[("m", "#if A\n#else\n#else\n#endif\n")]);
    assert_eq!((e.flaw, e.path.as_str(), e.line), (Flaw::ElseAfterElse, "m", 3));
    let e = failure(&[("m", "#if A\nx\n")]);
    assert_eq!((e.flaw, e.path.as_str(), e.line), (Flaw::Unterminated, "m", 2));
    let e = failure(&[("m", "#if A B\n#endif\n")]);
    assert_eq!((e.flaw, e.path.as_str(), e.line), (Flaw::BadExpression, "m", 1));
    let e = failure(&[("m", "#if\n#endif\n")]);
    assert_eq!((e.flaw, e.path.as_str(), e.line), (Flaw::BadExpression, "m", 1));
}

#[test]
fn an_unused_bad_condition_is_no_error() {
    assert_eq!(emitted(&[("m", "#if 1\na\n#elif x y\nb\n#endif\n")], &[]), vec!["a"]);
}

#[test]
fn files_that_cannot_be_had() {
    let mut p = PreProcessor::with_loader(Box::new(NoFileLoader));
    let e = p.process("gone").expect_err("processing went through");
    assert_eq!((e.flaw, e.path.as_str(), e.line, e.target.as_str()), (Flaw::NotFound, "gone", 0, "gone"));
    assert_eq!(e.cause, None);

    let e = failure(&[("m", "a\n#include \"n\"\n")]);
    assert_eq!((e.flaw, e.path.as_str(), e.line, e.target.as_str()), (Flaw::NotFound, "m", 2, "n"));
    assert_eq!(e.cause, None);

    let e = failure(&[("m", "#include \"n\"\n"), ("n", "#define\n")]);
    assert_eq!((e.flaw, e.path.as_str(), e.line, e.target.as_str()), (Flaw::Unscannable, "m", 1, "n"));
    assert_eq!(e.cause.map(|c| (c.kind, c.line)), Some((ScanErrorKind::MissingName, 1)));

    let e = failure(&[("m", "#if 0\n#include \"n\"\n#endif\n")]);
    assert_eq!((e.flaw, e.line, e.target.as_str()), (Flaw::NotFound, 2, "n"));
}

#[test]
fn a_root_that_cannot_be_scanned() {
    let e = failure(&[("m", "x\n#include <n>\n")]);
    assert_eq!((e.flaw, e.path.as_str(), e.line, e.target.as_str()), (Flaw::Unscannable, "m", 0, "m"));
    assert_eq!(e.cause.map(|c| (c.kind, c.line, c.offset)), Some((ScanErrorKind::MissingBegin, 2, 11)));
}

#[test]
fn a_file_cannot_include_itself() {
    let e = failure(&[("m", "x\n#include \"m\"\n")]);
    assert_eq!((e.flaw, e.path.as_str(), e.line, e.target.as_str()), (Flaw::Cycle, "m", 2, "m"));
    let e = failure(&[("m", "#include \"a\"\n"), ("a", "\n#include \"b\"\n"), ("b", "#include \"m\"\n")]);
    assert_eq!((e.flaw, e.path.as_str(), e.line, e.target.as_str()), (Flaw::Cycle, "b", 1, "m"));
    let e = failure(&[("m", "#if 0\n#include \"m\"\n#endif\n")]);
    assert_eq!((e.flaw, e.path.as_str(), e.line), (Flaw::Cycle, "m", 2));
}

#[test]
fn a_walk_without_levels_left_enters_no_file() {
    let mut p = shelf(&[("m", "x\n#include \"n\"\n"), ("n", "y\n")]);
    let file = p.preload("m").unwrap();
    let mut out = vec![];
    let e = process_file(&mut p.files, &p.config, &p.file_loader, &mut p.run, &mut out, "m", &file, 0)
        .unwrap_err();
    assert_eq!((e.flaw, e.path.as_str(), e.line, e.target.as_str()), (Flaw::TooDeep, "m", 2, "n"));
    let mut out = vec![];
    let mut p = shelf(&[("m", "x\n#include \"n\"\n"), ("n", "y\n")]);
    let file = p.preload("m").unwrap();
    process_file(&mut p.files, &p.config, &p.file_loader, &mut p.run, &mut out, "m", &file, 1).unwrap();
    assert_eq!(out, vec!["x", "y"]);

    let mut p = shelf(&[("m", "#include \"n\"\n"), ("n", "#define N\n")]);
    let file = p.preload("m").unwrap();
    let (mut found, mut missing, mut inside) = (SymbolSet::new(), SymbolSet::new(), SymbolSet::new());
    let e = collect(&mut p.files, &p.config, &p.file_loader, &mut found, &mut missing, &mut inside, "m", &file, 0)
        .unwrap_err();
    assert_eq!((e.flaw, e.path.as_str(), e.line, e.target.as_str()), (Flaw::TooDeep, "m", 1, "n"));
}

#[test]
fn a_file_may_be_included_again_once_it_is_done() {
    let files = [("m", "#include \"a\"\n#include \"b\"\n#include \"a\"\n"), ("a", "A\n"), ("b", "#include \"a\"\nB\n")];
    assert_eq!(emitted(&files, &[]), vec!["A", "A", "B", "A"]);
}

#[test]
fn includes_may_be_nested_deeply() {
    let mut tree: Vec<(String, String)> = vec![];
    for level in 0..300 {
        tree.push((format!("f{}", level), format!("in {}\n#include \"f{}\"\nout {}\n", level, level + 1, level)));
    }
    tree.push(("f300".to_string(), "bottom\n".to_string()));
    let files: Vec<(&str, &str)> = tree.iter().map(|(p, t)| (p.as_str(), t.as_str())).collect();
    let out = emitted(&files, &[]);
    assert_eq!(out.len(), 601);
    assert_eq!(out[0], "in 0");
    assert_eq!(out[300], "bottom");
    assert_eq!(out[600], "out 0");
}

#[test]
fn the_blocks_of_an_included_file_are_its_own() {
    let main = "#if A\n#include \"n\"\nX\n#endif\n";
    let e = failure(&[("m", main), ("n", "#else\n")]);
    assert_eq!((e.flaw, e.path.as_str(), e.line), (Flaw::StrayElse, "n", 1));
    let e = failure(&[("m", main), ("n", "#elif B\n")]);
    assert_eq!((e.flaw, e.path.as_str(), e.line), (Flaw::StrayElif, "n", 1));
    let e = failure(&[("m", main), ("n", "#endif\n#if 1\n")]);
    assert_eq!((e.flaw, e.path.as_str(), e.line), (Flaw::StrayEndif, "n", 1));
    let e = failure(&[("m", main), ("n", "x\n#if 1\n#else\n#endif\n#endif\n#if 1\n")]);
    assert_eq!((e.flaw, e.path.as_str(), e.line), (Flaw::StrayEndif, "n", 5));

    let files = [("m", "#if A\n#include \"n\"\nX\n#else\nY\n#endif\n"), ("n", "#if B\nb\n#else\nc\n#endif\nN\n")];
    assert_eq!(emitted(&files, &["A"]), vec!["c", "N", "X"]);
    assert_eq!(emitted(&files, &["A", "B"]), vec!["b", "N", "X"]);
    assert_eq!(emitted(&files, &[]), vec!["c", "Y"]);
}

#[test]
fn an_included_file_must_close_its_blocks() {
    let e = failure(&[("m", "#include \"n\"\n#endif\n"), ("n", "#if A\n")]);
    assert_eq!((e.flaw, e.path.as_str(), e.line), (Flaw::Unterminated, "n", 1));
    let e = failure(&[("m", "#if A\n#include \"n\"\n"), ("n", "#endif\n")]);
    assert_eq!((e.flaw, e.path.as_str(), e.line), (Flaw::StrayEndif, "n", 1));
}

#[test]
fn defines_and_undefs() {
    let text = "#define A\n#if A\n1\n#endif\n#undef A\n#if A\n2\n#endif\n#undef B\n#define A\n#define A\n#if A\n3\n#endif\n";
    assert_eq!(emitted(&[("m", text)], &[]), vec!["1", "3"]);
    assert_eq!(emitted(&[("m", "#if true && 1\nyes\n#endif\n#if false || 0\nno\n#endif\n")], &[]), vec!["yes"]);
    assert_eq!(emitted(&[("m", "#if 0\n#define A\n#endif\n#if A\nset\n#endif\n")], &[]), vec!["set"]);
}

#[test]
fn remainders_pass_through_where_enabled() {
    let text = "#if A // first\nx\n#else // second\ny\n#endif // third\n";
    assert_eq!(emitted(&[("m", text)], &["A"]), vec!["// first", "x", " // third"]);
    assert_eq!(emitted(&[("m", text)], &[]), vec![" // second", "y", " // third"]);
}

#[test]
fn an_inner_block_goes_by_its_own_condition() {
    let text = "#if A\n#if B\nx\n#endif\ny\n#else\nz\n#endif\n";
    assert_eq!(emitted(&[("m", text)], &["B"]), vec!["x", "z"]);
    assert_eq!(emitted(&[("m", text)], &["A"]), vec!["y"]);
}

#[test]
fn an_include_in_a_disabled_branch_emits_nothing_plain() {
    let files = [("m", "#if 0\n#include \"n\"\n#endif\nend\n"), ("n", "inner\n#define N\n")];
    assert_eq!(emitted(&files, &[]), vec!["end"]);
}

#[test]
fn a_new_preprocessor_keeps_its_loader() {
    let mut p = shelf(&[("m", "kept\n")]);
    assert_eq!(p.file_loader.load("m"), Some("kept\n".to_string()));
    assert_eq!(p.file_loader.load("n"), None);
    assert!(p.config.is_valid());
    assert_eq!(p.config.special_char, b'#');
    assert!(p.defines.names().is_empty());
    assert!(p.files.get("m").is_none());
    assert_eq!(p.outputted_line_count, 1);
    assert!(p.run.state.value);
    assert!(p.run.stack.is_empty());
    assert!(p.run.ctx.vars.contains("true") && p.run.ctx.vars.contains("1"));
    assert_eq!(p.process("m").unwrap(), vec!["kept"]);
    assert_eq!(p.outputted_line_count, 1);
    assert_eq!(PreProcessor::with_loader(Box::new(NoFileLoader)).file_loader.load("m"), None);
}

#[test]
fn files_are_scanned_once() {
    let mut p = shelf(&[("m", "#include \"n\"\n#include \"n\"\n"), ("n", "x\n")]);
    assert_eq!(p.process("m").unwrap(), vec!["x", "x"]);
    assert_eq!(p.outputted_line_count, 2);
    let first = p.preload("n").unwrap();
    let second = p.preload("n").unwrap();
    assert!(std::rc::Rc::ptr_eq(&first, &second));
    assert_eq!(p.preload("gone").err(), Some(None));
    assert_eq!(p.process("m").unwrap(), vec!["x", "x"]);
}

#[test]
fn process_to_str_puts_a_newline_behind_each_line() {
    let mut p = shelf(&[("m", "a\n\n#if 1\nb\n#endif\n")]);
    let mut text = "> ".to_string();
    p.process_to_str("m", &mut text).unwrap();
    assert_eq!(text, "> a\n\nb\n");
    let mut p = shelf(&[("m", "a\n#endif\n")]);
    let mut text = "> ".to_string();
    assert!(p.process_to_str("m", &mut text).is_err());
    assert_eq!(text, "> ");
}

#[test]
fn passing_through_twice_changes_nothing() {
    let source = "// some comment\n\nfn func() -> f32 {\r\n    return 1.0;\n}";
    let mut once = String::new();
    shelf(&[("m", source)]).process_to_str("m", &mut once).unwrap();
    let mut twice = String::new();
    shelf(&[("m", &once)]).process_to_str("m", &mut twice).unwrap();
    assert_eq!(once, "// some comment\n\nfn func() -> f32 {\n    return 1.0;\n}\n");
    assert_eq!(once, twice);
}

#[test]
fn candidates_are_the_path_and_the_path_under_each_search_path() {
    let loader = DefaultFileLoader { search_paths: vec!["a".to_string(), "b/c".to_string()] };
    assert_eq!(loader.candidates("x.h", "/"), vec!["x.h", "a/x.h", "b/c/x.h"]);
    assert_eq!(DefaultFileLoader { search_paths: vec![] }.candidates("x", "\\"), vec!["x"]);
}

#[test]
fn decode_takes_utf8_only() {
    assert_eq!(decode("żółw".as_bytes().to_vec()), Some("żółw".to_string()));
    assert_eq!(decode(vec![0x61, 0x80]), None);
    assert_eq!(decode(vec![0xc0, 0x80]), None);
    assert_eq!(decode(vec![0xed, 0xa0, 0x80]), None);
    assert_eq!(decode(vec![]), Some(String::new()));
}
