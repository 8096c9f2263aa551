use preproc::exp::{Ctx, ErrorKind, Exp, Op};

fn text(ops: &[Op<&str>]) -> String {
    Exp { ops: ops.to_vec() }.to_string().expect("malformed expression")
}

#[test]
fn to_string() {
    assert_eq!(text(&[Op::Var("a"), Op::Not]), "!(a)");
    assert_eq!(text(&[Op::Var("a"), Op::Var("b"), Op::And]), "(a && b)");
    assert_eq!(text(&[Op::Var("a"), Op::Var("b"), Op::Or, Op::Not]), "!((a || b))");
    assert_eq!(
        text(&[Op::Var("a"), Op::Var("b"), Op::Var("c"), Op::And, Op::Or, Op::Not]),
        "!((a || (b && c)))"
    );
    assert_eq!(
        text(&[Op::Var("a"), Op::Var("b"), Op::Not, Op::Var("c"), Op::And, Op::Or]),
        "(a || (!(b) && c))"
    );
}

fn round_trip(ops: &[Op<&str>]) {
    let input = Exp { ops: ops.to_vec() };
    let text = input.to_string().expect("malformed expression");
    assert_eq!(Exp::from_str(&text).expect("failed to parse expression"), input);
}

fn reformat(exp: &str) -> String {
    let exp = Exp::from_str(exp).expect("failed to parse expression");
    exp.to_string().expect("malformed expression")
}

#[test]
fn parse() {
    round_trip(&[Op::Var("a"), Op::Not]);
    round_trip(&[Op::Var("b"), Op::Var("a"), Op::And]);
    round_trip(&[Op::Var("b"), Op::Var("a"), Op::Or, Op::Not]);
    round_trip(&[Op::Var("c"), Op::Var("b"), Op::And, Op::Var("a"), Op::Or, Op::Not]);
    round_trip(&[Op::Var("c"), Op::Var("b"), Op::Not, Op::And, Op::Var("a"), Op::Or]);

    round_trip(&[
        Op::Var("منزل"),
        Op::Var("دجاجة"),
        Op::Not,
        Op::And,
        Op::Var("جرو"),
        Op::Or,
    ]);
    round_trip(&[Op::Var("猴"), Op::Var("小狗"), Op::Not, Op::And, Op::Var("房子"), Op::Or]);
    round_trip(&[
        Op::Var("Будинок"),
        Op::Var("щеня"),
        Op::Not,
        Op::And,
        Op::Var("клавіатура"),
        Op::Or,
    ]);

    assert_eq!(reformat("b && !a"), "(b && !(a))");
    assert_eq!(reformat("!b && a"), "(!(b) && a)");
    assert_eq!(reformat("!b && !a"), "(!(b) && !(a))");
    assert_eq!(reformat("!b && !a || c"), "((!(b) && !(a)) || c)");

    assert_eq!(reformat("!a"), "!(a)");
    assert_eq!(reformat(" ! a "), "!(a)");
    assert_eq!(reformat(" !\ta "), "!(a)");
    assert_eq!(reformat(" !\ta    "), "!(a)");
    assert_eq!(reformat(" !\ta  \t "), "!(a)");

    assert_eq!(reformat("b && a !"), "(b && !(a))");
    assert_eq!(reformat("(b && a)!"), "!((b && a))");
    assert_eq!(reformat("b || a && c !"), "((b || a) && !(c))");

    assert_eq!(reformat("b||a"), "(b || a)");
    assert_eq!(
        reformat("some_big$string@||!other_value023"),
        "(some_big$string@ || !(other_value023))"
    );
}

fn check(exp: &str) {
    match Exp::from_str(exp) {
        Ok(val) => {
            if val.is_valid() {
                panic!("expression `{}` was parsed as: `{:?}` {:?}", exp, val.to_string(), &val.ops);
            } else {
                panic!("expression `{}` was parsed as an invalid `Exp`: {:?}", exp, &val.ops);
            }
        }
        Err(_) => {}
    }
}

#[test]
fn malformed() {
    check("b && a !c ||");
    check("b a && c ! ||");
    check("b && a !c");
    check("||a");
    check("&&a");
    check("b || a &&");
    check("b || a ||");

    check("b & a");
    check("b | a");
    check("b || a &");
    check("b && a |");
    check("|b&&&a");
    check("b&&&a");

    check("((b&&a)");
    check("((b&&a)))");
    check("((b&&(c||a))))");
    check("((b&(c||a))))");
}

#[test]
fn parse_reports_kind_and_place() {
    let e = Exp::from_str("a && b)").unwrap_err();
    assert_eq!((e.kind, e.offset, e.len), (ErrorKind::UnmatchedClose, 6, 1));
    let e = Exp::from_str("(a && b").unwrap_err();
    assert_eq!((e.kind, e.offset, e.len), (ErrorKind::UnmatchedOpen, 7, 0));
    let e = Exp::from_str("a & b").unwrap_err();
    assert_eq!((e.kind, e.offset, e.len), (ErrorKind::ExpectedAnd, 2, 1));
    let e = Exp::from_str("a | b").unwrap_err();
    assert_eq!((e.kind, e.offset, e.len), (ErrorKind::ExpectedOr, 2, 1));
    let e = Exp::from_str("a bc").unwrap_err();
    assert_eq!((e.kind, e.offset, e.len), (ErrorKind::Malformed, 2, 2));
    let e = Exp::from_str("!!a").unwrap_err();
    assert_eq!((e.kind, e.offset, e.len), (ErrorKind::Malformed, 0, 3));
    let e = Exp::from_str("").unwrap_err();
    assert_eq!((e.kind, e.offset, e.len), (ErrorKind::Malformed, 0, 0));
}

#[test]
fn parse_gives_reverse_polish() {
    let e = Exp::from_str("!a && (b || !c)").unwrap();
    assert_eq!(
        e.ops,
        vec![Op::Var("a"), Op::Not, Op::Var("b"), Op::Var("c"), Op::Not, Op::Or, Op::And]
    );
    assert_eq!(e.to_string().unwrap(), "(!(a) && (b || !(c)))");
    let again = Exp::from_str("(!(a) && (b || !(c)))").unwrap();
    let mut ctx = Ctx::new();
    ctx.vars.insert("b");
    assert!(again.eval(&mut ctx));
    ctx.vars.insert("a");
    assert!(!again.eval(&mut ctx));
}

#[test]
fn validity_counts_the_stack() {
    assert!(Exp { ops: vec![Op::Var("a")] }.is_valid());
    assert!(!Exp::<&str> { ops: vec![] }.is_valid());
    assert!(Exp::<&str> { ops: vec![] }.is_empty());
    assert!(!Exp { ops: vec![Op::Var("a"), Op::Var("b")] }.is_valid());
    assert!(!Exp { ops: vec![Op::Not, Op::Var("a"), Op::Not] }.is_valid());
    assert!(!Exp { ops: vec![Op::And, Op::Var("a"), Op::Var("b")] }.is_valid());
    assert!(Exp { ops: vec![Op::Var("a"), Op::Var("b"), Op::And, Op::Not] }.is_valid());
    assert_eq!(Exp { ops: vec![Op::Var("a"), Op::Or] }.to_string(), None);
}

#[test]
fn sentinels_are_defined() {
    let mut ctx = Ctx::new();
    assert!(Exp::from_str("true && 1").unwrap().eval(&mut ctx));
    assert!(!Exp::from_str("false || 0").unwrap().eval(&mut ctx));
    ctx.vars.insert("x");
    assert!(Exp::from_str("x").unwrap().eval(&mut ctx));
    ctx.clear();
    assert!(!Exp::from_str("x").unwrap().eval(&mut ctx));
    assert!(Exp::from_str("true").unwrap().eval(&mut ctx));
}
