//! The expression parser: one pass of the shunting-yard algorithm over bytes.

use vstd::prelude::*;
use crate::exp::{Error, ErrorKind, Op};
use crate::span::{has_at, stands_at, Span};
use crate::stack::Stack;
use crate::text::{cut_ok, piece_ok};
use vstd::utf8::is_continuation_byte;

verus! {

pub const NUL: u8 = 0x00;

pub const TAB: u8 = 0x09;

pub const NEWLINE: u8 = 0x0a;

pub const RETURN: u8 = 0x0d;

pub const SPACE: u8 = 0x20;

pub const BANG: u8 = 0x21;

pub const AMP: u8 = 0x26;

pub const LPAREN: u8 = 0x28;

pub const RPAREN: u8 = 0x29;

pub const BAR: u8 = 0x7c;

/// What waits on the operator stack while an expression is parsed.
#[derive(Debug, PartialEq, Eq, Clone, Copy, Structural)]
pub enum Token {
    And,
    Or,
    Not,
    LParen,
}

/// The token that a number on the stack stands for.
pub open spec fn code_token(code: usize) -> Token {
    if code == 0 {
        Token::And
    } else if code == 1 {
        Token::Or
    } else if code == 2 {
        Token::Not
    } else {
        Token::LParen
    }
}

/// The tokens that the numbers on the stack stand for.
pub open spec fn tokens(codes: Seq<usize>) -> Seq<Token> {
    Seq::new(codes.len(), |i: int| code_token(codes[i]))
}

fn push_token(stack: &mut Stack, t: Token)
    ensures
        tokens(final(stack)@) == tokens(old(stack)@).push(t),
{
    let code: usize = match t {
        Token::And => 0,
        Token::Or => 1,
        Token::Not => 2,
        Token::LParen => 3,
    };
    stack.push(code);
    assert(tokens(stack@) =~= tokens(old(stack)@).push(t));
}

fn token_of(code: usize) -> (t: Token)
    ensures
        t == code_token(code),
{
    if code == 0 {
        Token::And
    } else if code == 1 {
        Token::Or
    } else if code == 2 {
        Token::Not
    } else {
        Token::LParen
    }
}

fn pop_token(stack: &mut Stack) -> (top: Option<Token>)
    ensures
        tokens(old(stack)@).len() == 0 ==> top is None && tokens(final(stack)@) == tokens(
            old(stack)@,
        ),
        tokens(old(stack)@).len() > 0 ==> top == Some(tokens(old(stack)@).last()) && tokens(
            final(stack)@,
        ) == tokens(old(stack)@).drop_last(),
{
    match stack.pop() {
        Some(code) => {
            assert(tokens(stack@) =~= tokens(old(stack)@).drop_last());
            Some(token_of(code))
        },
        None => None,
    }
}

fn top_token(stack: &Stack) -> (top: Option<Token>)
    ensures
        tokens(stack@).len() == 0 ==> top is None,
        tokens(stack@).len() > 0 ==> top == Some(tokens(stack@).last()),
{
    match stack.top() {
        Some(code) => Some(token_of(code)),
        None => None,
    }
}

/// How an expression is read.
pub struct Mode {
    /// The expression is the argument of a directive: it ends at a newline or
    /// where the comment lead stands. Otherwise a newline is blank space.
    pub line: bool,
    /// Operands and operators must alternate.
    pub strict: bool,
    /// The comment lead; empty where comments are not looked for.
    pub comment: Seq<u8>,
}

/// A byte that is skipped between tokens.
pub open spec fn is_blank(c: u8, line: bool) -> bool {
    c == SPACE || c == TAB || c == RETURN || c == NUL || (!line && c == NEWLINE)
}

/// A byte that ends a name.
pub open spec fn is_break(c: u8, comment: Seq<u8>) -> bool {
    c == SPACE || c == TAB || c == RETURN || c == NEWLINE || c == NUL || c == BANG || c == AMP
        || c == BAR || c == LPAREN || c == RPAREN || (comment.len() > 0 && c == comment[0])
}

/// Where the name that runs through `from` ends: at the first break byte from
/// there on, or at the end of the bytes.
pub open spec fn name_end(bytes: Seq<u8>, from: int, comment: Seq<u8>) -> int
    decreases bytes.len() - from,
{
    if from < 0 || from >= bytes.len() || is_break(bytes[from], comment) {
        from
    } else {
        name_end(bytes, from + 1, comment)
    }
}

/// How tightly an operator binds.
pub open spec fn prec_of(t: Token) -> int {
    match t {
        Token::Not => 1,
        _ => 0,
    }
}

/// The operator that a token stands for.
pub open spec fn op_of<T>(t: Token) -> Op<T>
    recommends
        t != Token::LParen,
{
    match t {
        Token::And => Op::And,
        Token::Or => Op::Or,
        _ => Op::Not,
    }
}

/// Moves operators from the top of the stack to the output while they bind
/// at least as tightly as `prec`; stops at a parenthesis.
pub open spec fn flush<T>(stack: Seq<Token>, out: Seq<Op<T>>, prec: int) -> (Seq<Token>, Seq<Op<T>>)
    decreases stack.len(),
{
    if stack.len() > 0 && stack.last() != Token::LParen && prec_of(stack.last()) >= prec {
        flush(stack.drop_last(), out.push(op_of(stack.last())), prec)
    } else {
        (stack, out)
    }
}

/// Moves operators from the top of the stack to the output down to the
/// nearest parenthesis, which is dropped; `None` if there is none.
pub open spec fn close_paren<T>(stack: Seq<Token>, out: Seq<Op<T>>) -> Option<
    (Seq<Token>, Seq<Op<T>>),
>
    decreases stack.len(),
{
    if stack.len() == 0 {
        None
    } else if stack.last() == Token::LParen {
        Some((stack.drop_last(), out))
    } else {
        close_paren(stack.drop_last(), out.push(op_of(stack.last())))
    }
}

/// Moves every operator of the stack to the output, the top one first; `None`
/// if a parenthesis is still open.
pub open spec fn drain<T>(stack: Seq<Token>, out: Seq<Op<T>>) -> Option<Seq<Op<T>>>
    decreases stack.len(),
{
    if stack.len() == 0 {
        Some(out)
    } else if stack.last() == Token::LParen {
        None
    } else {
        drain(stack.drop_last(), out.push(op_of(stack.last())))
    }
}

/// The parser between two tokens.
pub struct ParseState {
    /// Where the next token starts.
    pub pos: int,
    /// The operators that wait.
    pub stack: Seq<Token>,
    /// The output so far; each name by its start and end.
    pub out: Seq<Op<(int, int)>>,
    /// Whether an operand has just been completed.
    pub operand: bool,
}

/// What one token does to the parser.
pub enum Step {
    Go(ParseState),
    Stop,
    Fail(ErrorKind, int, int),
}

/// What a binary operator does: it needs an operand before it, sends the
/// operators that bind as tightly to the output, and waits.
pub open spec fn step_binary(mode: Mode, st: ParseState, t: Token) -> Step {
    if mode.strict && !st.operand {
        Step::Fail(ErrorKind::Malformed, st.pos, 2)
    } else {
        let (stack, out) = flush(st.stack, st.out, 0);
        Step::Go(ParseState { pos: st.pos + 2, stack: stack.push(t), out, operand: false })
    }
}

/// The token at `st.pos` and what it does.
pub open spec fn step(bytes: Seq<u8>, mode: Mode, st: ParseState) -> Step {
    let p = st.pos;
    if p < 0 || p >= bytes.len() {
        Step::Stop
    } else {
        let c = bytes[p];
        if is_blank(c, mode.line) {
            Step::Go(ParseState { pos: p + 1, ..st })
        } else if c == NEWLINE {
            Step::Stop
        } else if mode.comment.len() > 0 && stands_at(bytes, p, mode.comment) {
            Step::Stop
        } else if c == LPAREN {
            if mode.strict && st.operand {
                Step::Fail(ErrorKind::Malformed, p, 1)
            } else {
                Step::Go(ParseState { pos: p + 1, stack: st.stack.push(Token::LParen), ..st })
            }
        } else if c == RPAREN {
            match close_paren(st.stack, st.out) {
                None => Step::Fail(ErrorKind::UnmatchedClose, p, 1),
                Some((stack, out)) => if mode.strict && !st.operand {
                    Step::Fail(ErrorKind::Malformed, p, 1)
                } else {
                    Step::Go(ParseState { pos: p + 1, stack, out, operand: st.operand })
                },
            }
        } else if c == AMP {
            if p + 1 < bytes.len() && bytes[p + 1] == AMP {
                step_binary(mode, st, Token::And)
            } else {
                Step::Fail(ErrorKind::ExpectedAnd, p, 1)
            }
        } else if c == BAR {
            if p + 1 < bytes.len() && bytes[p + 1] == BAR {
                step_binary(mode, st, Token::Or)
            } else {
                Step::Fail(ErrorKind::ExpectedOr, p, 1)
            }
        } else if c == BANG {
            let (stack, out) = flush(st.stack, st.out, 1);
            Step::Go(
                ParseState { pos: p + 1, stack: stack.push(Token::Not), out, operand: st.operand },
            )
        } else {
            let e = name_end(bytes, p + 1, mode.comment);
            if mode.strict && st.operand {
                Step::Fail(ErrorKind::Malformed, p, e - p)
            } else {
                Step::Go(
                    ParseState {
                        pos: e,
                        stack: st.stack,
                        out: st.out.push(Op::Var((p, e))),
                        operand: true,
                    },
                )
            }
        }
    }
}

/// What parsing comes to.
pub enum Parsed {
    /// The operators in reverse Polish notation, and where reading stopped.
    Done { ops: Seq<Op<(int, int)>>, stop: int },
    /// The kind of the error, and the place and the length of what it is about.
    Failed { kind: ErrorKind, offset: int, len: int },
}

/// What the end of the expression does: no parenthesis may be open, and in
/// strict mode an operand must have come last; the waiting operators go to
/// the output.
pub open spec fn finish(mode: Mode, st: ParseState) -> Parsed {
    match drain(st.stack, st.out) {
        None => Parsed::Failed { kind: ErrorKind::UnmatchedOpen, offset: st.pos, len: 0 },
        Some(ops) => if mode.strict && !st.operand {
            Parsed::Failed { kind: ErrorKind::Malformed, offset: st.pos, len: 0 }
        } else {
            Parsed::Done { ops, stop: st.pos }
        },
    }
}

/// Parsing from the state `st` on.
pub open spec fn run(bytes: Seq<u8>, mode: Mode, st: ParseState) -> Parsed
    decreases bytes.len() - st.pos,
{
    match step(bytes, mode, st) {
        Step::Go(next) => if st.pos < next.pos <= bytes.len() {
            run(bytes, mode, next)
        } else {
            Parsed::Failed { kind: ErrorKind::Malformed, offset: st.pos, len: 0 }
        },
        Step::Stop => finish(mode, st),
        Step::Fail(kind, offset, len) => Parsed::Failed { kind, offset, len },
    }
}

/// The state in which parsing starts at `start`.
pub open spec fn start_state(start: int) -> ParseState {
    ParseState { pos: start, stack: Seq::empty(), out: Seq::empty(), operand: false }
}

/// The expression that stands in `bytes` at `start`.
pub open spec fn parse_at(bytes: Seq<u8>, mode: Mode, start: int) -> Parsed {
    run(bytes, mode, start_state(start))
}

/// A name ends after its start and within the bytes.
pub proof fn lemma_name_end_bounds(bytes: Seq<u8>, from: int, comment: Seq<u8>)
    requires
        0 <= from <= bytes.len(),
    ensures
        from <= name_end(bytes, from, comment) <= bytes.len(),
        forall|k: int| from <= k < name_end(bytes, from, comment) ==> !is_break(bytes[k], comment),
        name_end(bytes, from, comment) < bytes.len() ==> is_break(
            bytes[name_end(bytes, from, comment)],
            comment,
        ),
    decreases bytes.len() - from,
{
    if from < bytes.len() && !is_break(bytes[from], comment) {
        lemma_name_end_bounds(bytes, from + 1, comment);
    }
}

/// Parsing stops behind the place where it started, within the bytes.
pub proof fn lemma_run_bounds(bytes: Seq<u8>, mode: Mode, st: ParseState)
    requires
        0 <= st.pos <= bytes.len(),
    ensures
        run(bytes, mode, st) matches Parsed::Done { ops, stop } ==> st.pos <= stop <= bytes.len(),
    decreases bytes.len() - st.pos,
{
    match step(bytes, mode, st) {
        Step::Go(next) => {
            if st.pos < next.pos <= bytes.len() {
                lemma_run_bounds(bytes, mode, next);
            }
        },
        _ => {},
    }
}

/// Whether every name of `ops` starts and ends at a cut of `bytes`.
pub open spec fn ops_ok(bytes: Seq<u8>, ops: Seq<Op<(int, int)>>) -> bool {
    forall|i: int| 0 <= i < ops.len() ==> (#[trigger] ops[i] matches Op::Var(at) ==> piece_ok(bytes, at))
}

/// Whether the comment lead starts like a character, not in the middle of one.
pub open spec fn comment_ok(comment: Seq<u8>) -> bool {
    comment.len() > 0 ==> !is_continuation_byte(comment[0])
}

proof fn lemma_flush_ok(bytes: Seq<u8>, stack: Seq<Token>, out: Seq<Op<(int, int)>>, prec: int)
    requires
        ops_ok(bytes, out),
    ensures
        ops_ok(bytes, flush(stack, out, prec).1),
    decreases stack.len(),
{
    if stack.len() > 0 && stack.last() != Token::LParen && prec_of(stack.last()) >= prec {
        lemma_flush_ok(bytes, stack.drop_last(), out.push(op_of(stack.last())), prec);
    }
}

proof fn lemma_close_ok(bytes: Seq<u8>, stack: Seq<Token>, out: Seq<Op<(int, int)>>)
    requires
        ops_ok(bytes, out),
    ensures
        close_paren(stack, out) matches Some(r) ==> ops_ok(bytes, r.1),
    decreases stack.len(),
{
    if stack.len() > 0 && stack.last() != Token::LParen {
        lemma_close_ok(bytes, stack.drop_last(), out.push(op_of(stack.last())));
    }
}

proof fn lemma_drain_ok(bytes: Seq<u8>, stack: Seq<Token>, out: Seq<Op<(int, int)>>)
    requires
        ops_ok(bytes, out),
    ensures
        drain(stack, out) matches Some(r) ==> ops_ok(bytes, r),
    decreases stack.len(),
{
    if stack.len() > 0 && stack.last() != Token::LParen {
        lemma_drain_ok(bytes, stack.drop_last(), out.push(op_of(stack.last())));
    }
}

/// Parsing cuts its names out at cuts, and stops at one.
pub proof fn lemma_run_cuts(bytes: Seq<u8>, mode: Mode, st: ParseState)
    requires
        cut_ok(bytes, st.pos),
        ops_ok(bytes, st.out),
        comment_ok(mode.comment),
    ensures
        run(bytes, mode, st) matches Parsed::Done { ops, stop } ==> ops_ok(bytes, ops) && cut_ok(
            bytes,
            stop,
        ) && st.pos <= stop,
    decreases bytes.len() - st.pos,
{
    match step(bytes, mode, st) {
        Step::Go(next) => {
            if st.pos < next.pos <= bytes.len() {
                let p = st.pos;
                let c = bytes[p];
                lemma_flush_ok(bytes, st.stack, st.out, 0);
                lemma_flush_ok(bytes, st.stack, st.out, 1);
                lemma_close_ok(bytes, st.stack, st.out);
                lemma_name_end_bounds(bytes, p + 1, mode.comment);
                assert(cut_ok(bytes, next.pos));
                assert(ops_ok(bytes, next.out));
                lemma_run_cuts(bytes, mode, next);
            }
        },
        Step::Stop => {
            lemma_drain_ok(bytes, st.stack, st.out);
        },
        Step::Fail(_, _, _) => {},
    }
}

/// The places of the names of `ops`.
pub open spec fn cuts(ops: Seq<Op<Span>>) -> Seq<Op<(int, int)>> {
    Seq::new(ops.len(), |i: int| op_cut(ops[i]))
}

/// The operator, with its name by start and end.
pub open spec fn op_cut(op: Op<Span>) -> Op<(int, int)> {
    match op {
        Op::Var(s) => Op::Var(s@),
        Op::And => Op::And,
        Op::Or => Op::Or,
        Op::Not => Op::Not,
    }
}

fn token_op(t: Token) -> (op: Op<Span>)
    ensures
        op == op_of::<Span>(t),
        op_cut(op) == op_of::<(int, int)>(t),
{
    match t {
        Token::And => Op::And,
        Token::Or => Op::Or,
        _ => Op::Not,
    }
}

fn token_prec(t: Token) -> (p: u8)
    ensures
        p == prec_of(t),
{
    match t {
        Token::Not => 1,
        _ => 0,
    }
}

fn push_op(ops: &mut Vec<Op<Span>>, op: Op<Span>)
    ensures
        final(ops)@ == old(ops)@.push(op),
        cuts(final(ops)@) == cuts(old(ops)@).push(op_cut(op)),
{
    ops.push(op);
    assert(cuts(ops@) =~= cuts(old(ops)@).push(op_cut(op)));
}

fn do_flush(stack: &mut Stack, ops: &mut Vec<Op<Span>>, prec: u8)
    ensures
        (tokens(final(stack)@), cuts(final(ops)@)) == flush(
            tokens(old(stack)@),
            cuts(old(ops)@),
            prec as int,
        ),
{
    loop
        invariant
            flush(tokens(stack@), cuts(ops@), prec as int) == flush(
                tokens(old(stack)@),
                cuts(old(ops)@),
                prec as int,
            ),
        ensures
            (tokens(stack@), cuts(ops@)) == flush(
                tokens(old(stack)@),
                cuts(old(ops)@),
                prec as int,
            ),
        decreases tokens(stack@).len(),
    {
        match top_token(stack) {
            Some(t) => {
                if t != Token::LParen && token_prec(t) >= prec {
                    let _ = pop_token(stack);
                    push_op(ops, token_op(t));
                } else {
                    break ;
                }
            },
            None => {
                break ;
            },
        }
    }
}

fn do_close(stack: &mut Stack, ops: &mut Vec<Op<Span>>) -> (found: bool)
    ensures
        match close_paren(tokens(old(stack)@), cuts(old(ops)@)) {
            None => !found,
            Some((s, o)) => found && tokens(final(stack)@) == s && cuts(final(ops)@) == o,
        },
{
    loop
        invariant
            close_paren(tokens(stack@), cuts(ops@)) == close_paren(
                tokens(old(stack)@),
                cuts(old(ops)@),
            ),
        decreases tokens(stack@).len(),
    {
        match pop_token(stack) {
            Some(t) => {
                if t == Token::LParen {
                    return true;
                }
                push_op(ops, token_op(t));
            },
            None => {
                return false;
            },
        }
    }
}

fn do_drain(stack: &mut Stack, ops: &mut Vec<Op<Span>>) -> (closed: bool)
    ensures
        match drain(tokens(old(stack)@), cuts(old(ops)@)) {
            None => !closed,
            Some(o) => closed && cuts(final(ops)@) == o,
        },
{
    loop
        invariant
            drain(tokens(stack@), cuts(ops@)) == drain(tokens(old(stack)@), cuts(old(ops)@)),
        decreases tokens(stack@).len(),
    {
        match pop_token(stack) {
            Some(t) => {
                if t == Token::LParen {
                    return false;
                }
                push_op(ops, token_op(t));
            },
            None => {
                return true;
            },
        }
    }
}

fn byte_breaks(c: u8, comment: &[u8]) -> (b: bool)
    ensures
        b == is_break(c, comment@),
{
    c == SPACE || c == TAB || c == RETURN || c == NEWLINE || c == NUL || c == BANG || c == AMP
        || c == BAR || c == LPAREN || c == RPAREN || (comment.len() > 0 && c == comment[0])
}

fn find_name_end(data: &[u8], from: usize, comment: &[u8]) -> (e: usize)
    requires
        from <= data@.len(),
    ensures
        e == name_end(data@, from as int, comment@),
        from <= e <= data@.len(),
{
    let n: usize = data.len();
    let mut e: usize = from;
    while e < n && !byte_breaks(data[e], comment)
        invariant
            n == data@.len(),
            from <= e <= n,
            name_end(data@, e as int, comment@) == name_end(data@, from as int, comment@),
        decreases n - e,
    {
        e = e + 1;
    }
    e
}

/// Parses the expression that stands in `data` at `start`.
///
/// `line` tells whether the expression is the argument of a directive, which
/// ends at a newline or at the comment lead `comment`; `strict` whether
/// operands and operators must alternate. The result is the operators in
/// reverse Polish notation with the place where reading stopped, or the
/// error: a `)` without its `(`, a `(` left open, a single `&` or `|`, or, in
/// strict mode, a token out of place.
pub fn parse_ops(data: &[u8], start: usize, line: bool, strict: bool, comment: &[u8]) -> (r: Result<
    (Vec<Op<Span>>, usize),
    Error,
>)
    requires
        start <= data@.len(),
    ensures
        match parse_at(data@, Mode { line, strict, comment: comment@ }, start as int) {
            Parsed::Done { ops, stop } => r matches Ok((v, s)) && cuts(v@) == ops && s == stop
                && start <= s <= data@.len(),
            Parsed::Failed { kind, offset, len } => r matches Err(e) && e.kind == kind && e.offset
                == offset && e.len == len,
        },
{
    let n: usize = data.len();
    let ghost mode = Mode { line, strict, comment: comment@ };
    let ghost goal = parse_at(data@, mode, start as int);
    let mut pos: usize = start;
    let mut stack = Stack::new();
    assert(tokens(stack@) =~= Seq::<Token>::empty());
    let mut ops: Vec<Op<Span>> = Vec::new();
    let mut operand = false;
    assert(cuts(ops@) =~= Seq::empty());
    loop
        invariant
            n == data@.len(),
            mode == (Mode { line, strict, comment: comment@ }),
            goal == parse_at(data@, mode, start as int),
            pos <= n,
            run(
                data@,
                mode,
                ParseState { pos: pos as int, stack: tokens(stack@), out: cuts(ops@), operand },
            ) == goal,
        ensures
            step(
                data@,
                mode,
                ParseState { pos: pos as int, stack: tokens(stack@), out: cuts(ops@), operand },
            ) is Stop,
        decreases n - pos,
    {
        let ghost st = ParseState { pos: pos as int, stack: tokens(stack@), out: cuts(ops@), operand };
        if pos >= n {
            break ;
        }
        let c = data[pos];
        if c == SPACE || c == TAB || c == RETURN || c == NUL || (!line && c == NEWLINE) {
            pos = pos + 1;
        } else if c == NEWLINE {
            break ;
        } else if comment.len() > 0 && has_at(data, pos, comment) {
            break ;
        } else if c == LPAREN {
            if strict && operand {
                return Err(Error { offset: pos, len: 1, kind: ErrorKind::Malformed });
            }
            push_token(&mut stack, Token::LParen);
            pos = pos + 1;
        } else if c == RPAREN {
            if !do_close(&mut stack, &mut ops) {
                return Err(Error { offset: pos, len: 1, kind: ErrorKind::UnmatchedClose });
            }
            if strict && !operand {
                return Err(Error { offset: pos, len: 1, kind: ErrorKind::Malformed });
            }
            pos = pos + 1;
        } else if c == AMP || c == BAR {
            if !(pos + 1 < n && data[pos + 1] == c) {
                let kind = if c == AMP {
                    ErrorKind::ExpectedAnd
                } else {
                    ErrorKind::ExpectedOr
                };
                return Err(Error { offset: pos, len: 1, kind });
            }
            if strict && !operand {
                return Err(Error { offset: pos, len: 2, kind: ErrorKind::Malformed });
            }
            do_flush(&mut stack, &mut ops, 0);
            push_token(
                &mut stack,
                if c == AMP {
                    Token::And
                } else {
                    Token::Or
                },
            );
            operand = false;
            pos = pos + 2;
        } else if c == BANG {
            do_flush(&mut stack, &mut ops, 1);
            push_token(&mut stack, Token::Not);
            pos = pos + 1;
        } else {
            let e = find_name_end(data, pos + 1, comment);
            if strict && operand {
                return Err(Error { offset: pos, len: e - pos, kind: ErrorKind::Malformed });
            }
            push_op(&mut ops, Op::Var(Span { start: pos, end: e }));
            operand = true;
            pos = e;
        }
        assert(step(data@, mode, st) == Step::Go(
            ParseState { pos: pos as int, stack: tokens(stack@), out: cuts(ops@), operand },
        ));
    }
    let ghost st = ParseState { pos: pos as int, stack: tokens(stack@), out: cuts(ops@), operand };
    if !do_drain(&mut stack, &mut ops) {
        return Err(Error { offset: pos, len: 0, kind: ErrorKind::UnmatchedOpen });
    }
    if strict && !operand {
        return Err(Error { offset: pos, len: 0, kind: ErrorKind::Malformed });
    }
    proof {
        lemma_run_bounds(data@, mode, start_state(start as int));
    }
    Ok((ops, pos))
}

} // verus!
