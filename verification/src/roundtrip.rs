//! Writing an expression out and parsing it again gives the expression back.

use vstd::prelude::*;
use crate::exp::{
    lemma_pieces_depth, op_piece, parse_str, pieces, rpn_depth, rpn_valid, rpn_value, str_mode,
    ErrorKind, Op,
};
use crate::format::{infix, infix_and, infix_not, infix_or, infix_stack};
use crate::parser::{
    close_paren, drain, flush, is_break, lemma_name_end_bounds, name_end, op_of, parse_at, prec_of,
    run, start_state, step, step_binary, Mode, ParseState, Parsed, Step, AMP, BANG, BAR, LPAREN,
    RPAREN, SPACE, Token,
};
use crate::span::piece;

verus! {

/// An expression as a tree.
pub enum Tree {
    Var(Seq<u8>),
    Not(Box<Tree>),
    And(Box<Tree>, Box<Tree>),
    Or(Box<Tree>, Box<Tree>),
}

/// The tree in reverse Polish notation.
pub open spec fn tree_rpn(t: Tree) -> Seq<Op<Seq<u8>>>
    decreases t,
{
    match t {
        Tree::Var(n) => seq![Op::Var(n)],
        Tree::Not(a) => tree_rpn(*a).push(Op::Not),
        Tree::And(a, b) => (tree_rpn(*a) + tree_rpn(*b)).push(Op::And),
        Tree::Or(a, b) => (tree_rpn(*a) + tree_rpn(*b)).push(Op::Or),
    }
}

/// The tree written out, fully parenthesized.
pub open spec fn tree_infix(t: Tree) -> Seq<u8>
    decreases t,
{
    match t {
        Tree::Var(n) => n,
        Tree::Not(a) => infix_not(tree_infix(*a)),
        Tree::And(a, b) => infix_and(tree_infix(*a), tree_infix(*b)),
        Tree::Or(a, b) => infix_or(tree_infix(*a), tree_infix(*b)),
    }
}

/// A name as the parser reads names: not empty, and without a byte that
/// would end it.
pub open spec fn clean_name(name: Seq<u8>) -> bool {
    name.len() > 0 && forall|i: int| 0 <= i < name.len() ==> !is_break(#[trigger] name[i], Seq::empty())
}

/// Whether every name of the expression is clean.
pub open spec fn clean(ops: Seq<Op<Seq<u8>>>) -> bool {
    forall|i: int| 0 <= i < ops.len() ==> (#[trigger] ops[i] matches Op::Var(n) ==> clean_name(n))
}

/// Whether every name of the tree is clean.
pub open spec fn clean_tree(t: Tree) -> bool
    decreases t,
{
    match t {
        Tree::Var(n) => clean_name(n),
        Tree::Not(a) => clean_tree(*a),
        Tree::And(a, b) => clean_tree(*a) && clean_tree(*b),
        Tree::Or(a, b) => clean_tree(*a) && clean_tree(*b),
    }
}

/// The stack of trees after `ops` ran on an empty stack.
pub open spec fn tree_stack(ops: Seq<Op<Seq<u8>>>) -> Seq<Tree>
    decreases ops.len(),
{
    if ops.len() == 0 {
        Seq::empty()
    } else {
        let s = tree_stack(ops.drop_last());
        match ops.last() {
            Op::Var(n) => s.push(Tree::Var(n)),
            Op::And => s.drop_last().drop_last().push(
                Tree::And(Box::new(s[s.len() - 2]), Box::new(s[s.len() - 1])),
            ),
            Op::Or => s.drop_last().drop_last().push(
                Tree::Or(Box::new(s[s.len() - 2]), Box::new(s[s.len() - 1])),
            ),
            Op::Not => s.drop_last().push(Tree::Not(Box::new(s[s.len() - 1]))),
        }
    }
}

/// The trees in reverse Polish notation, one behind the other.
pub open spec fn flat_rpn(trees: Seq<Tree>) -> Seq<Op<Seq<u8>>>
    decreases trees.len(),
{
    if trees.len() == 0 {
        Seq::empty()
    } else {
        flat_rpn(trees.drop_last()) + tree_rpn(trees.last())
    }
}

/// The trees of an expression are as many as its stack is deep; written out
/// they are its texts, and in reverse Polish notation they are the
/// expression.
pub proof fn lemma_trees(ops: Seq<Op<Seq<u8>>>)
    requires
        rpn_depth(ops) is Some,
    ensures
        tree_stack(ops).len() == rpn_depth(ops)->0,
        infix_stack(ops).len() == tree_stack(ops).len(),
        forall|k: int|
            0 <= k < tree_stack(ops).len() ==> #[trigger] infix_stack(ops)[k] == tree_infix(
                tree_stack(ops)[k],
            ),
        flat_rpn(tree_stack(ops)) == ops,
        clean(ops) ==> forall|k: int|
            0 <= k < tree_stack(ops).len() ==> clean_tree(#[trigger] tree_stack(ops)[k]),
    decreases ops.len(),
{
    if ops.len() == 0 {
    } else {
        let before = ops.drop_last();
        lemma_trees(before);
        let s = tree_stack(before);
        let now = tree_stack(ops);
        if clean(ops) {
            assert(clean(before)) by {
                assert forall|i: int| 0 <= i < before.len() implies (#[trigger] before[i] matches Op::Var(
                    n,
                ) ==> clean_name(n)) by {
                    assert(before[i] == ops[i]);
                }
            }
        }
        match ops.last() {
            Op::Var(n) => {
                assert(now.drop_last() =~= s);
                assert(flat_rpn(now) =~= ops);
                if clean(ops) {
                    assert(ops[ops.len() - 1] == ops.last());
                }
            },
            Op::Not => {
                let a = s[s.len() - 1];
                assert(now.drop_last() =~= s.drop_last());
                assert(s.drop_last().push(a) =~= s);
                assert(flat_rpn(s) == flat_rpn(s.drop_last()) + tree_rpn(a));
                assert(flat_rpn(now) =~= ops);
            },
            Op::And => {
                let a = s[s.len() - 2];
                let b = s[s.len() - 1];
                let rest = s.drop_last().drop_last();
                assert(now.drop_last() =~= rest);
                assert(s.drop_last().drop_last() =~= rest);
                assert(s.drop_last().last() == a);
                assert(flat_rpn(s) == flat_rpn(s.drop_last()) + tree_rpn(b));
                assert(flat_rpn(s.drop_last()) == flat_rpn(rest) + tree_rpn(a));
                assert(flat_rpn(now) =~= ops);
            },
            Op::Or => {
                let a = s[s.len() - 2];
                let b = s[s.len() - 1];
                let rest = s.drop_last().drop_last();
                assert(now.drop_last() =~= rest);
                assert(s.drop_last().drop_last() =~= rest);
                assert(s.drop_last().last() == a);
                assert(flat_rpn(s) == flat_rpn(s.drop_last()) + tree_rpn(b));
                assert(flat_rpn(s.drop_last()) == flat_rpn(rest) + tree_rpn(a));
                assert(flat_rpn(now) =~= ops);
            },
        }
    }
}

/// The operator that waits on the stack when a tree has been read: `!` for a
/// negation, none for anything else.
pub open spec fn waiting(t: Tree) -> Seq<Token> {
    match t {
        Tree::Not(_) => seq![Token::Not],
        _ => Seq::empty(),
    }
}

/// The output with the operators that wait put behind it.
pub open spec fn with_waiting(out: Seq<Op<Seq<u8>>>, t: Tree) -> Seq<Op<Seq<u8>>> {
    match t {
        Tree::Not(_) => out.push(Op::Not),
        _ => out,
    }
}

/// Whether the byte at `at`, if there is one, is a `)` or a space.
pub open spec fn closed_at(bytes: Seq<u8>, at: int) -> bool {
    at == bytes.len() || (0 <= at < bytes.len() && (bytes[at] == RPAREN || bytes[at] == SPACE))
}

/// One token read: parsing from `st` is parsing from `next`.
proof fn lemma_one_step(bytes: Seq<u8>, st: ParseState, next: ParseState)
    requires
        step(bytes, str_mode(), st) == Step::Go(next),
        st.pos < next.pos <= bytes.len(),
    ensures
        run(bytes, str_mode(), st) == run(bytes, str_mode(), next),
{
}

/// Putting an operator behind the output puts it behind the output's text.
proof fn lemma_pieces_push(bytes: Seq<u8>, out: Seq<Op<(int, int)>>, op: Op<(int, int)>)
    ensures
        pieces(bytes, out.push(op)) == pieces(bytes, out).push(op_piece(bytes, op)),
{
    assert(pieces(bytes, out.push(op)) =~= pieces(bytes, out).push(op_piece(bytes, op)));
}

/// The parser reads a tree that is written out: it comes to stand behind it
/// with an operand read, the output longer by the tree in reverse Polish
/// notation, but for a `!` that waits on the stack.
pub proof fn lemma_parse_tree(bytes: Seq<u8>, t: Tree, st: ParseState) -> (next: ParseState)
    requires
        clean_tree(t),
        0 <= st.pos,
        st.pos + tree_infix(t).len() <= bytes.len(),
        bytes.subrange(st.pos, st.pos + tree_infix(t).len()) == tree_infix(t),
        closed_at(bytes, st.pos + tree_infix(t).len()),
        !st.operand,
        t is Not ==> (st.stack.len() == 0 || st.stack.last() != Token::Not),
    ensures
        run(bytes, str_mode(), st) == run(bytes, str_mode(), next),
        next.pos == st.pos + tree_infix(t).len(),
        next.operand,
        next.stack == st.stack + waiting(t),
        with_waiting(pieces(bytes, next.out), t) == pieces(bytes, st.out) + tree_rpn(t),
    decreases t,
{
    let mode = str_mode();
    let p = st.pos;
    let text = tree_infix(t);
    let here = bytes.subrange(p, p + text.len());
    assert(forall|k: int| 0 <= k < text.len() ==> bytes[p + k] == #[trigger] here[k]);
    match t {
        Tree::Var(n) => {
            let e = name_end(bytes, p + 1, mode.comment);
            assert(here[0] == bytes[p]);
            lemma_name_clean_end(bytes, p, n);
            let next = ParseState {
                pos: e,
                stack: st.stack,
                out: st.out.push(Op::Var((p, e))),
                operand: true,
            };
            lemma_one_step(bytes, st, next);
            lemma_pieces_push(bytes, st.out, Op::Var((p, e)));
            assert(st.stack + waiting(t) =~= st.stack);
            assert(pieces(bytes, st.out) + tree_rpn(t) =~= pieces(bytes, st.out).push(
                Op::Var(n),
            ));
            next
        },
        Tree::Not(a) => {
            let inner = tree_infix(*a);
            assert(text =~= seq![BANG, LPAREN] + inner + seq![RPAREN]);
            assert(here[0] == BANG && here[1] == LPAREN);
            assert(here[inner.len() as int + 2] == RPAREN);
            lemma_flush_idle(st.stack, st.out, 1);
            let s1 = ParseState { pos: p + 1, stack: st.stack.push(Token::Not), ..st };
            lemma_one_step(bytes, st, s1);
            let s2 = ParseState { pos: p + 2, stack: s1.stack.push(Token::LParen), ..s1 };
            lemma_one_step(bytes, s1, s2);
            assert(bytes.subrange(p + 2, p + 2 + inner.len()) =~= inner) by {
                assert(forall|k: int|
                    0 <= k < inner.len() ==> bytes[p + 2 + k] == #[trigger] inner[k]) by {
                    assert forall|k: int| 0 <= k < inner.len() implies bytes[p + 2 + k]
                        == #[trigger] inner[k] by {
                        assert(here[k + 2] == text[k + 2]);
                    }
                }
            }
            let s3 = lemma_parse_tree(bytes, *a, s2);
            lemma_close_waiting(s2.stack, *a, s3.out);
            let closed = close_paren(s3.stack, s3.out)->0;
            let out4 = closed.1;
            let s4 = ParseState { pos: s3.pos + 1, stack: s1.stack, out: out4, operand: true };
            assert(close_paren(s3.stack, s3.out) == Some((s1.stack, out4)));
            lemma_one_step(bytes, s3, s4);
            lemma_pieces_waiting(bytes, s3.out, out4, *a);
            assert(st.stack + waiting(t) =~= s1.stack);
            assert(with_waiting(pieces(bytes, s4.out), t) =~= pieces(bytes, st.out) + tree_rpn(t));
            s4
        },
        Tree::And(a, b) => lemma_parse_binary(bytes, t, st, *a, *b, true),
        Tree::Or(a, b) => lemma_parse_binary(bytes, t, st, *a, *b, false),
    }
}

/// A clean name that stands at `p`, with the end of the bytes, a `)` or a
/// space behind it, is read as a name that ends behind it.
proof fn lemma_name_clean_end(bytes: Seq<u8>, p: int, n: Seq<u8>)
    requires
        clean_name(n),
        0 <= p,
        p + n.len() <= bytes.len(),
        bytes.subrange(p, p + n.len()) == n,
        closed_at(bytes, p + n.len()),
    ensures
        name_end(bytes, p + 1, Seq::empty()) == p + n.len(),
        !is_break(bytes[p], Seq::empty()),
        piece(bytes, (p, p + n.len())) == n,
{
    let here = bytes.subrange(p, p + n.len());
    assert(forall|k: int| 0 <= k < n.len() ==> bytes[p + k] == #[trigger] here[k]);
    assert(here[0] == bytes[p]);
    assert forall|k: int| p + 1 <= k < p + n.len() implies !is_break(
        #[trigger] bytes[k],
        Seq::empty(),
    ) by {
        assert(bytes[k] == here[k - p]);
    }
    lemma_name_runs(bytes, p + 1, p + n.len());
}

/// Where no byte from `from` up to `to` ends a name and one does at `to`,
/// or the bytes end there, the name ends at `to`.
proof fn lemma_name_runs(bytes: Seq<u8>, from: int, to: int)
    requires
        0 <= from <= to <= bytes.len(),
        forall|k: int| from <= k < to ==> !is_break(#[trigger] bytes[k], Seq::empty()),
        to == bytes.len() || is_break(bytes[to], Seq::empty()),
    ensures
        name_end(bytes, from, Seq::empty()) == to,
    decreases to - from,
{
    if from < to {
        lemma_name_runs(bytes, from + 1, to);
    }
}

/// An operator that binds tighter than all that wait on top of the stack
/// sends none of them to the output.
proof fn lemma_flush_idle(stack: Seq<Token>, out: Seq<Op<(int, int)>>, prec: int)
    requires
        stack.len() == 0 || stack.last() == Token::LParen || prec_of(stack.last()) < prec,
    ensures
        flush(stack, out, prec) == (stack, out),
{
}

/// What a `)` does behind a tree that was read in parentheses: the `!` that
/// waits, if any, goes to the output, and the parenthesis is dropped.
proof fn lemma_close_waiting(under: Seq<Token>, t: Tree, out: Seq<Op<(int, int)>>)
    requires
        under.len() > 0,
        under.last() == Token::LParen,
    ensures
        close_paren(under + waiting(t), out) == Some(
            (
                under.drop_last(),
                match t {
                    Tree::Not(_) => out.push(Op::Not),
                    _ => out,
                },
            ),
        ),
{
    let stack = under + waiting(t);
    match t {
        Tree::Not(_) => {
            assert(stack.last() == Token::Not);
            assert(stack.drop_last() =~= under);
            reveal_with_fuel(close_paren, 2);
        },
        _ => {
            assert(stack =~= under);
        },
    }
}

/// The text of the output behind a tree, once the `!` that waits has gone to
/// the output.
proof fn lemma_pieces_waiting(
    bytes: Seq<u8>,
    out: Seq<Op<(int, int)>>,
    after: Seq<Op<(int, int)>>,
    t: Tree,
)
    requires
        after == (match t {
            Tree::Not(_) => out.push(Op::Not),
            _ => out,
        }),
    ensures
        pieces(bytes, after) == with_waiting(pieces(bytes, out), t),
{
    match t {
        Tree::Not(_) => {
            lemma_pieces_push(bytes, out, Op::Not);
        },
        _ => {},
    }
}

/// What `&&` or `||` does behind a tree that was read: the `!` that waits,
/// if any, goes to the output, and the operator waits in its place.
proof fn lemma_flush_waiting(under: Seq<Token>, t: Tree, out: Seq<Op<(int, int)>>)
    requires
        under.len() > 0,
        under.last() == Token::LParen,
    ensures
        flush(under + waiting(t), out, 0) == (
            under,
            match t {
                Tree::Not(_) => out.push(Op::Not),
                _ => out,
            },
        ),
{
    let stack = under + waiting(t);
    match t {
        Tree::Not(_) => {
            assert(stack.last() == Token::Not);
            assert(stack.drop_last() =~= under);
            reveal_with_fuel(flush, 2);
        },
        _ => {
            assert(stack =~= under);
        },
    }
}

/// What a `)` does behind the second operand of `&&` or `||`: the `!` that
/// waits, if any, and then the operator go to the output, and the
/// parenthesis is dropped.
proof fn lemma_close_binary(under: Seq<Token>, op: Token, t: Tree, out: Seq<Op<(int, int)>>)
    requires
        under.len() > 0,
        under.last() == Token::LParen,
        op == Token::And || op == Token::Or,
    ensures
        close_paren(under.push(op) + waiting(t), out) == Some(
            (
                under.drop_last(),
                (match t {
                    Tree::Not(_) => out.push(Op::Not),
                    _ => out,
                }).push(op_of(op)),
            ),
        ),
{
    let stack = under.push(op) + waiting(t);
    match t {
        Tree::Not(_) => {
            assert(stack.last() == Token::Not);
            assert(stack.drop_last() =~= under.push(op));
            assert(under.push(op).drop_last() =~= under);
            reveal_with_fuel(close_paren, 3);
        },
        _ => {
            assert(stack =~= under.push(op));
            assert(under.push(op).drop_last() =~= under);
            reveal_with_fuel(close_paren, 2);
        },
    }
}

/// The parser reads `(a && b)` or `(a || b)`.
proof fn lemma_parse_binary(
    bytes: Seq<u8>,
    t: Tree,
    st: ParseState,
    a: Tree,
    b: Tree,
    and: bool,
) -> (next: ParseState)
    requires
        t == (if and {
            Tree::And(Box::new(a), Box::new(b))
        } else {
            Tree::Or(Box::new(a), Box::new(b))
        }),
        clean_tree(t),
        0 <= st.pos,
        st.pos + tree_infix(t).len() <= bytes.len(),
        bytes.subrange(st.pos, st.pos + tree_infix(t).len()) == tree_infix(t),
        closed_at(bytes, st.pos + tree_infix(t).len()),
        !st.operand,
    ensures
        run(bytes, str_mode(), st) == run(bytes, str_mode(), next),
        next.pos == st.pos + tree_infix(t).len(),
        next.operand,
        next.stack == st.stack + waiting(t),
        with_waiting(pieces(bytes, next.out), t) == pieces(bytes, st.out) + tree_rpn(t),
    decreases t, 0nat,
{
    let mode = str_mode();
    let p = st.pos;
    let text = tree_infix(t);
    let left = tree_infix(a);
    let right = tree_infix(b);
    let sign = if and {
        AMP
    } else {
        BAR
    };
    let op = if and {
        Token::And
    } else {
        Token::Or
    };
    let here = bytes.subrange(p, p + text.len());
    assert(forall|k: int| 0 <= k < text.len() ==> bytes[p + k] == #[trigger] here[k]);
    assert(text =~= seq![LPAREN] + left + seq![SPACE, sign, sign, SPACE] + right + seq![RPAREN]);
    let q: int = p + 1 + left.len();
    let r: int = q + 4;
    assert(here[0] == LPAREN);
    assert(here[q - p] == SPACE && here[q - p + 1] == sign && here[q - p + 2] == sign && here[q
        - p + 3] == SPACE);
    assert(here[r - p + right.len() as int] == RPAREN);
    assert(bytes.subrange(p + 1, p + 1 + left.len()) =~= left) by {
        assert forall|k: int| 0 <= k < left.len() implies bytes[p + 1 + k] == #[trigger] left[k] by {
            assert(here[k + 1] == text[k + 1]);
        }
    }
    assert(bytes.subrange(r, r + right.len()) =~= right) by {
        assert forall|k: int| 0 <= k < right.len() implies bytes[r + k] == #[trigger] right[k] by {
            assert(here[r - p + k] == text[r - p + k]);
        }
    }
    let s1 = ParseState { pos: p + 1, stack: st.stack.push(Token::LParen), ..st };
    lemma_one_step(bytes, st, s1);
    let s2 = lemma_parse_tree(bytes, a, s1);
    let s3 = ParseState { pos: q + 1, ..s2 };
    lemma_one_step(bytes, s2, s3);
    lemma_flush_waiting(s1.stack, a, s2.out);
    let out4 = flush(s2.stack, s2.out, 0).1;
    let s4 = ParseState { pos: q + 3, stack: s1.stack.push(op), out: out4, operand: false };
    assert(step(bytes, mode, s3) == step_binary(mode, s3, op));
    lemma_one_step(bytes, s3, s4);
    lemma_pieces_waiting(bytes, s2.out, out4, a);
    let s5 = ParseState { pos: r, ..s4 };
    lemma_one_step(bytes, s4, s5);
    let s6 = lemma_parse_tree(bytes, b, s5);
    lemma_close_binary(s1.stack, op, b, s6.out);
    let closed = close_paren(s6.stack, s6.out)->0;
    let out7 = closed.1;
    assert(s1.stack.drop_last() =~= st.stack);
    let s7 = ParseState { pos: s6.pos + 1, stack: st.stack, out: out7, operand: true };
    lemma_one_step(bytes, s6, s7);
    assert(st.stack + waiting(t) =~= st.stack);
    let mid6 = match b {
        Tree::Not(_) => s6.out.push(Op::Not),
        _ => s6.out,
    };
    lemma_pieces_waiting(bytes, s6.out, mid6, b);
    lemma_pieces_push(bytes, mid6, op_of(op));
    assert(pieces(bytes, s7.out) =~= pieces(bytes, st.out) + tree_rpn(t));
    s7
}

/// An expression that is valid and whose names are clean, written out and
/// parsed again, is the expression.
pub proof fn lemma_parse_infix(ops: Seq<Op<Seq<u8>>>)
    requires
        rpn_valid(ops),
        clean(ops),
    ensures
        parse_str(infix(ops)) == Ok::<Seq<Op<Seq<u8>>>, (ErrorKind, int, int)>(ops),
{
    lemma_trees(ops);
    let t = tree_stack(ops)[0];
    let bytes = infix(ops);
    assert(bytes == tree_infix(t));
    assert(tree_stack(ops).drop_last() =~= Seq::<Tree>::empty());
    assert(flat_rpn(tree_stack(ops).drop_last()) =~= Seq::<Op<Seq<u8>>>::empty());
    assert(tree_stack(ops).last() == t);
    assert(flat_rpn(tree_stack(ops)) =~= tree_rpn(t));
    let st = start_state(0);
    assert(bytes.subrange(0, bytes.len() as int) =~= bytes);
    let next = lemma_parse_tree(bytes, t, st);
    assert(pieces(bytes, st.out) =~= Seq::<Op<Seq<u8>>>::empty());
    assert(step(bytes, str_mode(), next) is Stop);
    let found = drain(next.stack, next.out);
    match t {
        Tree::Not(_) => {
            assert(next.stack =~= seq![Token::Not]);
            assert(next.stack.drop_last() =~= Seq::<Token>::empty());
            reveal_with_fuel(drain, 2);
            assert(found == Some(next.out.push(Op::Not)));
            lemma_pieces_push(bytes, next.out, Op::Not);
        },
        _ => {
            assert(next.stack =~= Seq::<Token>::empty());
            assert(found == Some(next.out));
        },
    }
    let all = found->0;
    assert(pieces(bytes, all) =~= ops);
    lemma_pieces_depth(bytes, all);
}

proof fn lemma_flush_clean(bytes: Seq<u8>, stack: Seq<Token>, out: Seq<Op<(int, int)>>, prec: int)
    requires
        clean(pieces(bytes, out)),
    ensures
        clean(pieces(bytes, flush(stack, out, prec).1)),
    decreases stack.len(),
{
    if stack.len() > 0 && stack.last() != Token::LParen && prec_of(stack.last()) >= prec {
        lemma_push_clean(bytes, out, op_of(stack.last()));
        lemma_flush_clean(bytes, stack.drop_last(), out.push(op_of(stack.last())), prec);
    }
}

proof fn lemma_close_clean(bytes: Seq<u8>, stack: Seq<Token>, out: Seq<Op<(int, int)>>)
    requires
        clean(pieces(bytes, out)),
    ensures
        close_paren(stack, out) matches Some(r) ==> clean(pieces(bytes, r.1)),
    decreases stack.len(),
{
    if stack.len() > 0 && stack.last() != Token::LParen {
        lemma_push_clean(bytes, out, op_of(stack.last()));
        lemma_close_clean(bytes, stack.drop_last(), out.push(op_of(stack.last())));
    }
}

proof fn lemma_drain_clean(bytes: Seq<u8>, stack: Seq<Token>, out: Seq<Op<(int, int)>>)
    requires
        clean(pieces(bytes, out)),
    ensures
        drain(stack, out) matches Some(r) ==> clean(pieces(bytes, r)),
    decreases stack.len(),
{
    if stack.len() > 0 && stack.last() != Token::LParen {
        lemma_push_clean(bytes, out, op_of(stack.last()));
        lemma_drain_clean(bytes, stack.drop_last(), out.push(op_of(stack.last())));
    }
}

/// An output of clean names stays one when an operator, or a clean name, is
/// put behind it.
proof fn lemma_push_clean(bytes: Seq<u8>, out: Seq<Op<(int, int)>>, op: Op<(int, int)>)
    requires
        clean(pieces(bytes, out)),
        op matches Op::Var(at) ==> clean_name(piece(bytes, at)),
    ensures
        clean(pieces(bytes, out.push(op))),
{
    let before = pieces(bytes, out);
    let after = pieces(bytes, out.push(op));
    assert forall|i: int| 0 <= i < after.len() implies (#[trigger] after[i] matches Op::Var(n)
        ==> clean_name(n)) by {
        if i < out.len() {
            assert(after[i] == before[i]);
        }
    }
}

/// Every name that the parser reads is clean, however it reads.
pub proof fn lemma_run_clean(bytes: Seq<u8>, mode: Mode, st: ParseState)
    requires
        0 <= st.pos,
        clean(pieces(bytes, st.out)),
    ensures
        run(bytes, mode, st) matches Parsed::Done { ops, stop } ==> clean(pieces(bytes, ops)),
    decreases bytes.len() - st.pos,
{
    match step(bytes, mode, st) {
        Step::Go(next) => {
            if st.pos < next.pos <= bytes.len() {
                let p = st.pos;
                let c = bytes[p];
                lemma_flush_clean(bytes, st.stack, st.out, 0);
                lemma_flush_clean(bytes, st.stack, st.out, 1);
                lemma_close_clean(bytes, st.stack, st.out);
                let e = name_end(bytes, p + 1, mode.comment);
                lemma_name_end_bounds(bytes, p + 1, mode.comment);
                if next.out == st.out.push(Op::Var((p, e))) && !is_break(c, Seq::empty()) {
                    let name = piece(bytes, (p, e));
                    assert forall|k: int| 0 <= k < name.len() implies !is_break(
                        #[trigger] name[k],
                        Seq::empty(),
                    ) by {
                        assert(name[k] == bytes[p + k]);
                        if k > 0 {
                            assert(!is_break(bytes[p + k], mode.comment));
                        }
                    }
                    lemma_push_clean(bytes, st.out, Op::Var((p, e)));
                }
                assert(clean(pieces(bytes, next.out)));
                lemma_run_clean(bytes, mode, next);
            }
        },
        Step::Stop => {
            lemma_drain_clean(bytes, st.stack, st.out);
        },
        Step::Fail(_, _, _) => {},
    }
}

/// What `Exp::from_str` returns is a valid expression whose names are clean.
pub proof fn lemma_parsed_clean(bytes: Seq<u8>)
    ensures
        parse_str(bytes) matches Ok(ops) ==> rpn_valid(ops) && clean(ops),
{
    let st = start_state(0);
    assert(pieces(bytes, st.out) =~= Seq::<Op<Seq<u8>>>::empty());
    lemma_run_clean(bytes, str_mode(), st);
    match parse_at(bytes, str_mode(), 0) {
        Parsed::Done { ops, stop } => {
            lemma_pieces_depth(bytes, ops);
        },
        _ => {},
    }
}

/// An expression that was parsed, written out and parsed again, is the same
/// expression, and so has the same value whatever symbols are defined.
pub proof fn lemma_round_trip(bytes: Seq<u8>, vars: Set<Seq<u8>>)
    ensures
        parse_str(bytes) matches Ok(ops) ==> parse_str(infix(ops)) == Ok::<
            Seq<Op<Seq<u8>>>,
            (ErrorKind, int, int),
        >(ops) && rpn_value(parse_str(infix(ops))->Ok_0, vars) == rpn_value(ops, vars),
{
    lemma_parsed_clean(bytes);
    match parse_str(bytes) {
        Ok(ops) => {
            lemma_parse_infix(ops);
        },
        _ => {},
    }
}

} // verus!
