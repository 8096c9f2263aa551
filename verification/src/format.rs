//! Expressions written out: fully parenthesized infix.

use vstd::prelude::*;
use vstd::string::*;
use vstd::utf8::*;
use crate::exp::{
    exp_text, lemma_depth_none_extends, lemma_text_depth, op_text, rpn_depth, rpn_valid, Exp, Op,
};
use crate::line::{line_text, Line, Row};
use crate::parser::{AMP, BANG, BAR, LPAREN, RPAREN, SPACE};
use crate::stack::Stack;

verus! {

/// `a` and `b` joined by `&&`: `(a && b)`.
pub open spec fn infix_and(a: Seq<u8>, b: Seq<u8>) -> Seq<u8> {
    seq![LPAREN] + a + seq![SPACE, AMP, AMP, SPACE] + b + seq![RPAREN]
}

/// `a` and `b` joined by `||`: `(a || b)`.
pub open spec fn infix_or(a: Seq<u8>, b: Seq<u8>) -> Seq<u8> {
    seq![LPAREN] + a + seq![SPACE, BAR, BAR, SPACE] + b + seq![RPAREN]
}

/// `a` negated: `!(a)`.
pub open spec fn infix_not(a: Seq<u8>) -> Seq<u8> {
    seq![BANG, LPAREN] + a + seq![RPAREN]
}

/// The stack of texts after `ops` ran on an empty stack: a name puts itself
/// on it, an operator replaces its operands by their text joined.
pub open spec fn infix_stack(ops: Seq<Op<Seq<u8>>>) -> Seq<Seq<u8>>
    decreases ops.len(),
{
    if ops.len() == 0 {
        Seq::empty()
    } else {
        let s = infix_stack(ops.drop_last());
        match ops.last() {
            Op::Var(name) => s.push(name),
            Op::And => s.drop_last().drop_last().push(infix_and(s[s.len() - 2], s[s.len() - 1])),
            Op::Or => s.drop_last().drop_last().push(infix_or(s[s.len() - 2], s[s.len() - 1])),
            Op::Not => s.drop_last().push(infix_not(s[s.len() - 1])),
        }
    }
}

/// A valid expression written out.
pub open spec fn infix(ops: Seq<Op<Seq<u8>>>) -> Seq<u8>
    recommends
        rpn_valid(ops),
{
    infix_stack(ops)[0]
}

/// The bytes of two texts joined are the bytes of the one and of the other.
pub proof fn lemma_encode_concat(a: Seq<char>, b: Seq<char>)
    ensures
        encode_utf8(a + b) == encode_utf8(a) + encode_utf8(b),
    decreases a.len(),
{
    if a.len() == 0 {
        assert(a + b =~= b);
        assert(encode_utf8(a) + encode_utf8(b) =~= encode_utf8(b));
    } else {
        assert((a + b).drop_first() =~= a.drop_first() + b);
        lemma_encode_concat(a.drop_first(), b);
        assert(encode_utf8(a + b) =~= encode_utf8(a) + encode_utf8(b));
    }
}

fn join_binary(a: &str, b: &str, and: bool) -> (t: String)
    ensures
        and ==> encode_utf8(t@) == infix_and(a.spec_bytes(), b.spec_bytes()),
        !and ==> encode_utf8(t@) == infix_or(a.spec_bytes(), b.spec_bytes()),
{
    let mut t = String::new();
    let ghost open = "("@;
    let ghost mid = if and {
        " && "@
    } else {
        " || "@
    };
    let ghost close = ")"@;
    t.append("(");
    t.append(a);
    if and {
        t.append(" && ");
    } else {
        t.append(" || ");
    }
    t.append(b);
    t.append(")");
    proof {
        reveal_strlit("(");
        reveal_strlit(" && ");
        reveal_strlit(" || ");
        reveal_strlit(")");
        assert(t@ =~= open + a@ + mid + b@ + close);
        lemma_encode_concat(open + a@ + mid + b@, close);
        lemma_encode_concat(open + a@ + mid, b@);
        lemma_encode_concat(open + a@, mid);
        lemma_encode_concat(open, a@);
        is_ascii_chars_encode_utf8(open);
        is_ascii_chars_encode_utf8(mid);
        is_ascii_chars_encode_utf8(close);
        assert(encode_utf8(open) =~= seq![LPAREN]);
        assert(encode_utf8(close) =~= seq![RPAREN]);
        if and {
            assert(encode_utf8(mid) =~= seq![SPACE, AMP, AMP, SPACE]);
        } else {
            assert(encode_utf8(mid) =~= seq![SPACE, BAR, BAR, SPACE]);
        }
    }
    t
}

fn join_not(a: &str) -> (t: String)
    ensures
        encode_utf8(t@) == infix_not(a.spec_bytes()),
{
    let mut t = String::new();
    let ghost open = "!("@;
    let ghost close = ")"@;
    t.append("!(");
    t.append(a);
    t.append(")");
    proof {
        reveal_strlit("!(");
        reveal_strlit(")");
        assert(t@ =~= open + a@ + close);
        lemma_encode_concat(open + a@, close);
        lemma_encode_concat(open, a@);
        is_ascii_chars_encode_utf8(open);
        is_ascii_chars_encode_utf8(close);
        assert(encode_utf8(open) =~= seq![BANG, LPAREN]);
        assert(encode_utf8(close) =~= seq![RPAREN]);
    }
    t
}

/// The bytes of the texts that the numbers on the stack point to.
pub open spec fn stack_bytes(stack: Seq<usize>, texts: Seq<String>) -> Seq<Seq<u8>> {
    Seq::new(stack.len(), |i: int| encode_utf8(texts[stack[i] as int]@))
}

fn keep_text(texts: &mut Vec<String>, stack: &mut Stack, text: String)
    requires
        forall|k: int| 0 <= k < old(stack)@.len() ==> old(stack)@[k] < old(texts)@.len(),
    ensures
        forall|k: int| 0 <= k < final(stack)@.len() ==> final(stack)@[k] < final(texts)@.len(),
        final(stack)@.len() == old(stack)@.len() + 1,
        stack_bytes(final(stack)@, final(texts)@) == stack_bytes(old(stack)@, old(texts)@).push(
            encode_utf8(text@),
        ),
{
    let at = texts.len();
    texts.push(text);
    stack.push(at);
    assert(stack_bytes(stack@, texts@) =~= stack_bytes(old(stack)@, old(texts)@).push(
        encode_utf8(text@),
    ));
}

fn take_text(stack: &mut Stack, texts: &Vec<String>) -> (at: usize)
    requires
        old(stack)@.len() > 0,
        forall|k: int| 0 <= k < old(stack)@.len() ==> old(stack)@[k] < texts@.len(),
    ensures
        at < texts@.len(),
        final(stack)@ == old(stack)@.drop_last(),
        forall|k: int| 0 <= k < final(stack)@.len() ==> final(stack)@[k] < texts@.len(),
        encode_utf8(texts@[at as int]@) == stack_bytes(old(stack)@, texts@).last(),
        stack_bytes(final(stack)@, texts@) == stack_bytes(old(stack)@, texts@).drop_last(),
{
    let at = stack.pop().unwrap();
    assert(stack_bytes(stack@, texts@) =~= stack_bytes(old(stack)@, texts@).drop_last());
    at
}

impl<'a> Exp<&'a str> {
    /// The expression as fully parenthesized infix: a name as it is, `!(a)`,
    /// `(a && b)`, `(a || b)`; `None` if the expression is not valid.
    pub fn to_string(&self) -> (r: Option<String>)
        ensures
            r is Some == rpn_valid(self@),
            r matches Some(s) ==> encode_utf8(s@) == infix(self.text()),
    {
        if !self.is_valid() {
            return None;
        }
        let ghost text = self.text();
        let mut texts: Vec<String> = Vec::new();
        let mut stack = Stack::new();
        let mut i: usize = 0;
        proof {
            assert(text.take(0) =~= Seq::empty());
            assert(self.ops@.take(0) =~= Seq::empty());
            assert(stack_bytes(stack@, texts@) =~= infix_stack(text.take(0)));
        }
        while i < self.ops.len()
            invariant
                0 <= i <= self.ops@.len(),
                rpn_valid(self.ops@),
                text == exp_text(self.ops@),
                rpn_depth(self.ops@.take(i as int)) == Some(stack@.len()),
                forall|k: int| 0 <= k < stack@.len() ==> stack@[k] < texts@.len(),
                stack_bytes(stack@, texts@) == infix_stack(text.take(i as int)),
            decreases self.ops@.len() - i,
        {
            proof {
                assert(self.ops@.take(i + 1).drop_last() =~= self.ops@.take(i as int));
                assert(text.take(i + 1).drop_last() =~= text.take(i as int));
                assert(text.take(i + 1).last() == op_text(self.ops@[i as int]));
                if rpn_depth(self.ops@.take(i + 1)) is None {
                    lemma_depth_none_extends(self.ops@, i + 1);
                }
            }
            let ghost before = stack_bytes(stack@, texts@);
            match &self.ops[i] {
                Op::Var(name) => {
                    keep_text(&mut texts, &mut stack, (*name).to_owned());
                },
                Op::And => {
                    let b = take_text(&mut stack, &texts);
                    let a = take_text(&mut stack, &texts);
                    let joined = join_binary(texts[a].as_str(), texts[b].as_str(), true);
                    keep_text(&mut texts, &mut stack, joined);
                },
                Op::Or => {
                    let b = take_text(&mut stack, &texts);
                    let a = take_text(&mut stack, &texts);
                    let joined = join_binary(texts[a].as_str(), texts[b].as_str(), false);
                    keep_text(&mut texts, &mut stack, joined);
                },
                Op::Not => {
                    let a = take_text(&mut stack, &texts);
                    let joined = join_not(texts[a].as_str());
                    keep_text(&mut texts, &mut stack, joined);
                },
            }
            proof {
                assert(stack_bytes(stack@, texts@) =~= infix_stack(text.take(i + 1)));
            }
            i = i + 1;
        }
        proof {
            assert(self.ops@.take(i as int) =~= self.ops@);
            assert(text.take(i as int) =~= text);
        }
        let at = take_text(&mut stack, &texts);
        Some(texts[at].clone())
    }
}

/// `#include "`.
pub open spec fn include_lead() -> Seq<u8> {
    seq![0x23u8, 0x69u8, 0x6eu8, 0x63u8, 0x6cu8, 0x75u8, 0x64u8, 0x65u8, 0x20u8, 0x22u8]
}

/// `#define `.
pub open spec fn define_lead() -> Seq<u8> {
    seq![0x23u8, 0x64u8, 0x65u8, 0x66u8, 0x69u8, 0x6eu8, 0x65u8, 0x20u8]
}

/// `#undef `.
pub open spec fn undef_lead() -> Seq<u8> {
    seq![0x23u8, 0x75u8, 0x6eu8, 0x64u8, 0x65u8, 0x66u8, 0x20u8]
}

/// `#if `.
pub open spec fn if_lead() -> Seq<u8> {
    seq![0x23u8, 0x69u8, 0x66u8, 0x20u8]
}

/// `#elif `.
pub open spec fn elif_lead() -> Seq<u8> {
    seq![0x23u8, 0x65u8, 0x6cu8, 0x69u8, 0x66u8, 0x20u8]
}

/// `#else`.
pub open spec fn else_word() -> Seq<u8> {
    seq![0x23u8, 0x65u8, 0x6cu8, 0x73u8, 0x65u8]
}

/// `#endif`.
pub open spec fn endif_word() -> Seq<u8> {
    seq![0x23u8, 0x65u8, 0x6eu8, 0x64u8, 0x69u8, 0x66u8]
}

/// A line written out with the directive character `#` and the delimiter
/// `"`: code as it is, a directive by its name and its argument, a condition
/// as fully parenthesized infix.
pub open spec fn row_written(row: Row<Seq<u8>>) -> Seq<u8>
    recommends
        row matches Row::If(e) ==> rpn_valid(e),
        row matches Row::Elif(e) ==> rpn_valid(e),
{
    match row {
        Row::Code(t) => t,
        Row::Rem(t) => t,
        Row::Inc(p) => include_lead() + p + seq![0x22u8],
        Row::Def(n) => define_lead() + n,
        Row::Undef(n) => undef_lead() + n,
        Row::If(e) => if_lead() + infix(e),
        Row::Elif(e) => elif_lead() + infix(e),
        Row::Else => else_word(),
        Row::Endif => endif_word(),
    }
}

/// Whether a line can be written out: its condition, if it has one, is valid.
pub open spec fn row_writable(row: Row<Seq<u8>>) -> bool {
    match row {
        Row::If(e) => rpn_valid(e),
        Row::Elif(e) => rpn_valid(e),
        _ => true,
    }
}

fn lead_and(lead: &str, rest: &str) -> (t: String)
    ensures
        t@ == lead@ + rest@,
        encode_utf8(t@) == encode_utf8(lead@) + rest.spec_bytes(),
{
    let mut t = String::new();
    t.append(lead);
    t.append(rest);
    proof {
        assert(t@ =~= lead@ + rest@);
        lemma_encode_concat(lead@, rest@);
    }
    t
}

impl<'a> Line<&'a str> {
    /// The line written out; `None` if its condition is not valid.
    pub fn to_string(&self) -> (r: Option<String>)
        ensures
            r is Some == row_writable(line_text(*self)),
            r matches Some(s) ==> encode_utf8(s@) == row_written(line_text(*self)),
    {
        match self {
            Line::Code(text) | Line::Rem(text) => Some((*text).to_owned()),
            Line::Inc(path) => {
                let mut t = lead_and("#include \"", path);
                let ghost before = t@;
                t.append("\"");
                proof {
                    reveal_strlit("#include \"");
                    reveal_strlit("\"");
                    is_ascii_chars_encode_utf8("#include \""@);
                    is_ascii_chars_encode_utf8("\""@);
                    lemma_encode_concat(before, "\""@);
                    assert(encode_utf8("#include \""@) =~= include_lead());
                    assert(encode_utf8("\""@) =~= seq![0x22u8]);
                }
                Some(t)
            },
            Line::Def(name) => {
                let t = lead_and("#define ", name);
                proof {
                    reveal_strlit("#define ");
                    is_ascii_chars_encode_utf8("#define "@);
                    assert(encode_utf8("#define "@) =~= define_lead());
                }
                Some(t)
            },
            Line::Undef(name) => {
                let t = lead_and("#undef ", name);
                proof {
                    reveal_strlit("#undef ");
                    is_ascii_chars_encode_utf8("#undef "@);
                    assert(encode_utf8("#undef "@) =~= undef_lead());
                }
                Some(t)
            },
            Line::If(exp) => {
                proof {
                    lemma_text_depth(exp.ops@);
                }
                match exp.to_string() {
                    Some(e) => {
                        let t = lead_and("#if ", e.as_str());
                        proof {
                            reveal_strlit("#if ");
                            is_ascii_chars_encode_utf8("#if "@);
                            assert(encode_utf8("#if "@) =~= if_lead());
                        }
                        Some(t)
                    },
                    None => None,
                }
            },
            Line::Elif(exp) => {
                proof {
                    lemma_text_depth(exp.ops@);
                }
                match exp.to_string() {
                    Some(e) => {
                        let t = lead_and("#elif ", e.as_str());
                        proof {
                            reveal_strlit("#elif ");
                            is_ascii_chars_encode_utf8("#elif "@);
                            assert(encode_utf8("#elif "@) =~= elif_lead());
                        }
                        Some(t)
                    },
                    None => None,
                }
            },
            Line::Else => {
                let t = "#else".to_owned();
                proof {
                    reveal_strlit("#else");
                    is_ascii_chars_encode_utf8("#else"@);
                    assert(encode_utf8("#else"@) =~= else_word());
                }
                Some(t)
            },
            Line::Endif => {
                let t = "#endif".to_owned();
                proof {
                    reveal_strlit("#endif");
                    is_ascii_chars_encode_utf8("#endif"@);
                    assert(encode_utf8("#endif"@) =~= endif_word());
                }
                Some(t)
            },
        }
    }
}

} // verus!
