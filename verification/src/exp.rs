//! Boolean expressions in reverse Polish notation.

use vstd::prelude::*;
use vstd::string::*;
use vstd::utf8::*;
use crate::parser::{
    cuts, lemma_run_cuts, op_cut, ops_ok, parse_at, parse_ops, start_state, Mode, Parsed,
};
use crate::span::{piece, Span};
use crate::symbols::SymbolSet;
use crate::text::substr;

verus! {

/// An operand or an operator of an expression. `T` is what names the operand:
/// a piece of text, or the place of that text in a source.
#[derive(Debug, PartialEq, Eq, Clone, Copy)]
pub enum Op<T> {
    Var(T),
    And,
    Or,
    Not,
}

/// How many values the evaluation stack holds after `ops` ran on an empty
/// stack, or `None` if an operator found too few values on it.
pub open spec fn rpn_depth<T>(ops: Seq<Op<T>>) -> Option<nat>
    decreases ops.len(),
{
    if ops.len() == 0 {
        Some(0)
    } else {
        match rpn_depth(ops.drop_last()) {
            None => None,
            Some(d) => match ops.last() {
                Op::Var(_) => Some(d + 1),
                Op::And | Op::Or => if d >= 2 {
                    Some((d - 1) as nat)
                } else {
                    None
                },
                Op::Not => if d >= 1 {
                    Some(d)
                } else {
                    None
                },
            },
        }
    }
}

/// An expression is valid when its evaluation never finds the stack short of
/// values and leaves exactly one.
pub open spec fn rpn_valid<T>(ops: Seq<Op<T>>) -> bool {
    rpn_depth(ops) == Some(1nat)
}

/// The evaluation stack after `ops` ran on an empty stack, with `vars` the
/// symbols that are defined. Meaningful where `rpn_depth(ops)` is not `None`.
pub open spec fn rpn_stack(ops: Seq<Op<Seq<u8>>>, vars: Set<Seq<u8>>) -> Seq<bool>
    decreases ops.len(),
{
    if ops.len() == 0 {
        Seq::empty()
    } else {
        let s = rpn_stack(ops.drop_last(), vars);
        match ops.last() {
            Op::Var(name) => s.push(vars.contains(name)),
            Op::And => s.drop_last().drop_last().push(s[s.len() - 2] && s[s.len() - 1]),
            Op::Or => s.drop_last().drop_last().push(s[s.len() - 2] || s[s.len() - 1]),
            Op::Not => s.drop_last().push(!s[s.len() - 1]),
        }
    }
}

/// The value of a valid expression.
pub open spec fn rpn_value(ops: Seq<Op<Seq<u8>>>, vars: Set<Seq<u8>>) -> bool
    recommends
        rpn_valid(ops),
{
    rpn_stack(ops, vars)[0]
}

/// The operator alone, without the name of its operand.
pub open spec fn kind_of<T>(op: Op<T>) -> Op<()> {
    match op {
        Op::Var(_) => Op::Var(()),
        Op::And => Op::And,
        Op::Or => Op::Or,
        Op::Not => Op::Not,
    }
}

/// The operators of `ops` without their names.
pub open spec fn kinds<T>(ops: Seq<Op<T>>) -> Seq<Op<()>> {
    Seq::new(ops.len(), |i: int| kind_of(ops[i]))
}

/// Whether an expression is valid does not depend on the names in it.
pub proof fn lemma_depth_by_kinds<T, U>(a: Seq<Op<T>>, b: Seq<Op<U>>)
    requires
        kinds(a) == kinds(b),
    ensures
        rpn_depth(a) == rpn_depth(b),
    decreases a.len(),
{
    assert(a.len() == kinds(a).len());
    assert(b.len() == kinds(b).len());
    if a.len() > 0 {
        assert(kinds(a.drop_last()) =~= kinds(a).drop_last());
        assert(kinds(b.drop_last()) =~= kinds(b).drop_last());
        lemma_depth_by_kinds(a.drop_last(), b.drop_last());
        assert(kind_of(a.last()) == kinds(a)[a.len() - 1]);
        assert(kind_of(b.last()) == kinds(b)[b.len() - 1]);
    }
}

/// The operator, with its operand named by the bytes of the name.
pub open spec fn op_text(op: Op<&str>) -> Op<Seq<u8>> {
    match op {
        Op::Var(s) => Op::Var(s.spec_bytes()),
        Op::And => Op::And,
        Op::Or => Op::Or,
        Op::Not => Op::Not,
    }
}

/// The operators of `ops`, each operand named by the bytes of its name.
pub open spec fn exp_text(ops: Seq<Op<&str>>) -> Seq<Op<Seq<u8>>> {
    Seq::new(ops.len(), |i: int| op_text(ops[i]))
}

/// The operator, with its operand named by the bytes that stand at its place.
pub open spec fn op_piece(bytes: Seq<u8>, op: Op<(int, int)>) -> Op<Seq<u8>> {
    match op {
        Op::Var(at) => Op::Var(piece(bytes, at)),
        Op::And => Op::And,
        Op::Or => Op::Or,
        Op::Not => Op::Not,
    }
}

/// The operators of `ops`, each operand named by the bytes at its place.
pub open spec fn pieces(bytes: Seq<u8>, ops: Seq<Op<(int, int)>>) -> Seq<Op<Seq<u8>>> {
    Seq::new(ops.len(), |i: int| op_piece(bytes, ops[i]))
}

/// What is wrong with an expression.
#[derive(Debug, PartialEq, Eq, Clone, Copy, Structural)]
pub enum ErrorKind {
    /// A `)` has no `(` before it.
    UnmatchedClose,
    /// A `(` is still open where the expression ends.
    UnmatchedOpen,
    /// A single `&` stands where `&&` was expected.
    ExpectedAnd,
    /// A single `|` stands where `||` was expected.
    ExpectedOr,
    /// Operands and operators do not alternate, or what they come to is not
    /// a valid expression.
    Malformed,
}

/// An error of the expression parser: what is wrong, and the place and the
/// length in bytes of what it is about.
#[derive(Debug, PartialEq, Eq, Clone, Copy, Structural)]
pub struct Error {
    pub offset: usize,
    pub len: usize,
    pub kind: ErrorKind,
}

/// An expression in reverse Polish notation.
#[derive(Debug, PartialEq, Eq)]
pub struct Exp<T> {
    pub ops: Vec<Op<T>>,
}

/// What evaluation needs: the defined symbols, and a scratch stack.
pub struct Ctx {
    pub vars: SymbolSet,
    pub stack: Vec<bool>,
}

impl Ctx {
    /// A context in which just `true` and `1` are defined.
    pub fn new() -> (ctx: Ctx)
        ensures
            ctx.vars@ == sentinels(),
    {
        let mut vars = SymbolSet::new();
        vars.insert("true");
        vars.insert("1");
        proof {
            assert(vars@ =~= sentinels());
        }
        Ctx { vars, stack: Vec::with_capacity(8) }
    }

    /// Forgets every symbol but `true` and `1`.
    pub fn clear(&mut self)
        ensures
            final(self).vars@ == sentinels(),
    {
        self.vars.clear();
        self.vars.insert("true");
        self.vars.insert("1");
        proof {
            assert(self.vars@ =~= sentinels());
        }
    }
}

/// The two symbols that are always defined: `true` and `1`.
pub open spec fn sentinels() -> Set<Seq<u8>> {
    Set::<Seq<u8>>::empty().insert("true".spec_bytes()).insert("1".spec_bytes())
}

impl<T> Exp<T> {
    /// The operators, in order.
    pub open spec fn view(&self) -> Seq<Op<T>> {
        self.ops@
    }

    /// Whether the expression holds no operator at all.
    pub fn is_empty(&self) -> (b: bool)
        ensures
            b == (self@.len() == 0),
    {
        self.ops.len() == 0
    }

    /// Whether the expression is valid: its evaluation never finds the stack
    /// short of values, and leaves exactly one.
    pub fn is_valid(&self) -> (b: bool)
        ensures
            b == rpn_valid(self@),
    {
        let mut depth: usize = 0;
        let mut i: usize = 0;
        while i < self.ops.len()
            invariant
                0 <= i <= self.ops@.len(),
                depth <= i,
                rpn_depth(self.ops@.take(i as int)) == Some(depth as nat),
            decreases self.ops@.len() - i,
        {
            proof {
                assert(self.ops@.take(i + 1).drop_last() =~= self.ops@.take(i as int));
            }
            match &self.ops[i] {
                Op::Var(_) => {
                    depth = depth + 1;
                },
                Op::And | Op::Or => {
                    if depth < 2 {
                        proof {
                            lemma_depth_none_extends(self.ops@, i + 1);
                        }
                        return false;
                    }
                    depth = depth - 1;
                },
                Op::Not => {
                    if depth < 1 {
                        proof {
                            lemma_depth_none_extends(self.ops@, i + 1);
                        }
                        return false;
                    }
                },
            }
            i = i + 1;
        }
        proof {
            assert(self.ops@.take(i as int) =~= self.ops@);
        }
        depth == 1
    }
}

/// Once a prefix of an expression has run the stack short, so has the whole.
pub proof fn lemma_depth_none_extends<T>(ops: Seq<Op<T>>, n: int)
    requires
        0 <= n <= ops.len(),
        rpn_depth(ops.take(n)) is None,
    ensures
        rpn_depth(ops) is None,
    decreases ops.len() - n,
{
    if n == ops.len() {
        assert(ops.take(n) =~= ops);
    } else {
        assert(ops.take(n + 1).drop_last() =~= ops.take(n));
        lemma_depth_none_extends(ops, n + 1);
    }
}

/// Naming the operands by their places leaves the depth of the stack as it is.
pub proof fn lemma_cuts_depth(v: Seq<Op<Span>>)
    ensures
        rpn_depth(cuts(v)) == rpn_depth(v),
{
    assert(kinds(cuts(v)) =~= kinds(v));
    lemma_depth_by_kinds(cuts(v), v);
}

/// Naming the operands by their bytes leaves the depth of the stack as it is.
pub proof fn lemma_pieces_depth(bytes: Seq<u8>, ops: Seq<Op<(int, int)>>)
    ensures
        rpn_depth(pieces(bytes, ops)) == rpn_depth(ops),
{
    assert(kinds(pieces(bytes, ops)) =~= kinds(ops));
    lemma_depth_by_kinds(pieces(bytes, ops), ops);
}

/// Naming the operands by their bytes leaves the depth of the stack as it is.
pub proof fn lemma_text_depth(ops: Seq<Op<&str>>)
    ensures
        rpn_depth(exp_text(ops)) == rpn_depth(ops),
{
    assert(kinds(exp_text(ops)) =~= kinds(ops));
    lemma_depth_by_kinds(exp_text(ops), ops);
}

/// How `Exp::from_str` reads: operands and operators must alternate, a
/// newline is blank space, and no comment is looked for.
pub open spec fn str_mode() -> Mode {
    Mode { line: false, strict: true, comment: Seq::empty() }
}

/// What `Exp::from_str` makes of the bytes of its argument: the operators of
/// the expression, or the kind, the place and the length of the error.
///
/// The expression is read in strict mode, a newline counts as blank space and
/// no comment is looked for; what comes out must be a valid expression.
pub open spec fn parse_str(bytes: Seq<u8>) -> Result<Seq<Op<Seq<u8>>>, (ErrorKind, int, int)> {
    match parse_at(bytes, str_mode(), 0) {
        Parsed::Done { ops, stop } => if rpn_valid(ops) {
            Ok(pieces(bytes, ops))
        } else {
            Err((ErrorKind::Malformed, 0, bytes.len() as int))
        },
        Parsed::Failed { kind, offset, len } => Err((kind, offset, len)),
    }
}

/// Turns the places of names into the names themselves.
pub fn resolve<'a>(s: &'a str, ops: &Vec<Op<Span>>) -> (r: Vec<Op<&'a str>>)
    requires
        ops_ok(s.spec_bytes(), cuts(ops@)),
    ensures
        exp_text(r@) == pieces(s.spec_bytes(), cuts(ops@)),
        kinds(r@) == kinds(ops@),
{
    let mut r: Vec<Op<&'a str>> = Vec::with_capacity(ops.len());
    let mut i: usize = 0;
    while i < ops.len()
        invariant
            0 <= i <= ops@.len(),
            r@.len() == i,
            ops_ok(s.spec_bytes(), cuts(ops@)),
            forall|k: int|
                0 <= k < i ==> #[trigger] op_text(r@[k]) == op_piece(
                    s.spec_bytes(),
                    op_cut(ops@[k]),
                ),
            forall|k: int| 0 <= k < i ==> #[trigger] kind_of(r@[k]) == kind_of(ops@[k]),
        decreases ops@.len() - i,
    {
        let op = match &ops[i] {
            Op::Var(at) => {
                proof {
                    assert(cuts(ops@)[i as int] == op_cut(ops@[i as int]));
                }
                Op::Var(substr(s, *at))
            },
            Op::And => Op::And,
            Op::Or => Op::Or,
            Op::Not => Op::Not,
        };
        r.push(op);
        i = i + 1;
    }
    proof {
        assert(exp_text(r@) =~= pieces(s.spec_bytes(), cuts(ops@)));
        assert(kinds(r@) =~= kinds(ops@));
    }
    r
}

impl<'a> Exp<&'a str> {
    /// The operators, each operand named by the bytes of its name.
    pub open spec fn text(&self) -> Seq<Op<Seq<u8>>> {
        exp_text(self.ops@)
    }

    /// Parses an expression: names, `!`, `&&`, `||` and parentheses. `&&` and
    /// `||` bind alike and group from the left; `!` binds tighter and may
    /// stand before or behind its operand.
    pub fn from_str(exp: &'a str) -> (r: Result<Exp<&'a str>, Error>)
        ensures
            match parse_str(exp.spec_bytes()) {
                Ok(ops) => r matches Ok(e) && e.text() == ops && rpn_valid(e@),
                Err((kind, offset, len)) => r matches Err(e) && e.kind == kind && e.offset
                    == offset && e.len == len,
            },
    {
        let data = exp.as_bytes();
        let none: Vec<u8> = Vec::new();
        let ghost mode = Mode { line: false, strict: true, comment: Seq::<u8>::empty() };
        match parse_ops(data, 0, false, true, none.as_slice()) {
            Ok((spans, _)) => {
                let found = Exp { ops: spans };
                if !found.is_valid() {
                    proof {
                        lemma_cuts_depth(found.ops@);
                    }
                    return Err(Error { offset: 0, len: data.len(), kind: ErrorKind::Malformed });
                }
                proof {
                    lemma_run_cuts(data@, mode, start_state(0));
                    lemma_cuts_depth(found.ops@);
                }
                let ops = resolve(exp, &found.ops);
                proof {
                    lemma_depth_by_kinds(ops@, found.ops@);
                }
                Ok(Exp { ops })
            },
            Err(e) => Err(e),
        }
    }

    /// The value of the expression where the symbols of `ctx` are defined.
    pub fn eval(&self, ctx: &mut Ctx) -> (b: bool)
        requires
            rpn_valid(self@),
        ensures
            b == rpn_value(self.text(), old(ctx).vars@),
            final(ctx).vars@ == old(ctx).vars@,
    {
        let ghost vars = ctx.vars@;
        let ghost text = self.text();
        ctx.stack.clear();
        let mut i: usize = 0;
        proof {
            assert(text.take(0) =~= Seq::empty());
            assert(self.ops@.take(0) =~= Seq::empty());
        }
        while i < self.ops.len()
            invariant
                0 <= i <= self.ops@.len(),
                rpn_valid(self.ops@),
                text == exp_text(self.ops@),
                ctx.vars@ == vars,
                rpn_depth(self.ops@.take(i as int)) == Some(ctx.stack@.len()),
                ctx.stack@ == rpn_stack(text.take(i as int), vars),
            decreases self.ops@.len() - i,
        {
            proof {
                assert(self.ops@.take(i + 1).drop_last() =~= self.ops@.take(i as int));
                assert(text.take(i + 1).drop_last() =~= text.take(i as int));
                assert(text.take(i + 1).last() == op_text(self.ops@[i as int]));
                if rpn_depth(self.ops@.take(i + 1)) is None {
                    lemma_depth_none_extends(self.ops@, i + 1);
                }
            }
            match &self.ops[i] {
                Op::Var(name) => {
                    let v = ctx.vars.contains(name);
                    ctx.stack.push(v);
                },
                Op::And => {
                    let b = ctx.stack.pop().unwrap();
                    let a = ctx.stack.pop().unwrap();
                    ctx.stack.push(a && b);
                },
                Op::Or => {
                    let b = ctx.stack.pop().unwrap();
                    let a = ctx.stack.pop().unwrap();
                    ctx.stack.push(a || b);
                },
                Op::Not => {
                    let a = ctx.stack.pop().unwrap();
                    ctx.stack.push(!a);
                },
            }
            i = i + 1;
        }
        proof {
            assert(self.ops@.take(i as int) =~= self.ops@);
            assert(text.take(i as int) =~= text);
        }
        ctx.stack[0]
    }
}

/// What is said of an error of the expression parser.
pub open spec fn error_text(kind: ErrorKind) -> Seq<char> {
    match kind {
        ErrorKind::UnmatchedClose => "unmatched `)`"@,
        ErrorKind::UnmatchedOpen => "unmatched `(`"@,
        ErrorKind::ExpectedAnd => "expecting `&&`"@,
        ErrorKind::ExpectedOr => "expecting `||`"@,
        ErrorKind::Malformed => "malformed expression"@,
    }
}

impl Error {
    /// What is wrong, in words.
    pub fn message(&self) -> (text: &'static str)
        ensures
            text@ == error_text(self.kind),
    {
        match self.kind {
            ErrorKind::UnmatchedClose => "unmatched `)`",
            ErrorKind::UnmatchedOpen => "unmatched `(`",
            ErrorKind::ExpectedAnd => "expecting `&&`",
            ErrorKind::ExpectedOr => "expecting `||`",
            ErrorKind::Malformed => "malformed expression",
        }
    }
}

impl<T> Default for Exp<T> {
    /// The expression without any operator.
    fn default() -> (e: Exp<T>)
        ensures
            e.ops@.len() == 0,
    {
        Exp { ops: Vec::new() }
    }
}

impl Default for Ctx {
    /// A context in which just `true` and `1` are defined.
    fn default() -> (ctx: Ctx)
        ensures
            ctx.vars@ == sentinels(),
    {
        Ctx::new()
    }
}

} // verus!
