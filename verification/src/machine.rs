//! The conditional state machine: what each line does to what is emitted.

use vstd::prelude::*;
use vstd::string::*;
use vstd::utf8::*;
use crate::exp::{lemma_text_depth, rpn_valid, rpn_value, sentinels, Ctx};
use crate::line::{line_text, Line, Row};
use crate::symbols::SymbolSet;

verus! {

/// Where a conditional block stands.
#[derive(Debug, PartialEq, Eq, Clone, Copy, Structural)]
pub struct Cond {
    /// Whether lines are emitted.
    pub value: bool,
    /// Whether the block has seen its `else`.
    pub flipped: bool,
    /// Whether a branch of the block has been taken.
    pub taken: bool,
}

/// What can be wrong while a file is processed.
#[derive(Debug, PartialEq, Eq, Clone, Copy, Structural)]
pub enum Flaw {
    /// A file is not there.
    NotFound,
    /// A file is there and cannot be scanned.
    Unscannable,
    /// An `elif` outside any conditional block.
    StrayElif,
    /// An `elif` behind the `else` of its block.
    ElifAfterElse,
    /// An `else` outside any conditional block.
    StrayElse,
    /// A second `else` in one block.
    ElseAfterElse,
    /// An `endif` outside any conditional block.
    StrayEndif,
    /// A file ends with other blocks open than it started with.
    Unterminated,
    /// A condition that has to be evaluated is not a valid expression.
    BadExpression,
    /// A file includes itself, directly or through others.
    Cycle,
    /// Includes are nested deeper than `MAX_INCLUDE_DEPTH`.
    TooDeep,
}

/// The state of processing.
pub struct Machine {
    /// The symbols that are defined.
    pub vars: Set<Seq<u8>>,
    /// The innermost conditional block.
    pub cond: Cond,
    /// The blocks around it, the outermost first.
    pub stack: Seq<Cond>,
    /// The lines emitted so far.
    pub out: Seq<Seq<u8>>,
    /// How many of the blocks were open where the file that is walked was
    /// entered: these belong to the files that include it.
    pub base: nat,
    /// The paths of the files that are being walked: the one that is walked
    /// and those that include it.
    pub inside: Set<Seq<u8>>,
}

/// What a line asks for.
pub enum Walk {
    /// Go on in this state.
    Go(Machine),
    /// Process the file of this path, then go on.
    Enter(Seq<u8>),
    /// Stop: the line is in error.
    Halt(Flaw),
}

/// The state in which a conditional block starts whose condition is `v`.
pub open spec fn opened(v: bool) -> Cond {
    Cond { value: v, flipped: false, taken: v }
}

/// Whether a block is open that the file that is walked has opened itself.
pub open spec fn in_own_block(m: Machine) -> bool {
    m.stack.len() > m.base
}

/// What a line does.
///
/// Code, and what is left of a directive's line, is emitted where the
/// innermost block is enabled. A definition takes effect wherever it stands.
/// `if` opens a block that is enabled by its own condition alone; of the
/// branches of a block only the first whose condition holds is enabled, and
/// `else` stands for a condition that always holds. `elif`, `else` and
/// `endif` belong to a block that the file itself has opened: a block of a
/// file that includes it is out of their reach.
pub open spec fn step_row(row: Row<Seq<u8>>, m: Machine) -> Walk {
    match row {
        Row::Code(t) | Row::Rem(t) => Walk::Go(
            if m.cond.value {
                Machine { out: m.out.push(t), ..m }
            } else {
                m
            },
        ),
        Row::Inc(p) => Walk::Enter(p),
        Row::Def(n) => Walk::Go(Machine { vars: m.vars.insert(n), ..m }),
        Row::Undef(n) => Walk::Go(Machine { vars: m.vars.remove(n), ..m }),
        Row::If(e) => if !rpn_valid(e) {
            Walk::Halt(Flaw::BadExpression)
        } else {
            Walk::Go(
                Machine { stack: m.stack.push(m.cond), cond: opened(rpn_value(e, m.vars)), ..m },
            )
        },
        Row::Elif(e) => if !in_own_block(m) {
            Walk::Halt(Flaw::StrayElif)
        } else if m.cond.flipped {
            Walk::Halt(Flaw::ElifAfterElse)
        } else if m.cond.taken {
            Walk::Go(Machine { cond: Cond { value: false, ..m.cond }, ..m })
        } else if !rpn_valid(e) {
            Walk::Halt(Flaw::BadExpression)
        } else {
            Walk::Go(Machine { cond: opened(rpn_value(e, m.vars)), ..m })
        },
        Row::Else => if !in_own_block(m) {
            Walk::Halt(Flaw::StrayElse)
        } else if m.cond.flipped {
            Walk::Halt(Flaw::ElseAfterElse)
        } else {
            Walk::Go(Machine { cond: Cond { value: !m.cond.taken, flipped: true, taken: true }, ..m })
        },
        Row::Endif => if !in_own_block(m) {
            Walk::Halt(Flaw::StrayEndif)
        } else {
            Walk::Go(Machine { cond: m.stack.last(), stack: m.stack.drop_last(), ..m })
        },
    }
}

/// The state in which processing starts: `true`, `1` and the symbols of the
/// user are defined, lines are emitted, no block is open, and no file is
/// being walked.
pub open spec fn start_machine(defines: Set<Seq<u8>>) -> Machine {
    Machine {
        vars: sentinels().union(defines),
        cond: Cond { value: true, flipped: true, taken: true },
        stack: Seq::empty(),
        out: Seq::empty(),
        base: 0,
        inside: Set::empty(),
    }
}

/// The bytes of each line.
pub open spec fn lines_bytes(out: Seq<String>) -> Seq<Seq<u8>> {
    Seq::new(out.len(), |i: int| encode_utf8(out[i]@))
}

/// The state of processing, as it is kept while a file is walked.
pub struct Runner {
    /// The symbols that are defined, and the scratch stack of evaluation.
    pub ctx: Ctx,
    /// The innermost conditional block.
    pub state: Cond,
    /// The blocks around it, the outermost first.
    pub stack: Vec<Cond>,
    /// How many of the blocks were open where the file that is walked was
    /// entered.
    pub base: usize,
    /// The paths of the files that are being walked.
    pub inside: SymbolSet,
}

/// What a line asks of the one who walks the file.
pub enum Action<'a> {
    /// Nothing: go on with the next line.
    Next,
    /// Process the file of this path, then go on.
    Include(&'a str),
    /// Stop: the line is in error.
    Stop(Flaw),
}

impl Runner {
    /// The state of processing, with `out` the lines emitted so far.
    pub open spec fn machine(&self, out: Seq<String>) -> Machine {
        Machine {
            vars: self.ctx.vars@,
            cond: self.state,
            stack: self.stack@,
            out: lines_bytes(out),
            base: self.base as nat,
            inside: self.inside@,
        }
    }

    /// The state in which processing starts, with the symbols of `ctx`.
    pub fn new(ctx: Ctx) -> (run: Runner)
        ensures
            run.ctx == ctx,
            run.state == (Cond { value: true, flipped: true, taken: true }),
            run.stack@ == Seq::<Cond>::empty(),
            run.base == 0,
            run.inside@ == Set::<Seq<u8>>::empty(),
    {
        Runner {
            ctx,
            state: Cond { value: true, flipped: true, taken: true },
            stack: Vec::with_capacity(4),
            base: 0,
            inside: SymbolSet::new(),
        }
    }

    /// Does what `line` asks for, as far as it concerns the state and the
    /// lines emitted, and tells what is left to do.
    pub fn step<'a>(&mut self, line: &Line<&'a str>, out: &mut Vec<String>) -> (action: Action<'a>)
        ensures
            match step_row(line_text(*line), old(self).machine(old(out)@)) {
                Walk::Go(m) => action is Next && final(self).machine(final(out)@) == m,
                Walk::Enter(p) => action matches Action::Include(s) && s.spec_bytes() == p
                    && final(self).machine(final(out)@) == old(self).machine(old(out)@)
                    && final(out)@ == old(out)@,
                Walk::Halt(flaw) => action == Action::Stop(flaw) && final(self).machine(
                    final(out)@,
                ) == old(self).machine(old(out)@) && final(out)@ == old(out)@,
            },
            action matches Action::Stop(flaw) ==> flaw != Flaw::Unscannable,
            final(out)@.len() >= old(out)@.len(),
            final(out)@.len() <= old(out)@.len() + 1,
    {
        match line {
            Line::Code(text) | Line::Rem(text) => {
                if self.state.value {
                    out.push((*text).to_owned());
                    proof {
                        assert(lines_bytes(out@) =~= lines_bytes(old(out)@).push(text.spec_bytes()));
                    }
                }
                Action::Next
            },
            Line::Inc(path) => Action::Include(*path),
            Line::Def(name) => {
                self.ctx.vars.insert(*name);
                Action::Next
            },
            Line::Undef(name) => {
                self.ctx.vars.remove(*name);
                Action::Next
            },
            Line::If(exp) => {
                proof {
                    lemma_text_depth(exp.ops@);
                }
                if !exp.is_valid() {
                    return Action::Stop(Flaw::BadExpression);
                }
                let v = exp.eval(&mut self.ctx);
                self.stack.push(self.state);
                self.state = Cond { value: v, flipped: false, taken: v };
                Action::Next
            },
            Line::Elif(exp) => {
                if self.stack.len() <= self.base {
                    return Action::Stop(Flaw::StrayElif);
                }
                if self.state.flipped {
                    return Action::Stop(Flaw::ElifAfterElse);
                }
                if self.state.taken {
                    self.state.value = false;
                    return Action::Next;
                }
                proof {
                    lemma_text_depth(exp.ops@);
                }
                if !exp.is_valid() {
                    return Action::Stop(Flaw::BadExpression);
                }
                let v = exp.eval(&mut self.ctx);
                self.state = Cond { value: v, flipped: false, taken: v };
                Action::Next
            },
            Line::Else => {
                if self.stack.len() <= self.base {
                    return Action::Stop(Flaw::StrayElse);
                }
                if self.state.flipped {
                    return Action::Stop(Flaw::ElseAfterElse);
                }
                self.state = Cond { value: !self.state.taken, flipped: true, taken: true };
                Action::Next
            },
            Line::Endif => {
                if self.stack.len() <= self.base {
                    return Action::Stop(Flaw::StrayEndif);
                }
                let outer = self.stack.pop().unwrap();
                self.state = outer;
                Action::Next
            },
        }
    }
}

/// What is said of an error of processing.
pub open spec fn flaw_text(flaw: Flaw) -> Seq<char> {
    match flaw {
        Flaw::NotFound => "file not found"@,
        Flaw::Unscannable => "file cannot be scanned"@,
        Flaw::StrayElif => "unmatched `#elif`"@,
        Flaw::ElifAfterElse => "`#elif` after `#else`"@,
        Flaw::StrayElse => "unmatched `#else`"@,
        Flaw::ElseAfterElse => "`#else` after `#else`"@,
        Flaw::StrayEndif => "unmatched `#endif`"@,
        Flaw::Unterminated => "unterminated `#if`"@,
        Flaw::BadExpression => "malformed expression"@,
        Flaw::Cycle => "file includes itself"@,
        Flaw::TooDeep => "includes nested too deep"@,
    }
}

impl Flaw {
    /// What is wrong, in words.
    pub fn message(&self) -> (text: &'static str)
        ensures
            text@ == flaw_text(*self),
    {
        match self {
            Flaw::NotFound => "file not found",
            Flaw::Unscannable => "file cannot be scanned",
            Flaw::StrayElif => "unmatched `#elif`",
            Flaw::ElifAfterElse => "`#elif` after `#else`",
            Flaw::StrayElse => "unmatched `#else`",
            Flaw::ElseAfterElse => "`#else` after `#else`",
            Flaw::StrayEndif => "unmatched `#endif`",
            Flaw::Unterminated => "unterminated `#if`",
            Flaw::BadExpression => "malformed expression",
            Flaw::Cycle => "file includes itself",
            Flaw::TooDeep => "includes nested too deep",
        }
    }
}

} // verus!
