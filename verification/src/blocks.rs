//! What a conditional block emits: the lines of one of its branches.

use vstd::prelude::*;
use crate::driver::{entered, process_spec, run_upto, Fault, MAX_INCLUDE_DEPTH};
use crate::exp::{rpn_valid, rpn_value, Op};
use crate::line::Row;
use crate::machine::{start_machine, step_row, Cond, Machine, Walk};

verus! {

/// Whether every row is code, or what is left of a directive's line.
pub open spec fn plain(rows: Seq<Row<Seq<u8>>>) -> bool {
    forall|i: int| 0 <= i < rows.len() ==> (#[trigger] rows[i] is Code || rows[i] is Rem)
}

/// The text of a row of code.
pub open spec fn row_code(row: Row<Seq<u8>>) -> Seq<u8> {
    match row {
        Row::Code(t) => t,
        Row::Rem(t) => t,
        _ => Seq::empty(),
    }
}

/// The text of each of the rows.
pub open spec fn code_of(rows: Seq<Row<Seq<u8>>>) -> Seq<Seq<u8>> {
    Seq::new(rows.len(), |i: int| row_code(rows[i]))
}

/// Whether a row is code, what is left of a directive's line, or a
/// definition or the end of one: it opens no block, closes none and includes
/// nothing.
pub open spec fn flat_row(row: Row<Seq<u8>>) -> bool {
    row is Code || row is Rem || row is Def || row is Undef
}

/// Whether every row is flat.
pub open spec fn flat(rows: Seq<Row<Seq<u8>>>) -> bool {
    forall|i: int| 0 <= i < rows.len() ==> flat_row(#[trigger] rows[i])
}

/// The texts of the rows of code among the rows, in order.
pub open spec fn emitted(rows: Seq<Row<Seq<u8>>>) -> Seq<Seq<u8>>
    decreases rows.len(),
{
    if rows.len() == 0 {
        Seq::empty()
    } else {
        match rows.last() {
            Row::Code(t) => emitted(rows.drop_last()).push(t),
            Row::Rem(t) => emitted(rows.drop_last()).push(t),
            _ => emitted(rows.drop_last()),
        }
    }
}

/// The symbols that are defined behind the rows, where `vars` were defined
/// before them.
pub open spec fn defined(rows: Seq<Row<Seq<u8>>>, vars: Set<Seq<u8>>) -> Set<Seq<u8>>
    decreases rows.len(),
{
    if rows.len() == 0 {
        vars
    } else {
        match rows.last() {
            Row::Def(n) => defined(rows.drop_last(), vars).insert(n),
            Row::Undef(n) => defined(rows.drop_last(), vars).remove(n),
            _ => defined(rows.drop_last(), vars),
        }
    }
}

/// The line that opens the branch `k` of a block: `if` for the first, `elif`
/// for the others.
pub open spec fn branch_head(conds: Seq<Seq<Op<Seq<u8>>>>, k: int) -> Row<Seq<u8>> {
    if k == 0 {
        Row::If(conds[k])
    } else {
        Row::Elif(conds[k])
    }
}

/// The rows of the first `k` branches of a block, each with the line that
/// opens it.
pub open spec fn branches(
    conds: Seq<Seq<Op<Seq<u8>>>>,
    bodies: Seq<Seq<Row<Seq<u8>>>>,
    k: nat,
) -> Seq<Row<Seq<u8>>>
    decreases k,
{
    if k == 0 {
        Seq::empty()
    } else {
        branches(conds, bodies, (k - 1) as nat) + seq![branch_head(conds, k - 1)] + bodies[k - 1]
    }
}

/// The rows of a block: its branches, its `else` with the rows behind it, if
/// it has one, and its `endif`.
pub open spec fn block(
    conds: Seq<Seq<Op<Seq<u8>>>>,
    bodies: Seq<Seq<Row<Seq<u8>>>>,
    last: Option<Seq<Row<Seq<u8>>>>,
) -> Seq<Row<Seq<u8>>> {
    branches(conds, bodies, conds.len()) + (match last {
        Some(rows) => seq![Row::Else] + rows,
        None => Seq::empty(),
    }) + seq![Row::Endif]
}

/// The symbols that are defined behind the first `k` branches of a block:
/// a definition takes effect whether its branch is taken or not.
pub open spec fn defined_behind(bodies: Seq<Seq<Row<Seq<u8>>>>, vars: Set<Seq<u8>>, k: nat) -> Set<
    Seq<u8>,
>
    decreases k,
{
    if k == 0 {
        vars
    } else {
        defined(bodies[k - 1], defined_behind(bodies, vars, (k - 1) as nat))
    }
}

/// The first of the first `k` branches whose condition holds where it
/// stands, if there is one.
pub open spec fn first_true(
    conds: Seq<Seq<Op<Seq<u8>>>>,
    bodies: Seq<Seq<Row<Seq<u8>>>>,
    vars: Set<Seq<u8>>,
    k: nat,
) -> Option<int>
    decreases k,
{
    if k == 0 {
        None
    } else {
        match first_true(conds, bodies, vars, (k - 1) as nat) {
            Some(j) => Some(j),
            None => if rpn_value(conds[k - 1], defined_behind(bodies, vars, (k - 1) as nat)) {
                Some(k - 1)
            } else {
                None
            },
        }
    }
}

/// The rows of the branch that a block takes: the first whose condition
/// holds, or else the one behind `else`, or else none.
pub open spec fn taken_rows(
    conds: Seq<Seq<Op<Seq<u8>>>>,
    bodies: Seq<Seq<Row<Seq<u8>>>>,
    last: Option<Seq<Row<Seq<u8>>>>,
    vars: Set<Seq<u8>>,
) -> Seq<Row<Seq<u8>>> {
    match first_true(conds, bodies, vars, conds.len()) {
        Some(j) => bodies[j],
        None => match last {
            Some(rows) => rows,
            None => Seq::empty(),
        },
    }
}

/// Whether every condition of a block that is evaluated is a valid
/// expression: the conditions up to the first that holds.
pub open spec fn conditions_valid(
    conds: Seq<Seq<Op<Seq<u8>>>>,
    bodies: Seq<Seq<Row<Seq<u8>>>>,
    vars: Set<Seq<u8>>,
) -> bool {
    forall|i: int|
        0 <= i < conds.len() && first_true(conds, bodies, vars, i as nat) is None ==> rpn_valid(
            #[trigger] conds[i],
        )
}

/// The walk of the first `n` rows goes by those rows alone.
pub proof fn lemma_walk_prefix(
    files: Map<Seq<u8>, Seq<Row<Seq<u8>>>>,
    path: Seq<u8>,
    a: Seq<Row<Seq<u8>>>,
    b: Seq<Row<Seq<u8>>>,
    n: nat,
    m: Machine,
    fuel: nat,
)
    requires
        n <= a.len(),
        n <= b.len(),
        a.take(n as int) == b.take(n as int),
    ensures
        run_upto(files, path, a, n, m, fuel) == run_upto(files, path, b, n, m, fuel),
    decreases n,
{
    if n > 0 {
        assert(a.take(n as int).take(n - 1) =~= a.take(n - 1));
        assert(b.take(n as int).take(n - 1) =~= b.take(n - 1));
        lemma_walk_prefix(files, path, a, b, (n - 1) as nat, m, fuel);
        assert(a[n - 1] == a.take(n as int)[n - 1]);
        assert(b[n - 1] == b.take(n as int)[n - 1]);
    }
}

/// Rows walked one behind the other: where the walk of `a` goes well and
/// then the walk of the first `j` rows of `b`, the walk of `a` with `b` behind
/// it comes to the same.
pub proof fn lemma_walk_then(
    files: Map<Seq<u8>, Seq<Row<Seq<u8>>>>,
    path: Seq<u8>,
    a: Seq<Row<Seq<u8>>>,
    b: Seq<Row<Seq<u8>>>,
    j: nat,
    m: Machine,
    fuel: nat,
)
    requires
        j <= b.len(),
        run_upto(files, path, a, a.len(), m, fuel) is Ok,
        run_upto(files, path, b, j, run_upto(files, path, a, a.len(), m, fuel)->Ok_0, fuel) is Ok,
    ensures
        run_upto(files, path, a + b, a.len() + j, m, fuel) == run_upto(
            files,
            path,
            b,
            j,
            run_upto(files, path, a, a.len(), m, fuel)->Ok_0,
            fuel,
        ),
    decreases j,
{
    if j == 0 {
        assert((a + b).take(a.len() as int) =~= a.take(a.len() as int));
        lemma_walk_prefix(files, path, a + b, a, a.len(), m, fuel);
    } else {
        lemma_walk_then(files, path, a, b, (j - 1) as nat, m, fuel);
        assert((a + b)[a.len() + j - 1] == b[j - 1]);
    }
}

/// Flat rows: their code is emitted where the innermost block is enabled,
/// their definitions take effect in any case, and the blocks stay as they
/// are.
pub proof fn lemma_walk_flat(
    files: Map<Seq<u8>, Seq<Row<Seq<u8>>>>,
    path: Seq<u8>,
    rows: Seq<Row<Seq<u8>>>,
    n: nat,
    m: Machine,
    fuel: nat,
)
    requires
        flat(rows),
        n <= rows.len(),
    ensures
        run_upto(files, path, rows, n, m, fuel) == Ok::<Machine, Fault>(
            Machine {
                vars: defined(rows.take(n as int), m.vars),
                out: if m.cond.value {
                    m.out + emitted(rows.take(n as int))
                } else {
                    m.out
                },
                ..m
            },
        ),
    decreases n,
{
    if n == 0 {
        assert(m.out + emitted(rows.take(0)) =~= m.out);
    } else {
        lemma_walk_flat(files, path, rows, (n - 1) as nat, m, fuel);
        assert(flat_row(rows[n - 1]));
        assert(rows.take(n as int).drop_last() =~= rows.take(n - 1));
        assert(rows.take(n as int).last() == rows[n - 1]);
        let before = emitted(rows.take(n - 1));
        match rows[n - 1] {
            Row::Code(t) => {
                assert(m.out + before.push(t) =~= (m.out + before).push(t));
            },
            Row::Rem(t) => {
                assert(m.out + before.push(t) =~= (m.out + before).push(t));
            },
            _ => {},
        }
    }
}

/// Plain rows are flat, define nothing, and all of them are emitted.
pub proof fn lemma_plain_is_flat(rows: Seq<Row<Seq<u8>>>, vars: Set<Seq<u8>>)
    requires
        plain(rows),
    ensures
        flat(rows),
        emitted(rows) == code_of(rows),
        defined(rows, vars) == vars,
    decreases rows.len(),
{
    if rows.len() > 0 {
        let before = rows.drop_last();
        assert(plain(before)) by {
            assert forall|i: int| 0 <= i < before.len() implies (#[trigger] before[i] is Code
                || before[i] is Rem) by {
                assert(before[i] == rows[i]);
            }
        }
        lemma_plain_is_flat(before, vars);
        assert(rows[rows.len() - 1] is Code || rows[rows.len() - 1] is Rem);
        assert(emitted(rows) =~= code_of(rows));
    } else {
        assert(emitted(rows) =~= code_of(rows));
    }
}

/// The state behind the first `k` branches of a block that started in the
/// state `m`: the block is open, a branch is taken if the condition of one
/// held, the last branch is enabled if it is the one, and the code of the
/// taken branch is emitted.
pub open spec fn behind_branches(
    conds: Seq<Seq<Op<Seq<u8>>>>,
    bodies: Seq<Seq<Row<Seq<u8>>>>,
    k: nat,
    m: Machine,
) -> Machine {
    let first = first_true(conds, bodies, m.vars, k);
    Machine {
        vars: defined_behind(bodies, m.vars, k),
        stack: m.stack.push(m.cond),
        cond: Cond { value: first == Some(k - 1), flipped: false, taken: first is Some },
        out: match first {
            Some(j) => m.out + emitted(bodies[j]),
            None => m.out,
        },
        ..m
    }
}

/// The first branch whose condition holds, if any, is one of the branches.
pub proof fn lemma_first_true_bounds(
    conds: Seq<Seq<Op<Seq<u8>>>>,
    bodies: Seq<Seq<Row<Seq<u8>>>>,
    vars: Set<Seq<u8>>,
    k: nat,
)
    ensures
        first_true(conds, bodies, vars, k) matches Some(j) ==> 0 <= j < k,
    decreases k,
{
    if k > 0 {
        lemma_first_true_bounds(conds, bodies, vars, (k - 1) as nat);
    }
}

/// The walk of the first `k` branches of a block comes to `behind_branches`.
pub proof fn lemma_walk_branches(
    files: Map<Seq<u8>, Seq<Row<Seq<u8>>>>,
    path: Seq<u8>,
    conds: Seq<Seq<Op<Seq<u8>>>>,
    bodies: Seq<Seq<Row<Seq<u8>>>>,
    k: nat,
    m: Machine,
    fuel: nat,
)
    requires
        1 <= k <= conds.len(),
        conds.len() == bodies.len(),
        m.base <= m.stack.len(),
        conditions_valid(conds, bodies, m.vars),
        forall|i: int| 0 <= i < bodies.len() ==> flat(#[trigger] bodies[i]),
    ensures
        run_upto(
            files,
            path,
            branches(conds, bodies, k),
            branches(conds, bodies, k).len(),
            m,
            fuel,
        ) == Ok::<Machine, Fault>(behind_branches(conds, bodies, k, m)),
    decreases k,
{
    let head = seq![branch_head(conds, k - 1)];
    let body = bodies[k - 1];
    let before = branches(conds, bodies, (k - 1) as nat);
    lemma_first_true_bounds(conds, bodies, m.vars, (k - 1) as nat);
    let at_head = if k == 1 {
        m
    } else {
        behind_branches(conds, bodies, (k - 1) as nat, m)
    };
    if k == 1 {
        assert(before =~= Seq::<Row<Seq<u8>>>::empty());
    } else {
        lemma_walk_branches(files, path, conds, bodies, (k - 1) as nat, m, fuel);
    }
    assert(run_upto(files, path, before, before.len(), m, fuel) == Ok::<Machine, Fault>(at_head));
    let first = first_true(conds, bodies, m.vars, k);
    let earlier = first_true(conds, bodies, m.vars, (k - 1) as nat);
    if earlier is None {
        assert(rpn_valid(conds[k - 1]));
    }
    let at_body = Machine {
        vars: at_head.vars,
        stack: m.stack.push(m.cond),
        cond: Cond { value: first == Some(k - 1), flipped: false, taken: first is Some },
        out: at_head.out,
        ..m
    };
    assert(at_head.vars == defined_behind(bodies, m.vars, (k - 1) as nat));
    assert(step_row(head[0], at_head) == Walk::Go(at_body));
    assert(run_upto(files, path, head, 1, at_head, fuel) == Ok::<Machine, Fault>(at_body)) by {
        assert(run_upto(files, path, head, 0, at_head, fuel) == Ok::<Machine, Fault>(at_head));
    }
    lemma_walk_then(files, path, before, head, 1, m, fuel);
    lemma_walk_flat(files, path, body, body.len(), at_body, fuel);
    assert(body.take(body.len() as int) =~= body);
    lemma_walk_then(files, path, before + head, body, body.len(), m, fuel);
    assert(branches(conds, bodies, k) =~= before + head + body);
}

/// A conditional block emits the code of exactly one of its branches, the
/// first whose condition holds, where `else` stands for a condition that
/// always holds; without an `else` it emits nothing where no condition holds.
/// The definitions of every branch take effect, and the blocks around it
/// stay as they were.
///
/// This holds of a block whose branches hold no conditional block of their
/// own and no include, and whose conditions, as far as they are evaluated,
/// are valid expressions. The state `m` is one of a walk: the blocks that
/// were open where the file was entered are among those that are open.
pub proof fn lemma_block_emits_one_branch(
    files: Map<Seq<u8>, Seq<Row<Seq<u8>>>>,
    path: Seq<u8>,
    conds: Seq<Seq<Op<Seq<u8>>>>,
    bodies: Seq<Seq<Row<Seq<u8>>>>,
    last: Option<Seq<Row<Seq<u8>>>>,
    m: Machine,
    fuel: nat,
)
    requires
        conds.len() >= 1,
        conds.len() == bodies.len(),
        m.base <= m.stack.len(),
        conditions_valid(conds, bodies, m.vars),
        forall|i: int| 0 <= i < bodies.len() ==> flat(#[trigger] bodies[i]),
        last matches Some(rows) ==> flat(rows),
    ensures
        run_upto(
            files,
            path,
            block(conds, bodies, last),
            block(conds, bodies, last).len(),
            m,
            fuel,
        ) == Ok::<Machine, Fault>(
            Machine {
                vars: match last {
                    Some(rows) => defined(rows, defined_behind(bodies, m.vars, conds.len())),
                    None => defined_behind(bodies, m.vars, conds.len()),
                },
                out: m.out + emitted(taken_rows(conds, bodies, last, m.vars)),
                ..m
            },
        ),
{
    let k = conds.len();
    let front = branches(conds, bodies, k);
    let at_end = behind_branches(conds, bodies, k, m);
    let first = first_true(conds, bodies, m.vars, k);
    lemma_walk_branches(files, path, conds, bodies, k, m, fuel);
    lemma_first_true_bounds(conds, bodies, m.vars, k);
    let chosen = emitted(taken_rows(conds, bodies, last, m.vars));
    let closing = seq![Row::<Seq<u8>>::Endif];
    match last {
        Some(rows) => {
            let done = Machine {
                vars: defined(rows, at_end.vars),
                out: m.out + chosen,
                ..m
            };
            let turn = seq![Row::<Seq<u8>>::Else];
            let at_else = Machine {
                cond: Cond { value: first is None, flipped: true, taken: true },
                ..at_end
            };
            assert(run_upto(files, path, turn, 1, at_end, fuel) == Ok::<Machine, Fault>(at_else))
                by {
                assert(run_upto(files, path, turn, 0, at_end, fuel) == Ok::<Machine, Fault>(at_end));
                assert(step_row(turn[0], at_end) == Walk::Go(at_else));
            }
            lemma_walk_then(files, path, front, turn, 1, m, fuel);
            lemma_walk_flat(files, path, rows, rows.len(), at_else, fuel);
            assert(rows.take(rows.len() as int) =~= rows);
            lemma_walk_then(files, path, front + turn, rows, rows.len(), m, fuel);
            let at_close = run_upto(files, path, rows, rows.len(), at_else, fuel)->Ok_0;
            assert(at_close.out == m.out + chosen);
            assert(step_row(closing[0], at_close) == Walk::Go(done)) by {
                assert(at_close.stack.drop_last() =~= m.stack);
            }
            assert(run_upto(files, path, closing, 1, at_close, fuel) == Ok::<Machine, Fault>(done))
                by {
                assert(run_upto(files, path, closing, 0, at_close, fuel) == Ok::<Machine, Fault>(
                    at_close,
                ));
            }
            lemma_walk_then(files, path, front + turn + rows, closing, 1, m, fuel);
            assert(block(conds, bodies, last) =~= front + turn + rows + closing);
        },
        None => {
            let done = Machine { vars: at_end.vars, out: m.out + chosen, ..m };
            assert(at_end.out == m.out + chosen) by {
                if first is None {
                    assert(m.out + chosen =~= m.out);
                }
            }
            assert(step_row(closing[0], at_end) == Walk::Go(done)) by {
                assert(at_end.stack.drop_last() =~= m.stack);
            }
            assert(run_upto(files, path, closing, 1, at_end, fuel) == Ok::<Machine, Fault>(done))
                by {
                assert(run_upto(files, path, closing, 0, at_end, fuel) == Ok::<Machine, Fault>(
                    at_end,
                ));
            }
            lemma_walk_then(files, path, front, closing, 1, m, fuel);
            assert(block(conds, bodies, last) =~= front + closing);
        },
    }
}

/// A file that holds rows of code only is emitted as it is, whatever symbols
/// are defined.
pub proof fn lemma_plain_file_emits(
    files: Map<Seq<u8>, Seq<Row<Seq<u8>>>>,
    root: Seq<u8>,
    defines: Set<Seq<u8>>,
)
    requires
        files.contains_key(root),
        plain(files[root]),
    ensures
        process_spec(files, root, defines) == Ok::<Seq<Seq<u8>>, Fault>(code_of(files[root])),
{
    let rows = files[root];
    let m = entered(root, start_machine(defines));
    lemma_plain_is_flat(rows, m.vars);
    lemma_walk_flat(files, root, rows, rows.len(), m, MAX_INCLUDE_DEPTH as nat);
    assert(rows.take(rows.len() as int) =~= rows);
    assert(m.out + code_of(rows) =~= code_of(rows));
}

} // verus!
