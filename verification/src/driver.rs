//! The driver: walks a file and the files it includes, and emits the lines
//! that are enabled.

use std::rc::Rc;
use vstd::prelude::*;
use vstd::string::*;
use vstd::utf8::*;
use crate::cache::{sources, FileCache};
use crate::file::File;
use crate::line::{Config, Row, Rules};
use crate::loader::FileLoader;
use crate::machine::{start_machine, step_row, Action, Cond, Flaw, Machine, Runner, Walk};
use crate::scan::{scan_all, ScanError, Scanned};

verus! {

/// How many levels of includes a walk can count: the measure by which it
/// ends. A file that includes itself is found out long before, by its path.
pub const MAX_INCLUDE_DEPTH: usize = usize::MAX;

/// An error of processing: what is wrong, the path of the file and the
/// number of the line, counted from 1, in which it is, and, where a file
/// cannot be had, the path of that file.
pub struct Fault {
    pub flaw: Flaw,
    pub path: Seq<u8>,
    pub line: int,
    pub target: Seq<u8>,
}

/// The state after the first `n` of the lines `rows` of the file `path`,
/// started in the state `m`, with `fuel` levels of includes left; or the
/// first error on the way. A file that is being walked cannot be included.
pub open spec fn run_upto(
    files: Map<Seq<u8>, Seq<Row<Seq<u8>>>>,
    path: Seq<u8>,
    rows: Seq<Row<Seq<u8>>>,
    n: nat,
    m: Machine,
    fuel: nat,
) -> Result<Machine, Fault>
    decreases fuel, n,
{
    if n == 0 {
        Ok(m)
    } else {
        match run_upto(files, path, rows, (n - 1) as nat, m, fuel) {
            Err(e) => Err(e),
            Ok(before) => match step_row(rows[n - 1], before) {
                Walk::Go(after) => Ok(after),
                Walk::Halt(flaw) => Err(
                    Fault { flaw, path, line: n as int, target: Seq::empty() },
                ),
                Walk::Enter(p) => if before.inside.contains(p) {
                    Err(Fault { flaw: Flaw::Cycle, path, line: n as int, target: p })
                } else if fuel == 0 {
                    Err(Fault { flaw: Flaw::TooDeep, path, line: n as int, target: p })
                } else if !files.contains_key(p) {
                    Err(Fault { flaw: Flaw::NotFound, path, line: n as int, target: p })
                } else {
                    run_file(files, p, before, (fuel - 1) as nat)
                },
            },
        }
    }
}

/// The state in which the walk of the file `path` starts where the state was
/// `m`: the blocks that are open belong to the files that include it, and
/// the file is being walked.
pub open spec fn entered(path: Seq<u8>, m: Machine) -> Machine {
    Machine { base: m.stack.len(), inside: m.inside.insert(path), ..m }
}

/// The state after the file `path`, started in the state `m`; or the first
/// error on the way. The blocks of a file are its own: it must close every
/// block that it opens, and it cannot reach the blocks that were open before
/// it.
pub open spec fn run_file(
    files: Map<Seq<u8>, Seq<Row<Seq<u8>>>>,
    path: Seq<u8>,
    m: Machine,
    fuel: nat,
) -> Result<Machine, Fault>
    decreases fuel, files[path].len() + 1,
{
    let rows = files[path];
    match run_upto(files, path, rows, rows.len(), entered(path, m), fuel) {
        Err(e) => Err(e),
        Ok(after) => if after.stack.len() == m.stack.len() {
            Ok(Machine { base: m.base, inside: m.inside, ..after })
        } else {
            Err(
                Fault {
                    flaw: Flaw::Unterminated,
                    path,
                    line: rows.len() as int,
                    target: Seq::empty(),
                },
            )
        },
    }
}

/// The lines that processing the file `root` emits where the symbols
/// `defines` are defined, or the first error on the way.
pub open spec fn process_spec(
    files: Map<Seq<u8>, Seq<Row<Seq<u8>>>>,
    root: Seq<u8>,
    defines: Set<Seq<u8>>,
) -> Result<Seq<Seq<u8>>, Fault> {
    if !files.contains_key(root) {
        Err(Fault { flaw: Flaw::NotFound, path: root, line: 0, target: root })
    } else {
        match run_file(files, root, start_machine(defines), MAX_INCLUDE_DEPTH as nat) {
            Ok(m) => Ok(m.out),
            Err(e) => Err(e),
        }
    }
}

/// A walk that went well goes the same way when more files are there.
pub proof fn lemma_more_files_upto(
    a: Map<Seq<u8>, Seq<Row<Seq<u8>>>>,
    b: Map<Seq<u8>, Seq<Row<Seq<u8>>>>,
    path: Seq<u8>,
    rows: Seq<Row<Seq<u8>>>,
    n: nat,
    m: Machine,
    fuel: nat,
)
    requires
        a.submap_of(b),
        run_upto(a, path, rows, n, m, fuel) is Ok,
    ensures
        run_upto(b, path, rows, n, m, fuel) == run_upto(a, path, rows, n, m, fuel),
    decreases fuel, n,
{
    if n > 0 {
        lemma_more_files_upto(a, b, path, rows, (n - 1) as nat, m, fuel);
        let before = run_upto(a, path, rows, (n - 1) as nat, m, fuel)->Ok_0;
        match step_row(rows[n - 1], before) {
            Walk::Enter(p) => {
                assert(a.contains_key(p));
                assert(b.contains_key(p) && b[p] == a[p]);
                lemma_more_files_file(a, b, p, before, (fuel - 1) as nat);
            },
            _ => {},
        }
    }
}

/// A file that was walked well is walked the same way when more files are
/// there.
pub proof fn lemma_more_files_file(
    a: Map<Seq<u8>, Seq<Row<Seq<u8>>>>,
    b: Map<Seq<u8>, Seq<Row<Seq<u8>>>>,
    path: Seq<u8>,
    m: Machine,
    fuel: nat,
)
    requires
        a.submap_of(b),
        a.contains_key(path),
        run_file(a, path, m, fuel) is Ok,
    ensures
        run_file(b, path, m, fuel) == run_file(a, path, m, fuel),
    decreases fuel, a[path].len() + 1,
{
    assert(b.contains_key(path) && b[path] == a[path]);
    lemma_more_files_upto(a, b, path, a[path], a[path].len(), entered(path, m), fuel);
}

/// The condition that was in force where the file that is walked was
/// entered: the one that its outermost block has put away, or, where it has
/// no block open, the one that is in force.
pub open spec fn entry_cond(m: Machine) -> Cond {
    if m.stack.len() > m.base {
        m.stack[m.base as int]
    } else {
        m.cond
    }
}

/// Whether the state `after` is one of the same file as the state `m`: the
/// same files are being walked, and the blocks that were open where the file
/// was entered, and the condition that was in force there, are untouched.
pub open spec fn same_file(m: Machine, after: Machine) -> bool {
    &&& after.base == m.base
    &&& after.inside == m.inside
    &&& after.stack.len() >= m.base
    &&& after.stack.take(m.base as int) == m.stack.take(m.base as int)
    &&& entry_cond(after) == entry_cond(m)
}

/// The lines of a file leave alone the blocks that were open where the file
/// was entered, and the condition that was in force there.
pub proof fn lemma_walk_keeps_blocks(
    files: Map<Seq<u8>, Seq<Row<Seq<u8>>>>,
    path: Seq<u8>,
    rows: Seq<Row<Seq<u8>>>,
    n: nat,
    m: Machine,
    fuel: nat,
)
    requires
        m.base <= m.stack.len(),
        run_upto(files, path, rows, n, m, fuel) is Ok,
    ensures
        same_file(m, run_upto(files, path, rows, n, m, fuel)->Ok_0),
    decreases fuel, n,
{
    if n > 0 {
        lemma_walk_keeps_blocks(files, path, rows, (n - 1) as nat, m, fuel);
        let before = run_upto(files, path, rows, (n - 1) as nat, m, fuel)->Ok_0;
        let after = run_upto(files, path, rows, n, m, fuel)->Ok_0;
        let base = m.base as int;
        match step_row(rows[n - 1], before) {
            Walk::Enter(p) => {
                lemma_file_keeps_blocks(files, p, before, (fuel - 1) as nat);
            },
            Walk::Go(_) => {
                match rows[n - 1] {
                    Row::If(_) => {
                        assert(after.stack.take(base) =~= before.stack.take(base));
                    },
                    Row::Endif => {
                        assert(after.stack.take(base) =~= before.stack.take(base));
                    },
                    _ => {},
                }
            },
            Walk::Halt(_) => {},
        }
    }
}

/// The blocks of an included file are its own: a file that is walked well
/// leaves the blocks that are open, and the condition that is in force, as
/// they were where it was entered. Its `elif`, `else` and `endif` never act
/// on a block that a file has opened which includes it.
pub proof fn lemma_file_keeps_blocks(
    files: Map<Seq<u8>, Seq<Row<Seq<u8>>>>,
    path: Seq<u8>,
    m: Machine,
    fuel: nat,
)
    requires
        run_file(files, path, m, fuel) is Ok,
    ensures
        run_file(files, path, m, fuel)->Ok_0.stack == m.stack,
        run_file(files, path, m, fuel)->Ok_0.cond == m.cond,
        run_file(files, path, m, fuel)->Ok_0.base == m.base,
        run_file(files, path, m, fuel)->Ok_0.inside == m.inside,
    decreases fuel, files[path].len() + 1,
{
    let rows = files[path];
    let start = entered(path, m);
    lemma_walk_keeps_blocks(files, path, rows, rows.len(), start, fuel);
    let after = run_upto(files, path, rows, rows.len(), start, fuel)->Ok_0;
    assert(after.stack.take(start.base as int) =~= after.stack);
    assert(m.stack.take(start.base as int) =~= m.stack);
}

/// An error stops the walk: it is what the walk of any more lines comes to.
pub proof fn lemma_error_stays(
    files: Map<Seq<u8>, Seq<Row<Seq<u8>>>>,
    path: Seq<u8>,
    rows: Seq<Row<Seq<u8>>>,
    n: nat,
    later: nat,
    m: Machine,
    fuel: nat,
)
    requires
        n <= later,
        run_upto(files, path, rows, n, m, fuel) is Err,
    ensures
        run_upto(files, path, rows, later, m, fuel) == run_upto(files, path, rows, n, m, fuel),
    decreases later - n,
{
    if n < later {
        lemma_error_stays(files, path, rows, n, (later - 1) as nat, m, fuel);
    }
}

/// An error of processing: what is wrong, the path of the file and the
/// number of the line, counted from 1, in which it is; where a file cannot be
/// had, the path of that file, and, if it is there and cannot be scanned, the
/// error of the scanner.
#[derive(Debug, PartialEq, Eq, Clone)]
pub struct ProcessError {
    pub flaw: Flaw,
    pub path: String,
    pub line: usize,
    pub target: String,
    pub cause: Option<ScanError>,
}

impl View for ProcessError {
    type V = Fault;

    /// The error as the walk of the cache sees it, to which a file that
    /// cannot be scanned is a file that is not there: it is not kept.
    open spec fn view(&self) -> Fault {
        Fault {
            flaw: if self.flaw == Flaw::Unscannable {
                Flaw::NotFound
            } else {
                self.flaw
            },
            path: encode_utf8(self.path@),
            line: self.line as int,
            target: encode_utf8(self.target@),
        }
    }
}

/// Keeps what a loader returned for `path`, which the cache does not hold
/// yet: `None` is a file that is not there, and text is scanned and kept
/// with its lines, unless the scanner finds an error in it.
pub fn store(files: &mut FileCache, config: &Config, path: &str, data: Option<String>) -> (r: Result<
    Rc<File>,
    Option<ScanError>,
>)
    requires
        config.wf(),
        !old(files)@.contains_key(path.spec_bytes()),
    ensures
        match data {
            None => r == Err::<Rc<File>, Option<ScanError>>(None) && final(files)@ == old(files)@,
            Some(text) => match scan_all(encode_utf8(text@), config.rules()) {
                Scanned::Done(rows) => r matches Ok(file) && file.source() == encode_utf8(text@)
                    && file.rows() == rows && final(files)@ == old(files)@.insert(
                    path.spec_bytes(),
                    *file,
                ),
                Scanned::Failed { kind, line, offset, len } => r matches Err(Some(e)) && e.kind
                    == kind && e.line == line && e.offset == offset && e.len == len
                    && final(files)@ == old(files)@,
            },
        },
{
    match data {
        None => Err(None),
        Some(text) => match File::parse(text, config) {
            Ok(file) => Ok(files.keep(path, file)),
            Err(e) => Err(Some(e)),
        },
    }
}

/// The file of `path`: the one that the cache holds, or else the one that
/// the loader returns, which is then kept.
pub fn load(files: &mut FileCache, config: &Config, loader: &Box<dyn FileLoader>, path: &str) -> (r:
    Result<Rc<File>, Option<ScanError>>)
    requires
        config.wf(),
    ensures
        grown(old(files)@, final(files)@, config.rules()),
        old(files)@.contains_key(path.spec_bytes()) ==> r is Ok,
        match r {
            Ok(file) => final(files)@.contains_key(path.spec_bytes()) && final(files)@[path.spec_bytes()]
                == *file && final(files)@ == old(files)@.insert(path.spec_bytes(), *file),
            Err(_) => final(files)@ == old(files)@ && !old(files)@.contains_key(path.spec_bytes()),
        },
{
    match files.get(path) {
        Some(file) => {
            proof {
                assert(files@ =~= files@.insert(path.spec_bytes(), *file));
            }
            Ok(file)
        },
        None => {
            let data = loader.load(path);
            store(files, config, path, data)
        },
    }
}

/// Whether the cache `new` holds what the cache `old` holds, and every file
/// besides is what the scanner makes of its source under `rules`.
pub open spec fn grown(old: Map<Seq<u8>, File>, new: Map<Seq<u8>, File>, rules: Rules) -> bool {
    old.submap_of(new) && forall|p: Seq<u8>|
        new.contains_key(p) && !old.contains_key(p) ==> (#[trigger] new[p]).scanned(rules)
}

/// A cache that has grown twice has grown.
pub proof fn lemma_grown_twice(
    a: Map<Seq<u8>, File>,
    b: Map<Seq<u8>, File>,
    c: Map<Seq<u8>, File>,
    rules: Rules,
)
    requires
        grown(a, b, rules),
        grown(b, c, rules),
    ensures
        grown(a, c, rules),
{
    lemma_grow_twice(a, b, c);
    assert forall|p: Seq<u8>| c.contains_key(p) && !a.contains_key(p) implies (#[trigger] c[p]).scanned(
        rules,
    ) by {
        if b.contains_key(p) {
            assert(b.dom().contains(p));
            assert(c[p] == b[p]);
        }
    }
}

/// Of three caches each of which holds what the one before holds, the last
/// holds what the first holds.
pub proof fn lemma_grow_twice<V>(a: Map<Seq<u8>, V>, b: Map<Seq<u8>, V>, c: Map<Seq<u8>, V>)
    requires
        a.submap_of(b),
        b.submap_of(c),
    ensures
        a.submap_of(c),
{
    assert forall|k: Seq<u8>| #[trigger] a.dom().contains(k) implies c.dom().contains(k) && a[k]
        == c[k] by {
        assert(b.dom().contains(k));
    }
}

/// Where the line behind the first `i` is in error, the file is.
pub proof fn lemma_line_fails(
    files: Map<Seq<u8>, Seq<Row<Seq<u8>>>>,
    path: Seq<u8>,
    i: nat,
    m: Machine,
    fuel: nat,
)
    requires
        files.contains_key(path),
        i < files[path].len(),
        run_upto(files, path, files[path], i, entered(path, m), fuel) is Ok,
        run_upto(files, path, files[path], i + 1, entered(path, m), fuel) is Err,
    ensures
        run_file(files, path, m, fuel) == run_upto(
            files,
            path,
            files[path],
            i + 1,
            entered(path, m),
            fuel,
        ),
{
    lemma_error_stays(files, path, files[path], i + 1, files[path].len(), entered(path, m), fuel);
}

/// The cache with more files has the lines of more files.
pub proof fn lemma_sources_grow(a: Map<Seq<u8>, File>, b: Map<Seq<u8>, File>)
    requires
        a.submap_of(b),
    ensures
        sources(a).submap_of(sources(b)),
{
}

/// Whether the error tells of the scanner just where a file cannot be
/// scanned.
pub open spec fn cause_told(e: ProcessError) -> bool {
    e.cause is Some <==> e.flaw == Flaw::Unscannable
}

/// The error of a file that cannot be had: it is not there, or, where the
/// scanner found the error `cause` in it, it cannot be scanned.
pub fn file_missing(path: &str, line: usize, target: &str, cause: Option<ScanError>) -> (e:
    ProcessError)
    ensures
        e@ == (Fault {
            flaw: Flaw::NotFound,
            path: path.spec_bytes(),
            line: line as int,
            target: target.spec_bytes(),
        }),
        e.cause == cause,
        cause_told(e),
{
    let flaw = match cause {
        Some(_) => Flaw::Unscannable,
        None => Flaw::NotFound,
    };
    ProcessError { flaw, path: path.to_owned(), line, target: target.to_owned(), cause }
}

fn too_deep(path: &str, line: usize, target: &str) -> (e: ProcessError)
    ensures
        e@ == (Fault {
            flaw: Flaw::TooDeep,
            path: path.spec_bytes(),
            line: line as int,
            target: target.spec_bytes(),
        }),
        cause_told(e),
{
    ProcessError {
        flaw: Flaw::TooDeep,
        path: path.to_owned(),
        line,
        target: target.to_owned(),
        cause: None,
    }
}

/// The error of a file that includes itself, directly or through others.
pub fn cycle(path: &str, line: usize, target: &str) -> (e: ProcessError)
    ensures
        e@ == (Fault {
            flaw: Flaw::Cycle,
            path: path.spec_bytes(),
            line: line as int,
            target: target.spec_bytes(),
        }),
        cause_told(e),
{
    ProcessError {
        flaw: Flaw::Cycle,
        path: path.to_owned(),
        line,
        target: target.to_owned(),
        cause: None,
    }
}

fn fail_here(flaw: Flaw, path: &str, line: usize) -> (e: ProcessError)
    requires
        flaw != Flaw::Unscannable,
    ensures
        e@ == (Fault { flaw, path: path.spec_bytes(), line: line as int, target: Seq::empty() }),
        cause_told(e),
{
    let e = ProcessError { flaw, path: path.to_owned(), line, target: String::new(), cause: None };
    proof {
        assert(encode_utf8(e.target@) =~= Seq::<u8>::empty());
    }
    e
}

/// Walks the file `file`, which the cache holds under `path`: emits its
/// enabled lines to `out` and walks the files it includes, which are loaded
/// as they are met.
///
/// What comes out is what `run_file` says of the cache as it is afterwards:
/// it holds every file that was met, and a file that could not be had is
/// not in it. Where the walk goes well, the blocks that were open and the
/// condition that was in force are as they were (`lemma_file_keeps_blocks`).
pub fn process_file(
    files: &mut FileCache,
    config: &Config,
    loader: &Box<dyn FileLoader>,
    run: &mut Runner,
    out: &mut Vec<String>,
    path: &str,
    file: &File,
    fuel: usize,
) -> (r: Result<(), ProcessError>)
    requires
        config.wf(),
        old(files)@.contains_key(path.spec_bytes()),
        old(files)@[path.spec_bytes()] == *file,
    ensures
        grown(old(files)@, final(files)@, config.rules()),
        match run_file(
            sources(final(files)@),
            path.spec_bytes(),
            old(run).machine(old(out)@),
            fuel as nat,
        ) {
            Ok(m) => r is Ok && final(run).machine(final(out)@) == m,
            Err(fault) => r matches Err(e) && e@ == fault && cause_told(e),
        },
    decreases fuel,
{
    let ghost entry = run.machine(out@);
    let ghost me = path.spec_bytes();
    let ghost rows = file.text();
    let depth = run.stack.len();
    let outer = run.base;
    let fresh = run.inside.insert(path);
    run.base = depth;
    let ghost start = run.machine(out@);
    let n = file.len();
    let mut i: usize = 0;
    proof {
        lemma_sources_grow(old(files)@, files@);
    }
    while i < n
        invariant
            config.wf(),
            entry == old(run).machine(old(out)@),
            start == entered(me, entry),
            depth == entry.stack.len(),
            0 <= i <= n,
            n == rows.len(),
            rows == file.text(),
            n == file.rows().len(),
            me == path.spec_bytes(),
            grown(old(files)@, files@, config.rules()),
            files@.contains_key(me),
            files@[me] == *file,
            run_upto(sources(files@), me, rows, i as nat, start, fuel as nat) == Ok::<
                Machine,
                Fault,
            >(run.machine(out@)),
        decreases n - i,
    {
        let ghost before = run.machine(out@);
        let ghost seen = files@;
        let line = file.line(i);
        proof {
            assert(sources(seen)[me] == rows);
        }
        match run.step(&line, out) {
            Action::Next => {},
            Action::Stop(flaw) => {
                proof {
                    lemma_line_fails(sources(seen), me, i as nat, entry, fuel as nat);
                }
                return Err(fail_here(flaw, path, i + 1));
            },
            Action::Include(target) => {
                if run.inside.contains(target) {
                    proof {
                        lemma_line_fails(sources(seen), me, i as nat, entry, fuel as nat);
                    }
                    return Err(cycle(path, i + 1, target));
                }
                if fuel == 0 {
                    proof {
                        lemma_line_fails(sources(seen), me, i as nat, entry, fuel as nat);
                    }
                    return Err(too_deep(path, i + 1, target));
                }
                let inner = match load(files, config, loader, target) {
                    Ok(inner) => inner,
                    Err(cause) => {
                        proof {
                            lemma_line_fails(sources(seen), me, i as nat, entry, fuel as nat);
                        }
                        return Err(file_missing(path, i + 1, target, cause));
                    },
                };
                let ghost loaded = files@;
                let done = process_file(files, config, loader, run, out, target, &inner, fuel - 1);
                proof {
                    lemma_grown_twice(seen, loaded, files@, config.rules());
                    lemma_grown_twice(old(files)@, seen, files@, config.rules());
                    lemma_sources_grow(seen, files@);
                    lemma_more_files_upto(
                        sources(seen),
                        sources(files@),
                        me,
                        rows,
                        i as nat,
                        start,
                        fuel as nat,
                    );
                    assert(loaded.dom().contains(target.spec_bytes()));
                    assert(seen.dom().contains(me));
                    assert(files@.dom().contains(me));
                    assert(sources(files@)[me] == rows);
                }
                match done {
                    Ok(()) => {},
                    Err(e) => {
                        proof {
                            lemma_line_fails(sources(files@), me, i as nat, entry, fuel as nat);
                        }
                        return Err(e);
                    },
                }
            },
        }
        i = i + 1;
    }
    if run.stack.len() != depth {
        return Err(fail_here(Flaw::Unterminated, path, n));
    }
    proof {
        lemma_walk_keeps_blocks(sources(files@), me, rows, n as nat, start, fuel as nat);
    }
    run.base = outer;
    if fresh {
        run.inside.remove(path);
    }
    proof {
        assert(run.inside@ =~= entry.inside);
    }
    Ok(())
}

} // verus!
