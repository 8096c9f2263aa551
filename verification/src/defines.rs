//! The symbols that a file and the files it includes speak of.

use vstd::prelude::*;
use vstd::string::*;
use vstd::utf8::*;
use crate::cache::{sources, FileCache};
use crate::driver::{
    cause_told, cycle, file_missing, grown, lemma_grown_twice, lemma_sources_grow, load, Fault,
    ProcessError, MAX_INCLUDE_DEPTH,
};
use crate::exp::{exp_text, op_text, Exp, Op};
use crate::file::File;
use crate::line::{Config, Line, Row};
use crate::loader::FileLoader;
use crate::machine::Flaw;
use crate::preprocessor::PreProcessor;
use crate::symbols::SymbolSet;

verus! {

/// The names that an expression speaks of.
pub open spec fn exp_names(ops: Seq<Op<Seq<u8>>>) -> Set<Seq<u8>> {
    Set::new(|n: Seq<u8>| exists|i: int| 0 <= i < ops.len() && ops[i] == Op::Var(n))
}

/// The names that a line speaks of: the one it defines, or those of its
/// condition.
pub open spec fn row_names(row: Row<Seq<u8>>) -> Set<Seq<u8>> {
    match row {
        Row::Def(n) => Set::empty().insert(n),
        Row::If(e) => exp_names(e),
        Row::Elif(e) => exp_names(e),
        _ => Set::empty(),
    }
}

/// What a walk has found, and where it is: the names that lines spoke of,
/// the paths of includes that were not there, and the paths of the files that
/// are being walked.
pub struct Found {
    pub names: Set<Seq<u8>>,
    pub skipped: Set<Seq<u8>>,
    /// The paths of the files that are being walked.
    pub inside: Set<Seq<u8>>,
}

/// What is found in the first `n` of the lines `rows` of the file `path` and
/// in the files that they include, added to `acc`, with `fuel` levels of
/// includes left. A file that is being walked cannot be included; an include
/// whose file is not there is passed over; every branch of a conditional
/// block counts.
pub open spec fn found_upto(
    files: Map<Seq<u8>, Seq<Row<Seq<u8>>>>,
    path: Seq<u8>,
    rows: Seq<Row<Seq<u8>>>,
    n: nat,
    acc: Found,
    fuel: nat,
) -> Result<Found, Fault>
    decreases fuel, n,
{
    if n == 0 {
        Ok(acc)
    } else {
        match found_upto(files, path, rows, (n - 1) as nat, acc, fuel) {
            Err(e) => Err(e),
            Ok(f) => match rows[n - 1] {
                Row::Inc(p) => if f.inside.contains(p) {
                    Err(Fault { flaw: Flaw::Cycle, path, line: n as int, target: p })
                } else if !files.contains_key(p) {
                    Ok(Found { skipped: f.skipped.insert(p), ..f })
                } else if fuel == 0 {
                    Err(Fault { flaw: Flaw::TooDeep, path, line: n as int, target: p })
                } else {
                    found_file(files, p, f, (fuel - 1) as nat)
                },
                row => Ok(Found { names: f.names.union(row_names(row)), ..f }),
            },
        }
    }
}

/// What is found in the file `path` and in the files that it includes, added
/// to `acc`.
pub open spec fn found_file(
    files: Map<Seq<u8>, Seq<Row<Seq<u8>>>>,
    path: Seq<u8>,
    acc: Found,
    fuel: nat,
) -> Result<Found, Fault>
    decreases fuel, files[path].len() + 1,
{
    let start = Found { inside: acc.inside.insert(path), ..acc };
    match found_upto(files, path, files[path], files[path].len(), start, fuel) {
        Ok(f) => Ok(Found { inside: acc.inside, ..f }),
        Err(e) => Err(e),
    }
}

/// The names that are no symbols: `0`, `1`, `true` and `false`.
pub open spec fn constants() -> Set<Seq<u8>> {
    Set::<Seq<u8>>::empty().insert("0".spec_bytes()).insert("1".spec_bytes()).insert(
        "true".spec_bytes(),
    ).insert("false".spec_bytes())
}

/// Nothing found yet.
pub open spec fn nothing_found() -> Found {
    Found { names: Set::empty(), skipped: Set::empty(), inside: Set::empty() }
}

/// The names that the file `root` and the files it includes speak of.
pub open spec fn defines_spec(files: Map<Seq<u8>, Seq<Row<Seq<u8>>>>, root: Seq<u8>) -> Result<
    Set<Seq<u8>>,
    Fault,
> {
    if !files.contains_key(root) {
        Err(Fault { flaw: Flaw::NotFound, path: root, line: 0, target: root })
    } else {
        match found_file(files, root, nothing_found(), MAX_INCLUDE_DEPTH as nat) {
            Ok(f) => Ok(f.names),
            Err(e) => Err(e),
        }
    }
}

/// A walk only adds to what was found before.
pub proof fn lemma_found_grows(
    files: Map<Seq<u8>, Seq<Row<Seq<u8>>>>,
    path: Seq<u8>,
    rows: Seq<Row<Seq<u8>>>,
    n: nat,
    acc: Found,
    fuel: nat,
)
    requires
        found_upto(files, path, rows, n, acc, fuel) is Ok,
    ensures
        acc.names.subset_of(found_upto(files, path, rows, n, acc, fuel)->Ok_0.names),
        acc.skipped.subset_of(found_upto(files, path, rows, n, acc, fuel)->Ok_0.skipped),
        found_upto(files, path, rows, n, acc, fuel)->Ok_0.inside == acc.inside,
    decreases fuel, n,
{
    if n > 0 {
        lemma_found_grows(files, path, rows, (n - 1) as nat, acc, fuel);
        let f = found_upto(files, path, rows, (n - 1) as nat, acc, fuel)->Ok_0;
        match rows[n - 1] {
            Row::Inc(p) => {
                if files.contains_key(p) && fuel > 0 {
                    lemma_found_grows_file(files, p, f, (fuel - 1) as nat);
                }
            },
            _ => {},
        }
    }
}

/// The walk of a file only adds to what was found before.
pub proof fn lemma_found_grows_file(
    files: Map<Seq<u8>, Seq<Row<Seq<u8>>>>,
    path: Seq<u8>,
    acc: Found,
    fuel: nat,
)
    requires
        found_file(files, path, acc, fuel) is Ok,
    ensures
        acc.names.subset_of(found_file(files, path, acc, fuel)->Ok_0.names),
        acc.skipped.subset_of(found_file(files, path, acc, fuel)->Ok_0.skipped),
        found_file(files, path, acc, fuel)->Ok_0.inside == acc.inside,
    decreases fuel, files[path].len() + 1,
{
    lemma_found_grows(
        files,
        path,
        files[path],
        files[path].len(),
        Found { inside: acc.inside.insert(path), ..acc },
        fuel,
    );
}

/// The walk of a file that went well goes the same way when more files are
/// there, none of which it has passed over.
pub proof fn lemma_more_files_found_file(
    a: Map<Seq<u8>, Seq<Row<Seq<u8>>>>,
    b: Map<Seq<u8>, Seq<Row<Seq<u8>>>>,
    path: Seq<u8>,
    acc: Found,
    fuel: nat,
)
    requires
        a.submap_of(b),
        a.contains_key(path),
        found_file(a, path, acc, fuel) is Ok,
        forall|p: Seq<u8>|
            found_file(a, path, acc, fuel)->Ok_0.skipped.contains(p) ==> !b.contains_key(p),
    ensures
        found_file(b, path, acc, fuel) == found_file(a, path, acc, fuel),
    decreases fuel, a[path].len() + 1,
{
    assert(a.dom().contains(path));
    assert(b.contains_key(path) && b[path] == a[path]);
    lemma_more_files_found(
        a,
        b,
        path,
        a[path],
        a[path].len(),
        Found { inside: acc.inside.insert(path), ..acc },
        fuel,
    );
}

/// A walk that went well goes the same way when more files are there, none
/// of which it has passed over.
pub proof fn lemma_more_files_found(
    a: Map<Seq<u8>, Seq<Row<Seq<u8>>>>,
    b: Map<Seq<u8>, Seq<Row<Seq<u8>>>>,
    path: Seq<u8>,
    rows: Seq<Row<Seq<u8>>>,
    n: nat,
    acc: Found,
    fuel: nat,
)
    requires
        a.submap_of(b),
        found_upto(a, path, rows, n, acc, fuel) is Ok,
        forall|p: Seq<u8>|
            found_upto(a, path, rows, n, acc, fuel)->Ok_0.skipped.contains(p) ==> !b.contains_key(p),
    ensures
        found_upto(b, path, rows, n, acc, fuel) == found_upto(a, path, rows, n, acc, fuel),
    decreases fuel, n,
{
    if n > 0 {
        let f = found_upto(a, path, rows, (n - 1) as nat, acc, fuel)->Ok_0;
        let last = found_upto(a, path, rows, n, acc, fuel)->Ok_0;
        match rows[n - 1] {
            Row::Inc(p) => {
                if !a.contains_key(p) {
                    assert(last.skipped.contains(p));
                    assert(f.skipped.subset_of(last.skipped));
                } else {
                    lemma_found_grows_file(a, p, f, (fuel - 1) as nat);
                    lemma_more_files_found_file(a, b, p, f, (fuel - 1) as nat);
                    assert(b.contains_key(p));
                }
            },
            _ => {},
        }
        lemma_more_files_found(a, b, path, rows, (n - 1) as nat, acc, fuel);
    }
}

/// An error stops the walk: it is what the walk of any more lines comes to.
pub proof fn lemma_found_error_stays(
    files: Map<Seq<u8>, Seq<Row<Seq<u8>>>>,
    path: Seq<u8>,
    rows: Seq<Row<Seq<u8>>>,
    n: nat,
    later: nat,
    acc: Found,
    fuel: nat,
)
    requires
        n <= later,
        found_upto(files, path, rows, n, acc, fuel) is Err,
    ensures
        found_upto(files, path, rows, later, acc, fuel) == found_upto(
            files,
            path,
            rows,
            n,
            acc,
            fuel,
        ),
    decreases later - n,
{
    if n < later {
        lemma_found_error_stays(files, path, rows, n, (later - 1) as nat, acc, fuel);
    }
}

fn add_names(found: &mut SymbolSet, exp: &Exp<&str>)
    ensures
        final(found)@ == old(found)@.union(exp_names(exp_text(exp.ops@))),
{
    let ghost text = exp_text(exp.ops@);
    let mut i: usize = 0;
    proof {
        assert(old(found)@.union(exp_names(text.take(0))) =~= old(found)@);
    }
    while i < exp.ops.len()
        invariant
            0 <= i <= exp.ops@.len(),
            text == exp_text(exp.ops@),
            found@ == old(found)@.union(exp_names(text.take(i as int))),
        decreases exp.ops@.len() - i,
    {
        let ghost before = found@;
        match &exp.ops[i] {
            Op::Var(name) => {
                found.insert(*name);
            },
            _ => {},
        }
        proof {
            let longer = text.take(i + 1);
            let shorter = text.take(i as int);
            let more = exp_names(longer);
            let less = exp_names(shorter);
            assert(text[i as int] == op_text(exp.ops@[i as int]));
            assert forall|n: Seq<u8>| more.contains(n) <==> (less.contains(n) || text[i as int]
                == Op::Var(n)) by {
                if more.contains(n) {
                    let k = choose|k: int| 0 <= k < longer.len() && longer[k] == Op::Var(n);
                    if k < i {
                        assert(shorter[k] == Op::Var(n));
                    }
                }
                if less.contains(n) {
                    let k = choose|k: int| 0 <= k < shorter.len() && shorter[k] == Op::Var(n);
                    assert(longer[k] == Op::Var(n));
                }
                if text[i as int] == Op::Var(n) {
                    assert(longer[i as int] == Op::Var(n));
                }
            }
            assert(found@ =~= old(found)@.union(more));
        }
        i = i + 1;
    }
    proof {
        assert(text.take(i as int) =~= text);
    }
}

/// Walks the file `file`, which the cache holds under `path`, and the files
/// it includes, which are loaded as they are met: puts the names that the
/// lines speak of into `found`, and the paths of includes whose file cannot
/// be had into `missing`. A path in `missing` is not asked for again.
/// `inside` holds the paths of the files that are being walked, and is left
/// as it was where the walk goes well.
///
/// What comes out is what `found_file` says of the cache as it is afterwards.
pub fn collect(
    files: &mut FileCache,
    config: &Config,
    loader: &Box<dyn FileLoader>,
    found: &mut SymbolSet,
    missing: &mut SymbolSet,
    inside: &mut SymbolSet,
    path: &str,
    file: &File,
    fuel: usize,
) -> (r: Result<(), ProcessError>)
    requires
        config.wf(),
        old(files)@.contains_key(path.spec_bytes()),
        old(files)@[path.spec_bytes()] == *file,
        forall|p: Seq<u8>| old(missing)@.contains(p) ==> !old(files)@.contains_key(p),
    ensures
        grown(old(files)@, final(files)@, config.rules()),
        old(missing)@.subset_of(final(missing)@),
        forall|p: Seq<u8>| final(missing)@.contains(p) ==> !final(files)@.contains_key(p),
        match found_file(
            sources(final(files)@),
            path.spec_bytes(),
            Found { names: old(found)@, skipped: old(missing)@, inside: old(inside)@ },
            fuel as nat,
        ) {
            Ok(f) => r is Ok && final(found)@ == f.names && final(missing)@ == f.skipped
                && final(inside)@ == f.inside,
            Err(fault) => r matches Err(e) && e@ == fault && cause_told(e),
        },
    decreases fuel,
{
    let ghost entry = Found { names: found@, skipped: missing@, inside: inside@ };
    let ghost me = path.spec_bytes();
    let fresh = inside.insert(path);
    let ghost start = Found { names: found@, skipped: missing@, inside: inside@ };
    let ghost rows = file.text();
    let n = file.len();
    let mut i: usize = 0;
    proof {
        lemma_sources_grow(old(files)@, files@);
    }
    while i < n
        invariant
            config.wf(),
            0 <= i <= n,
            n == rows.len(),
            rows == file.text(),
            n == file.rows().len(),
            me == path.spec_bytes(),
            entry == (Found {
                names: old(found)@,
                skipped: old(missing)@,
                inside: old(inside)@,
            }),
            start == (Found { inside: entry.inside.insert(me), ..entry }),
            grown(old(files)@, files@, config.rules()),
            old(missing)@.subset_of(missing@),
            files@.contains_key(me),
            files@[me] == *file,
            forall|p: Seq<u8>| missing@.contains(p) ==> !files@.contains_key(p),
            found_upto(sources(files@), me, rows, i as nat, start, fuel as nat) == Ok::<
                Found,
                Fault,
            >(Found { names: found@, skipped: missing@, inside: inside@ }),
        decreases n - i,
    {
        let ghost before = Found { names: found@, skipped: missing@, inside: inside@ };
        let ghost seen = files@;
        let line = file.line(i);
        proof {
            assert(sources(seen)[me] == rows);
        }
        match &line {
            Line::Inc(target) => {
                if inside.contains(*target) {
                    proof {
                        lemma_found_error_stays(
                            sources(files@),
                            me,
                            rows,
                            (i + 1) as nat,
                            n as nat,
                            start,
                            fuel as nat,
                        );
                    }
                    return Err(cycle(path, i + 1, *target));
                }
                if missing.contains(*target) {
                    proof {
                        assert(missing@.insert(target.spec_bytes()) =~= missing@);
                    }
                } else {
                    match load(files, config, loader, *target) {
                        Err(_) => {
                            missing.insert(*target);
                        },
                        Ok(inner) => {
                            if fuel == 0 {
                                proof {
                                    lemma_sources_grow(seen, files@);
                                    lemma_grown_twice(old(files)@, seen, files@, config.rules());
                                    lemma_more_files_found(
                                        sources(seen),
                                        sources(files@),
                                        me,
                                        rows,
                                        i as nat,
                                        start,
                                        fuel as nat,
                                    );
                                    assert(seen.dom().contains(me));
                                    assert(files@.dom().contains(me));
                                    assert(sources(files@)[me] == rows);
                                    lemma_found_error_stays(
                                        sources(files@),
                                        me,
                                        rows,
                                        (i + 1) as nat,
                                        n as nat,
                                        start,
                                        fuel as nat,
                                    );
                                }
                                return Err(
                                    ProcessError {
                                        flaw: Flaw::TooDeep,
                                        path: path.to_owned(),
                                        line: i + 1,
                                        target: (*target).to_owned(),
                                        cause: None,
                                    },
                                );
                            }
                            let ghost loaded = files@;
                            let done = collect(
                                files,
                                config,
                                loader,
                                found,
                                missing,
                                inside,
                                *target,
                                &inner,
                                fuel - 1,
                            );
                            proof {
                                lemma_grown_twice(seen, loaded, files@, config.rules());
                                lemma_grown_twice(old(files)@, seen, files@, config.rules());
                                lemma_sources_grow(seen, files@);
                                assert(before.skipped.subset_of(missing@));
                                assert forall|p: Seq<u8>|
                                    before.skipped.contains(p) implies !sources(
                                    files@,
                                ).contains_key(p) by {
                                    assert(missing@.contains(p));
                                }
                                lemma_more_files_found(
                                    sources(seen),
                                    sources(files@),
                                    me,
                                    rows,
                                    i as nat,
                                    start,
                                    fuel as nat,
                                );
                                assert(loaded.dom().contains(target.spec_bytes()));
                                assert(files@.dom().contains(target.spec_bytes()));
                                assert(sources(files@).contains_key(target.spec_bytes()));
                                assert(seen.dom().contains(me));
                                assert(files@.dom().contains(me));
                                assert(sources(files@)[me] == rows);
                            }
                            match done {
                                Ok(()) => {},
                                Err(e) => {
                                    proof {
                                        lemma_found_error_stays(
                                            sources(files@),
                                            me,
                                            rows,
                                            (i + 1) as nat,
                                            n as nat,
                                            start,
                                            fuel as nat,
                                        );
                                    }
                                    return Err(e);
                                },
                            }
                        },
                    }
                }
            },
            Line::Def(name) => {
                found.insert(*name);
                proof {
                    assert(found@ =~= before.names.union(row_names(rows[i as int])));
                }
            },
            Line::If(exp) => {
                add_names(found, exp);
            },
            Line::Elif(exp) => {
                add_names(found, exp);
            },
            _ => {
                proof {
                    assert(found@ =~= before.names.union(row_names(rows[i as int])));
                }
            },
        }
        i = i + 1;
    }
    proof {
        lemma_found_grows(sources(files@), me, rows, n as nat, start, fuel as nat);
    }
    if fresh {
        inside.remove(path);
    }
    proof {
        assert(inside@ =~= entry.inside);
    }
    Ok(())
}

impl PreProcessor {
    /// Puts into `defines` every name that the file of `path` and the files
    /// it includes speak of: the names they define, and the names in their
    /// conditions, whichever branch they stand in. Then `0`, `1`, `true` and
    /// `false` are taken out of `defines`. An include whose file cannot be
    /// had is passed over; a file that includes itself, directly or through
    /// others, is an error. Where there is an error `defines` is left as it
    /// was.
    ///
    /// Files are loaded as they are met and kept in the cache. What comes out
    /// is what `defines_spec` says of the cache as it is afterwards.
    pub fn find_defines_of(&mut self, path: &str, defines: &mut SymbolSet) -> (r: Result<
        (),
        ProcessError,
    >)
        requires
            old(self).config.wf(),
        ensures
            final(self).config == old(self).config,
            final(self).defines == old(self).defines,
            final(self).run == old(self).run,
            grown(old(self).files@, final(self).files@, old(self).config.rules()),
            match defines_spec(sources(final(self).files@), path.spec_bytes()) {
                Ok(names) => r is Ok && final(defines)@ == old(defines)@.union(names).difference(
                    constants(),
                ),
                Err(fault) => r matches Err(e) && e@ == fault && cause_told(e) && final(defines)@
                    == old(defines)@,
            },
    {
        let file = match load(&mut self.files, &self.config, &self.file_loader, path) {
            Ok(file) => file,
            Err(cause) => {
                return Err(file_missing(path, 0, path, cause));
            },
        };
        let mut found = SymbolSet::new();
        let mut missing = SymbolSet::new();
        let mut inside = SymbolSet::new();
        let ghost loaded = self.files@;
        let done = collect(
            &mut self.files,
            &self.config,
            &self.file_loader,
            &mut found,
            &mut missing,
            &mut inside,
            path,
            &file,
            MAX_INCLUDE_DEPTH,
        );
        proof {
            lemma_grown_twice(old(self).files@, loaded, self.files@, self.config.rules());
            assert(loaded.dom().contains(path.spec_bytes()));
            assert(self.files@.dom().contains(path.spec_bytes()));
            assert(sources(self.files@).contains_key(path.spec_bytes()));
        }
        match done {
            Ok(()) => {},
            Err(e) => {
                return Err(e);
            },
        }
        defines.extend(&found);
        defines.remove("0");
        defines.remove("1");
        defines.remove("true");
        defines.remove("false");
        proof {
            assert(defines@ =~= old(defines)@.union(found@).difference(constants()));
        }
        Ok(())
    }
}

/// Whether a line of the file `from` includes the file `to`, both being
/// there.
pub open spec fn includes(files: Map<Seq<u8>, Seq<Row<Seq<u8>>>>, from: Seq<u8>, to: Seq<u8>) -> bool {
    files.contains_key(from) && files.contains_key(to) && exists|i: int|
        0 <= i < files[from].len() && #[trigger] files[from][i] == Row::<Seq<u8>>::Inc(to)
}

/// Whether the file `path` is reached from the file `root` by `steps`
/// includes, one in the other.
pub open spec fn reaches(
    files: Map<Seq<u8>, Seq<Row<Seq<u8>>>>,
    root: Seq<u8>,
    path: Seq<u8>,
    steps: nat,
) -> bool
    decreases steps,
{
    if steps == 0 {
        path == root && files.contains_key(root)
    } else {
        exists|mid: Seq<u8>|
            reaches(files, root, mid, (steps - 1) as nat) && #[trigger] includes(files, mid, path)
    }
}

/// What was found after fewer lines is found after more.
pub proof fn lemma_found_later(
    files: Map<Seq<u8>, Seq<Row<Seq<u8>>>>,
    path: Seq<u8>,
    rows: Seq<Row<Seq<u8>>>,
    n: nat,
    later: nat,
    acc: Found,
    fuel: nat,
)
    requires
        n <= later,
        found_upto(files, path, rows, later, acc, fuel) is Ok,
    ensures
        found_upto(files, path, rows, n, acc, fuel) is Ok,
        found_upto(files, path, rows, n, acc, fuel)->Ok_0.names.subset_of(
            found_upto(files, path, rows, later, acc, fuel)->Ok_0.names,
        ),
    decreases later - n,
{
    if n < later {
        let f = found_upto(files, path, rows, (later - 1) as nat, acc, fuel)->Ok_0;
        match rows[later - 1] {
            Row::Inc(p) => {
                if files.contains_key(p) {
                    lemma_found_grows_file(files, p, f, (fuel - 1) as nat);
                }
            },
            _ => {},
        }
        lemma_found_later(files, path, rows, n, (later - 1) as nat, acc, fuel);
    }
}

/// The names of every line of a file that was walked are found.
pub proof fn lemma_line_names_found(
    files: Map<Seq<u8>, Seq<Row<Seq<u8>>>>,
    path: Seq<u8>,
    acc: Found,
    fuel: nat,
    i: int,
)
    requires
        found_file(files, path, acc, fuel) is Ok,
        0 <= i < files[path].len(),
    ensures
        row_names(files[path][i]).subset_of(found_file(files, path, acc, fuel)->Ok_0.names),
{
    let rows = files[path];
    let start = Found { inside: acc.inside.insert(path), ..acc };
    lemma_found_later(files, path, rows, (i + 1) as nat, rows.len(), start, fuel);
    lemma_found_later(files, path, rows, i as nat, (i + 1) as nat, start, fuel);
}

/// A file that a walked file includes is walked too, and what is found in it
/// is found in the end. The result is what had been found when the walk came
/// to it.
pub proof fn lemma_include_walked(
    files: Map<Seq<u8>, Seq<Row<Seq<u8>>>>,
    path: Seq<u8>,
    acc: Found,
    fuel: nat,
    i: int,
    to: Seq<u8>,
) -> (before: Found)
    requires
        found_file(files, path, acc, fuel) is Ok,
        0 <= i < files[path].len(),
        files[path][i] == Row::<Seq<u8>>::Inc(to),
        files.contains_key(to),
    ensures
        fuel > 0,
        found_file(files, to, before, (fuel - 1) as nat) is Ok,
        found_file(files, to, before, (fuel - 1) as nat)->Ok_0.names.subset_of(
            found_file(files, path, acc, fuel)->Ok_0.names,
        ),
{
    let rows = files[path];
    let start = Found { inside: acc.inside.insert(path), ..acc };
    lemma_found_later(files, path, rows, (i + 1) as nat, rows.len(), start, fuel);
    lemma_found_later(files, path, rows, i as nat, (i + 1) as nat, start, fuel);
    found_upto(files, path, rows, i as nat, start, fuel)->Ok_0
}

/// A file that is reached from the root was walked, and what was found in
/// it is found in the end. The result is what had been found when the walk
/// came to it, and the levels of includes that were left.
pub proof fn lemma_reached_walked(
    files: Map<Seq<u8>, Seq<Row<Seq<u8>>>>,
    root: Seq<u8>,
    path: Seq<u8>,
    steps: nat,
) -> (at: (Found, nat))
    requires
        defines_spec(files, root) is Ok,
        reaches(files, root, path, steps),
    ensures
        files.contains_key(path),
        found_file(files, path, at.0, at.1) is Ok,
        found_file(files, path, at.0, at.1)->Ok_0.names.subset_of(defines_spec(files, root)->Ok_0),
    decreases steps,
{
    if steps == 0 {
        (nothing_found(), MAX_INCLUDE_DEPTH as nat)
    } else {
        let mid = choose|mid: Seq<u8>|
            reaches(files, root, mid, (steps - 1) as nat) && #[trigger] includes(files, mid, path);
        let at_mid = lemma_reached_walked(files, root, mid, (steps - 1) as nat);
        let i = choose|i: int|
            0 <= i < files[mid].len() && #[trigger] files[mid][i] == Row::<Seq<u8>>::Inc(path);
        let before = lemma_include_walked(files, mid, at_mid.0, at_mid.1, i, path);
        (before, (at_mid.1 - 1) as nat)
    }
}

/// Every name that a file speaks of which is reached from the root by
/// includes, in a definition or in a condition, is among the names that
/// `find_defines_of` finds for the root.
pub proof fn lemma_defines_cover(
    files: Map<Seq<u8>, Seq<Row<Seq<u8>>>>,
    root: Seq<u8>,
    path: Seq<u8>,
    steps: nat,
    i: int,
    name: Seq<u8>,
)
    requires
        defines_spec(files, root) is Ok,
        reaches(files, root, path, steps),
        0 <= i < files[path].len(),
        row_names(files[path][i]).contains(name),
    ensures
        defines_spec(files, root)->Ok_0.contains(name),
{
    let at = lemma_reached_walked(files, root, path, steps);
    lemma_line_names_found(files, path, at.0, at.1, i);
}

/// Whether no file that is reached from `root` by includes reaches itself.
pub open spec fn acyclic(files: Map<Seq<u8>, Seq<Row<Seq<u8>>>>, root: Seq<u8>) -> bool {
    forall|p: Seq<u8>, i: nat, k: nat|
        #[trigger] reaches(files, root, p, i) && k > 0 ==> !#[trigger] reaches(files, p, p, k)
}

/// Whether the walk from `root` can stand in the file `path`: the files that
/// are being walked are there, each of them is reached from the root and
/// reaches `path`, and as many levels of includes are left as the measure
/// allows.
pub open spec fn on_the_way(
    files: Map<Seq<u8>, Seq<Row<Seq<u8>>>>,
    root: Seq<u8>,
    path: Seq<u8>,
    inside: Set<Seq<u8>>,
    fuel: nat,
) -> bool {
    &&& inside.finite()
    &&& inside.contains(path)
    &&& inside.len() + fuel == MAX_INCLUDE_DEPTH + 1
    &&& forall|q: Seq<u8>| #[trigger]
        inside.contains(q) ==> files.contains_key(q) && (exists|i: nat|
            #[trigger] reaches(files, root, q, i)) && (exists|k: nat| #[trigger]
            reaches(files, q, path, k))
}

/// A file that is reached and includes another reaches that one.
proof fn lemma_reaches_on(
    files: Map<Seq<u8>, Seq<Row<Seq<u8>>>>,
    from: Seq<u8>,
    path: Seq<u8>,
    to: Seq<u8>,
    steps: nat,
)
    requires
        reaches(files, from, path, steps),
        includes(files, path, to),
    ensures
        reaches(files, from, to, steps + 1),
{
}

/// The walk of a file goes well where the walk of its lines does.
proof fn lemma_file_goes_well(
    files: Map<Seq<u8>, Seq<Row<Seq<u8>>>>,
    path: Seq<u8>,
    acc: Found,
    fuel: nat,
)
    requires
        found_upto(
            files,
            path,
            files[path],
            files[path].len(),
            Found { inside: acc.inside.insert(path), ..acc },
            fuel,
        ) is Ok,
    ensures
        found_file(files, path, acc, fuel) is Ok,
{
}

/// Where the includes make no cycle and the files are fewer than the
/// measure counts, the walk of the first `n` lines of a file on the way goes
/// well.
pub proof fn lemma_walk_goes_well(
    files: Map<Seq<u8>, Seq<Row<Seq<u8>>>>,
    root: Seq<u8>,
    path: Seq<u8>,
    n: nat,
    acc: Found,
    fuel: nat,
)
    requires
        files.dom().finite(),
        files.dom().len() < MAX_INCLUDE_DEPTH,
        acyclic(files, root),
        n <= files[path].len(),
        on_the_way(files, root, path, acc.inside, fuel),
    ensures
        found_upto(files, path, files[path], n, acc, fuel) is Ok,
    decreases fuel, n,
{
    let rows = files[path];
    if n > 0 {
        lemma_walk_goes_well(files, root, path, (n - 1) as nat, acc, fuel);
        lemma_found_grows(files, path, rows, (n - 1) as nat, acc, fuel);
        let f = found_upto(files, path, rows, (n - 1) as nat, acc, fuel)->Ok_0;
        let inside = acc.inside;
        match rows[n - 1] {
            Row::Inc(p) => {
                assert(files.contains_key(path));
                let i = choose|i: nat| #[trigger] reaches(files, root, path, i);
                if files.contains_key(p) {
                    assert(includes(files, path, p)) by {
                        assert(rows[n - 1] == Row::<Seq<u8>>::Inc(p));
                    }
                    lemma_reaches_on(files, root, path, p, i);
                }
                if inside.contains(p) {
                    let k = choose|k: nat| #[trigger] reaches(files, p, path, k);
                    lemma_reaches_on(files, p, path, p, k);
                    assert(false);
                } else if files.contains_key(p) {
                    assert(inside.subset_of(files.dom()));
                    vstd::set_lib::lemma_len_subset(inside.insert(p), files.dom());
                    let next = Found { inside: inside.insert(p), ..f };
                    assert(on_the_way(files, root, p, next.inside, (fuel - 1) as nat)) by {
                        assert(reaches(files, p, p, 0));
                        assert forall|q: Seq<u8>| #[trigger]
                            next.inside.contains(q) implies files.contains_key(q) && (exists|
                            j: nat,
                        | #[trigger]
                            reaches(files, root, q, j)) && (exists|k: nat| #[trigger]
                            reaches(files, q, p, k)) by {
                            if q == p {
                                assert(reaches(files, root, p, i + 1));
                                assert(reaches(files, p, p, 0));
                            } else {
                                assert(inside.contains(q));
                                let k = choose|k: nat| #[trigger] reaches(files, q, path, k);
                                lemma_reaches_on(files, q, path, p, k);
                                assert(reaches(files, q, p, k + 1));
                            }
                        }
                    }
                    lemma_walk_goes_well(files, root, p, files[p].len(), next, (fuel - 1) as nat);
                    lemma_file_goes_well(files, p, f, (fuel - 1) as nat);
                }
            },
            _ => {},
        }
    }
}

/// Where the root is there, the includes make no cycle and the files are
/// fewer than the measure counts, the names of the root are found: nothing
/// but a root that is not there or a file that includes itself stops
/// `find_defines_of`.
pub proof fn lemma_defines_found(files: Map<Seq<u8>, Seq<Row<Seq<u8>>>>, root: Seq<u8>)
    requires
        files.contains_key(root),
        files.dom().finite(),
        files.dom().len() < MAX_INCLUDE_DEPTH,
        acyclic(files, root),
    ensures
        defines_spec(files, root) is Ok,
{
    let start = Found { inside: nothing_found().inside.insert(root), ..nothing_found() };
    assert(reaches(files, root, root, 0));
    assert(start.inside.len() == 1) by {
        assert(start.inside =~= Set::<Seq<u8>>::empty().insert(root));
    }
    assert(on_the_way(files, root, root, start.inside, MAX_INCLUDE_DEPTH as nat));
    lemma_walk_goes_well(files, root, root, files[root].len(), start, MAX_INCLUDE_DEPTH as nat);
}

/// Where the root is there, the includes make no cycle and the files are
/// fewer than the measure counts, every name that a file speaks of which is
/// reached from the root, in a definition or in a condition of any branch, is
/// among the names that `find_defines_of` finds for the root.
pub proof fn lemma_defines_cover_all(
    files: Map<Seq<u8>, Seq<Row<Seq<u8>>>>,
    root: Seq<u8>,
    path: Seq<u8>,
    steps: nat,
    i: int,
    name: Seq<u8>,
)
    requires
        files.contains_key(root),
        files.dom().finite(),
        files.dom().len() < MAX_INCLUDE_DEPTH,
        acyclic(files, root),
        reaches(files, root, path, steps),
        0 <= i < files[path].len(),
        row_names(files[path][i]).contains(name),
    ensures
        defines_spec(files, root) matches Ok(names) && names.contains(name),
{
    lemma_defines_found(files, root);
    lemma_defines_cover(files, root, path, steps, i, name);
}

} // verus!
