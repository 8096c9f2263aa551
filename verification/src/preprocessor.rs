//! The preprocessor: a loader, a cache of the files it has loaded, and the
//! symbols of the user.

use std::rc::Rc;
use vstd::prelude::*;
use vstd::string::*;
use vstd::utf8::*;
use crate::cache::{no_files, sources, FileCache};
use crate::driver::{
    cause_told, file_missing, grown, lemma_grown_twice, load, process_file, process_spec,
    ProcessError, MAX_INCLUDE_DEPTH,
};
use crate::exp::{sentinels, Ctx};
use crate::file::File;
use crate::format::lemma_encode_concat;
use crate::line::{default_rules, Config};
use crate::loader::FileLoader;
use crate::machine::{lines_bytes, start_machine, Cond, Runner};
use crate::parser::NEWLINE;
use crate::scan::ScanError;
use crate::symbols::SymbolSet;

verus! {

/// The lines, each followed by a newline, one behind the other.
pub open spec fn joined(lines: Seq<Seq<u8>>) -> Seq<u8>
    decreases lines.len(),
{
    if lines.len() == 0 {
        Seq::empty()
    } else {
        joined(lines.drop_last()) + lines.last() + seq![NEWLINE]
    }
}

/// A preprocessor.
pub struct PreProcessor {
    /// How directives are written.
    pub config: Config,
    /// Where sources come from.
    pub file_loader: Box<dyn FileLoader>,
    /// The files that have been loaded.
    pub files: FileCache,
    /// The symbols of the user: they are defined where processing starts.
    pub defines: SymbolSet,
    /// The state of processing.
    pub run: Runner,
    /// How many lines the last processing emitted; 1 before anything was
    /// processed.
    pub outputted_line_count: usize,
}

impl PreProcessor {
    /// A preprocessor that gets its sources from `file_loader`, with the
    /// configuration by default, no file loaded and no symbol of the user.
    /// Its state is the one in which processing starts with `true` and `1`
    /// defined, and its count of lines is 1 until something is processed.
    pub fn with_loader(file_loader: Box<dyn FileLoader>) -> (p: PreProcessor)
        ensures
            p.file_loader === file_loader,
            p.config.rules() == default_rules(),
            p.config.wf(),
            p.files@ == no_files(),
            p.defines@ == Set::<Seq<u8>>::empty(),
            p.run.machine(Seq::empty()) == start_machine(Set::empty()),
            p.outputted_line_count == 1,
    {
        let p = PreProcessor {
            config: Config::default(),
            file_loader,
            files: FileCache::new(),
            defines: SymbolSet::new(),
            run: Runner::new(Ctx::new()),
            outputted_line_count: 1,
        };
        proof {
            assert(lines_bytes(Seq::<String>::empty()) =~= Seq::<Seq<u8>>::empty());
            assert(sentinels().union(Set::<Seq<u8>>::empty()) =~= sentinels());
        }
        p
    }

    /// The file of `path`: the one that the cache holds, or else the one that
    /// the loader returns, which is scanned and kept. The error is `None`
    /// where the loader has no such file, and the error of the scanner where
    /// it has one that cannot be scanned.
    pub fn preload(&mut self, path: &str) -> (r: Result<Rc<File>, Option<ScanError>>)
        requires
            old(self).config.wf(),
        ensures
            final(self).config == old(self).config,
            final(self).defines == old(self).defines,
            final(self).run == old(self).run,
            grown(old(self).files@, final(self).files@, old(self).config.rules()),
            old(self).files@.contains_key(path.spec_bytes()) ==> r is Ok,
            match r {
                Ok(file) => final(self).files@ == old(self).files@.insert(path.spec_bytes(), *file),
                Err(_) => final(self).files@ == old(self).files@ && !old(self).files@.contains_key(
                    path.spec_bytes(),
                ),
            },
    {
        load(&mut self.files, &self.config, &self.file_loader, path)
    }

    /// Processes the file of `path`: emits the enabled lines of the file and
    /// of the files it includes, in order, with `true`, `1` and the symbols
    /// of the user defined at the start. The conditional blocks of a file are
    /// its own, and a file that includes itself, directly or through others,
    /// is an error.
    ///
    /// Files are loaded as they are met and kept in the cache. What comes out
    /// is what `process_spec` says of the cache as it is afterwards. Nothing
    /// is emitted where there is an error.
    pub fn process(&mut self, path: &str) -> (r: Result<Vec<String>, ProcessError>)
        requires
            old(self).config.wf(),
        ensures
            final(self).config == old(self).config,
            final(self).defines == old(self).defines,
            grown(old(self).files@, final(self).files@, old(self).config.rules()),
            match process_spec(
                sources(final(self).files@),
                path.spec_bytes(),
                old(self).defines@,
            ) {
                Ok(lines) => r matches Ok(v) && lines_bytes(v@) == lines
                    && final(self).outputted_line_count == lines.len(),
                Err(fault) => r matches Err(e) && e@ == fault && cause_told(e),
            },
    {
        let file = match load(&mut self.files, &self.config, &self.file_loader, path) {
            Ok(file) => file,
            Err(cause) => {
                return Err(file_missing(path, 0, path, cause));
            },
        };
        self.run.ctx.clear();
        self.run.ctx.vars.extend(&self.defines);
        self.run.state = Cond { value: true, flipped: true, taken: true };
        self.run.stack.clear();
        self.run.base = 0;
        self.run.inside.clear();
        self.outputted_line_count = 0;
        let mut out: Vec<String> = Vec::new();
        proof {
            assert(lines_bytes(out@) =~= Seq::<Seq<u8>>::empty());
            assert(self.run.machine(out@) == start_machine(self.defines@));
        }
        let ghost loaded = self.files@;
        let done = process_file(
            &mut self.files,
            &self.config,
            &self.file_loader,
            &mut self.run,
            &mut out,
            path,
            &file,
            MAX_INCLUDE_DEPTH,
        );
        proof {
            lemma_grown_twice(old(self).files@, loaded, self.files@, self.config.rules());
            assert(loaded.contains_key(path.spec_bytes()));
            assert(loaded.dom().contains(path.spec_bytes()));
            assert(self.files@.dom().contains(path.spec_bytes()));
            assert(sources(self.files@).contains_key(path.spec_bytes()));
        }
        match done {
            Ok(()) => {
                self.outputted_line_count = out.len();
                Ok(out)
            },
            Err(e) => Err(e),
        }
    }

    /// Processes the file of `path` and appends every emitted line to
    /// `string`, each followed by a newline. Where there is an error `string`
    /// is left as it was.
    pub fn process_to_str(&mut self, path: &str, string: &mut String) -> (r: Result<
        (),
        ProcessError,
    >)
        requires
            old(self).config.wf(),
        ensures
            final(self).config == old(self).config,
            final(self).defines == old(self).defines,
            grown(old(self).files@, final(self).files@, old(self).config.rules()),
            match process_spec(
                sources(final(self).files@),
                path.spec_bytes(),
                old(self).defines@,
            ) {
                Ok(lines) => r is Ok && encode_utf8(final(string)@) == encode_utf8(old(string)@)
                    + joined(lines),
                Err(fault) => r matches Err(e) && e@ == fault && cause_told(e) && final(string)@
                    == old(string)@,
            },
    {
        let lines = match self.process(path) {
            Ok(lines) => lines,
            Err(e) => {
                return Err(e);
            },
        };
        let mut i: usize = 0;
        proof {
            assert(lines_bytes(lines@).take(0) =~= Seq::<Seq<u8>>::empty());
            assert(encode_utf8(string@) + joined(Seq::<Seq<u8>>::empty()) =~= encode_utf8(string@));
        }
        while i < lines.len()
            invariant
                0 <= i <= lines@.len(),
                encode_utf8(string@) == encode_utf8(old(string)@) + joined(
                    lines_bytes(lines@).take(i as int),
                ),
            decreases lines@.len() - i,
        {
            let ghost before = string@;
            string.append(lines[i].as_str());
            string.append("\n");
            proof {
                reveal_strlit("\n");
                let all = lines_bytes(lines@);
                let line = lines@[i as int]@;
                assert(all.take(i + 1).drop_last() =~= all.take(i as int));
                assert(all.take(i + 1).last() == encode_utf8(line));
                assert(string@ =~= before + line + "\n"@);
                lemma_encode_concat(before + line, "\n"@);
                lemma_encode_concat(before, line);
                is_ascii_chars_encode_utf8("\n"@);
                assert(encode_utf8("\n"@) =~= seq![NEWLINE]);
                assert(encode_utf8(string@) =~= encode_utf8(old(string)@) + joined(
                    all.take(i + 1),
                ));
            }
            i = i + 1;
        }
        proof {
            assert(lines_bytes(lines@).take(i as int) =~= lines_bytes(lines@));
        }
        Ok(())
    }
}

} // verus!
