//! The files that have been loaded, by their path.

use std::rc::Rc;
use vstd::prelude::*;
use vstd::string::*;
use crate::file::File;
use crate::line::Row;

verus! {

/// The files that have been loaded and scanned, by the path they were asked
/// for, kept in a `hashbrown::HashMap` from `String` to `Rc<File>`.
///
/// The map is opaque to the verifier; `cache_files` stands for what it holds.
#[verifier::external_body]
pub struct FileCache {
    files: hashbrown::HashMap<String, Rc<File>>,
}

/// The files that a cache holds, each under the UTF-8 bytes of its path.
pub uninterp spec fn cache_files(c: FileCache) -> Map<Seq<u8>, File>;

impl View for FileCache {
    type V = Map<Seq<u8>, File>;

    open spec fn view(&self) -> Map<Seq<u8>, File> {
        cache_files(*self)
    }
}

/// `hashbrown::HashMap::default`: a map that holds nothing.
#[verifier::external_body]
fn raw_empty() -> (c: FileCache)
    ensures
        cache_files(c) == no_files(),
{
    FileCache { files: hashbrown::HashMap::default() }
}

/// `hashbrown::HashMap::get`: the file kept under the path, if there is one.
/// What is handed out is another `Rc` to the same file.
#[verifier::external_body]
fn raw_get(c: &FileCache, path: &str) -> (found: Option<Rc<File>>)
    ensures
        found is Some == cache_files(*c).contains_key(path.spec_bytes()),
        found matches Some(file) ==> *file == cache_files(*c)[path.spec_bytes()],
{
    c.files.get(path).cloned()
}

/// `hashbrown::HashMap::insert`: the file is kept under the path afterwards,
/// in place of what was there, and nothing else changed. As vstd does for
/// `Vec::push`, running out of memory is not modelled.
#[verifier::external_body]
fn raw_put(c: &mut FileCache, path: &str, file: Rc<File>)
    ensures
        cache_files(*final(c)) == cache_files(*old(c)).insert(path.spec_bytes(), *file),
{
    c.files.insert(path.to_owned(), file);
}

/// No file at all.
pub open spec fn no_files() -> Map<Seq<u8>, File> {
    Map::empty()
}

/// The lines of each file of a cache, by the path of the file.
pub open spec fn sources(files: Map<Seq<u8>, File>) -> Map<Seq<u8>, Seq<Row<Seq<u8>>>> {
    Map::new(|p: Seq<u8>| files.contains_key(p), |p: Seq<u8>| files[p].text())
}

impl FileCache {
    /// A cache that holds no file.
    pub fn new() -> (c: FileCache)
        ensures
            c@ == no_files(),
    {
        raw_empty()
    }

    /// The file kept under `path`, if there is one.
    pub fn get(&self, path: &str) -> (found: Option<Rc<File>>)
        ensures
            found is Some == self@.contains_key(path.spec_bytes()),
            found matches Some(file) ==> *file == self@[path.spec_bytes()],
    {
        raw_get(self, path)
    }

    /// Keeps `file` under `path`, unless a file is kept there already; hands
    /// out the file that is kept there afterwards.
    pub fn keep(&mut self, path: &str, file: File) -> (kept: Rc<File>)
        ensures
            old(self)@.contains_key(path.spec_bytes()) ==> final(self)@ == old(self)@ && *kept
                == old(self)@[path.spec_bytes()],
            !old(self)@.contains_key(path.spec_bytes()) ==> final(self)@ == old(self)@.insert(
                path.spec_bytes(),
                file,
            ) && *kept == file,
    {
        match raw_get(self, path) {
            Some(kept) => kept,
            None => {
                let kept = Rc::new(file);
                raw_put(self, path, kept.clone());
                kept
            },
        }
    }
}

} // verus!
