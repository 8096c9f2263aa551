//! Where sources come from.

use vstd::prelude::*;
use vstd::string::*;
use vstd::utf8::*;

verus! {

/// A way to get the text of a source by its path.
///
/// Nothing is promised of what `load` returns: it may depend on what is on
/// disk, and two calls may differ.
pub trait FileLoader {
    /// The text of the source at `path`, or `None` if there is none.
    fn load(&self, path: &str) -> (data: Option<String>);
}

/// A loader that finds nothing.
pub struct NoFileLoader;

impl FileLoader for NoFileLoader {
    fn load(&self, path: &str) -> (data: Option<String>)
        ensures
            data is None,
    {
        None
    }
}

/// The directories in which sources are looked for, by a loader that reads
/// from disk.
pub struct DefaultFileLoader {
    pub search_paths: Vec<String>,
}

impl DefaultFileLoader {
    /// The places at which the source `path` is looked for, in order: `path`
    /// itself, then `path` under each search path, with `separator` between.
    pub fn candidates(&self, path: &str, separator: &str) -> (places: Vec<String>)
        ensures
            places@.len() == self.search_paths@.len() + 1,
            places@[0]@ == path@,
            forall|i: int|
                0 <= i < self.search_paths@.len() ==> (#[trigger] places@[i + 1])@
                    == self.search_paths@[i]@ + separator@ + path@,
    {
        let mut places: Vec<String> = Vec::new();
        places.push(path.to_owned());
        let mut i: usize = 0;
        while i < self.search_paths.len()
            invariant
                0 <= i <= self.search_paths@.len(),
                places@.len() == i + 1,
                places@[0]@ == path@,
                forall|k: int|
                    0 <= k < i ==> (#[trigger] places@[k + 1])@ == self.search_paths@[k]@
                        + separator@ + path@,
            decreases self.search_paths@.len() - i,
        {
            let mut place = String::new();
            place.append(self.search_paths[i].as_str());
            place.append(separator);
            place.append(path);
            proof {
                assert(place@ =~= self.search_paths@[i as int]@ + separator@ + path@);
            }
            places.push(place);
            i = i + 1;
        }
        places
    }
}

/// `simdutf8::basic::from_utf8`: whether the bytes are valid UTF-8.
#[verifier::external_body]
fn utf8_ok(bytes: &[u8]) -> (ok: bool)
    ensures
        ok == valid_utf8(bytes@),
{
    simdutf8::basic::from_utf8(bytes).is_ok()
}

/// `String::from_utf8`: the text whose UTF-8 bytes these are; `None` if they
/// are not valid UTF-8.
#[verifier::external_body]
fn string_of(bytes: Vec<u8>) -> (text: Option<String>)
    ensures
        text is Some == valid_utf8(bytes@),
        text matches Some(s) ==> encode_utf8(s@) == bytes@,
{
    String::from_utf8(bytes).ok()
}

/// The text whose UTF-8 bytes `bytes` are; `None` if they are not valid UTF-8.
pub fn decode(bytes: Vec<u8>) -> (text: Option<String>)
    ensures
        text is Some == valid_utf8(bytes@),
        text matches Some(s) ==> encode_utf8(s@) == bytes@ && s@ == decode_utf8(bytes@),
{
    if !utf8_ok(bytes.as_slice()) {
        return None;
    }
    let ghost b = bytes@;
    let text = string_of(bytes);
    proof {
        if text is Some {
            encode_utf8_decode_utf8(text->0@);
        }
    }
    text
}

} // verus!
