//! Places in a source.

use vstd::prelude::*;

verus! {

/// A piece of a source: the bytes from `start` up to, not including, `end`.
#[derive(Debug, PartialEq, Eq, Clone, Copy)]
pub struct Span {
    pub start: usize,
    pub end: usize,
}

impl View for Span {
    type V = (int, int);

    open spec fn view(&self) -> (int, int) {
        (self.start as int, self.end as int)
    }
}

/// The bytes of `bytes` that the pair `at` of a start and an end marks.
pub open spec fn piece(bytes: Seq<u8>, at: (int, int)) -> Seq<u8> {
    bytes.subrange(at.0, at.1)
}

/// Whether `pat` stands in `bytes` at `at`.
pub open spec fn stands_at(bytes: Seq<u8>, at: int, pat: Seq<u8>) -> bool {
    0 <= at && at + pat.len() <= bytes.len() && bytes.subrange(at, at + pat.len()) == pat
}

/// Whether `pat` stands in `data` at `at`.
pub fn has_at(data: &[u8], at: usize, pat: &[u8]) -> (b: bool)
    requires
        at <= data@.len(),
    ensures
        b == stands_at(data@, at as int, pat@),
{
    let n: usize = data.len();
    if pat.len() > n - at {
        return false;
    }
    let mut i: usize = 0;
    while i < pat.len()
        invariant
            n == data@.len(),
            at + pat@.len() <= data@.len(),
            0 <= i <= pat@.len(),
            forall|k: int| 0 <= k < i ==> data@[at + k] == pat@[k],
        decreases pat@.len() - i,
    {
        if data[at + i] != pat[i] {
            proof {
                assert(data@.subrange(at as int, at + pat@.len())[i as int] == data@[at + i]);
            }
            return false;
        }
        i = i + 1;
    }
    proof {
        assert(data@.subrange(at as int, at + pat@.len()) =~= pat@);
    }
    true
}

} // verus!
