//! The set of defined symbols.

use vstd::prelude::*;
use vstd::string::*;
use vstd::utf8::*;

verus! {

/// A set of symbol names, kept in a `hashbrown::HashSet` of
/// `smartstring::SmartString<Compact>`.
///
/// The set is opaque to the verifier; `symbol_names` stands for what it holds.
#[verifier::external_body]
pub struct SymbolSet {
    names: hashbrown::HashSet<smartstring::SmartString<smartstring::Compact>>,
}

/// The names that a symbol set holds, each as the UTF-8 bytes of its text.
pub uninterp spec fn symbol_names(s: SymbolSet) -> Set<Seq<u8>>;

impl View for SymbolSet {
    type V = Set<Seq<u8>>;

    open spec fn view(&self) -> Set<Seq<u8>> {
        symbol_names(*self)
    }
}

/// `hashbrown::HashSet::with_capacity`: a set that holds nothing. The capacity
/// only sizes the first allocation.
#[verifier::external_body]
fn raw_with_capacity(capacity: usize) -> (s: SymbolSet)
    ensures
        symbol_names(s) == Set::<Seq<u8>>::empty(),
{
    SymbolSet { names: hashbrown::HashSet::with_capacity(capacity) }
}

/// `hashbrown::HashSet::insert`: the name is in the set afterwards and nothing
/// else changed; the result tells whether it was absent before. Two
/// `SmartString`s are equal, and hash alike, exactly when their text is the
/// same. As vstd does for `Vec::push`, running out of memory is not modelled.
#[verifier::external_body]
fn raw_insert(s: &mut SymbolSet, name: &str) -> (fresh: bool)
    ensures
        symbol_names(*final(s)) == symbol_names(*old(s)).insert(name.spec_bytes()),
        fresh == !symbol_names(*old(s)).contains(name.spec_bytes()),
{
    s.names.insert(name.into())
}

/// `hashbrown::HashSet::remove`: the name is not in the set afterwards and
/// nothing else changed; the result tells whether it was present before.
#[verifier::external_body]
fn raw_remove(s: &mut SymbolSet, name: &str) -> (present: bool)
    ensures
        symbol_names(*final(s)) == symbol_names(*old(s)).remove(name.spec_bytes()),
        present == symbol_names(*old(s)).contains(name.spec_bytes()),
{
    s.names.remove(name)
}

/// `hashbrown::HashSet::contains`: whether the name is in the set.
#[verifier::external_body]
fn raw_contains(s: &SymbolSet, name: &str) -> (present: bool)
    ensures
        present == symbol_names(*s).contains(name.spec_bytes()),
{
    s.names.contains(name)
}

/// `hashbrown::HashSet::clear`: the set holds nothing afterwards.
#[verifier::external_body]
fn raw_clear(s: &mut SymbolSet)
    ensures
        symbol_names(*final(s)) == Set::<Seq<u8>>::empty(),
{
    s.names.clear()
}

/// `hashbrown::HashSet::iter`: the names of the set, and nothing else, in an
/// order that is not specified.
#[verifier::external_body]
fn raw_names(s: &SymbolSet) -> (names: Vec<String>)
    ensures
        forall|n: Seq<u8>|
            symbol_names(*s).contains(n) <==> exists|i: int|
                0 <= i < names@.len() && encode_utf8(#[trigger] names@[i]@) == n,
{
    s.names.iter().map(|n| n.as_str().to_string()).collect()
}

impl SymbolSet {
    /// A set that holds no name.
    pub fn new() -> (s: SymbolSet)
        ensures
            s@ == Set::<Seq<u8>>::empty(),
    {
        raw_with_capacity(16)
    }

    /// Puts `name` into the set; tells whether it was absent before.
    pub fn insert(&mut self, name: &str) -> (fresh: bool)
        ensures
            final(self)@ == old(self)@.insert(name.spec_bytes()),
            fresh == !old(self)@.contains(name.spec_bytes()),
    {
        raw_insert(self, name)
    }

    /// Takes `name` out of the set; tells whether it was present before.
    pub fn remove(&mut self, name: &str) -> (present: bool)
        ensures
            final(self)@ == old(self)@.remove(name.spec_bytes()),
            present == old(self)@.contains(name.spec_bytes()),
    {
        raw_remove(self, name)
    }

    /// Whether `name` is in the set.
    pub fn contains(&self, name: &str) -> (present: bool)
        ensures
            present == self@.contains(name.spec_bytes()),
    {
        raw_contains(self, name)
    }

    /// Empties the set.
    pub fn clear(&mut self)
        ensures
            final(self)@ == Set::<Seq<u8>>::empty(),
    {
        raw_clear(self)
    }

    /// The names of the set, and nothing else, in no order that could be
    /// relied on.
    pub fn names(&self) -> (names: Vec<String>)
        ensures
            forall|n: Seq<u8>|
                self@.contains(n) <==> exists|i: int|
                    0 <= i < names@.len() && encode_utf8(#[trigger] names@[i]@) == n,
    {
        raw_names(self)
    }

    /// Puts every name of `other` into the set.
    pub fn extend(&mut self, other: &SymbolSet)
        ensures
            final(self)@ == old(self)@.union(other@),
    {
        let names = raw_names(other);
        let mut i: usize = 0;
        while i < names.len()
            invariant
                0 <= i <= names@.len(),
                forall|n: Seq<u8>|
                    other@.contains(n) <==> exists|k: int|
                        0 <= k < names@.len() && encode_utf8(#[trigger] names@[k]@) == n,
                forall|n: Seq<u8>|
                    self@.contains(n) <==> (old(self)@.contains(n) || exists|k: int|
                        0 <= k < i && encode_utf8(#[trigger] names@[k]@) == n),
            decreases names@.len() - i,
        {
            let ghost before = self@;
            raw_insert(self, names[i].as_str());
            proof {
                let added = encode_utf8(names@[i as int]@);
                assert forall|n: Seq<u8>|
                    self@.contains(n) <==> (old(self)@.contains(n) || exists|k: int|
                        0 <= k < i + 1 && encode_utf8(#[trigger] names@[k]@) == n) by {
                    if n == added {
                        assert(encode_utf8(names@[i as int]@) == n);
                    }
                    if exists|k: int| 0 <= k < i + 1 && encode_utf8(#[trigger] names@[k]@) == n {
                        let k = choose|k: int|
                            0 <= k < i + 1 && encode_utf8(#[trigger] names@[k]@) == n;
                        if k < i {
                            assert(before.contains(n));
                        }
                    }
                }
            }
            i = i + 1;
        }
        assert(self@ =~= old(self)@.union(other@));
    }
}

} // verus!
