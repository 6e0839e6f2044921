//! The set of file extensions whose files are rewritten.

use vstd::prelude::*;
use vstd::utf8::{encode_utf8, encode_utf8_decode_utf8};

verus! {

/// A set of extensions, written without the leading dot. Membership is
/// case-sensitive: no extension is normalised.
#[derive(Debug)]
pub struct ExtensionSet {
    items: Vec<String>,
}

impl View for ExtensionSet {
    type V = Set<Seq<char>>;

    open spec fn view(&self) -> Set<Seq<char>> {
        self.listing().to_set()
    }
}

impl ExtensionSet {
    /// The extensions in the order in which they were inserted.
    pub closed spec fn listing(&self) -> Seq<Seq<char>> {
        self.items@.map_values(|s: String| s@)
    }

    /// No extension is held twice.
    pub open spec fn wf(&self) -> bool {
        self.listing().no_duplicates()
    }

    /// The empty set.
    pub fn new() -> (set: ExtensionSet)
        ensures
            set.wf(),
            set.listing() == Seq::<Seq<char>>::empty(),
            set@ == Set::<Seq<char>>::empty(),
    {
        let set = ExtensionSet { items: Vec::new() };
        set
    }

    /// Tells whether `ext` is in the set.
    pub fn contains(&self, ext: &str) -> (found: bool)
        ensures
            found == self@.contains(ext@),
    {
        let mut i: usize = 0;
        while i < self.items.len()
            invariant
                i <= self.items@.len(),
                forall|k: int| 0 <= k < i ==> self.listing()[k] != ext@,
            decreases self.items@.len() - i,
        {
            if str_eq(self.items[i].as_str(), ext) {
                assert(self.listing()[i as int] == ext@);
                return true;
            }
            i += 1;
        }
        false
    }

    /// Puts `ext` into the set, and tells whether it was new. An extension
    /// that is held already is not held twice.
    pub fn insert(&mut self, ext: String) -> (fresh: bool)
        requires
            old(self).wf(),
        ensures
            final(self).wf(),
            final(self)@ == old(self)@.insert(ext@),
            fresh == !old(self)@.contains(ext@),
            final(self).listing() == if fresh {
                old(self).listing().push(ext@)
            } else {
                old(self).listing()
            },
    {
        if self.contains(ext.as_str()) {
            return false;
        }
        self.items.push(ext);
        let ghost before = old(self).listing();
        assert(self.listing() == before.push(ext@));
        assert forall|e: Seq<char>| self@.contains(e) == old(self)@.insert(ext@).contains(e) by {
            if before.contains(e) {
                let i = before.index_of(e);
                assert(self.listing()[i] == e);
            }
            if e == ext@ {
                assert(self.listing()[before.len() as int] == e);
            }
        }
        true
    }

    /// The number of extensions in the set.
    pub fn len(&self) -> (n: usize)
        ensures
            n == self.listing().len(),
            self.wf() ==> n == self@.len(),
    {
        proof {
            if self.wf() {
                self.listing().unique_seq_to_set();
            }
        }
        self.items.len()
    }

    /// The extension of index `i`, in the order of insertion.
    pub fn get(&self, i: usize) -> (ext: &str)
        requires
            i < self.listing().len(),
        ensures
            ext@ == self.listing()[i as int],
    {
        self.items[i].as_str()
    }
}

/// Tells whether two strings hold the same characters.
pub fn str_eq(a: &str, b: &str) -> (same: bool)
    ensures
        same == (a@ == b@),
{
    let x = a.as_bytes();
    let y = b.as_bytes();
    if x.len() != y.len() {
        return false;
    }
    let mut i: usize = 0;
    while i < x.len()
        invariant
            i <= x@.len(),
            x@.len() == y@.len(),
            x@ == encode_utf8(a@),
            y@ == encode_utf8(b@),
            forall|k: int| 0 <= k < i ==> x@[k] == y@[k],
        decreases x@.len() - i,
    {
        if x[i] != y[i] {
            return false;
        }
        i += 1;
    }
    proof {
        // Equal encodings spell equal texts.
        assert(x@ == y@);
        encode_utf8_decode_utf8(a@);
        encode_utf8_decode_utf8(b@);
    }
    true
}

} // verus!
