//! The byte sink that the decoder writes through.

use vstd::prelude::*;

verus! {

/// A destination for decoded bytes. The decoder only ever appends; it never
/// reads back what it wrote.
pub trait Output {
    /// The bytes accumulated so far. A sink that is verified says here what
    /// it holds; for any other sink this is a value that nothing is known of.
    open spec fn contents(&self) -> Seq<u8> {
        vstd::pervasive::arbitrary()
    }

    /// Appends `buffer` after everything written so far.
    fn append(&mut self, buffer: &[u8])
        ensures
            final(self).contents() == old(self).contents() + buffer@,
    ;

    /// Discards everything written so far.
    fn clear(&mut self)
        ensures
            final(self).contents() == Seq::<u8>::empty(),
    ;

    /// Hints that `bytes` more bytes are about to be appended. Never changes
    /// the contents.
    fn reserve(&mut self, bytes: usize)
        ensures
            final(self).contents() == old(self).contents(),
    ;

    /// The number of bytes accumulated so far.
    fn size(&self) -> (n: usize)
        ensures
            n == self.contents().len(),
    ;
}

impl Output for Vec<u8> {
    open spec fn contents(&self) -> Seq<u8> {
        self@
    }

    fn append(&mut self, buffer: &[u8]) {
        self.extend_from_slice(buffer);
    }

    fn clear(&mut self) {
        Vec::clear(self);
    }

    fn reserve(&mut self, bytes: usize) {
        // a hint only: a request that the vector could never meet is dropped
        let _ = Vec::try_reserve(self, bytes);
    }

    fn size(&self) -> (n: usize) {
        self.len()
    }
}

} // verus!
