//! The relocations of an image.

use vstd::prelude::*;

verus! {

/// How a relocation patches the image.
#[derive(Clone, Copy, PartialEq, Eq, Debug, Structural)]
pub enum RelocKind {
    HighLow,
    Dir64,
    Unsupported(u8),
}

/// The relocations of an image, by the rva they patch.
pub trait RelocLookup {
    /// The relocation that patches the byte at `rva`, if one does.
    closed spec fn kind_at(&self, rva: usize) -> Option<RelocKind> {
        vstd::pervasive::arbitrary()
    }

    fn is_relocated(&self, rva: usize) -> (r: bool)
        ensures
            r == (self.kind_at(rva) is Some),
    ;

    fn reloc_kind_at(&self, rva: usize) -> (r: Option<RelocKind>)
        ensures
            r == self.kind_at(rva),
    ;
}

}
