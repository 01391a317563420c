//! Names shared by the parts of the library.

use vstd::prelude::*;

verus! {

/// A string, or a pair of strings, that pins one function.
#[derive(Clone, Debug)]
pub struct StringAnchor {
    pub text: String,
    pub also: Option<String>,
}

/// The text of a string anchor.
#[verifier::ext_equal]
pub struct StringAnchorV {
    pub text: Seq<char>,
    pub also: Option<Seq<char>>,
}

impl DeepView for StringAnchor {
    type V = StringAnchorV;

    open spec fn deep_view(&self) -> StringAnchorV {
        StringAnchorV { text: self.text@, also: self.also.deep_view() }
    }
}

/// An address that is not in the image.
#[derive(Clone, Copy, PartialEq, Eq, Debug, Structural)]
pub struct OutsideImage;

/// The rva of an absolute address, if the address lies in the image.
pub fn checked_rva(abs: usize, base: usize, size: usize) -> (r: Result<u64, OutsideImage>)
    ensures
        r == (if base <= abs < base + size {
            Ok::<u64, OutsideImage>((abs - base) as u64)
        } else {
            Err(OutsideImage)
        }),
{
    if abs >= base && abs - base < size {
        Ok((abs - base) as u64)
    } else {
        Err(OutsideImage)
    }
}

}
