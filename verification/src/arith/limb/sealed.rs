use vstd::prelude::*;

verus! {

/// Implemented only for the four primitive unsigned integers.
pub trait Sealed {

}

impl Sealed for u8 {

}

impl Sealed for u16 {

}

impl Sealed for u32 {

}

impl Sealed for u64 {

}

} // verus!
