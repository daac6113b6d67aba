use vstd::prelude::*;

verus! {

/// The width of a floating-point number in a binary stream.
pub enum Kind {
    F32,
    F64,
}

impl Kind {
    /// Number of bytes one number of this kind occupies.
    pub open spec fn size_spec(&self) -> nat {
        match self {
            Kind::F32 => 4,
            Kind::F64 => 8,
        }
    }

    pub fn get_size(&self) -> (r: usize)
        ensures
            r == self.size_spec(),
    {
        match self {
            Kind::F32 => 4,
            Kind::F64 => 8,
        }
    }
}

} // verus!
