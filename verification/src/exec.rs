use vstd::prelude::*;

verus! {

/// Empty base execution context descriptor.
#[derive(Debug, Clone)]
pub struct EcdBase {}

impl EcdBase {
    /// A fresh execution context descriptor.
    pub fn new() -> (r: EcdBase)
        ensures
            r == (EcdBase {}),
    {
        EcdBase {}
    }
}

} // verus!
