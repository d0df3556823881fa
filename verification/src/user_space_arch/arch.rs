use vstd::prelude::*;

verus! {

/// Architecture context descriptor of the user-space architecture.
#[derive(Debug, Clone, Copy)]
pub struct AcdUserLevel {}

} // verus!
