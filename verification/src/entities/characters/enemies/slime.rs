use vstd::prelude::*;

verus! {

/// What a slime is doing.
#[derive(Clone, Copy, Debug, PartialEq, Eq, Structural)]
pub enum SlimeState {
    Idle,
}

} // verus!
