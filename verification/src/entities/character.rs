use vstd::prelude::*;

verus! {

/// Which side a character fights for.
#[derive(Clone, Copy, Debug, PartialEq, Eq, Structural)]
pub enum Affiliation {
    Good,
    Evil,
}

/// How a step towards a movement target went.
#[derive(Clone, Copy, Debug, PartialEq, Eq, Structural)]
pub enum CharacterMovementResult {
    Success,
    NotArrivedYet,
    NoRoute,
    TooLong,
}

/// What a character as a whole is doing. While moving, the point it moves
/// to is kept by the caller, in world coordinates.
#[derive(Clone, Copy, Debug, PartialEq, Eq, Structural)]
pub enum CharacterState {
    NoState,
    Moving,
    InCombat,
}

} // verus!
