use vstd::prelude::*;

verus! {

/// Data that only enemy characters carry; enemies need none yet.
#[derive(Clone, Copy, Debug, PartialEq, Eq, Structural)]
pub struct EnemyData {}

} // verus!
