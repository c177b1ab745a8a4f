use vstd::prelude::*;

use crate::entities::characters::gatherer::GatherTarget;
use crate::entities::entity_manager::CharacterEntry;
use crate::entities::object::Object;

verus! {

/// Whether `obj` is the kind of object that `gather_target` asks for.
pub open spec fn matches_target(gather_target: GatherTarget, obj: Object) -> bool {
    match (gather_target, obj) {
        (GatherTarget::Tree, Object::TreeObj(_)) => true,
        (GatherTarget::Grass, Object::GrassObj(_)) => true,
        _ => false,
    }
}

/// Trees match the tree target and grass objects the grass target.
pub fn object_matches_gathering_target(gather_target: GatherTarget, obj: &Object) -> (b: bool)
    ensures
        b == matches_target(gather_target, *obj),
{
    match (gather_target, obj) {
        (GatherTarget::Tree, Object::TreeObj(_)) => true,
        (GatherTarget::Grass, Object::GrassObj(_)) => true,
        _ => false,
    }
}

/// The position of the first character with the given unique id.
pub open spec fn first_with_id<T>(chars: Seq<CharacterEntry<T>>, id: usize, k: int) -> bool {
    &&& 0 <= k < chars.len()
    &&& chars[k].unique_id == id
    &&& forall|j: int| 0 <= j < k ==> #[trigger] chars[j].unique_id != id
}

/// The first character with unique id `id`, which must be in the list.
pub fn get_char_by_unique_id<T>(characters: &mut Vec<CharacterEntry<T>>, id: usize) -> (r: &mut CharacterEntry<T>)
    requires
        exists|k: int| 0 <= k < old(characters)@.len() && #[trigger] old(characters)@[k].unique_id == id,
    ensures
        exists|k: int|
            first_with_id(old(characters)@, id, k) && *r == old(characters)@[k] && final(characters)@
                == old(characters)@.update(k, *final(r)),
{
    let k = position_of_unique_id(characters, id);
    &mut characters[k]
}

/// The index of the first character with unique id `id`, which must be in
/// the list.
pub fn position_of_unique_id<T>(characters: &Vec<CharacterEntry<T>>, id: usize) -> (k: usize)
    requires
        exists|k: int| 0 <= k < characters@.len() && #[trigger] characters@[k].unique_id == id,
    ensures
        first_with_id(characters@, id, k as int),
{
    let n = characters.len();
    let mut k: usize = 0;
    while k < n
        invariant
            n == characters@.len(),
            k <= n,
            forall|j: int| 0 <= j < k ==> #[trigger] characters@[j].unique_id != id,
            exists|k: int| 0 <= k < characters@.len() && #[trigger] characters@[k].unique_id == id,
        decreases n - k,
    {
        if characters[k].unique_id == id {
            return k;
        }
        k = k + 1;
    }
    proof {
        let w = choose|w: int| 0 <= w < characters@.len() && #[trigger] characters@[w].unique_id == id;
        assert(characters@[w].unique_id != id);
    }
    0
}

} // verus!
