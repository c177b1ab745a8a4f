use vstd::prelude::*;

use crate::entities::entity_manager::CharacterEntry;
use crate::entities::object::Object;
use crate::systems::action_buttons::action_button::{ids_in_grid, ids_of_characters, ActionButtonKind};

verus! {

/// Some id of `obj_ids` is a tree of the grid.
pub open spec fn has_tree(grid: Seq<Object>, obj_ids: Seq<usize>) -> bool {
    exists|k: int| 0 <= k < obj_ids.len() && grid[#[trigger] obj_ids[k] as int] is TreeObj
}

/// The buttons that the selection offers: the chop button when some
/// selected object is a tree and some character is selected (every
/// character is a gatherer), and none otherwise.
pub fn check_for_matches<T>(
    object_grid: &Vec<Object>,
    obj_ids: &Vec<usize>,
    char_ids: &Vec<usize>,
    character_entries: &Vec<CharacterEntry<T>>,
) -> (r: Vec<ActionButtonKind>)
    requires
        ids_in_grid(obj_ids@, object_grid@.len() as int),
        ids_of_characters(char_ids@, character_entries@),
    ensures
        r@ == (if has_tree(object_grid@, obj_ids@) && char_ids@.len() > 0 {
            seq![ActionButtonKind::ChopTreeButton]
        } else {
            Seq::<ActionButtonKind>::empty()
        }),
{
    let mut any_tree = false;
    let n = obj_ids.len();
    let mut k: usize = 0;
    while k < n
        invariant
            n == obj_ids@.len(),
            k <= n,
            ids_in_grid(obj_ids@, object_grid@.len() as int),
            any_tree == exists|j: int| 0 <= j < k && object_grid@[#[trigger] obj_ids@[j] as int] is TreeObj,
        decreases n - k,
    {
        let id = obj_ids[k];
        if let Object::TreeObj(_) = object_grid[id] {
            any_tree = true;
        }
        proof {
            if object_grid@[obj_ids@[k as int] as int] is TreeObj {
                assert(object_grid@[obj_ids@[k as int] as int] is TreeObj);
            }
        }
        k = k + 1;
    }
    let mut successful_matches: Vec<ActionButtonKind> = Vec::new();
    if any_tree && char_ids.len() > 0 {
        successful_matches.push(ActionButtonKind::ChopTreeButton);
    }
    successful_matches
}

} // verus!
