use vstd::prelude::*;

use crate::entities::characters::gatherer::{GatherTarget, GathererState};
use crate::entities::entity_manager::CharacterEntry;
use crate::entities::object::Object;
use crate::systems::action_buttons::action_button::{ids_in_grid, ids_of_characters, in_prefix, marked, picked};
use crate::utils::entity_utils::{first_with_id, position_of_unique_id};

verus! {

/// Entry `e1` is `e0` with its gatherer told to look for trees, and nothing
/// else changed.
pub open spec fn told_to_chop<T>(e0: CharacterEntry<T>, e1: CharacterEntry<T>) -> bool {
    &&& e1.character == e0.character
    &&& e1.unique_id == e0.unique_id
    &&& e1.render_index == e0.render_index
    &&& e1.is_hovering == e0.is_hovering
    &&& e1.is_hovering_for_move == e0.is_hovering_for_move
    &&& e1.is_selected == e0.is_selected
    &&& e1.is_selected_for_move == e0.is_selected_for_move
    &&& e1.state == e0.state
    &&& e1.opponents@ == e0.opponents@
    &&& e1.gatherer.object_indices@ == e0.gatherer.object_indices@
    &&& e1.gatherer.gatherer_state == (GathererState::LookingForObject { gather_target: GatherTarget::Tree })
    &&& e1.gatherer.current_index == e0.gatherer.current_index
    &&& e1.gatherer.should_unoccupy_current_obj == e0.gatherer.should_unoccupy_current_obj
}

/// The chop action: marks every tree among `obj_ids` for gathering and
/// sets every character of `char_ids` to look for trees.
pub fn on_click<T>(
    obj_ids: &Vec<usize>,
    char_ids: &Vec<usize>,
    object_grid: &mut Vec<Object>,
    chars: &mut Vec<CharacterEntry<T>>,
)
    requires
        ids_in_grid(obj_ids@, old(object_grid)@.len() as int),
        ids_of_characters(char_ids@, old(chars)@),
    ensures
        final(object_grid)@.len() == old(object_grid)@.len(),
        forall|i: int|
            0 <= i < old(object_grid)@.len() ==> #[trigger] final(object_grid)@[i] == (if obj_ids@.contains(
                i as usize,
            ) && old(object_grid)@[i] is TreeObj {
                marked(old(object_grid)@[i])
            } else {
                old(object_grid)@[i]
            }),
        final(chars)@.len() == old(chars)@.len(),
        forall|p: int|
            0 <= p < old(chars)@.len() ==> if picked(old(chars)@, char_ids@, p) {
                told_to_chop(old(chars)@[p], #[trigger] final(chars)@[p])
            } else {
                final(chars)@[p] == old(chars)@[p]
            },
{
    let ghost grid0 = object_grid@;
    let ghost chars0 = chars@;
    let glen = object_grid.len();
    let n = obj_ids.len();
    let mut k: usize = 0;
    while k < n
        invariant
            n == obj_ids@.len(),
            k <= n,
            ids_in_grid(obj_ids@, grid0.len() as int),
            object_grid@.len() == grid0.len(),
            forall|i: int|
                0 <= i < grid0.len() ==> #[trigger] object_grid@[i] == (if in_prefix(obj_ids@, k as int, i)
                    && grid0[i] is TreeObj {
                    marked(grid0[i])
                } else {
                    grid0[i]
                }),
        decreases n - k,
    {
        let id = obj_ids[k];
        let obj = object_grid[id];
        if let Object::TreeObj(_) = obj {
            let mut o = obj;
            o.mark_for_gathering();
            object_grid.set(id, o);
        }
        proof {
            assert forall|i: int| 0 <= i < grid0.len() implies #[trigger] object_grid@[i] == (if in_prefix(
                obj_ids@,
                k + 1,
                i,
            ) && grid0[i] is TreeObj {
                marked(grid0[i])
            } else {
                grid0[i]
            }) by {
                if i == id as int {
                    assert(obj_ids@[k as int] as int == i);
                } else {
                    if in_prefix(obj_ids@, k + 1, i) {
                        let w = choose|w: int| 0 <= w < k + 1 && #[trigger] obj_ids@[w] as int == i;
                        assert(w < k);
                    }
                }
            }
        }
        k = k + 1;
    }
    proof {
        assert forall|i: int| 0 <= i < grid0.len() implies in_prefix(obj_ids@, n as int, i) == obj_ids@.contains(
            i as usize,
        ) by {
            assert(i < glen);
            if obj_ids@.contains(i as usize) {
                let w = choose|w: int| 0 <= w < obj_ids@.len() && obj_ids@[w] == i as usize;
                assert(obj_ids@[w] as int == i);
            }
            if in_prefix(obj_ids@, n as int, i) {
                let w = choose|w: int| 0 <= w < n && #[trigger] obj_ids@[w] as int == i;
                assert(obj_ids@[w] == i as usize);
            }
        }
    }
    let m = char_ids.len();
    let mut j: usize = 0;
    while j < m
        invariant
            m == char_ids@.len(),
            j <= m,
            ids_of_characters(char_ids@, chars0),
            chars@.len() == chars0.len(),
            forall|p: int| 0 <= p < chars0.len() ==> #[trigger] chars@[p].unique_id == chars0[p].unique_id,
            forall|p: int|
                0 <= p < chars0.len() ==> if picked(chars0, char_ids@.take(j as int), p) {
                    told_to_chop(chars0[p], #[trigger] chars@[p])
                } else {
                    chars@[p] == chars0[p]
                },
        decreases m - j,
    {
        let id = char_ids[j];
        proof {
            let p = choose|p: int| 0 <= p < chars0.len() && #[trigger] chars0[p].unique_id == char_ids@[j as int];
            assert(chars@[p].unique_id == id);
        }
        let p = position_of_unique_id(chars, id);
        proof {
            assert forall|q: int| 0 <= q < p implies #[trigger] chars0[q].unique_id != id by {
                assert(chars@[q].unique_id != id);
            }
            assert(first_with_id(chars0, id, p as int));
        }
        let entry = &mut chars[p];
        entry.gatherer.gatherer_state = GathererState::LookingForObject { gather_target: GatherTarget::Tree };
        proof {
            assert forall|q: int| 0 <= q < chars0.len() implies if picked(chars0, char_ids@.take(j + 1), q) {
                told_to_chop(chars0[q], #[trigger] chars@[q])
            } else {
                chars@[q] == chars0[q]
            } by {
                assert(char_ids@.take(j + 1) == char_ids@.take(j as int).push(id));
                if q == p as int {
                    assert(char_ids@.take(j + 1)[j as int] == id);
                } else {
                    if picked(chars0, char_ids@.take(j + 1), q) {
                        let w = choose|w: int| 0 <= w < j + 1 && first_with_id(chars0, #[trigger] char_ids@.take(j + 1)[w], q);
                        if w == j as int {
                            assert(false);
                        }
                        assert(char_ids@.take(j as int)[w] == char_ids@.take(j + 1)[w]);
                    }
                    if picked(chars0, char_ids@.take(j as int), q) {
                        let w = choose|w: int| 0 <= w < j && first_with_id(chars0, #[trigger] char_ids@.take(j as int)[w], q);
                        assert(char_ids@.take(j + 1)[w] == char_ids@.take(j as int)[w]);
                    }
                }
            }
        }
        j = j + 1;
    }
    proof {
        assert(char_ids@.take(m as int) == char_ids@);
    }
}

} // verus!
