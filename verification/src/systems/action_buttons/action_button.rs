use vstd::prelude::*;

use crate::entities::characters::gatherer::{GatherTarget, GathererState};
use crate::entities::entity_manager::CharacterEntry;
use crate::entities::object::{data_of, with_data, Object, ObjectData};
use crate::utils::entity_utils::{first_with_id, matches_target, object_matches_gathering_target, position_of_unique_id};

verus! {

/// The actions a button can offer.
#[derive(Clone, Copy, Debug, PartialEq, Eq, Structural)]
pub enum ActionButtonKind {
    ChopTreeButton,
    CutGrassButton,
}

/// The ids in `ids` of the objects that are of the kind `t` asks for, in
/// order.
pub open spec fn ids_of_kind(ids: Seq<usize>, grid: Seq<Object>, t: GatherTarget) -> Seq<usize>
    decreases ids.len(),
{
    if ids.len() == 0 {
        ids
    } else {
        let rest = ids_of_kind(ids.drop_last(), grid, t);
        if matches_target(t, grid[ids.last() as int]) {
            rest.push(ids.last())
        } else {
            rest
        }
    }
}

/// Some id among the first `k` of `ids` is `i`.
pub open spec fn in_prefix(ids: Seq<usize>, k: int, i: int) -> bool {
    exists|w: int| 0 <= w < k && #[trigger] ids[w] as int == i
}

/// `o` marked for gathering.
pub open spec fn marked(o: Object) -> Object {
    with_data(o, ObjectData { is_marked_for_gathering: true, ..data_of(o) })
}

/// Every id of `ids` is a tile of the grid.
pub open spec fn ids_in_grid(ids: Seq<usize>, n: int) -> bool {
    forall|k: int| 0 <= k < ids.len() ==> #[trigger] ids[k] < n
}

/// Every id of `ids` is the unique id of some character.
pub open spec fn ids_of_characters<T>(ids: Seq<usize>, chars: Seq<CharacterEntry<T>>) -> bool {
    forall|k: int|
        0 <= k < ids.len() ==> exists|p: int| 0 <= p < chars.len() && #[trigger] chars[p].unique_id == #[trigger] ids[k]
}

/// Position `p` holds the first character with one of the ids of `ids`.
pub open spec fn picked<T>(chars: Seq<CharacterEntry<T>>, ids: Seq<usize>, p: int) -> bool {
    exists|k: int| 0 <= k < ids.len() && first_with_id(chars, #[trigger] ids[k], p)
}

/// Entry `e1` is `e0` with its gatherer sent after `sel` for `t`.
pub open spec fn sent_to_gather<T>(e0: CharacterEntry<T>, e1: CharacterEntry<T>, sel: Seq<usize>, t: GatherTarget) -> bool {
    &&& e1.character == e0.character
    &&& e1.unique_id == e0.unique_id
    &&& e1.render_index == e0.render_index
    &&& e1.is_hovering == e0.is_hovering
    &&& e1.is_hovering_for_move == e0.is_hovering_for_move
    &&& e1.is_selected == e0.is_selected
    &&& e1.is_selected_for_move == e0.is_selected_for_move
    &&& e1.state == e0.state
    &&& e1.opponents@ == e0.opponents@
    &&& e1.gatherer.object_indices@ == sel
    &&& e1.gatherer.gatherer_state == (GathererState::LookingForObject { gather_target: t })
    &&& e1.gatherer.current_index == e0.gatherer.current_index
    &&& e1.gatherer.should_unoccupy_current_obj
}

/// Marks every object of `obj_ids` of the kind `obj_kind` asks for, and
/// sends every character of `char_ids` after exactly those objects (in the
/// order given), letting go of what it held.
pub fn set_gatherers_to_gather<T>(
    obj_ids: &Vec<usize>,
    char_ids: &Vec<usize>,
    object_grid: &mut Vec<Object>,
    characters: &mut Vec<CharacterEntry<T>>,
    obj_kind: GatherTarget,
)
    requires
        ids_in_grid(obj_ids@, old(object_grid)@.len() as int),
        ids_of_characters(char_ids@, old(characters)@),
    ensures
        final(object_grid)@.len() == old(object_grid)@.len(),
        forall|i: int|
            0 <= i < old(object_grid)@.len() ==> #[trigger] final(object_grid)@[i] == (if obj_ids@.contains(
                i as usize,
            ) && matches_target(obj_kind, old(object_grid)@[i]) {
                marked(old(object_grid)@[i])
            } else {
                old(object_grid)@[i]
            }),
        final(characters)@.len() == old(characters)@.len(),
        forall|p: int|
            0 <= p < old(characters)@.len() ==> if picked(old(characters)@, char_ids@, p) {
                sent_to_gather(
                    old(characters)@[p],
                    #[trigger] final(characters)@[p],
                    ids_of_kind(obj_ids@, old(object_grid)@, obj_kind),
                    obj_kind,
                )
            } else {
                final(characters)@[p] == old(characters)@[p]
            },
{
    let ghost grid0 = object_grid@;
    let ghost chars0 = characters@;
    let glen = object_grid.len();
    let mut object_ids_with_correct_type: Vec<usize> = Vec::new();
    let n = obj_ids.len();
    let mut k: usize = 0;
    while k < n
        invariant
            n == obj_ids@.len(),
            k <= n,
            ids_in_grid(obj_ids@, grid0.len() as int),
            object_grid@.len() == grid0.len(),
            object_ids_with_correct_type@ == ids_of_kind(obj_ids@.take(k as int), grid0, obj_kind),
            forall|i: int|
                0 <= i < grid0.len() ==> #[trigger] object_grid@[i] == (if in_prefix(obj_ids@, k as int, i)
                    && matches_target(obj_kind, grid0[i]) {
                    marked(grid0[i])
                } else {
                    grid0[i]
                }),
        decreases n - k,
    {
        let id = obj_ids[k];
        let obj = object_grid[id];
        proof {
            assert(obj_ids@.take(k + 1).drop_last() == obj_ids@.take(k as int));
            assert(obj_ids@.take(k + 1).last() == id);
            assert(matches_target(obj_kind, obj) == matches_target(obj_kind, grid0[id as int]));
        }
        if object_matches_gathering_target(obj_kind, &obj) {
            let mut o = obj;
            o.mark_for_gathering();
            object_grid.set(id, o);
            object_ids_with_correct_type.push(id);
        }
        proof {
            assert forall|i: int| 0 <= i < grid0.len() implies #[trigger] object_grid@[i] == (if in_prefix(
                obj_ids@,
                k + 1,
                i,
            ) && matches_target(obj_kind, grid0[i]) {
                marked(grid0[i])
            } else {
                grid0[i]
            }) by {
                if i == id as int {
                    assert(obj_ids@[k as int] as int == i);
                } else {
                    if in_prefix(obj_ids@, k + 1, i) {
                        let w = choose|w: int| 0 <= w < k + 1 && #[trigger] obj_ids@[w] as int == i;
                        assert(w < k);
                    }
                }
            }
        }
        k = k + 1;
    }
    proof {
        assert(obj_ids@.take(n as int) == obj_ids@);
        assert forall|i: int| 0 <= i < grid0.len() implies in_prefix(obj_ids@, n as int, i) == obj_ids@.contains(
            i as usize,
        ) by {
            assert(i < glen);
            if obj_ids@.contains(i as usize) {
                let w = choose|w: int| 0 <= w < obj_ids@.len() && obj_ids@[w] == i as usize;
                assert(obj_ids@[w] as int == i);
            }
            if in_prefix(obj_ids@, n as int, i) {
                let w = choose|w: int| 0 <= w < n && #[trigger] obj_ids@[w] as int == i;
                assert(obj_ids@[w] == i as usize);
            }
        }
    }
    let sel = object_ids_with_correct_type;
    let m = char_ids.len();
    let mut j: usize = 0;
    while j < m
        invariant
            m == char_ids@.len(),
            j <= m,
            ids_of_characters(char_ids@, chars0),
            sel@ == ids_of_kind(obj_ids@, grid0, obj_kind),
            characters@.len() == chars0.len(),
            forall|p: int| 0 <= p < chars0.len() ==> #[trigger] characters@[p].unique_id == chars0[p].unique_id,
            forall|p: int|
                0 <= p < chars0.len() ==> if picked(chars0, char_ids@.take(j as int), p) {
                    sent_to_gather(chars0[p], #[trigger] characters@[p], sel@, obj_kind)
                } else {
                    characters@[p] == chars0[p]
                },
        decreases m - j,
    {
        let id = char_ids[j];
        proof {
            assert(exists|p: int| 0 <= p < chars0.len() && #[trigger] chars0[p].unique_id == char_ids@[j as int]);
            let p = choose|p: int| 0 <= p < chars0.len() && #[trigger] chars0[p].unique_id == char_ids@[j as int];
            assert(characters@[p].unique_id == id);
        }
        let p = position_of_unique_id(characters, id);
        proof {
            assert forall|q: int| 0 <= q < p implies #[trigger] chars0[q].unique_id != id by {
                assert(characters@[q].unique_id != id);
            }
            assert(first_with_id(chars0, id, p as int));
        }
        let ghost before = characters@;
        let entry = &mut characters[p];
        entry.gatherer.object_indices = sel.clone();
        entry.gatherer.gatherer_state = GathererState::LookingForObject { gather_target: obj_kind };
        entry.gatherer.should_unoccupy_current_obj = true;
        proof {
            assert(characters@[p as int].gatherer.object_indices@ == sel@);
            assert forall|q: int| 0 <= q < chars0.len() implies if picked(chars0, char_ids@.take(j + 1), q) {
                sent_to_gather(chars0[q], #[trigger] characters@[q], sel@, obj_kind)
            } else {
                characters@[q] == chars0[q]
            } by {
                assert(char_ids@.take(j + 1) == char_ids@.take(j as int).push(id));
                if q == p as int {
                    assert(char_ids@.take(j + 1)[j as int] == id);
                } else {
                    if picked(chars0, char_ids@.take(j + 1), q) {
                        let w = choose|w: int| 0 <= w < j + 1 && first_with_id(chars0, #[trigger] char_ids@.take(j + 1)[w], q);
                        if w == j as int {
                            assert(false);
                        }
                        assert(char_ids@.take(j as int)[w] == char_ids@.take(j + 1)[w]);
                    }
                    if picked(chars0, char_ids@.take(j as int), q) {
                        let w = choose|w: int| 0 <= w < j && first_with_id(chars0, #[trigger] char_ids@.take(j as int)[w], q);
                        assert(char_ids@.take(j + 1)[w] == char_ids@.take(j as int)[w]);
                    }
                }
            }
        }
        j = j + 1;
    }
    proof {
        assert(char_ids@.take(m as int) == char_ids@);
    }
}

impl ActionButtonKind {
    /// The gather target a button sends gatherers after.
    pub open spec fn target_of(self) -> GatherTarget {
        match self {
            ActionButtonKind::ChopTreeButton => GatherTarget::Tree,
            ActionButtonKind::CutGrassButton => GatherTarget::Grass,
        }
    }

    /// Clicking a button sends the selected characters after the selected
    /// objects of its kind: trees for the chop button, grass for the cut
    /// button.
    pub fn on_click<T>(
        &self,
        obj_ids: &Vec<usize>,
        char_ids: &Vec<usize>,
        object_grid: &mut Vec<Object>,
        characters: &mut Vec<CharacterEntry<T>>,
    )
        requires
            ids_in_grid(obj_ids@, old(object_grid)@.len() as int),
            ids_of_characters(char_ids@, old(characters)@),
        ensures
            final(object_grid)@.len() == old(object_grid)@.len(),
            forall|i: int|
                0 <= i < old(object_grid)@.len() ==> #[trigger] final(object_grid)@[i] == (if obj_ids@.contains(
                    i as usize,
                ) && matches_target(self.target_of(), old(object_grid)@[i]) {
                    marked(old(object_grid)@[i])
                } else {
                    old(object_grid)@[i]
                }),
            final(characters)@.len() == old(characters)@.len(),
            forall|p: int|
                0 <= p < old(characters)@.len() ==> if picked(old(characters)@, char_ids@, p) {
                    sent_to_gather(
                        old(characters)@[p],
                        #[trigger] final(characters)@[p],
                        ids_of_kind(obj_ids@, old(object_grid)@, self.target_of()),
                        self.target_of(),
                    )
                } else {
                    final(characters)@[p] == old(characters)@[p]
                },
    {
        match self {
            ActionButtonKind::ChopTreeButton => set_gatherers_to_gather(
                obj_ids,
                char_ids,
                object_grid,
                characters,
                GatherTarget::Tree,
            ),
            ActionButtonKind::CutGrassButton => set_gatherers_to_gather(
                obj_ids,
                char_ids,
                object_grid,
                characters,
                GatherTarget::Grass,
            ),
        }
    }
}

} // verus!
