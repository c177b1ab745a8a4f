use vstd::prelude::*;

use crate::entities::entity_manager::CharacterEntry;
use crate::entities::object::{data_of, with_data, Object, ObjectData};

verus! {

/// `o` flagged selected.
pub open spec fn selected(o: Object) -> Object {
    with_data(o, ObjectData { is_selected: true, ..data_of(o) })
}

/// What a left click selects.
#[derive(Clone, Copy, Debug, PartialEq, Eq, Structural)]
pub enum SelectingMode {
    Objects,
    Characters,
}

/// Keeps the indices of the selected objects (map indices) and the unique
/// ids of the selected characters, the current selecting mode, and whether
/// a deselection happened this frame.
pub struct EntitySelectingManager {
    pub selected_objects: Vec<usize>,
    pub selected_characters: Vec<usize>,
    pub selecting_mode: SelectingMode,
    pub is_deselecting_chars: bool,
    pub is_deselecting_objs: bool,
    pub is_deselecting_move: bool,
}

impl EntitySelectingManager {
    /// Nothing selected, selecting objects.
    pub fn new() -> (m: EntitySelectingManager)
        ensures
            m.selected_objects@.len() == 0,
            m.selected_characters@.len() == 0,
            m.selecting_mode == SelectingMode::Objects,
            !m.is_deselecting_chars,
            !m.is_deselecting_objs,
            !m.is_deselecting_move,
    {
        EntitySelectingManager {
            selected_objects: Vec::new(),
            selected_characters: Vec::new(),
            selecting_mode: SelectingMode::Objects,
            is_deselecting_chars: false,
            is_deselecting_objs: false,
            is_deselecting_move: false,
        }
    }

    /// Starts a frame: clears the deselection flags, then key one switches to
    /// selecting objects and key two (which wins when both are pressed) to
    /// selecting characters.
    pub fn update(&mut self, key_one_pressed: bool, key_two_pressed: bool)
        ensures
            !final(self).is_deselecting_chars,
            !final(self).is_deselecting_objs,
            !final(self).is_deselecting_move,
            final(self).selecting_mode == (if key_two_pressed {
                SelectingMode::Characters
            } else if key_one_pressed {
                SelectingMode::Objects
            } else {
                old(self).selecting_mode
            }),
            final(self).selected_objects@ == old(self).selected_objects@,
            final(self).selected_characters@ == old(self).selected_characters@,
    {
        self.is_deselecting_chars = false;
        self.is_deselecting_objs = false;
        self.is_deselecting_move = false;
        if key_one_pressed {
            self.selecting_mode = SelectingMode::Objects;
        }
        if key_two_pressed {
            self.selecting_mode = SelectingMode::Characters;
        }
    }

    /// Makes `object`, the object at map index `idx`, the only selected
    /// object, and flags it selected.
    pub fn select_single_obj(&mut self, object: &mut Object, idx: usize)
        requires
            !(*old(object) is NoObject),
        ensures
            final(self).selected_objects@ == seq![idx],
            final(self).is_deselecting_objs,
            final(self).selected_characters@ == old(self).selected_characters@,
            final(self).is_deselecting_chars == old(self).is_deselecting_chars,
            final(self).selecting_mode == old(self).selecting_mode,
            final(self).is_deselecting_move == old(self).is_deselecting_move,
            *final(object) == selected(*old(object)),
    {
        self.deselect_objs();
        object.set_selected();
        self.selected_objects.push(idx);
    }

    /// Makes the given character the only selected character, and flags it
    /// selected.
    pub fn select_single_char<T>(&mut self, character_entry: &mut CharacterEntry<T>)
        ensures
            final(self).selected_characters@ == seq![old(character_entry).unique_id],
            final(self).is_deselecting_chars,
            final(self).selected_objects@ == old(self).selected_objects@,
            final(self).is_deselecting_objs == old(self).is_deselecting_objs,
            final(self).selecting_mode == old(self).selecting_mode,
            final(self).is_deselecting_move == old(self).is_deselecting_move,
            *final(character_entry) == (CharacterEntry { is_selected: true, ..*old(character_entry) }),
    {
        self.deselect_chars();
        character_entry.is_selected = true;
        self.selected_characters.push(character_entry.unique_id);
    }

    /// Makes exactly the characters at the given positions of `characters`
    /// selected, flagging each and recording their unique ids in that order.
    pub fn select_multiple_chars<T>(&mut self, characters: &mut Vec<CharacterEntry<T>>, hover_characters: Vec<usize>)
        requires
            forall|k: int| 0 <= k < hover_characters@.len() ==> #[trigger] hover_characters@[k] < old(characters)@.len(),
        ensures
            final(self).selected_characters@ == hover_characters@.map_values(
                |p: usize| old(characters)@[p as int].unique_id,
            ),
            final(self).is_deselecting_chars,
            final(self).selected_objects@ == old(self).selected_objects@,
            final(self).is_deselecting_objs == old(self).is_deselecting_objs,
            final(self).selecting_mode == old(self).selecting_mode,
            final(self).is_deselecting_move == old(self).is_deselecting_move,
            final(characters)@.len() == old(characters)@.len(),
            forall|p: int|
                0 <= p < old(characters)@.len() ==> #[trigger] final(characters)@[p] == (if hover_characters@.contains(
                    p as usize,
                ) {
                    CharacterEntry { is_selected: true, ..old(characters)@[p] }
                } else {
                    old(characters)@[p]
                }),
    {
        self.deselect_chars();
        let ghost chars0 = characters@;
        let clen = characters.len();
        let n = hover_characters.len();
        let mut k: usize = 0;
        while k < n
            invariant
                n == hover_characters@.len(),
                k <= n,
                clen == chars0.len(),
                forall|k: int| 0 <= k < hover_characters@.len() ==> #[trigger] hover_characters@[k] < chars0.len(),
                self.selected_characters@ == hover_characters@.take(k as int).map_values(
                    |p: usize| chars0[p as int].unique_id,
                ),
                self.is_deselecting_chars,
                self.selected_objects@ == old(self).selected_objects@,
                self.is_deselecting_objs == old(self).is_deselecting_objs,
                self.selecting_mode == old(self).selecting_mode,
                self.is_deselecting_move == old(self).is_deselecting_move,
                characters@.len() == chars0.len(),
                forall|p: int|
                    0 <= p < chars0.len() ==> #[trigger] characters@[p] == (if exists|w: int|
                        0 <= w < k && #[trigger] hover_characters@[w] as int == p {
                        CharacterEntry { is_selected: true, ..chars0[p] }
                    } else {
                        chars0[p]
                    }),
            decreases n - k,
        {
            let p = hover_characters[k];
            characters[p].is_selected = true;
            self.selected_characters.push(characters[p].unique_id);
            proof {
                assert(hover_characters@.take(k + 1) == hover_characters@.take(k as int).push(p));
                assert(hover_characters@.take(k + 1).map_values(|p: usize| chars0[p as int].unique_id)
                    == hover_characters@.take(k as int).map_values(|p: usize| chars0[p as int].unique_id).push(
                    chars0[p as int].unique_id,
                ));
                assert forall|q: int| 0 <= q < chars0.len() implies #[trigger] characters@[q] == (if exists|w: int|
                    0 <= w < k + 1 && #[trigger] hover_characters@[w] as int == q {
                    CharacterEntry { is_selected: true, ..chars0[q] }
                } else {
                    chars0[q]
                }) by {
                    if q == p as int {
                        assert(hover_characters@[k as int] as int == q);
                    } else if exists|w: int| 0 <= w < k + 1 && #[trigger] hover_characters@[w] as int == q {
                        let w = choose|w: int| 0 <= w < k + 1 && #[trigger] hover_characters@[w] as int == q;
                        assert(w < k);
                    }
                }
            }
            k = k + 1;
        }
        proof {
            assert(hover_characters@.take(n as int) == hover_characters@);
            assert forall|q: int| 0 <= q < chars0.len() implies (exists|w: int|
                0 <= w < n && #[trigger] hover_characters@[w] as int == q) == #[trigger] hover_characters@.contains(q as usize) by {
                assert(q < clen);
                if hover_characters@.contains(q as usize) {
                    let w = choose|w: int| 0 <= w < hover_characters@.len() && hover_characters@[w] == q as usize;
                    assert(hover_characters@[w] as int == q);
                }
            }
        }
    }

    /// Makes exactly the objects at the given map indices selected, flagging
    /// each and recording the indices in that order.
    pub fn select_multiple_objs(&mut self, object_grid: &mut Vec<Object>, indexes: Vec<usize>)
        requires
            forall|k: int|
                0 <= k < indexes@.len() ==> #[trigger] indexes@[k] < old(object_grid)@.len() && !(old(
                    object_grid,
                )@[indexes@[k] as int] is NoObject),
        ensures
            final(self).selected_objects@ == indexes@,
            final(self).is_deselecting_objs,
            final(self).selected_characters@ == old(self).selected_characters@,
            final(self).is_deselecting_chars == old(self).is_deselecting_chars,
            final(self).selecting_mode == old(self).selecting_mode,
            final(self).is_deselecting_move == old(self).is_deselecting_move,
            final(object_grid)@.len() == old(object_grid)@.len(),
            forall|i: int|
                0 <= i < old(object_grid)@.len() ==> #[trigger] final(object_grid)@[i] == (if indexes@.contains(
                    i as usize,
                ) {
                    selected(old(object_grid)@[i])
                } else {
                    old(object_grid)@[i]
                }),
    {
        self.deselect_objs();
        let ghost grid0 = object_grid@;
        let glen = object_grid.len();
        let n = indexes.len();
        let mut k: usize = 0;
        while k < n
            invariant
                n == indexes@.len(),
                k <= n,
                glen == grid0.len(),
                forall|k: int|
                    0 <= k < indexes@.len() ==> #[trigger] indexes@[k] < grid0.len() && !(grid0[indexes@[k] as int] is NoObject),
                self.selected_objects@ == indexes@.subrange(0, k as int),
                self.is_deselecting_objs,
                self.selected_characters@ == old(self).selected_characters@,
                self.is_deselecting_chars == old(self).is_deselecting_chars,
                self.selecting_mode == old(self).selecting_mode,
                self.is_deselecting_move == old(self).is_deselecting_move,
                object_grid@.len() == grid0.len(),
                forall|i: int|
                    0 <= i < grid0.len() ==> #[trigger] object_grid@[i] == (if exists|w: int|
                        0 <= w < k && #[trigger] indexes@[w] as int == i {
                        selected(grid0[i])
                    } else {
                        grid0[i]
                    }),
            decreases n - k,
        {
            let idx = indexes[k];
            let mut obj = object_grid[idx];
            proof {
                if exists|w: int| 0 <= w < k && #[trigger] indexes@[w] as int == idx as int {
                    assert(obj == selected(grid0[idx as int]));
                }
                assert(!(grid0[idx as int] is NoObject));
            }
            obj.set_selected();
            object_grid.set(idx, obj);
            self.selected_objects.push(idx);
            proof {
                assert(indexes@.subrange(0, k + 1) == indexes@.subrange(0, k as int).push(indexes@[k as int]));
                assert forall|i: int| 0 <= i < grid0.len() implies #[trigger] object_grid@[i] == (if exists|w: int|
                    0 <= w < k + 1 && #[trigger] indexes@[w] as int == i {
                    selected(grid0[i])
                } else {
                    grid0[i]
                }) by {
                    if i == idx as int {
                        assert(indexes@[k as int] as int == i);
                    } else if exists|w: int| 0 <= w < k + 1 && #[trigger] indexes@[w] as int == i {
                        let w = choose|w: int| 0 <= w < k + 1 && #[trigger] indexes@[w] as int == i;
                        assert(w < k);
                    }
                }
            }
            k = k + 1;
        }
        proof {
            assert(indexes@.subrange(0, n as int) == indexes@);
            assert forall|i: int| 0 <= i < grid0.len() implies (exists|w: int|
                0 <= w < n && #[trigger] indexes@[w] as int == i) == #[trigger] indexes@.contains(i as usize) by {
                assert(i < glen);
                if indexes@.contains(i as usize) {
                    let w = choose|w: int| 0 <= w < indexes@.len() && indexes@[w] == i as usize;
                    assert(indexes@[w] as int == i);
                }
            }
        }
    }

    /// Forgets the selected objects and notes that objects are being
    /// deselected this frame.
    pub fn deselect_objs(&mut self)
        ensures
            final(self).selected_objects@.len() == 0,
            final(self).is_deselecting_objs,
            final(self).selected_characters@ == old(self).selected_characters@,
            final(self).is_deselecting_chars == old(self).is_deselecting_chars,
            final(self).selecting_mode == old(self).selecting_mode,
            final(self).is_deselecting_move == old(self).is_deselecting_move,
    {
        self.is_deselecting_objs = true;
        self.selected_objects.clear();
    }

    /// Notes that the characters chosen to move are being let go this
    /// frame; their flags are cleared as the characters are updated.
    pub fn deselect_move(&mut self)
        ensures
            final(self).is_deselecting_move,
            final(self).selected_objects@ == old(self).selected_objects@,
            final(self).selected_characters@ == old(self).selected_characters@,
            final(self).is_deselecting_objs == old(self).is_deselecting_objs,
            final(self).is_deselecting_chars == old(self).is_deselecting_chars,
            final(self).selecting_mode == old(self).selecting_mode,
    {
        self.is_deselecting_move = true;
    }

    /// Chooses the given character to move.
    pub fn select_single_move<T>(&mut self, character_entry: &mut CharacterEntry<T>)
        ensures
            *final(character_entry) == (CharacterEntry { is_selected_for_move: true, ..*old(character_entry) }),
            *final(self) == *old(self),
    {
        character_entry.is_selected_for_move = true;
    }

    /// Chooses the characters at the given positions to move.
    pub fn select_multiple_moves<T>(&mut self, characters: &mut Vec<CharacterEntry<T>>, hover_characters: Vec<usize>)
        requires
            forall|k: int| 0 <= k < hover_characters@.len() ==> #[trigger] hover_characters@[k] < old(characters)@.len(),
        ensures
            *final(self) == *old(self),
            final(characters)@.len() == old(characters)@.len(),
            forall|p: int|
                0 <= p < old(characters)@.len() ==> #[trigger] final(characters)@[p] == (if hover_characters@.contains(
                    p as usize,
                ) {
                    CharacterEntry { is_selected_for_move: true, ..old(characters)@[p] }
                } else {
                    old(characters)@[p]
                }),
    {
        let ghost chars0 = characters@;
        let clen = characters.len();
        let n = hover_characters.len();
        let mut k: usize = 0;
        while k < n
            invariant
                n == hover_characters@.len(),
                k <= n,
                clen == chars0.len(),
                forall|k: int| 0 <= k < hover_characters@.len() ==> #[trigger] hover_characters@[k] < chars0.len(),
                characters@.len() == chars0.len(),
                forall|p: int|
                    0 <= p < chars0.len() ==> #[trigger] characters@[p] == (if exists|w: int|
                        0 <= w < k && #[trigger] hover_characters@[w] as int == p {
                        CharacterEntry { is_selected_for_move: true, ..chars0[p] }
                    } else {
                        chars0[p]
                    }),
            decreases n - k,
        {
            let p = hover_characters[k];
            characters[p].is_selected_for_move = true;
            proof {
                assert forall|q: int| 0 <= q < chars0.len() implies #[trigger] characters@[q] == (if exists|w: int|
                    0 <= w < k + 1 && #[trigger] hover_characters@[w] as int == q {
                    CharacterEntry { is_selected_for_move: true, ..chars0[q] }
                } else {
                    chars0[q]
                }) by {
                    if q == p as int {
                        assert(hover_characters@[k as int] as int == q);
                    } else if exists|w: int| 0 <= w < k + 1 && #[trigger] hover_characters@[w] as int == q {
                        let w = choose|w: int| 0 <= w < k + 1 && #[trigger] hover_characters@[w] as int == q;
                        assert(w < k);
                    }
                }
            }
            k = k + 1;
        }
        proof {
            assert forall|q: int| 0 <= q < chars0.len() implies (exists|w: int|
                0 <= w < n && #[trigger] hover_characters@[w] as int == q) == #[trigger] hover_characters@.contains(q as usize) by {
                assert(q < clen);
                if hover_characters@.contains(q as usize) {
                    let w = choose|w: int| 0 <= w < hover_characters@.len() && hover_characters@[w] == q as usize;
                    assert(hover_characters@[w] as int == q);
                }
            }
        }
    }

    /// Forgets the selected characters and notes that characters are being
    /// deselected this frame.
    pub fn deselect_chars(&mut self)
        ensures
            final(self).selected_characters@.len() == 0,
            final(self).is_deselecting_chars,
            final(self).selected_objects@ == old(self).selected_objects@,
            final(self).is_deselecting_objs == old(self).is_deselecting_objs,
            final(self).selecting_mode == old(self).selecting_mode,
            final(self).is_deselecting_move == old(self).is_deselecting_move,
    {
        self.is_deselecting_chars = true;
        self.selected_characters.clear();
    }
}

} // verus!
