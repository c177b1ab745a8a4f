use vstd::prelude::*;

verus! {

/// Width and height, in tiles, of one spatial cell.
pub const CELL_SIZE: u16 = 50;

/// A square block of tiles that remembers which characters stand in it, by
/// their index in the character list.
pub struct MapCell {
    pub chars_in_cell: Vec<usize>,
}

impl MapCell {
    pub fn new() -> (c: MapCell)
        ensures
            c.chars_in_cell@ == Seq::<usize>::empty(),
    {
        MapCell { chars_in_cell: Vec::new() }
    }

    /// Records that the character with index `char_index` is in this cell.
    pub fn add_char(&mut self, char_index: usize)
        ensures
            final(self).chars_in_cell@ == old(self).chars_in_cell@.push(char_index),
    {
        self.chars_in_cell.push(char_index);
    }

    /// Forgets every character recorded in this cell.
    pub fn clear_chars(&mut self)
        ensures
            final(self).chars_in_cell@ == Seq::<usize>::empty(),
    {
        self.chars_in_cell.clear();
    }
}

} // verus!
