use vstd::prelude::*;

verus! {

/// The drag-selection state: whether each mouse button is dragging, whether
/// a drag ended this frame, whether the range of each kind of selection is
/// active, and whether the drag origin is set. The rectangle itself, in
/// world coordinates, is kept by the caller.
pub struct SelectRect {
    pub origin_set: bool,
    pub is_dragging_normal_selection: bool,
    pub is_dragging_for_move_selection: bool,
    pub is_selecting_this_frame: bool,
    pub is_selecting_for_move_this_frame: bool,
    pub select_range_active: bool,
    pub move_select_range_active: bool,
}

impl SelectRect {
    /// Nothing dragging, nothing selecting, no origin.
    pub fn new() -> (r: SelectRect)
        ensures
            !r.origin_set,
            !r.is_dragging_normal_selection,
            !r.is_dragging_for_move_selection,
            !r.is_selecting_this_frame,
            !r.is_selecting_for_move_this_frame,
            !r.select_range_active,
            !r.move_select_range_active,
    {
        SelectRect {
            origin_set: false,
            is_dragging_normal_selection: false,
            is_dragging_for_move_selection: false,
            is_selecting_this_frame: false,
            is_selecting_for_move_this_frame: false,
            select_range_active: false,
            move_select_range_active: false,
        }
    }

    /// One frame of drag selection, from the mouse state: whether the left
    /// (normal selection) and right (move selection) buttons are dragging,
    /// and whether either drag stopped this frame.
    ///
    /// Dragging with both buttons cancels everything. Otherwise a drag that
    /// stopped selects this frame and forgets the origin, and a range is
    /// active while dragging or selecting. The result tells the caller
    /// whether to redraw the rectangle between the origin and the mouse
    /// (`Some`), and whether to first put the origin at the mouse (`true`):
    /// this happens when a drag is under way and the origin was not set.
    pub fn update(
        &mut self,
        left_dragging: bool,
        right_dragging: bool,
        left_stopped_dragging_this_frame: bool,
        right_stopped_dragging_this_frame: bool,
    ) -> (rect_step: Option<bool>)
        ensures
            final(self).is_dragging_normal_selection == left_dragging,
            final(self).is_dragging_for_move_selection == right_dragging,
            left_dragging && right_dragging ==> {
                &&& !final(self).origin_set
                &&& !final(self).select_range_active
                &&& !final(self).move_select_range_active
                &&& !final(self).is_selecting_this_frame
                &&& !final(self).is_selecting_for_move_this_frame
                &&& rect_step is None
            },
            !(left_dragging && right_dragging) ==> {
                let origin_after_left = if left_stopped_dragging_this_frame {
                    false
                } else {
                    old(self).origin_set || left_dragging
                };
                &&& final(self).is_selecting_this_frame == left_stopped_dragging_this_frame
                &&& final(self).is_selecting_for_move_this_frame == right_stopped_dragging_this_frame
                &&& final(self).select_range_active == (left_dragging || left_stopped_dragging_this_frame)
                &&& final(self).move_select_range_active == (right_dragging
                    || right_stopped_dragging_this_frame)
                &&& final(self).origin_set == (if right_stopped_dragging_this_frame {
                    false
                } else {
                    origin_after_left || right_dragging
                })
                &&& rect_step == (if left_dragging {
                    Some(!old(self).origin_set)
                } else if right_dragging {
                    Some(!origin_after_left)
                } else {
                    None
                })
            },
    {
        self.is_dragging_normal_selection = left_dragging;
        self.is_dragging_for_move_selection = right_dragging;
        self.is_selecting_this_frame = false;
        self.is_selecting_for_move_this_frame = false;
        if self.is_dragging_for_move_selection && self.is_dragging_normal_selection {
            self.origin_set = false;
            self.select_range_active = false;
            self.move_select_range_active = false;
            return None;
        }
        let mut rect_step: Option<bool> = None;
        if self.is_dragging_normal_selection {
            let set_origin = !self.origin_set;
            if !self.origin_set {
                self.origin_set = true;
            }
            rect_step = Some(set_origin);
        }
        if left_stopped_dragging_this_frame {
            self.is_selecting_this_frame = true;
            self.origin_set = false;
        }
        self.select_range_active = self.is_dragging_normal_selection || self.is_selecting_this_frame;
        if self.is_dragging_for_move_selection {
            let set_origin = !self.origin_set;
            if !self.origin_set {
                self.origin_set = true;
            }
            rect_step = Some(set_origin);
        }
        if right_stopped_dragging_this_frame {
            self.is_selecting_for_move_this_frame = true;
            self.origin_set = false;
        }
        self.move_select_range_active = self.is_dragging_for_move_selection
            || self.is_selecting_for_move_this_frame;
        rect_step
    }
}

} // verus!
