use vstd::prelude::*;

verus! {

/// The kinds of object that stand on map tiles.
#[derive(Copy, Clone, Debug, Hash, PartialEq, Eq, Structural)]
pub enum ObjectKind {
    Tree,
    Grass,
}

/// Whether an object is whole or being broken down.
#[derive(Copy, Clone, Debug, PartialEq, Eq, Structural)]
pub enum ObjectState {
    Idle,
    Breaking,
}

/// The kind of object on each tile, in row-major order; `None` where the
/// tile is free.
pub type ObjectKindGrid = Vec<Option<ObjectKind>>;

/// What every object keeps besides its looks: whether it is breaking, and
/// the flags that gatherers and the selection read and write.
#[derive(Copy, Clone, Debug, PartialEq, Eq, Structural)]
pub struct ObjectData {
    pub state: ObjectState,
    pub is_marked_for_gathering: bool,
    pub is_occupied: bool,
    pub is_hovering: bool,
    pub is_selected: bool,
}

impl ObjectData {
    /// A whole object with every flag down.
    pub fn new() -> (d: ObjectData)
        ensures
            d.state == ObjectState::Idle,
            !d.is_marked_for_gathering,
            !d.is_occupied,
            !d.is_hovering,
            !d.is_selected,
    {
        ObjectData {
            state: ObjectState::Idle,
            is_marked_for_gathering: false,
            is_occupied: false,
            is_hovering: false,
            is_selected: false,
        }
    }
}

/// The content of a map tile: nothing, a tree or a grass object.
#[derive(Copy, Clone, Debug, PartialEq, Eq, Structural)]
pub enum Object {
    NoObject,
    TreeObj(ObjectData),
    GrassObj(ObjectData),
}

/// One entry per tile, row by row.
pub type MapObjectGrid = Vec<Object>;

/// The data of a tree or grass object.
pub open spec fn data_of(o: Object) -> ObjectData
    recommends
        !(o is NoObject),
{
    match o {
        Object::TreeObj(d) => d,
        Object::GrassObj(d) => d,
        Object::NoObject => ObjectData {
            state: ObjectState::Idle,
            is_marked_for_gathering: false,
            is_occupied: false,
            is_hovering: false,
            is_selected: false,
        },
    }
}

/// The object `o` with its data replaced by `d` (nothing stays nothing).
pub open spec fn with_data(o: Object, d: ObjectData) -> Object {
    match o {
        Object::TreeObj(_) => Object::TreeObj(d),
        Object::GrassObj(_) => Object::GrassObj(d),
        Object::NoObject => Object::NoObject,
    }
}

/// The kind of object `o` is, if any.
pub open spec fn kind_of(o: Object) -> Option<ObjectKind> {
    match o {
        Object::TreeObj(_) => Some(ObjectKind::Tree),
        Object::GrassObj(_) => Some(ObjectKind::Grass),
        Object::NoObject => None,
    }
}

impl Object {
    /// A fresh object of the given kind, or nothing.
    pub fn from_kind(kind: Option<ObjectKind>) -> (o: Object)
        ensures
            kind_of(o) == kind,
            kind is Some ==> data_of(o) == ObjectData::new_spec(),
    {
        match kind {
            Some(ObjectKind::Tree) => Object::TreeObj(ObjectData::new()),
            Some(ObjectKind::Grass) => Object::GrassObj(ObjectData::new()),
            None => Object::NoObject,
        }
    }

    /// The shared data of a tree or grass object; there is none for an empty
    /// tile.
    pub fn get_data(&self) -> (d: ObjectData)
        requires
            !(*self is NoObject),
        ensures
            d == data_of(*self),
    {
        match self {
            Object::TreeObj(d) => *d,
            Object::GrassObj(d) => *d,
            Object::NoObject => ObjectData::new(),
        }
    }

    /// Replaces the shared data of a tree or grass object.
    fn set_data(&mut self, d: ObjectData)
        requires
            !(*old(self) is NoObject),
        ensures
            *final(self) == with_data(*old(self), d),
    {
        match self {
            Object::TreeObj(x) => {
                *x = d;
            },
            Object::GrassObj(x) => {
                *x = d;
            },
            Object::NoObject => {},
        }
    }

    /// Turns the tile empty.
    pub fn delete(&mut self)
        ensures
            *final(self) == Object::NoObject,
    {
        *self = Object::NoObject;
    }

    /// An object that is breaking is not to be selected, gathered or
    /// occupied again.
    pub fn should_not_be_used_again_by_anything(&self) -> (b: bool)
        requires
            !(*self is NoObject),
        ensures
            b == (data_of(*self).state == ObjectState::Breaking),
    {
        self.get_data().state == ObjectState::Breaking
    }

    pub fn set_hovering(&mut self)
        requires
            !(*old(self) is NoObject),
        ensures
            *final(self) == with_data(*old(self), ObjectData { is_hovering: true, ..data_of(*old(self)) }),
    {
        let d = self.get_data();
        self.set_data(ObjectData { is_hovering: true, ..d });
    }

    pub fn is_hovering(&self) -> (b: bool)
        requires
            !(*self is NoObject),
        ensures
            b == data_of(*self).is_hovering,
    {
        self.get_data().is_hovering
    }

    pub fn set_selected(&mut self)
        requires
            !(*old(self) is NoObject),
        ensures
            *final(self) == with_data(*old(self), ObjectData { is_selected: true, ..data_of(*old(self)) }),
    {
        let d = self.get_data();
        self.set_data(ObjectData { is_selected: true, ..d });
    }

    pub fn is_selected(&self) -> (b: bool)
        requires
            !(*self is NoObject),
        ensures
            b == data_of(*self).is_selected,
    {
        self.get_data().is_selected
    }

    pub fn set_occupied(&mut self)
        requires
            !(*old(self) is NoObject),
        ensures
            *final(self) == with_data(*old(self), ObjectData { is_occupied: true, ..data_of(*old(self)) }),
    {
        let d = self.get_data();
        self.set_data(ObjectData { is_occupied: true, ..d });
    }

    /// Sets the data's `is_occupied` flag to `true`, as `set_occupied` does.
    pub fn set_unoccupied(&mut self)
        requires
            !(*old(self) is NoObject),
        ensures
            *final(self) == with_data(*old(self), ObjectData { is_occupied: true, ..data_of(*old(self)) }),
    {
        let d = self.get_data();
        self.set_data(ObjectData { is_occupied: true, ..d });
    }

    pub fn is_occupied(&self) -> (b: bool)
        requires
            !(*self is NoObject),
        ensures
            b == data_of(*self).is_occupied,
    {
        self.get_data().is_occupied
    }

    pub fn mark_for_gathering(&mut self)
        requires
            !(*old(self) is NoObject),
        ensures
            *final(self) == with_data(
                *old(self),
                ObjectData { is_marked_for_gathering: true, ..data_of(*old(self)) },
            ),
    {
        let d = self.get_data();
        self.set_data(ObjectData { is_marked_for_gathering: true, ..d });
    }

    pub fn unmark_for_gathering(&mut self)
        requires
            !(*old(self) is NoObject),
        ensures
            *final(self) == with_data(
                *old(self),
                ObjectData { is_marked_for_gathering: false, ..data_of(*old(self)) },
            ),
    {
        let d = self.get_data();
        self.set_data(ObjectData { is_marked_for_gathering: false, ..d });
    }

    pub fn is_marked_for_gathering(&self) -> (b: bool)
        requires
            !(*self is NoObject),
        ensures
            b == data_of(*self).is_marked_for_gathering,
    {
        self.get_data().is_marked_for_gathering
    }

    /// What a hit does to the object's state once its health has been
    /// lowered by the caller: an object whose health ran out starts breaking
    /// and is no longer marked for gathering; otherwise nothing changes.
    pub fn take_hit(&mut self, health_depleted: bool)
        requires
            !(*old(self) is NoObject),
        ensures
            *final(self) == (if health_depleted {
                with_data(
                    *old(self),
                    ObjectData {
                        state: ObjectState::Breaking,
                        is_marked_for_gathering: false,
                        ..data_of(*old(self))
                    },
                )
            } else {
                *old(self)
            }),
    {
        if health_depleted {
            let d = self.get_data();
            self.set_data(ObjectData { state: ObjectState::Breaking, is_marked_for_gathering: false, ..d });
        }
    }

    /// The per-frame bookkeeping of an object. A deselection this frame
    /// clears its selection. A whole object loses its hover; a breaking
    /// object out of the camera's view disappears, and one in view asks the
    /// caller to run its disappear timer (the result), after which
    /// `finish_disappearing` is told whether the timer ran out. Nothing
    /// happens on an empty tile.
    pub fn update(&mut self, should_deselect: bool, in_camera_view: bool) -> (track_timer: bool)
        ensures
            *old(self) is NoObject ==> *final(self) == Object::NoObject && !track_timer,
            !(*old(self) is NoObject) ==> {
                let d0 = data_of(*old(self));
                let d1 = ObjectData { is_selected: d0.is_selected && !should_deselect, ..d0 };
                &&& d0.state == ObjectState::Idle ==> *final(self) == with_data(
                    *old(self),
                    ObjectData { is_hovering: false, ..d1 },
                ) && !track_timer
                &&& d0.state == ObjectState::Breaking && !in_camera_view ==> *final(self)
                    == Object::NoObject && !track_timer
                &&& d0.state == ObjectState::Breaking && in_camera_view ==> *final(self)
                    == with_data(*old(self), d1) && track_timer
            },
    {
        if let Object::NoObject = self {
            return false;
        }
        let mut d = self.get_data();
        if should_deselect {
            d.is_selected = false;
        }
        match d.state {
            ObjectState::Idle => {
                d.is_hovering = false;
                self.set_data(d);
                false
            },
            ObjectState::Breaking => {
                if !in_camera_view {
                    self.delete();
                    false
                } else {
                    self.set_data(d);
                    true
                }
            },
        }
    }

    /// Removes a breaking object whose disappear timer ran out.
    pub fn finish_disappearing(&mut self, timer_done: bool)
        ensures
            *final(self) == (if timer_done {
                Object::NoObject
            } else {
                *old(self)
            }),
    {
        if timer_done {
            self.delete();
        }
    }
}

impl ObjectData {
    /// The value `ObjectData::new` returns.
    pub open spec fn new_spec() -> ObjectData {
        ObjectData {
            state: ObjectState::Idle,
            is_marked_for_gathering: false,
            is_occupied: false,
            is_hovering: false,
            is_selected: false,
        }
    }
}

} // verus!
