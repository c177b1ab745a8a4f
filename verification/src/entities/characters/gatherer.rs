use vstd::prelude::*;

use crate::entities::character::CharacterMovementResult;
use crate::entities::object::{data_of, with_data, Object, ObjectData, ObjectState};
use crate::utils::entity_utils::{matches_target, object_matches_gathering_target};

verus! {

/// The kind of object a gatherer is sent to collect.
#[derive(Clone, Copy, Debug, PartialEq, Eq, Structural)]
pub enum GatherTarget {
    Tree,
    Grass,
}

/// What a gatherer is busy with. While moving, the gatherer heads for the
/// object at map index `target_index`.
#[derive(Clone, Copy, Debug, PartialEq, Eq, Structural)]
pub enum GathererState {
    Idle,
    LookingForObject { gather_target: GatherTarget },
    MovingToObject { target_index: usize, gather_target: GatherTarget },
    GatheringObject { gather_target: GatherTarget },
}

/// What the outside world reports to a gatherer for one frame, matching its
/// state: nothing while idle; while looking, one distance key per candidate
/// in `object_indices` (smaller is nearer); while moving, how the step
/// towards the object went; while gathering, nothing until the gather timer
/// and animation have run, then the hit, with whether it emptied the
/// object's health.
pub enum GathererEvent {
    Nothing,
    DistanceKeys(Vec<u32>),
    Moved(CharacterMovementResult),
    Hit { health_depleted: bool },
}

/// The decision-making part of a gatherer: its task, the objects it was
/// given, the object it holds, and whether it must let that object go.
pub struct Gatherer {
    pub gatherer_state: GathererState,
    pub object_indices: Vec<usize>,
    pub current_index: Option<usize>,
    pub should_unoccupy_current_obj: bool,
}

/// The object at map index `i` can be taken for `t`: it exists, is not
/// breaking, is not held by anyone, is marked for gathering and is of the
/// right kind.
pub open spec fn available(grid: Seq<Object>, i: int, t: GatherTarget) -> bool {
    &&& 0 <= i < grid.len()
    &&& !(grid[i] is NoObject)
    &&& data_of(grid[i]).state != ObjectState::Breaking
    &&& !data_of(grid[i]).is_occupied
    &&& data_of(grid[i]).is_marked_for_gathering
    &&& matches_target(t, grid[i])
}

/// Position `k` of the candidate list holds the nearest available object,
/// the first one among equally near ones.
pub open spec fn is_closest(indices: Seq<usize>, keys: Seq<u32>, grid: Seq<Object>, t: GatherTarget, k: int) -> bool {
    &&& 0 <= k < indices.len()
    &&& available(grid, indices[k] as int, t)
    &&& forall|j: int|
        0 <= j < indices.len() && available(grid, #[trigger] indices[j] as int, t) ==> keys[k] <= keys[j] && (j
            < k ==> keys[k] < keys[j])
}

/// No candidate in the list is available.
pub open spec fn none_available(indices: Seq<usize>, grid: Seq<Object>, t: GatherTarget) -> bool {
    forall|j: int| 0 <= j < indices.len() ==> !available(grid, #[trigger] indices[j] as int, t)
}

/// The object `o` with its flags changed to `occupied`.
pub open spec fn with_occupied(o: Object, occupied: bool) -> Object {
    with_data(o, ObjectData { is_occupied: occupied, ..data_of(o) })
}

/// The object `o` after a hit and the check that follows it: a depleted
/// object breaks; a breaking object is no longer marked for gathering.
pub open spec fn after_gather(o: Object, depleted: bool) -> Object {
    let d = data_of(o);
    let state = if depleted { ObjectState::Breaking } else { d.state };
    let marked = if state == ObjectState::Breaking { false } else { d.is_marked_for_gathering };
    with_data(o, ObjectData { state, is_marked_for_gathering: marked, ..d })
}

/// `current` names an existing object of the grid.
pub open spec fn holds_object(grid: Seq<Object>, current: Option<usize>) -> bool {
    &&& current is Some
    &&& current.unwrap() < grid.len()
    &&& !(grid[current.unwrap() as int] is NoObject)
}

/// The event carries what the state asks for.
pub open spec fn event_fits(state: GathererState, n: int, event: GathererEvent) -> bool {
    match state {
        GathererState::Idle => event is Nothing,
        GathererState::LookingForObject { .. } => event matches GathererEvent::DistanceKeys(keys) && keys@.len()
            == n,
        GathererState::MovingToObject { .. } => event is Moved,
        GathererState::GatheringObject { .. } => event is Nothing || event is Hit,
    }
}

impl Gatherer {
    /// An idle gatherer with nothing to gather.
    pub fn new() -> (g: Gatherer)
        ensures
            g.gatherer_state == GathererState::Idle,
            g.object_indices@.len() == 0,
            g.current_index is None,
            !g.should_unoccupy_current_obj,
    {
        Gatherer {
            gatherer_state: GathererState::Idle,
            object_indices: Vec::new(),
            current_index: None,
            should_unoccupy_current_obj: false,
        }
    }

    /// Whether the gatherer has no task.
    pub fn is_idle(&self) -> (b: bool)
        ensures
            b == (self.gatherer_state == GathererState::Idle),
    {
        match self.gatherer_state {
            GathererState::Idle => true,
            _ => false,
        }
    }

    /// Drops the task; candidates and the held object stay.
    pub fn set_idle(&mut self)
        ensures
            final(self).gatherer_state == GathererState::Idle,
            final(self).object_indices@ == old(self).object_indices@,
            final(self).current_index == old(self).current_index,
            final(self).should_unoccupy_current_obj == old(self).should_unoccupy_current_obj,
    {
        self.gatherer_state = GathererState::Idle;
    }

    /// Sends the gatherer after the given objects: it looks for one of kind
    /// `gather_target` among them, letting go of the object it held.
    pub fn assign(&mut self, object_indices: Vec<usize>, gather_target: GatherTarget)
        ensures
            final(self).object_indices@ == object_indices@,
            final(self).gatherer_state == (GathererState::LookingForObject { gather_target }),
            final(self).should_unoccupy_current_obj,
            final(self).current_index == old(self).current_index,
    {
        self.object_indices = object_indices;
        self.gatherer_state = GathererState::LookingForObject { gather_target };
        self.should_unoccupy_current_obj = true;
    }

    /// Whether the object at map index `idx` can be taken for `target_obj`:
    /// it is not held by anyone, is marked for gathering and is of the right
    /// kind.
    pub fn obj_matches_target_and_is_available(obj: &Object, target_obj: GatherTarget) -> (b: bool)
        requires
            !(*obj is NoObject),
        ensures
            b == (!data_of(*obj).is_occupied && data_of(*obj).is_marked_for_gathering && matches_target(
                target_obj,
                *obj,
            )),
    {
        if obj.is_occupied() {
            return false;
        }
        if !obj.is_marked_for_gathering() {
            return false;
        }
        object_matches_gathering_target(target_obj, obj)
    }

    /// The position in `object_indices` of the nearest available object of
    /// kind `target_obj`, by the distance keys given for the candidates (the
    /// first of equally near ones), or `None` when no candidate is
    /// available.
    pub fn find_closest_target(&self, object_grid: &Vec<Object>, target_obj: GatherTarget, distance_keys: &Vec<
        u32,
    >) -> (r: Option<usize>)
        requires
            distance_keys@.len() == self.object_indices@.len(),
            forall|k: int| 0 <= k < self.object_indices@.len() ==> #[trigger] self.object_indices@[k] < object_grid@.len(),
        ensures
            r matches Some(k) ==> is_closest(
                self.object_indices@,
                distance_keys@,
                object_grid@,
                target_obj,
                k as int,
            ),
            r is None <==> none_available(self.object_indices@, object_grid@, target_obj),
    {
        let n = self.object_indices.len();
        let mut best: Option<usize> = None;
        let mut k: usize = 0;
        while k < n
            invariant
                n == self.object_indices@.len(),
                n == distance_keys@.len(),
                k <= n,
                forall|k: int| 0 <= k < self.object_indices@.len() ==> #[trigger] self.object_indices@[k] < object_grid@.len(),
                best matches Some(b) ==> {
                    &&& b < k
                    &&& available(object_grid@, self.object_indices@[b as int] as int, target_obj)
                    &&& forall|j: int|
                        0 <= j < k && available(object_grid@, #[trigger] self.object_indices@[j] as int, target_obj)
                            ==> distance_keys@[b as int] <= distance_keys@[j] && (j < b ==> distance_keys@[b as int]
                            < distance_keys@[j])
                },
                best is None ==> forall|j: int|
                    0 <= j < k ==> !available(object_grid@, #[trigger] self.object_indices@[j] as int, target_obj),
            decreases n - k,
        {
            let idx = self.object_indices[k];
            let obj = &object_grid[idx];
            let is_some = match obj {
                Object::NoObject => false,
                _ => true,
            };
            if is_some && !obj.should_not_be_used_again_by_anything()
                && Gatherer::obj_matches_target_and_is_available(obj, target_obj) {
                match best {
                    Some(b) => {
                        if distance_keys[k] < distance_keys[b] {
                            best = Some(k);
                        }
                    },
                    None => {
                        best = Some(k);
                    },
                }
            }
            k = k + 1;
        }
        best
    }

    /// Lets go of the held object when asked to, through `set_unoccupied`
    /// (which leaves the object's `is_occupied` flag set); the request flag is
    /// cleared.
    fn unoccupy_if_requested(&mut self, object_grid: &mut Vec<Object>)
        requires
            old(self).should_unoccupy_current_obj && old(self).current_index is Some ==> holds_object(
                old(object_grid)@,
                old(self).current_index,
            ),
        ensures
            !final(self).should_unoccupy_current_obj,
            final(self).gatherer_state == old(self).gatherer_state,
            final(self).object_indices@ == old(self).object_indices@,
            final(self).current_index == (if old(self).should_unoccupy_current_obj {
                None
            } else {
                old(self).current_index
            }),
            final(object_grid)@ == (if old(self).should_unoccupy_current_obj && old(self).current_index is Some {
                let o = old(self).current_index.unwrap() as int;
                old(object_grid)@.update(o, with_occupied(old(object_grid)@[o], true))
            } else {
                old(object_grid)@
            }),
    {
        if self.should_unoccupy_current_obj {
            self.should_unoccupy_current_obj = false;
            if let Some(o) = self.current_index {
                let mut obj = object_grid[o];
                obj.set_unoccupied();
                object_grid.set(o, obj);
                self.current_index = None;
            }
        }
    }

    /// One frame of the gatherer. First it lets go of the held object if
    /// asked to. Then, by state: while looking it takes the nearest
    /// available candidate (marking it occupied and heading for it), or goes
    /// idle with no candidates and no held object when none is left; while
    /// moving it starts gathering on arrival, keeps going otherwise, and on
    /// a failed route drops its candidates, lets go of the held object (through
    /// `set_unoccupied`, which leaves it flagged occupied) and goes idle;
    /// while gathering a hit may break the held object, and once it breaks
    /// the object is no longer marked and the gatherer looks for the next one.
    pub fn update(&mut self, object_grid: &mut Vec<Object>, event: GathererEvent)
        requires
            event_fits(old(self).gatherer_state, old(self).object_indices@.len() as int, event),
            forall|k: int|
                0 <= k < old(self).object_indices@.len() ==> #[trigger] old(self).object_indices@[k] < old(
                    object_grid,
                )@.len(),
            old(self).should_unoccupy_current_obj && old(self).current_index is Some ==> holds_object(
                old(object_grid)@,
                old(self).current_index,
            ),
            old(self).gatherer_state is MovingToObject && event is Moved && (event->Moved_0
                == CharacterMovementResult::NoRoute || event->Moved_0 == CharacterMovementResult::TooLong) ==> holds_object(
                prelude_grid(*old(self), old(object_grid)@),
                prelude_current(*old(self)),
            ),
            old(self).gatherer_state is GatheringObject && event is Hit ==> holds_object(
                prelude_grid(*old(self), old(object_grid)@),
                prelude_current(*old(self)),
            ),
        ensures
            !final(self).should_unoccupy_current_obj,
            stepped(*old(self), old(object_grid)@, event, *final(self), final(object_grid)@),
    {
        self.unoccupy_if_requested(object_grid);
        let ghost g1 = object_grid@;
        match self.gatherer_state {
            GathererState::Idle => {},
            GathererState::LookingForObject { gather_target } => {
                match event {
                    GathererEvent::DistanceKeys(keys) => {
                        match self.find_closest_target(object_grid, gather_target, &keys) {
                            Some(k) => {
                                let idx = self.object_indices[k];
                                let mut obj = object_grid[idx];
                                obj.set_occupied();
                                object_grid.set(idx, obj);
                                self.current_index = Some(idx);
                                self.gatherer_state = GathererState::MovingToObject { target_index: idx, gather_target };
                                proof {
                                    assert(is_closest(self.object_indices@, keys@, g1, gather_target, k as int));
                                }
                            },
                            None => {
                                self.current_index = None;
                                self.object_indices.clear();
                                self.gatherer_state = GathererState::Idle;
                            },
                        }
                    },
                    _ => {},
                }
            },
            GathererState::MovingToObject { target_index, gather_target } => {
                match event {
                    GathererEvent::Moved(r) => {
                        match r {
                            CharacterMovementResult::Success => {
                                self.gatherer_state = GathererState::GatheringObject { gather_target };
                            },
                            CharacterMovementResult::NotArrivedYet => {},
                            _ => {
                                self.object_indices.clear();
                                let o = self.current_index.unwrap();
                                let mut obj = object_grid[o];
                                obj.set_unoccupied();
                                object_grid.set(o, obj);
                                self.current_index = None;
                                self.gatherer_state = GathererState::Idle;
                            },
                        }
                    },
                    _ => {},
                }
            },
            GathererState::GatheringObject { gather_target } => {
                match event {
                    GathererEvent::Hit { health_depleted } => {
                        let o = self.current_index.unwrap();
                        let mut obj = object_grid[o];
                        obj.take_hit(health_depleted);
                        let broken = obj.should_not_be_used_again_by_anything();
                        if broken {
                            obj.unmark_for_gathering();
                        }
                        object_grid.set(o, obj);
                        if broken {
                            self.gatherer_state = GathererState::LookingForObject { gather_target };
                        }
                    },
                    _ => {},
                }
            },
        }
    }
}

/// The held object after the frame's first step.
pub open spec fn prelude_current(g: Gatherer) -> Option<usize> {
    if g.should_unoccupy_current_obj {
        None
    } else {
        g.current_index
    }
}

/// The grid after the frame's first step.
pub open spec fn prelude_grid(g: Gatherer, grid: Seq<Object>) -> Seq<Object> {
    if g.should_unoccupy_current_obj && g.current_index is Some {
        let o = g.current_index.unwrap() as int;
        grid.update(o, with_occupied(grid[o], true))
    } else {
        grid
    }
}

/// What one frame does: `g0` and `grid0` before it, `g1` and `grid1` after.
pub open spec fn stepped(g0: Gatherer, grid0: Seq<Object>, event: GathererEvent, g1: Gatherer, grid1: Seq<Object>) -> bool {
    let cur = prelude_current(g0);
    let grid = prelude_grid(g0, grid0);
    let idx0 = g0.object_indices@;
    match g0.gatherer_state {
        GathererState::Idle => {
            &&& g1.gatherer_state == GathererState::Idle
            &&& g1.object_indices@ == idx0
            &&& g1.current_index == cur
            &&& grid1 == grid
        },
        GathererState::LookingForObject { gather_target } => {
            let keys = event->DistanceKeys_0@;
            ||| exists|k: int|
                #[trigger] is_closest(idx0, keys, grid, gather_target, k) && {
                    let idx = idx0[k];
                    &&& g1.gatherer_state == (GathererState::MovingToObject { target_index: idx, gather_target })
                    &&& g1.current_index == Some(idx)
                    &&& g1.object_indices@ == idx0
                    &&& grid1 == grid.update(idx as int, with_occupied(grid[idx as int], true))
                }
            ||| {
                &&& none_available(idx0, grid, gather_target)
                &&& g1.gatherer_state == GathererState::Idle
                &&& g1.current_index is None
                &&& g1.object_indices@.len() == 0
                &&& grid1 == grid
            }
        },
        GathererState::MovingToObject { gather_target, .. } => {
            let r = event->Moved_0;
            if r == CharacterMovementResult::Success {
                &&& g1.gatherer_state == (GathererState::GatheringObject { gather_target })
                &&& g1.object_indices@ == idx0
                &&& g1.current_index == cur
                &&& grid1 == grid
            } else if r == CharacterMovementResult::NotArrivedYet {
                &&& g1.gatherer_state == g0.gatherer_state
                &&& g1.object_indices@ == idx0
                &&& g1.current_index == cur
                &&& grid1 == grid
            } else {
                let o = cur.unwrap() as int;
                &&& g1.gatherer_state == GathererState::Idle
                &&& g1.object_indices@.len() == 0
                &&& g1.current_index is None
                &&& grid1 == grid.update(o, with_occupied(grid[o], true))
            }
        },
        GathererState::GatheringObject { gather_target } => {
            &&& g1.object_indices@ == idx0
            &&& g1.current_index == cur
            &&& if event is Hit {
                let o = cur.unwrap() as int;
                let hit = after_gather(grid[o], event->health_depleted);
                &&& grid1 == grid.update(o, hit)
                &&& g1.gatherer_state == (if data_of(hit).state == ObjectState::Breaking {
                    GathererState::LookingForObject { gather_target }
                } else {
                    g0.gatherer_state
                })
            } else {
                &&& grid1 == grid
                &&& g1.gatherer_state == g0.gatherer_state
            }
        },
    }
}

} // verus!
