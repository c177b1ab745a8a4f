use gatherer_world::entities::objects::grass::{large_likely_from, level_from_number, small_likely_from};
use gatherer_world::entities::objects::tree::hit_offset_from;
use gatherer_world::entities::character::CharacterMovementResult;
use gatherer_world::entities::characters::gatherer::{Gatherer, GathererEvent, GathererState, GatherTarget};
use gatherer_world::entities::object::{Object, ObjectData, ObjectKind, ObjectState};
use gatherer_world::utils::entity_utils::object_matches_gathering_target;

fn marked(o: Object) -> Object {
    let mut o = o;
    o.mark_for_gathering();
    o
}

#[test]
fn object_flags() {
    let mut o = Object::TreeObj(ObjectData::new());
    assert!(!o.is_hovering() && !o.is_selected() && !o.is_occupied() && !o.is_marked_for_gathering());
    o.set_hovering();
    o.set_selected();
    o.set_occupied();
    o.mark_for_gathering();
    assert!(o.is_hovering() && o.is_selected() && o.is_occupied() && o.is_marked_for_gathering());
    o.set_unoccupied();
    o.unmark_for_gathering();
    assert!(o.is_occupied() && !o.is_marked_for_gathering());
    assert!(o.is_hovering() && o.is_selected());
    assert!(!o.should_not_be_used_again_by_anything());
    assert_eq!(Object::from_kind(Some(ObjectKind::Grass)), Object::GrassObj(ObjectData::new()));
    assert_eq!(Object::from_kind(None), Object::NoObject);
}

#[test]
fn a_hit_that_empties_health_breaks_the_object() {
    let mut o = marked(Object::GrassObj(ObjectData::new()));
    o.take_hit(false);
    assert_eq!(o.get_data().state, ObjectState::Idle);
    assert!(o.is_marked_for_gathering());
    o.take_hit(true);
    assert_eq!(o.get_data().state, ObjectState::Breaking);
    assert!(!o.is_marked_for_gathering());
    assert!(o.should_not_be_used_again_by_anything());
}

#[test]
fn object_frame_update() {
    let mut o = Object::TreeObj(ObjectData::new());
    o.set_hovering();
    o.set_selected();
    assert!(!o.update(false, true));
    assert!(!o.is_hovering());
    assert!(o.is_selected());
    assert!(!o.update(true, true));
    assert!(!o.is_selected());

    let mut breaking = Object::TreeObj(ObjectData::new());
    breaking.take_hit(true);
    assert!(breaking.update(false, true));
    assert!(matches!(breaking, Object::TreeObj(_)));
    breaking.finish_disappearing(false);
    assert!(matches!(breaking, Object::TreeObj(_)));
    breaking.finish_disappearing(true);
    assert_eq!(breaking, Object::NoObject);

    let mut off_screen = Object::GrassObj(ObjectData::new());
    off_screen.take_hit(true);
    assert!(!off_screen.update(false, false));
    assert_eq!(off_screen, Object::NoObject);

    let mut nothing = Object::NoObject;
    assert!(!nothing.update(true, true));
    assert_eq!(nothing, Object::NoObject);
}

#[test]
fn gathering_targets_match_kinds() {
    let tree = Object::TreeObj(ObjectData::new());
    let grass = Object::GrassObj(ObjectData::new());
    assert!(object_matches_gathering_target(GatherTarget::Tree, &tree));
    assert!(!object_matches_gathering_target(GatherTarget::Tree, &grass));
    assert!(object_matches_gathering_target(GatherTarget::Grass, &grass));
    assert!(!object_matches_gathering_target(GatherTarget::Grass, &Object::NoObject));
    assert!(Gatherer::obj_matches_target_and_is_available(&marked(tree), GatherTarget::Tree));
    assert!(!Gatherer::obj_matches_target_and_is_available(&tree, GatherTarget::Tree));
    let mut taken = marked(tree);
    taken.set_occupied();
    assert!(!Gatherer::obj_matches_target_and_is_available(&taken, GatherTarget::Tree));
}

#[test]
fn closest_target_prefers_the_first_of_equals() {
    let grid = vec![
        marked(Object::TreeObj(ObjectData::new())),
        marked(Object::TreeObj(ObjectData::new())),
        marked(Object::GrassObj(ObjectData::new())),
        Object::NoObject,
        marked(Object::TreeObj(ObjectData::new())),
    ];
    let mut g = Gatherer::new();
    g.object_indices = vec![0, 1, 2, 3, 4];
    assert_eq!(g.find_closest_target(&grid, GatherTarget::Tree, &vec![5, 3, 1, 0, 3]), Some(1));
    assert_eq!(g.find_closest_target(&grid, GatherTarget::Grass, &vec![5, 3, 1, 0, 3]), Some(2));
    g.object_indices = vec![3];
    assert_eq!(g.find_closest_target(&grid, GatherTarget::Tree, &vec![0]), None);
}

#[test]
fn a_gatherer_works_through_its_trees() {
    let mut grid = vec![
        marked(Object::TreeObj(ObjectData::new())),
        marked(Object::TreeObj(ObjectData::new())),
        marked(Object::GrassObj(ObjectData::new())),
        Object::NoObject,
    ];
    let mut g = Gatherer::new();
    assert_eq!(g.gatherer_state, GathererState::Idle);
    g.assign(vec![0, 1, 2, 3], GatherTarget::Tree);
    assert!(g.should_unoccupy_current_obj);

    g.update(&mut grid, GathererEvent::DistanceKeys(vec![5, 3, 1, 0]));
    assert_eq!(g.gatherer_state, GathererState::MovingToObject { target_index: 1, gather_target: GatherTarget::Tree });
    assert_eq!(g.current_index, Some(1));
    assert!(grid[1].is_occupied());
    assert!(!g.should_unoccupy_current_obj);

    g.update(&mut grid, GathererEvent::Moved(CharacterMovementResult::NotArrivedYet));
    assert_eq!(g.gatherer_state, GathererState::MovingToObject { target_index: 1, gather_target: GatherTarget::Tree });
    g.update(&mut grid, GathererEvent::Moved(CharacterMovementResult::Success));
    assert_eq!(g.gatherer_state, GathererState::GatheringObject { gather_target: GatherTarget::Tree });

    g.update(&mut grid, GathererEvent::Nothing);
    g.update(&mut grid, GathererEvent::Hit { health_depleted: false });
    assert_eq!(g.gatherer_state, GathererState::GatheringObject { gather_target: GatherTarget::Tree });
    assert_eq!(grid[1].get_data().state, ObjectState::Idle);

    g.update(&mut grid, GathererEvent::Hit { health_depleted: true });
    assert_eq!(g.gatherer_state, GathererState::LookingForObject { gather_target: GatherTarget::Tree });
    assert_eq!(grid[1].get_data().state, ObjectState::Breaking);
    assert!(!grid[1].is_marked_for_gathering());

    g.update(&mut grid, GathererEvent::DistanceKeys(vec![5, 3, 1, 0]));
    assert_eq!(g.gatherer_state, GathererState::MovingToObject { target_index: 0, gather_target: GatherTarget::Tree });
    assert!(grid[0].is_occupied());

    g.update(&mut grid, GathererEvent::Moved(CharacterMovementResult::NoRoute));
    assert_eq!(g.gatherer_state, GathererState::Idle);
    assert!(g.object_indices.is_empty());
    assert_eq!(g.current_index, None);
    assert!(grid[0].is_occupied());
}

#[test]
fn a_gatherer_with_nothing_left_goes_idle() {
    let mut grid = vec![Object::GrassObj(ObjectData::new())];
    let mut g = Gatherer::new();
    g.assign(vec![0], GatherTarget::Tree);
    g.update(&mut grid, GathererEvent::DistanceKeys(vec![1]));
    assert_eq!(g.gatherer_state, GathererState::Idle);
    assert!(g.object_indices.is_empty());
    assert_eq!(g.current_index, None);
}

#[test]
fn reassigning_moves_on_to_the_next_object() {
    let mut grid = vec![marked(Object::TreeObj(ObjectData::new())), marked(Object::TreeObj(ObjectData::new()))];
    let mut g = Gatherer::new();
    g.assign(vec![0], GatherTarget::Tree);
    g.update(&mut grid, GathererEvent::DistanceKeys(vec![0]));
    assert!(grid[0].is_occupied());
    g.assign(vec![1], GatherTarget::Tree);
    g.update(&mut grid, GathererEvent::DistanceKeys(vec![0]));
    assert!(grid[0].is_occupied());
    assert!(grid[1].is_occupied());
    assert_eq!(g.current_index, Some(1));
}

#[test]
fn grass_levels_from_their_draws() {
    assert_eq!(small_likely_from(true, false), 0);
    assert_eq!(small_likely_from(true, true), 0);
    assert_eq!(small_likely_from(false, true), 1);
    assert_eq!(small_likely_from(false, false), 2);
    assert_eq!(large_likely_from(true, false), 2);
    assert_eq!(large_likely_from(false, true), 1);
    assert_eq!(large_likely_from(false, false), 0);
    for k in 0..3usize {
        assert_eq!(level_from_number(k) as usize, k);
    }
}

#[test]
fn hit_offset_from_its_coin() {
    assert_eq!(hit_offset_from(true), 1);
    assert_eq!(hit_offset_from(false), -1);
}
