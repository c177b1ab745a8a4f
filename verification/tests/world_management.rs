use gatherer_world::entities::characters::gatherer::{GathererState, GatherTarget};
use gatherer_world::entities::entity_manager::{render_tile_index, DrawCommand, EntityManager};
use gatherer_world::entities::object::{Object, ObjectData};
use gatherer_world::map::tile_map::MapDimensions;
use gatherer_world::systems::action_button_manager::check_for_matches;
use gatherer_world::systems::action_buttons::action_button::{set_gatherers_to_gather, ActionButtonKind};
use gatherer_world::systems::action_buttons::chop_button;
use gatherer_world::systems::entity_selecting_manager::{EntitySelectingManager, SelectingMode};
use gatherer_world::systems::select_rect::SelectRect;
use gatherer_world::utils::entity_utils::{get_char_by_unique_id, position_of_unique_id};
use gatherer_world::utils::map_cord::MapCord;

fn tree() -> Object {
    Object::TreeObj(ObjectData::new())
}

fn grass() -> Object {
    Object::GrassObj(ObjectData::new())
}

fn manager_with(n: usize) -> EntityManager<&'static str> {
    let mut m = EntityManager::new(MapDimensions { width: 4, height: 4 });
    for i in 0..n {
        m.add_character("gatherer", i);
    }
    m
}

#[test]
fn characters_get_fresh_ids() {
    let mut m: EntityManager<&str> = EntityManager::new(MapDimensions { width: 4, height: 4 });
    assert!(m.characters.is_empty());
    m.add_character("a", 3);
    m.add_character("b", 1);
    m.add_character("c", 3);
    let ids: Vec<usize> = m.characters.iter().map(|c| c.unique_id).collect();
    assert_eq!(ids, vec![0, 1, 2]);
    assert_eq!(m.next_character_id, 3);
    assert_eq!(m.characters[1].gatherer.gatherer_state, GathererState::Idle);
    assert!(!m.characters[1].is_selected);
}

#[test]
fn sorting_is_stable_by_render_index() {
    let mut m: EntityManager<&str> = EntityManager::new(MapDimensions { width: 4, height: 4 });
    m.add_character("a", 3);
    m.add_character("b", 1);
    m.add_character("c", 3);
    m.add_character("d", 0);
    m.sort_characters();
    let names: Vec<&str> = m.characters.iter().map(|c| c.character).collect();
    assert_eq!(names, vec!["d", "b", "a", "c"]);
    let ids: Vec<usize> = m.characters.iter().map(|c| c.unique_id).collect();
    assert_eq!(ids, vec![3, 1, 0, 2]);
}

#[test]
fn render_index_is_one_past_the_tile() {
    let dims = MapDimensions { width: 10, height: 10 };
    assert_eq!(render_tile_index(dims, MapCord::new(0, 0)), 1);
    assert_eq!(render_tile_index(dims, MapCord::new(9, 2)), 30);
}

#[test]
fn draw_order_interleaves_objects_and_characters() {
    let mut m: EntityManager<&str> = EntityManager::new(MapDimensions { width: 2, height: 2 });
    m.add_character("g", 1);
    m.set_update_window(0, 0, 1, 1);
    let mut grid = vec![tree(), Object::NoObject, Object::NoObject, grass()];
    grid[3].set_selected();
    let cmds = m.draw(&grid);
    assert_eq!(
        cmds,
        vec![
            DrawCommand::ObjectShadow { tile: 0 },
            DrawCommand::CharacterShadow { position: 0 },
            DrawCommand::Object { tile: 0, hovering: false, selected: false },
            DrawCommand::Character { position: 0, hovering: false, selected: false, hovering_for_move: false },
            DrawCommand::ObjectShadow { tile: 3 },
            DrawCommand::Object { tile: 3, hovering: false, selected: true },
        ]
    );
}

#[test]
fn draw_order_skips_tiles_outside_the_window() {
    let mut m: EntityManager<&str> = EntityManager::new(MapDimensions { width: 4, height: 1 });
    m.add_character("g", 3);
    m.set_update_window(2, 0, 2, 0);
    let grid = vec![tree(), tree(), Object::NoObject, tree()];
    let cmds = m.draw(&grid);
    assert_eq!(
        cmds,
        vec![
            DrawCommand::ObjectShadow { tile: 3 },
            DrawCommand::CharacterShadow { position: 0 },
        ]
    );
}

#[test]
fn finding_characters_by_id() {
    let mut m = manager_with(3);
    assert_eq!(position_of_unique_id(&m.characters, 2), 2);
    let entry = get_char_by_unique_id(&mut m.characters, 1);
    entry.is_selected = true;
    assert!(m.characters[1].is_selected);
    assert!(!m.characters[0].is_selected);
}

#[test]
fn gatherers_are_sent_after_matching_objects() {
    let mut m = manager_with(2);
    let mut grid = vec![tree(), grass(), tree(), Object::NoObject];
    set_gatherers_to_gather(&vec![0, 1, 2, 3], &vec![1], &mut grid, &mut m.characters, GatherTarget::Tree);
    assert!(grid[0].is_marked_for_gathering());
    assert!(!grid[1].is_marked_for_gathering());
    assert!(grid[2].is_marked_for_gathering());
    assert_eq!(grid[3], Object::NoObject);
    let sent = &m.characters[1].gatherer;
    assert_eq!(sent.object_indices, vec![0, 2]);
    assert_eq!(sent.gatherer_state, GathererState::LookingForObject { gather_target: GatherTarget::Tree });
    assert!(sent.should_unoccupy_current_obj);
    assert_eq!(m.characters[0].gatherer.gatherer_state, GathererState::Idle);
    assert!(m.characters[0].gatherer.object_indices.is_empty());
}

#[test]
fn buttons_send_gatherers_by_kind() {
    let mut m = manager_with(1);
    let mut grid = vec![tree(), grass()];
    ActionButtonKind::CutGrassButton.on_click(&vec![0, 1], &vec![0], &mut grid, &mut m.characters);
    assert!(!grid[0].is_marked_for_gathering());
    assert!(grid[1].is_marked_for_gathering());
    assert_eq!(m.characters[0].gatherer.object_indices, vec![1]);
    assert_eq!(
        m.characters[0].gatherer.gatherer_state,
        GathererState::LookingForObject { gather_target: GatherTarget::Grass }
    );
    ActionButtonKind::ChopTreeButton.on_click(&vec![0, 1], &vec![0], &mut grid, &mut m.characters);
    assert!(grid[0].is_marked_for_gathering());
    assert_eq!(m.characters[0].gatherer.object_indices, vec![0]);
}

#[test]
fn chop_button_marks_trees() {
    let mut m = manager_with(2);
    let mut grid = vec![tree(), grass(), tree()];
    chop_button::on_click(&vec![0, 1], &vec![0], &mut grid, &mut m.characters);
    assert!(grid[0].is_marked_for_gathering());
    assert!(!grid[1].is_marked_for_gathering());
    assert!(!grid[2].is_marked_for_gathering());
    assert_eq!(
        m.characters[0].gatherer.gatherer_state,
        GathererState::LookingForObject { gather_target: GatherTarget::Tree }
    );
    assert!(m.characters[0].gatherer.object_indices.is_empty());
    assert!(!m.characters[0].gatherer.should_unoccupy_current_obj);
    assert_eq!(m.characters[1].gatherer.gatherer_state, GathererState::Idle);
}

#[test]
fn matches_offer_the_chop_button() {
    let m = manager_with(2);
    let grid = vec![tree(), grass(), Object::NoObject];
    assert_eq!(check_for_matches(&grid, &vec![0, 1], &vec![0], &m.characters), vec![ActionButtonKind::ChopTreeButton]);
    assert_eq!(check_for_matches(&grid, &vec![1, 2], &vec![0, 1], &m.characters), vec![]);
    assert_eq!(check_for_matches(&grid, &vec![0], &vec![], &m.characters), vec![]);
}

#[test]
fn selecting_mode_and_single_selection() {
    let mut s = EntitySelectingManager::new();
    assert_eq!(s.selecting_mode, SelectingMode::Objects);
    s.update(false, true);
    assert_eq!(s.selecting_mode, SelectingMode::Characters);
    s.update(true, true);
    assert_eq!(s.selecting_mode, SelectingMode::Characters);
    s.update(true, false);
    assert_eq!(s.selecting_mode, SelectingMode::Objects);
    assert!(!s.is_deselecting_objs && !s.is_deselecting_chars);

    let mut obj = tree();
    s.select_single_obj(&mut obj, 5);
    assert!(obj.is_selected());
    assert_eq!(s.selected_objects, vec![5]);
    assert!(s.is_deselecting_objs);

    let mut m = manager_with(2);
    s.select_single_char(&mut m.characters[1]);
    assert!(m.characters[1].is_selected);
    assert_eq!(s.selected_characters, vec![1]);
    s.deselect_chars();
    assert!(s.selected_characters.is_empty());
    assert!(s.is_deselecting_chars);
    s.deselect_objs();
    assert!(s.selected_objects.is_empty());
}

#[test]
fn selecting_several() {
    let mut s = EntitySelectingManager::new();
    let mut m = manager_with(3);
    s.select_multiple_chars(&mut m.characters, vec![2, 0]);
    assert_eq!(s.selected_characters, vec![2, 0]);
    assert!(m.characters[0].is_selected && !m.characters[1].is_selected && m.characters[2].is_selected);
    let mut grid = vec![tree(), grass(), tree()];
    s.select_multiple_objs(&mut grid, vec![1, 2]);
    assert_eq!(s.selected_objects, vec![1, 2]);
    assert!(!grid[0].is_selected() && grid[1].is_selected() && grid[2].is_selected());
}

#[test]
fn drag_selection_frames() {
    let mut r = SelectRect::new();
    assert_eq!(r.update(true, false, false, false), Some(true));
    assert!(r.origin_set && r.select_range_active && !r.is_selecting_this_frame);
    assert_eq!(r.update(true, false, false, false), Some(false));
    assert_eq!(r.update(false, false, true, false), None);
    assert!(r.is_selecting_this_frame && r.select_range_active && !r.origin_set);
    assert_eq!(r.update(false, true, false, false), Some(true));
    assert!(r.move_select_range_active && !r.select_range_active);
    assert_eq!(r.update(false, false, false, true), None);
    assert!(r.is_selecting_for_move_this_frame && !r.origin_set);
    assert_eq!(r.update(true, true, false, false), None);
    assert!(!r.origin_set && !r.select_range_active && !r.move_select_range_active);
}

use gatherer_world::entities::entity_manager::{deselect_on_clicks, hover_objects, CharacterHovers, ObjectHovers};

#[test]
fn clicks_deselect() {
    let mut s = EntitySelectingManager::new();
    s.selected_objects = vec![1];
    s.selected_characters = vec![2];
    assert!(deselect_on_clicks(&mut s, true, false, false));
    assert!(s.selected_objects.is_empty());
    assert_eq!(s.selected_characters, vec![2]);
    assert!(s.is_deselecting_objs && !s.is_deselecting_chars && s.is_deselecting_move);

    let mut s = EntitySelectingManager::new();
    s.selected_objects = vec![1];
    s.selected_characters = vec![2];
    assert!(!deselect_on_clicks(&mut s, false, true, false));
    assert!(s.selected_objects.is_empty() && s.selected_characters.is_empty());

    let mut s = EntitySelectingManager::new();
    s.selected_characters = vec![2];
    assert!(deselect_on_clicks(&mut s, true, false, true));
    assert!(s.selected_characters.is_empty() && s.is_deselecting_chars);

    let mut s = EntitySelectingManager::new();
    s.selected_objects = vec![1];
    assert!(!deselect_on_clicks(&mut s, false, false, true));
    assert_eq!(s.selected_objects, vec![1]);
    assert!(!s.is_deselecting_move);
}

#[test]
fn move_orders_and_deselection_of_characters() {
    let mut m = manager_with(3);
    m.characters[0].is_selected_for_move = true;
    m.characters[2].is_selected_for_move = true;
    m.characters[1].is_selected = true;
    m.characters[2].gatherer.assign(vec![0], GatherTarget::Tree);
    let mut s = EntitySelectingManager::new();
    s.deselect_chars();
    s.deselect_move();
    let moved = m.prepare_characters(&s, true);
    assert_eq!(moved, vec![0, 2]);
    assert!(!m.characters[1].is_selected);
    assert!(!m.characters[0].is_selected_for_move && !m.characters[2].is_selected_for_move);
    assert_eq!(m.characters[2].gatherer.gatherer_state, GathererState::Idle);
    assert_eq!(m.characters[2].gatherer.object_indices, vec![0]);

    let mut m = manager_with(1);
    m.characters[0].is_selected_for_move = true;
    let s = EntitySelectingManager::new();
    assert!(m.prepare_characters(&s, false).is_empty());
    assert!(m.characters[0].is_selected_for_move);
}

#[test]
fn character_hover_pass() {
    let mut m = manager_with(4);
    let mut s = EntitySelectingManager::new();
    s.update(false, true);
    let mut r = SelectRect::new();
    r.update(true, false, false, false);
    let hits = vec![(true, false), (false, true), (true, true), (false, false)];
    let h = m.hover_characters(&hits, &s, &r, false, false);
    assert_eq!(h.hover_chars, vec![0, 2]);
    assert!(h.hover_chars_for_move.is_empty());
    assert_eq!(h.hover_char, None);
    assert_eq!(h.hover_char_for_move, Some(1));
    assert!(m.characters[0].is_hovering && !m.characters[1].is_hovering && m.characters[2].is_hovering);

    let idle_rect = SelectRect::new();
    let h = m.hover_characters(&hits, &s, &idle_rect, false, false);
    assert!(h.hover_chars.is_empty());
    assert_eq!(h.hover_char, Some(2));
    assert_eq!(h.hover_char_for_move, None);
    assert!(!m.characters[0].is_hovering);

    let h = m.hover_characters(&hits, &s, &idle_rect, true, false);
    assert_eq!(h.hover_char, None);
    assert_eq!(h.hover_char_for_move, None);

    let mut move_rect = SelectRect::new();
    move_rect.update(false, true, false, false);
    let h = m.hover_characters(&hits, &s, &move_rect, false, false);
    assert_eq!(h.hover_chars_for_move, vec![0, 2]);
    assert!(m.characters[0].is_hovering_for_move && m.characters[2].is_hovering_for_move);
    assert_eq!(h.hover_char, Some(1));
}

#[test]
fn object_hover_pass_and_window() {
    let mut m: EntityManager<&str> = EntityManager::new(MapDimensions { width: 3, height: 3 });
    m.set_update_window(-1, 1, 1, 5);
    assert_eq!(m.window_tiles(), vec![3, 4, 6, 7]);
    let mut grid = vec![tree(); 9];
    grid[4] = Object::NoObject;
    let tiles = m.window_tiles();
    let s = EntitySelectingManager::new();
    let mut r = SelectRect::new();
    r.update(true, false, false, false);
    let hits = vec![(true, false), (true, true), (false, true), (true, false)];
    let h = hover_objects(&mut grid, &tiles, &hits, &s, &r, false);
    assert_eq!(h.hover_objs, vec![3, 7]);
    assert_eq!(h.hover_obj, None);
    assert!(grid[3].is_hovering() && !grid[6].is_hovering() && grid[7].is_hovering());
    let idle = SelectRect::new();
    let h = hover_objects(&mut grid, &tiles, &hits, &s, &idle, false);
    assert!(h.hover_objs.is_empty());
    assert_eq!(h.hover_obj, Some(6));
}

#[test]
fn selecting_what_is_hovered() {
    let mut m = manager_with(3);
    let mut grid = vec![tree(), grass(), tree()];
    let mut s = EntitySelectingManager::new();
    let idle = SelectRect::new();
    let ch = CharacterHovers { hover_chars: vec![], hover_chars_for_move: vec![], hover_char: None, hover_char_for_move: Some(1) };
    let oh = ObjectHovers { hover_objs: vec![], hover_obj: Some(2) };
    assert!(m.select_hovered(&mut grid, &mut s, &idle, &ch, &oh, true, false));
    assert_eq!(s.selected_objects, vec![2]);
    assert!(grid[2].is_selected() && grid[2].is_hovering());
    assert!(m.characters[1].is_hovering_for_move && !m.characters[1].is_selected_for_move);

    let oh = ObjectHovers { hover_objs: vec![], hover_obj: Some(0) };
    assert!(!m.select_hovered(&mut grid, &mut s, &idle, &ch, &oh, false, true));
    assert!(grid[0].is_hovering() && !grid[0].is_selected());
    assert!(m.characters[1].is_selected_for_move);

    s.update(false, true);
    let ch = CharacterHovers { hover_chars: vec![], hover_chars_for_move: vec![], hover_char: Some(2), hover_char_for_move: None };
    assert!(m.select_hovered(&mut grid, &mut s, &idle, &ch, &oh, true, false));
    assert_eq!(s.selected_characters, vec![2]);
    assert!(m.characters[2].is_selected && m.characters[2].is_hovering);

    let mut done = SelectRect::new();
    done.update(false, false, true, true);
    let ch = CharacterHovers { hover_chars: vec![0, 1], hover_chars_for_move: vec![2], hover_char: None, hover_char_for_move: None };
    assert!(m.select_hovered(&mut grid, &mut s, &done, &ch, &oh, false, false));
    assert_eq!(s.selected_characters, vec![0, 1]);
    assert!(m.characters[0].is_selected && m.characters[1].is_selected);
    assert!(m.characters[2].is_selected_for_move);
}

#[test]
fn choosing_characters_to_move() {
    let mut s = EntitySelectingManager::new();
    let mut m = manager_with(3);
    s.select_single_move(&mut m.characters[1]);
    assert!(m.characters[1].is_selected_for_move);
    s.select_multiple_moves(&mut m.characters, vec![0, 2]);
    assert!(m.characters.iter().all(|c| c.is_selected_for_move));
    s.deselect_move();
    assert!(s.is_deselecting_move);
    s.update(false, false);
    assert!(!s.is_deselecting_move);
}

use gatherer_world::entities::character::{CharacterMovementResult, CharacterState};
use gatherer_world::entities::entity_manager::{engage_all, engage_in_combat};

#[test]
fn moving_and_fighting() {
    let mut m = manager_with(2);
    assert_eq!(m.characters[0].state, CharacterState::NoState);
    m.characters[0].gatherer.assign(vec![1], GatherTarget::Tree);
    m.characters[0].set_move_to();
    assert_eq!(m.characters[0].state, CharacterState::Moving);
    assert!(m.characters[0].gatherer.is_idle());
    m.characters[0].finish_step(CharacterMovementResult::NotArrivedYet);
    assert_eq!(m.characters[0].state, CharacterState::Moving);
    m.characters[0].finish_step(CharacterMovementResult::NoRoute);
    assert_eq!(m.characters[0].state, CharacterState::NoState);

    engage_in_combat(&mut m.characters, 1, 0);
    assert_eq!(m.characters[0].opponents, vec![1]);
    assert_eq!(m.characters[1].opponents, vec![0]);
    assert_eq!(m.characters[0].state, CharacterState::InCombat);
    engage_in_combat(&mut m.characters, 0, 0);
    assert_eq!(m.characters[0].opponents, vec![1, 0, 0]);
    assert!(!m.characters[0].drop_defeated_opponent());
    assert_eq!(m.characters[0].opponents, vec![0, 0]);
    assert!(!m.characters[0].drop_defeated_opponent());
    assert!(m.characters[0].drop_defeated_opponent());
    assert_eq!(m.characters[0].state, CharacterState::NoState);
}

#[test]
fn move_orders_start_moving() {
    let mut m = manager_with(2);
    m.characters[1].is_selected_for_move = true;
    let s = EntitySelectingManager::new();
    assert_eq!(m.prepare_characters(&s, true), vec![1]);
    assert_eq!(m.characters[1].state, CharacterState::Moving);
    assert_eq!(m.characters[0].state, CharacterState::NoState);
    assert!(m.characters[1].is_selected_for_move);
}

#[test]
fn render_index_follows_the_tile() {
    let mut m: EntityManager<&str> = EntityManager::new(MapDimensions { width: 10, height: 10 });
    m.add_character("a", 0);
    let id = m.characters[0].unique_id;
    m.characters[0].refresh_render_index(MapDimensions { width: 10, height: 10 }, MapCord::new(3, 2));
    assert_eq!(m.characters[0].render_index, 24);
    assert_eq!(m.characters[0].unique_id, id);
    assert_eq!(m.characters[0].character, "a");
}

#[test]
fn engagements_are_made_in_order() {
    let mut m = manager_with(3);
    engage_all(&mut m.characters, &vec![(2, 0), (0, 1), (1, 1)]);
    assert_eq!(m.characters[0].opponents, vec![2, 1]);
    assert_eq!(m.characters[1].opponents, vec![0, 1, 1]);
    assert_eq!(m.characters[2].opponents, vec![0]);
    for c in &m.characters {
        assert_eq!(c.state, CharacterState::InCombat);
    }
    let mut quiet = manager_with(2);
    engage_all(&mut quiet.characters, &vec![]);
    assert!(quiet.characters.iter().all(|c| c.opponents.is_empty() && c.state == CharacterState::NoState));
}
