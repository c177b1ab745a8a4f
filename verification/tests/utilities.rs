use gatherer_world::entities::objects::grass::{
    large_likely_level, level_up, random_level, small_likely_level, GrassType, MAX_GRASS_LEVEL,
};
use gatherer_world::entities::character::{Affiliation, CharacterMovementResult};
use gatherer_world::utils::array_utils::shuffle_vec;

#[test]
fn shuffling_keeps_every_entry() {
    let mut rng = rand::rng();
    let v: Vec<u32> = (0..50).collect();
    let s = shuffle_vec(&v, &mut rng);
    assert_eq!(s.len(), 50);
    let mut sorted = s.clone();
    sorted.sort();
    assert_eq!(sorted, v);
    let empty: Vec<String> = Vec::new();
    assert!(shuffle_vec(&empty, &mut rng).is_empty());
    let words = vec![String::from("a"), String::from("b")];
    let w = shuffle_vec(&words, &mut rng);
    assert!(w == words || w == vec![String::from("b"), String::from("a")]);
}

#[test]
fn grass_growth() {
    assert_eq!(level_up(0), (1, false));
    assert_eq!(level_up(1), (2, true));
    assert_eq!(level_up(2), (2, true));
    assert_eq!(MAX_GRASS_LEVEL, 2);
    assert_eq!(GrassType::from_index(0), GrassType::Wheaty);
    assert_eq!(GrassType::from_index(1), GrassType::Flowery);
    assert_eq!(GrassType::from_index(2), GrassType::Bushy);
    assert_eq!(GrassType::from_index(3), GrassType::Stalky);
}

#[test]
fn random_grass_stays_in_range() {
    let mut rng = rand::rng();
    for _ in 0..100 {
        assert!(random_level(&mut rng) <= 2);
        assert!(small_likely_level(&mut rng) <= 2);
        assert!(large_likely_level(&mut rng) <= 2);
        let _ = GrassType::random_type(&mut rng);
    }
}

#[test]
fn plain_enums() {
    assert_ne!(Affiliation::Good, Affiliation::Evil);
    assert_ne!(CharacterMovementResult::Success, CharacterMovementResult::TooLong);
}

use gatherer_world::systems::light::Lights;
use gatherer_world::utils::vector2_utils::random_offset_by_one;

#[test]
fn lights_get_fresh_ids() {
    let mut lights: Lights<(f32, f32)> = Lights::new();
    let a = lights.add_light((1.0, 2.0));
    let b = lights.add_light((3.0, 4.0));
    assert_eq!((a, b), (0, 1));
    assert_eq!(lights.get_light(a), Some(&(1.0, 2.0)));
    lights.replace_light(b, (5.0, 6.0));
    assert_eq!(lights.get_light(b), Some(&(5.0, 6.0)));
    lights.replace_light(7, (0.0, 0.0));
    assert_eq!(lights.get_light(7), None);
    lights.remove_light(a);
    assert_eq!(lights.get_light(a), None);
    let c = lights.add_light((0.0, 0.0));
    assert_eq!(c, 2);
    assert_eq!(lights.next_id(), 3);
    assert_eq!(lights.all_lights.len(), 2);
}

#[test]
fn offsets_by_one() {
    let mut rng = rand::rng();
    for _ in 0..50 {
        let (x, y) = random_offset_by_one(&mut rng);
        assert!((-1..=1).contains(&x) && (-1..=1).contains(&y));
    }
}

use gatherer_world::entities::characters::gatherer::{Gatherer, GathererState, GatherTarget};
use gatherer_world::entities::objects::tree::{random_flip, random_hit_offset, TreeVariant};

#[test]
fn tree_variants_and_hits() {
    assert_eq!(TreeVariant::from_number(0), TreeVariant::One);
    assert_eq!(TreeVariant::from_number(1), TreeVariant::Two);
    let mut rng = rand::rng();
    for _ in 0..50 {
        let x = random_hit_offset(&mut rng);
        assert!(x == 1 || x == -1);
        let _ = random_flip(&mut rng);
        let _ = TreeVariant::random_variant(&mut rng);
    }
}

#[test]
fn gatherer_idle_state() {
    let mut g = Gatherer::new();
    assert!(g.is_idle());
    g.assign(vec![4], GatherTarget::Grass);
    assert!(!g.is_idle());
    g.set_idle();
    assert!(g.is_idle());
    assert_eq!(g.gatherer_state, GathererState::Idle);
    assert_eq!(g.object_indices, vec![4]);
}
