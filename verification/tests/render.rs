use giui::control::Id;
use giui::render::cached_sprite_range;

#[test]
fn cached_sprites_found_in_place_or_by_search() {
    let a = Id { index: 1, generation: 1 };
    let b = Id { index: 2, generation: 1 };
    let c = Id { index: 3, generation: 1 };
    let map = [(a, 0, 2), (b, 2, 5), (b, 5, 6)];
    // in place: the entry at the position belongs to the control
    assert_eq!(cached_sprite_range(&map, 2, b), Some((5, 6)));
    // else the first entry of the control
    assert_eq!(cached_sprite_range(&map, 0, b), Some((2, 5)));
    assert_eq!(cached_sprite_range(&map, 7, a), Some((0, 2)));
    assert_eq!(cached_sprite_range(&map, 0, c), None);
    assert_eq!(cached_sprite_range(&[], 0, a), None);
}
