use magog::geom::ivec3;
use magog::placement::{Entity, Place, Placement};

#[test]
fn placement_insert_get_remove() {
    let mut pl = Placement::new();
    let a = Entity(1);
    let b = Entity(2);
    assert_eq!(pl.get(&a), None);
    pl.insert(Place::At(ivec3(1, 2, 0)), a);
    pl.insert(Place::At(ivec3(1, 2, 0)), b);
    assert_eq!(pl.get(&a), Some(Place::At(ivec3(1, 2, 0))));
    assert_eq!(pl.entities_at(&ivec3(1, 2, 0)), vec![a, b]);
    pl.remove(&a);
    assert_eq!(pl.get(&a), None);
    assert_eq!(pl.entities_at(&ivec3(1, 2, 0)), vec![b]);
    assert_eq!(pl.all_entities(), vec![b]);
}

#[test]
fn placement_moving_keeps_index_consistent() {
    let mut pl = Placement::new();
    let a = Entity(7);
    pl.insert(Place::At(ivec3(0, 0, 0)), a);
    pl.insert(Place::At(ivec3(3, 0, 0)), a);
    assert!(pl.entities_at(&ivec3(0, 0, 0)).is_empty());
    assert_eq!(pl.entities_at(&ivec3(3, 0, 0)), vec![a]);
    assert_eq!(pl.entity_pos(&a), Some(ivec3(3, 0, 0)));
}

#[test]
fn placement_containers() {
    let mut pl = Placement::new();
    let bag = Entity(10);
    let pouch = Entity(11);
    let coin = Entity(12);
    pl.insert(Place::At(ivec3(5, 5, 1)), bag);
    pl.insert(Place::In(bag), pouch);
    pl.insert(Place::In(pouch), coin);
    assert_eq!(pl.entity_pos(&coin), Some(ivec3(5, 5, 1)));
    assert_eq!(pl.entities_in(&bag), vec![pouch]);
    assert!(pl.contains(&bag, &coin));
    assert!(pl.contains(&pouch, &coin));
    assert!(!pl.contains(&coin, &bag));
    assert!(!pl.contains(&coin, &coin));
    // Containers go along when the outer one moves.
    pl.insert(Place::At(ivec3(9, 9, 1)), bag);
    assert_eq!(pl.entity_pos(&coin), Some(ivec3(9, 9, 1)));
    // Taking the pouch out of the index leaves the coin nowhere.
    pl.remove(&pouch);
    assert_eq!(pl.entity_pos(&coin), None);
    assert_eq!(pl.get(&coin), Some(Place::In(pouch)));
    assert!(!pl.contains(&bag, &coin));
}

#[test]
fn place_conversions() {
    let p = Place::from_entity(Entity(3));
    assert_eq!(p.entity(), Some(Entity(3)));
    assert_eq!(p.location(), None);
    let q = Place::from_location(ivec3(1, 1, 1));
    assert_eq!(q.location(), Some(ivec3(1, 1, 1)));
    assert_eq!(q.entity(), None);
}
