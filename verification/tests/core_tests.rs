use ecs::BitSet;
use ecs::ComponentId;
use ecs::EcrusError;
use ecs::Entity;
use ecs::component_id;
use ecs::Component;

#[derive(Debug, Clone, Copy, PartialEq)]
struct Health(u32);

const HEALTH: ComponentId = 7;

impl Component for Health {
    fn component_id(&self) -> ComponentId {
        HEALTH
    }
}

#[test]
fn bitset_starts_empty() {
    let b = BitSet::new();
    assert!(!b.get(0));
    assert!(!b.get(1000));
    let b2 = BitSet::with_capacity(100);
    assert!(!b2.get(0));
}

#[test]
fn bitset_set_and_get() {
    let mut b = BitSet::with_capacity_zeroed(130);
    assert!(!b.get(0));
    assert!(!b.get(129));
    b.set(0, true);
    b.set(63, true);
    b.set(64, true);
    b.set(129, true);
    assert!(b.get(0));
    assert!(b.get(63));
    assert!(b.get(64));
    assert!(b.get(129));
    assert!(!b.get(1));
    assert!(!b.get(65));
    assert!(!b.get(128));
}

#[test]
fn bitset_set_never_clears() {
    let mut b = BitSet::with_capacity_zeroed(10);
    b.set(3, true);
    b.set(3, false);
    assert!(b.get(3));
    b.set(4, false);
    assert!(!b.get(4));
}

#[test]
fn bitset_out_of_range_is_ignored() {
    let mut b = BitSet::with_capacity_zeroed(10);
    b.set(100000, true);
    assert!(!b.get(100000));
}

#[test]
fn bitset_reserve_keeps_bits() {
    let mut b = BitSet::with_capacity_zeroed(70);
    b.set(65, true);
    b.reserve(1000);
    assert!(b.get(65));
    assert!(!b.get(64));
}

#[test]
fn component_id_reads_the_trait() {
    let h = Health(3);
    assert_eq!(component_id(&h), HEALTH);
}

#[test]
fn entity_cold_components() {
    let mut e: Entity<Health> = Entity::new(5);
    assert_eq!(e.entity_id(), 5);
    assert!(e.get_component(HEALTH).is_none());
    assert!(e.add_component(HEALTH, Health(10)).is_ok());
    assert_eq!(e.get_component(HEALTH), Some(&Health(10)));
    let again = e.add_component(HEALTH, Health(99));
    assert_eq!(
        again,
        Err(EcrusError::ComponentAlreadyRegistered { comp_id: HEALTH, entity_id: 5 })
    );
    assert_eq!(e.get_component(HEALTH), Some(&Health(10)));
}

#[test]
fn entity_cold_component_mut() {
    let mut e: Entity<Health> = Entity::new(0);
    e.add_component(HEALTH, Health(1)).unwrap();
    if let Some(h) = e.get_component_mut(HEALTH) {
        *h = Health(42);
    } else {
        panic!("component missing");
    }
    assert_eq!(e.get_component(HEALTH), Some(&Health(42)));
    assert!(e.get_component_mut(12345).is_none());
}

#[test]
fn entity_hot_components() {
    let mut e: Entity<Health> = Entity::new(9);
    assert!(e.get_hot_component(HEALTH).is_none());
    assert!(e.add_hot_component(HEALTH, Health(2)).is_ok());
    assert_eq!(e.get_hot_component(HEALTH), Some(&Health(2)));
    let again = e.add_hot_component(HEALTH, Health(3));
    assert_eq!(
        again,
        Err(EcrusError::ComponentAlreadyRegistered { comp_id: HEALTH, entity_id: 9 })
    );
    if let Some(h) = e.get_hot_component_mut(HEALTH) {
        *h = Health(8);
    }
    assert_eq!(e.get_hot_component(HEALTH), Some(&Health(8)));
}
