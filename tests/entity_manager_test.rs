use iguana_eye::entity::Entity;
use iguana_eye::entity_manager::EntityManager;

#[test]
fn create_entities() {
    let mut em = EntityManager::new();

    for i in 1..=10 {
        let e = em.create();
        assert_eq!(i as u64, e.id);
    }

    assert_eq!(10, em.count());
}

#[test]
fn entity_manager_test_remove_entities() {
    let mut em = EntityManager::new();

    for i in 1..=10 {
        let e = em.create();
        assert_eq!(i as u64, e.id);
    }
    assert_eq!(10, em.count());

    for i in 1..=10 {
        let e = Entity::new(i);
        assert!(em.remove(e));
    }
    assert_eq!(0, em.count());
}

#[test]
fn attach_components() {
    let mut em = EntityManager::new();

    let e = em.create();
    for i in 1..=10 {
        assert!(em.attach_component(e, i));
    }

    for i in 1..=10 {
        assert!(em.has_component(e, i));
    }

    assert!(!em.has_component(e, 100));
}

#[test]
fn detach_components() {
    let mut em = EntityManager::new();

    let e = em.create();
    for i in 1..=10 {
        assert!(em.attach_component(e, i));
    }

    for i in 1..=10 {
        assert!(em.detach_component(e, i));
    }

    let attached = em.get_attached(e).unwrap();
    assert_eq!(0, attached.len());
}

#[test]
fn ids_are_never_reused() {
    let mut em = EntityManager::new();
    let mut previous = 0;
    for _ in 0..20 {
        let e = em.create();
        assert!(e.id > previous);
        previous = e.id;
        assert!(em.remove(e));
    }
    assert_eq!(21, em.create().id);
}

#[test]
fn membership_of_unknown_entities() {
    let mut em = EntityManager::new();
    let unknown = Entity::new(5);
    assert!(!em.attach_component(unknown, 1));
    assert!(!em.detach_component(unknown, 1));
    assert!(!em.has_component(unknown, 1));
    assert!(em.get_attached(unknown).is_none());
    assert!(!em.remove(unknown));
    assert!(!em.does_exist(unknown));

    let e = em.create();
    assert!(em.does_exist(e));
    assert!(em.attach_component(e, 3));
    assert!(!em.attach_component(e, 3));
    assert!(em.detach_component(e, 3));
    assert!(!em.detach_component(e, 3));
}
