use iguana_eye::any_component::{AnyComponent, HIERARCHY_KIND, NAME_KIND};
use iguana_eye::component_manager::ComponentManager;
use iguana_eye::entity::Entity;
use iguana_eye::error::EcsError;
use iguana_eye::hierarchy_component::HierarchyComponent;
use iguana_eye::name_component::NameComponent;
use std::collections::HashSet;

#[test]
fn add_component() {
    let mut cm = ComponentManager::new();

    assert!(cm.add(AnyComponent::Name(NameComponent::new())).is_ok());
    assert!(cm.add(AnyComponent::Name(NameComponent::new())).is_err());
}

#[test]
fn insert_component() {
    let mut cm = ComponentManager::new();
    _ = cm.add(AnyComponent::Name(NameComponent::new()));

    assert!(cm.insert(0, AnyComponent::Hierarchy(HierarchyComponent::new())).is_ok());
    assert_eq!(0, cm.find_index(HIERARCHY_KIND).unwrap());
    assert_eq!(1, cm.find_index(NAME_KIND).unwrap());
}

#[test]
fn remove_component() {
    let mut cm = ComponentManager::new();
    _ = cm.add(AnyComponent::Name(NameComponent::new()));
    _ = cm.add(AnyComponent::Hierarchy(HierarchyComponent::new()));

    assert!(cm.remove(NAME_KIND).is_ok());
    assert_eq!(0, cm.find_index(HIERARCHY_KIND).unwrap());
}

#[test]
fn get_component() {
    let mut cm = ComponentManager::new();
    _ = cm.add(AnyComponent::Name(NameComponent::new()));

    let nc = cm.get(NAME_KIND).unwrap();
    assert_ne!(HIERARCHY_KIND, nc.kind_id());
    assert_eq!(NAME_KIND, nc.kind_id());
    assert!(matches!(nc, AnyComponent::Name(_)));
}

#[test]
fn remove_refuses_a_kind_with_rows() {
    let mut cm = ComponentManager::new();
    cm.add(AnyComponent::Name(NameComponent::new())).unwrap();
    cm.add(AnyComponent::Hierarchy(HierarchyComponent::new())).unwrap();
    cm.attach(Entity::new(1), HIERARCHY_KIND).unwrap();
    cm.attach(Entity::new(2), HIERARCHY_KIND).unwrap();

    assert_eq!(Err(EcsError::NotEmpty), cm.remove(HIERARCHY_KIND));
    cm.detach(Entity::new(1), HIERARCHY_KIND).unwrap();
    assert_eq!(Err(EcsError::NotEmpty), cm.remove(HIERARCHY_KIND));
    cm.detach(Entity::new(2), HIERARCHY_KIND).unwrap();
    assert_eq!(Ok(()), cm.remove(HIERARCHY_KIND));
    assert!(!cm.has(HIERARCHY_KIND));
    assert_eq!(Err(EcsError::NotFound), cm.remove(HIERARCHY_KIND));
}

#[test]
fn registry_errors() {
    let mut cm = ComponentManager::new();
    assert_eq!(Err(EcsError::OutOfBounds), cm.insert(0, AnyComponent::Name(NameComponent::new())));
    cm.add(AnyComponent::Name(NameComponent::new())).unwrap();
    assert_eq!(
        Err(EcsError::AlreadyExists),
        cm.insert(0, AnyComponent::Name(NameComponent::new()))
    );
    assert_eq!(Err(EcsError::NotFound), cm.attach(Entity::new(1), HIERARCHY_KIND));
    assert_eq!(Err(EcsError::NotFound), cm.detach(Entity::new(1), HIERARCHY_KIND));
    assert_eq!(Ok(0), cm.attach(Entity::new(1), NAME_KIND));
    assert_eq!(Err(EcsError::AlreadyExists), cm.attach(Entity::new(1), NAME_KIND));
    assert!(cm.get(HIERARCHY_KIND).is_none());
    assert!(cm.get_mut(HIERARCHY_KIND).is_none());
}

#[test]
fn purge_needs_a_childless_hierarchy_row() {
    let mut cm = ComponentManager::new();
    cm.add(AnyComponent::Name(NameComponent::new())).unwrap();
    let kinds: HashSet<u64> = [NAME_KIND, HIERARCHY_KIND].into_iter().collect();
    assert_eq!(Err(EcsError::NotFound), cm.purge_entity(Entity::new(1), &kinds));

    cm.add(AnyComponent::Hierarchy(HierarchyComponent::new())).unwrap();
    assert_eq!(Err(EcsError::NotFound), cm.purge_entity(Entity::new(1), &kinds));

    for id in 1..=2 {
        cm.attach(Entity::new(id), NAME_KIND).unwrap();
        cm.attach(Entity::new(id), HIERARCHY_KIND).unwrap();
    }
    if let Some(AnyComponent::Hierarchy(h)) = cm.get_mut(HIERARCHY_KIND) {
        h.add_child(0, 1).unwrap();
    }
    assert_eq!(Err(EcsError::InvariantViolation), cm.purge_entity(Entity::new(1), &kinds));
    assert_eq!(Ok(()), cm.purge_entity(Entity::new(2), &kinds));
    assert_eq!(1, cm.get(NAME_KIND).unwrap().len());
    assert_eq!(1, cm.get(HIERARCHY_KIND).unwrap().len());
}

#[test]
fn purge_stops_at_a_kind_without_the_entity() {
    let mut cm = ComponentManager::new();
    cm.add(AnyComponent::Hierarchy(HierarchyComponent::new())).unwrap();
    cm.add(AnyComponent::Name(NameComponent::new())).unwrap();
    cm.attach(Entity::new(1), HIERARCHY_KIND).unwrap();
    let kinds: HashSet<u64> = [NAME_KIND, HIERARCHY_KIND].into_iter().collect();

    assert_eq!(Err(EcsError::NotFound), cm.purge_entity(Entity::new(1), &kinds));
    assert!(cm.get(HIERARCHY_KIND).unwrap().is_empty());
}
