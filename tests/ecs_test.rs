use iguana_eye::any_component::{AnyComponent, HIERARCHY_KIND, NAME_KIND};
use iguana_eye::ecs::ECS;
use iguana_eye::entity::Entity;
use iguana_eye::error::EcsError;

#[test]
fn create_entity() {
    let mut ecs = ECS::new().unwrap();

    for i in 1..=50 {
        let e = ecs.create_entity().unwrap();
        assert_eq!(i, e.id);
        assert!(ecs.does_entity_exist(e));
    }
}

#[test]
fn remove_entity() {
    let mut ecs = ECS::new().unwrap();

    for _ in 1..=50 {
        _ = ecs.create_entity().unwrap();
    }

    for i in 1..=50 {
        assert!(ecs.remove_entity(Entity::new(i)).is_ok())
    }

    assert_eq!(0, ecs.count());
}

fn hierarchy_index(ecs: &ECS, e: Entity) -> usize {
    match ecs.get_component(HIERARCHY_KIND) {
        Some(AnyComponent::Hierarchy(h)) => h.find_index(&e).unwrap(),
        _ => panic!("no hierarchy kind"),
    }
}

fn children_count(ecs: &ECS, index: usize) -> usize {
    match ecs.get_component(HIERARCHY_KIND) {
        Some(AnyComponent::Hierarchy(h)) => h.get_children(index).unwrap().len(),
        _ => panic!("no hierarchy kind"),
    }
}

#[test]
fn parent_with_ten_children_end_to_end() {
    let mut ecs = ECS::new().unwrap();
    let mut entities = Vec::new();
    for _ in 1..=11 {
        entities.push(ecs.create_entity().unwrap());
    }
    let parent = hierarchy_index(&ecs, entities[0]);
    for e in entities.iter().skip(1) {
        let child = hierarchy_index(&ecs, *e);
        match ecs.get_component_mut(HIERARCHY_KIND) {
            Some(AnyComponent::Hierarchy(h)) => h.add_child(parent, child).unwrap(),
            _ => panic!("no hierarchy kind"),
        }
    }
    assert_eq!(10, children_count(&ecs, parent));

    ecs.detach_component(Entity::new(2), HIERARCHY_KIND).unwrap();
    let parent = hierarchy_index(&ecs, entities[0]);
    assert_eq!(9, children_count(&ecs, parent));
    match ecs.get_component(HIERARCHY_KIND) {
        Some(AnyComponent::Hierarchy(h)) => {
            assert!(!h.get_children(parent).unwrap().contains(&2));
        },
        _ => panic!("no hierarchy kind"),
    }
    assert!(!ecs.has_component(Entity::new(2), HIERARCHY_KIND));
    assert!(ecs.has_component(Entity::new(2), NAME_KIND));
}

#[test]
fn an_entity_with_children_cannot_be_removed() {
    let mut ecs = ECS::new().unwrap();
    let p = ecs.create_entity().unwrap();
    let c = ecs.create_entity().unwrap();
    let pi = hierarchy_index(&ecs, p);
    let ci = hierarchy_index(&ecs, c);
    if let Some(AnyComponent::Hierarchy(h)) = ecs.get_component_mut(HIERARCHY_KIND) {
        h.add_child(pi, ci).unwrap();
    }
    assert_eq!(Err(EcsError::InvariantViolation), ecs.remove_entity(p));
    assert!(ecs.does_entity_exist(p));
    assert_eq!(Ok(()), ecs.remove_entity(c));
    assert_eq!(1, ecs.count());
}

#[test]
fn created_entities_carry_both_kinds() {
    let mut ecs = ECS::new().unwrap();
    let e = ecs.create_entity().unwrap();
    let attached = ecs.get_attached(e).unwrap();
    assert_eq!(2, attached.len());
    assert!(attached.contains(&NAME_KIND));
    assert!(attached.contains(&HIERARCHY_KIND));
    assert!(ecs.get_attached(Entity::new(99)).is_none());
    assert_eq!(Ok(()), ecs.remove_entity(Entity::new(99)));
}

#[test]
fn ecs_kind_registry() {
    let mut ecs = ECS::new().unwrap();
    assert_eq!(
        Err(EcsError::AlreadyExists),
        ecs.add_component(AnyComponent::Name(iguana_eye::name_component::NameComponent::new()))
    );
    assert_eq!(Ok(()), ecs.remove_component(NAME_KIND));
    assert!(ecs.get_component(NAME_KIND).is_none());
    assert_eq!(
        Ok(()),
        ecs.insert_component(0, AnyComponent::Name(iguana_eye::name_component::NameComponent::new()))
    );
    let e = ecs.create_entity().unwrap();
    assert_eq!(Err(EcsError::NotEmpty), ecs.remove_component(NAME_KIND));
    assert_eq!(Err(EcsError::AlreadyExists), ecs.attach_component(e, NAME_KIND));
    assert_eq!(Ok(()), ecs.detach_component(e, NAME_KIND));
    assert!(!ecs.has_component(e, NAME_KIND));
    assert_eq!(Err(EcsError::NotFound), ecs.detach_component(e, NAME_KIND));
}

#[test]
fn creating_fails_without_a_kind() {
    let mut ecs = ECS::new().unwrap();
    assert_eq!(Ok(()), ecs.remove_component(HIERARCHY_KIND));
    assert_eq!(Err(EcsError::NotFound), ecs.create_entity());
    assert!(ecs.does_entity_exist(Entity::new(1)));
}
