use iguana_eye::entity::Entity;
use iguana_eye::error::EcsError;
use iguana_eye::hierarchy_component::HierarchyComponent;

#[test]
fn attach_component() {
    let mut hc = HierarchyComponent::new();

    let count = 10;
    for i in 1..=count {
        let e = Entity::new(i as u64);
        assert!(hc.attach(e).is_ok());
    }

    assert_eq!(count, hc.len());
}

#[test]
fn detach_component() {
    let mut hc = HierarchyComponent::new();

    let count = 10;
    for i in 1..=count {
        let e = Entity::new(i as u64);
        assert!(hc.attach(e).is_ok());
    }

    for i in 1..=count {
        let e = Entity::new(i as u64);
        assert!(hc.detach(e).is_ok());
    }

    assert!(hc.is_empty());
}

#[test]
fn add_child() {
    let mut hc = HierarchyComponent::new();

    let e = Entity::new(1);
    let p_index = hc.attach(e).unwrap();
    for i in 2..=11 {
        let e = Entity::new(i);
        let c_index = hc.attach(e).unwrap();
        assert!(hc.add_child(p_index, c_index).is_ok());
    }

    let c_list = hc.get_children(p_index).unwrap();
    assert_eq!(10, c_list.len());
    for i in 2..=11 {
        let e = Entity::new(i);
        assert!(c_list.contains(&e.id));
    }
}

#[test]
fn move_child() {
    let mut hc = HierarchyComponent::new();

    let e = Entity::new(1);
    let p1_index = hc.attach(e).unwrap();

    let e = Entity::new(2);
    let p2_index = hc.attach(e).unwrap();

    let c = Entity::new(3);
    let c_index = hc.attach(c).unwrap();

    {
        assert!(hc.add_child(p1_index, c_index).is_ok());
        let c_list = hc.get_children(p1_index).unwrap();
        assert!(c_list.contains(&c.id));
    }

    {
        assert!(hc.move_child(p1_index, p2_index, c_index).is_ok());
        let c1_list = hc.get_children(p1_index).unwrap();
        let c2_list = hc.get_children(p2_index).unwrap();

        assert_eq!(0, c1_list.len());
        assert!(c2_list.contains(&c.id));
    }
}

#[test]
fn remove_child() {
    let mut hc = HierarchyComponent::new();

    let e = Entity::new(1);
    let p_index = hc.attach(e).unwrap();
    for i in 2..=11 {
        let e = Entity::new(i);
        let c_index = hc.attach(e).unwrap();
        assert!(hc.add_child(p_index, c_index).is_ok());
    }

    for i in 2..=11 {
        let e = Entity::new(i);
        let c_index = hc.find_index(&e).unwrap();
        assert!(hc.remove_child(p_index, c_index).is_ok());
    }

    let c_list = hc.get_children(p_index).unwrap();
    assert_eq!(0, c_list.len());
}

#[test]
fn add_child_sets_parent_and_remove_child_clears_it() {
    let mut hc = HierarchyComponent::new();
    let p = hc.attach(Entity::new(7)).unwrap();
    let c = hc.attach(Entity::new(8)).unwrap();

    hc.add_child(p, c).unwrap();
    assert_eq!(Some(Entity::new(7)), hc.get_parent(c).unwrap());
    assert!(hc.get_children(p).unwrap().contains(&8));

    hc.remove_child(p, c).unwrap();
    assert_eq!(None, hc.get_parent(c).unwrap());
    assert!(!hc.get_children(p).unwrap().contains(&8));
}

#[test]
fn hierarchy_swap_remove_moves_last_row() {
    let mut hc = HierarchyComponent::new();
    for i in 1..=10 {
        hc.attach(Entity::new(i)).unwrap();
    }
    hc.detach(Entity::new(1)).unwrap();

    assert_eq!(Entity::new(10), hc.get_entity(0).unwrap());
    assert_eq!(Some(0), hc.find_index(&Entity::new(10)));
    assert_eq!(None, hc.find_index(&Entity::new(1)));
    assert_eq!(9, hc.len());
}

#[test]
fn attach_then_detach_leaves_no_row() {
    let mut hc = HierarchyComponent::new();
    for i in 1..=3 {
        hc.attach(Entity::new(i)).unwrap();
    }
    let e = Entity::new(42);
    hc.attach(e).unwrap();
    hc.detach(e).unwrap();

    assert!(!hc.does_exist(&e));
    assert_eq!(3, hc.len());
    for i in 1..=3 {
        let index = hc.find_index(&Entity::new(i)).unwrap();
        assert!(index < hc.len());
        assert_eq!(Entity::new(i), hc.get_entity(index).unwrap());
    }
}

#[test]
fn detaching_a_child_leaves_its_parent() {
    let mut hc = HierarchyComponent::new();
    let p = hc.attach(Entity::new(1)).unwrap();
    let c = hc.attach(Entity::new(2)).unwrap();
    hc.add_child(p, c).unwrap();

    hc.detach(Entity::new(2)).unwrap();
    assert_eq!(0, hc.get_children(p).unwrap().len());
}

#[test]
fn hierarchy_errors() {
    let mut hc = HierarchyComponent::new();
    let e = Entity::new(1);
    hc.attach(e).unwrap();

    assert_eq!(Err(EcsError::AlreadyExists), hc.attach(e));
    assert_eq!(Err(EcsError::NotFound), hc.detach(Entity::new(2)));
    assert_eq!(Err(EcsError::OutOfBounds), hc.add_child(0, 1));
    assert_eq!(Err(EcsError::OutOfBounds), hc.remove_child(1, 0));
    assert_eq!(Err(EcsError::OutOfBounds), hc.move_child(0, 0, 3));
    assert_eq!(Err(EcsError::OutOfBounds), hc.get_entity(1));
    assert_eq!(Err(EcsError::OutOfBounds), hc.get_parent(1));
    assert!(hc.get_children(1).is_err());
}
