use iguana_eye::entity::Entity;
use iguana_eye::error::EcsError;
use iguana_eye::hash;
use iguana_eye::name_component::NameComponent;

#[test]
fn add_entities() {
    let mut nc = NameComponent::new();

    let count = 10;
    for i in 1..=count {
        let e = Entity::new(i as u64);
        let _ = nc.attach(e).unwrap();
    }

    let size = nc.len();

    assert_eq!(count, size)
}

#[test]
fn name_component_test_remove_entities() {
    let mut nc = NameComponent::new();

    let count = 10;
    for i in 1..=count {
        let e = Entity::new(i as u64);
        let _ = nc.attach(e).unwrap();
    }

    for i in 1..=count {
        let e = Entity::new(i as u64);
        let _ = nc.detach(e);
    }

    let size = nc.len();
    assert_eq!(0, size)
}

#[test]
fn entity_swap_matches() {
    let mut nc = NameComponent::new();

    let count = 3;
    for i in 1..=count {
        let e = Entity::new(i as u64);
        let _ = nc.attach(e).unwrap();
    }

    let index = nc.find_index(&Entity::new(3)).unwrap();
    assert_eq!(2, index);

    let _ = nc.detach(Entity::new(1));
    let index = nc.find_index(&Entity::new(3)).unwrap();

    assert_eq!(0, index)
}

#[test]
fn name_matches() {
    let mut nc = NameComponent::new();

    let hash = hash::get(&String::from("name"));
    let e = Entity::new(1 as u64);
    let index = nc.attach(e).unwrap();
    nc.set_name(index, String::from("name"));
    let pair = nc.get_name(index).unwrap();
    assert_eq!(hash, pair.0);
    assert_eq!(String::from("name"), pair.1);

    let hash = hash::get(&String::from("name_0"));
    let e = Entity::new(2 as u64);
    let index = nc.attach(e).unwrap();
    nc.set_name(index, String::from("name"));
    let pair = nc.get_name(index).unwrap();
    assert_eq!(hash, pair.0);
    assert_eq!(String::from("name_0"), pair.1);
}

#[test]
fn set_name() {
    let mut nc = NameComponent::new();

    let count = 10;
    for i in 1..=count {
        let e = Entity::new(i as u64);
        let index = nc.attach(e).unwrap();

        assert!(!nc.set_name(index + 1, String::from("temp_name")));
        assert!(nc.set_name(index, String::from("temp_name")));
    }
}

#[test]
fn add_tag() {
    let mut nc = NameComponent::new();

    let count = 10;
    for i in 1..=count {
        let e = Entity::new(i as u64);
        let index = nc.attach(e).unwrap();

        assert!(nc.add_tag(index, String::from("player")));
        assert!(nc.has_tag(index, String::from("player")));
    }
}

#[test]
fn remove_tag() {
    let mut nc = NameComponent::new();

    let count = 10;
    for i in 1..=count {
        let e = Entity::new(i as u64);
        let index = nc.attach(e).unwrap();

        assert!(nc.add_tag(index, String::from("player")));
        assert!(nc.remove_tag(index, String::from("player")));
        assert!(!nc.has_tag(index, String::from("player")));
    }
}

#[test]
fn same_name_twice_gets_a_suffix() {
    let mut nc = NameComponent::new();
    let a = nc.attach(Entity::new(1)).unwrap();
    let b = nc.attach(Entity::new(2)).unwrap();

    assert!(nc.set_name(a, String::from("x")));
    assert!(nc.set_name(b, String::from("x")));
    let name_a = nc.get_name(a).unwrap().clone();
    let name_b = nc.get_name(b).unwrap().clone();

    assert_ne!(name_a.0, name_b.0);
    assert_eq!("x", name_a.1);
    assert_eq!("x_0", name_b.1);
    assert_eq!(hash::get("x_0"), name_b.0);
}

#[test]
fn suffixes_count_up_past_nine() {
    let mut nc = NameComponent::new();
    for i in 1..=13 {
        let index = nc.attach(Entity::new(i)).unwrap();
        assert!(nc.set_name(index, String::from("crate")));
    }
    assert_eq!("crate", nc.get_name(0).unwrap().1);
    assert_eq!("crate_0", nc.get_name(1).unwrap().1);
    assert_eq!("crate_9", nc.get_name(10).unwrap().1);
    assert_eq!("crate_10", nc.get_name(11).unwrap().1);
    assert_eq!("crate_11", nc.get_name(12).unwrap().1);
}

#[test]
fn renaming_keeps_the_old_hash_issued() {
    let mut nc = NameComponent::new();
    let a = nc.attach(Entity::new(1)).unwrap();
    let b = nc.attach(Entity::new(2)).unwrap();

    assert!(nc.set_name(a, String::from("first")));
    assert!(nc.set_name(a, String::from("second")));
    assert!(nc.set_name(b, String::from("first")));
    assert_eq!("first_0", nc.get_name(b).unwrap().1);
}

#[test]
fn detaching_releases_the_name_hash() {
    let mut nc = NameComponent::new();
    let a = nc.attach(Entity::new(1)).unwrap();
    assert!(nc.set_name(a, String::from("solo")));
    nc.detach(Entity::new(1)).unwrap();

    let b = nc.attach(Entity::new(2)).unwrap();
    assert!(nc.set_name(b, String::from("solo")));
    assert_eq!("solo", nc.get_name(b).unwrap().1);
}

#[test]
fn new_rows_are_unnamed_and_untagged() {
    let mut nc = NameComponent::new();
    let index = nc.attach(Entity::new(5)).unwrap();
    let name = nc.get_name(index).unwrap();
    assert_eq!(0, name.0);
    assert_eq!("", name.1);
    assert_eq!(0, nc.get_tags(index).unwrap().len());
    assert!(nc.get_name(index + 1).is_none());
    assert!(nc.get_tags(index + 1).is_none());
}

#[test]
fn tags_are_a_set() {
    let mut nc = NameComponent::new();
    let index = nc.attach(Entity::new(1)).unwrap();
    assert!(nc.add_tag(index, String::from("enemy")));
    assert!(!nc.add_tag(index, String::from("enemy")));
    assert!(nc.add_tag(index, String::from("boss")));
    let tags = nc.get_tags(index).unwrap();
    assert_eq!(2, tags.len());
    for (hash, name) in tags.iter() {
        assert_eq!(hash::get(name), *hash);
    }
    assert!(!nc.remove_tag(index, String::from("friend")));
    assert!(!nc.add_tag(index + 1, String::from("enemy")));
    assert!(!nc.has_tag(index + 1, String::from("enemy")));
    assert!(!nc.remove_tag(index + 1, String::from("enemy")));
}

#[test]
fn name_swap_remove_moves_last_row() {
    let mut nc = NameComponent::new();
    for i in 1..=10 {
        let index = nc.attach(Entity::new(i)).unwrap();
        nc.set_name(index, format!("e{}", i));
    }
    nc.detach(Entity::new(1)).unwrap();
    assert_eq!(Some(0), nc.find_index(&Entity::new(10)));
    assert_eq!("e10", nc.get_name(0).unwrap().1);
}

#[test]
fn name_errors() {
    let mut nc = NameComponent::new();
    nc.attach(Entity::new(1)).unwrap();
    assert_eq!(Err(EcsError::AlreadyExists), nc.attach(Entity::new(1)));
    assert_eq!(Err(EcsError::NotFound), nc.detach(Entity::new(9)));
}
