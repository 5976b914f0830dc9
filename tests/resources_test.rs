use iguana_eye::config::Config;
use iguana_eye::error::EcsError;
use iguana_eye::hash;
use iguana_eye::random;
use iguana_eye::resources::{FileResource, SceneResource};
use iguana_eye::rsc_manager::RscManager;

#[test]
fn resource_manager_keys() {
    let mut rm: RscManager<String> = RscManager::new();
    assert_eq!(Ok(()), rm.add(1, String::from("one")));
    assert_eq!(Err(EcsError::AlreadyExists), rm.add(1, String::from("uno")));
    assert_eq!("one", rm.get(1).unwrap());
    assert_eq!(Err(EcsError::NotFound), rm.change_hash(2, 3));
    assert_eq!(Ok(()), rm.add(2, String::from("two")));
    assert_eq!(Err(EcsError::AlreadyExists), rm.change_hash(1, 2));
    assert_eq!(Ok(()), rm.change_hash(1, 5));
    assert!(!rm.does_exist(1));
    assert_eq!("one", rm.get(5).unwrap());
    rm.get_mut(5).unwrap().push('!');
    assert_eq!("one!", rm.get(5).unwrap());
    assert!(rm.get_mut(1).is_none());
    assert_eq!(Ok(()), rm.remove(5));
    assert_eq!(Err(EcsError::NotFound), rm.remove(5));
    rm.clear();
    assert!(!rm.does_exist(2));
}

#[test]
fn file_resource_hashes_its_path() {
    let mut fr = FileResource::new(String::from("/a/shader.wgsl"));
    assert_eq!(hash::get("/a/shader.wgsl"), fr.hash);
    let same = FileResource::new(String::from("/a/shader.wgsl"));
    assert!(fr == same);
    fr.set(String::from("/b/other.wgsl"));
    assert_eq!("/b/other.wgsl", fr.path);
    assert_eq!(hash::get("/b/other.wgsl"), fr.hash);
    assert!(fr != same);
}

#[test]
fn scene_resource_holds_a_hash() {
    let mut sr = SceneResource::new(3);
    sr.set(4);
    assert_eq!(SceneResource::new(4), sr);
}

#[test]
fn default_config() {
    let c = Config::default();
    assert_eq!(800, c.width);
    assert_eq!(600, c.height);
    assert!(!c.fullscreen);
}

#[test]
fn random_values_stay_in_range() {
    for _ in 0..200 {
        let a = random::rand_signed32(-5, 5);
        assert!((-5..5).contains(&a));
        let b = random::rand_signed64(i64::MIN, i64::MIN + 2);
        assert!(b == i64::MIN || b == i64::MIN + 1);
        let c = random::rand_unsigned32(7, 8);
        assert_eq!(7, c);
        let d = random::rand_unsigned64(u64::MAX - 3, u64::MAX);
        assert!(d >= u64::MAX - 3 && d < u64::MAX);
    }
}
