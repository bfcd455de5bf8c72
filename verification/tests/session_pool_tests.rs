use axon::session_pool::{sort_listing, PoolError, SessionPool, SessionState};

fn sample() -> SessionPool<u32> {
    let mut p = SessionPool::new();
    p.insert("m", 1, 10);
    p.insert("m", 3, 30);
    p.insert("a", 2, 20);
    p
}

#[test]
fn get_finds_exact_version() {
    let p = sample();
    let s = p.get("m", 3).unwrap();
    assert_eq!(s.name, "m");
    assert_eq!(s.version, 3);
    assert_eq!(s.runner, 30);
    assert_eq!(s.state, SessionState::Ready);
    assert!(p.get("m", 2).is_none());
    assert!(p.get("x", 1).is_none());
}

#[test]
fn get_latest_picks_highest_version() {
    let mut p = sample();
    assert_eq!(p.get_latest("m").unwrap().version, 3);
    p.insert("m", 2, 25);
    assert_eq!(p.get_latest("m").unwrap().version, 3);
    assert_eq!(p.get_latest("a").unwrap().runner, 20);
    assert!(p.get_latest("zzz").is_none());
}

#[test]
fn insert_replaces_same_key() {
    let mut p = sample();
    p.insert("m", 3, 99);
    assert_eq!(p.model_count(), 3);
    assert_eq!(p.get("m", 3).unwrap().runner, 99);
}

#[test]
fn versions_are_ascending() {
    let mut p = SessionPool::new();
    p.insert("m", 7, 0u8);
    p.insert("m", 2, 0u8);
    p.insert("other", 5, 0u8);
    p.insert("m", 4, 0u8);
    assert_eq!(p.get_versions("m"), vec![2, 4, 7]);
    assert_eq!(p.get_versions("none"), Vec::<u32>::new());
}

#[test]
fn names_are_sorted_and_unique() {
    let mut p = sample();
    p.insert("b", 1, 0);
    assert_eq!(p.all_model_names(), vec!["a".to_string(), "b".to_string(), "m".to_string()]);
}

#[test]
fn unload_removes_only_that_version() {
    let mut p = sample();
    assert_eq!(p.unload_model("m", 1), Ok(()));
    assert_eq!(p.model_count(), 2);
    assert!(p.get("m", 1).is_none());
    assert!(p.get("m", 3).is_some());
    assert_eq!(p.unload_model("m", 1), Err(PoolError::NotFound));
}

#[test]
fn list_models_lists_every_session_once() {
    let p = sample();
    let mut l = p.list_models();
    l.sort_by_key(|x| (x.0.clone(), x.1));
    assert_eq!(
        l,
        vec![
            ("a".to_string(), 2, SessionState::Ready),
            ("m".to_string(), 1, SessionState::Ready),
            ("m".to_string(), 3, SessionState::Ready),
        ]
    );
}

#[test]
fn empty_pool() {
    let p: SessionPool<u32> = SessionPool::new();
    assert_eq!(p.model_count(), 0);
    assert!(p.list_models().is_empty());
    assert!(p.all_model_names().is_empty());
}

#[test]
fn listing_sorts_by_name_then_version() {
    let l = vec![
        ("m".to_string(), 3, SessionState::Ready),
        ("a".to_string(), 9, SessionState::Ready),
        ("m".to_string(), 1, SessionState::Ready),
        ("B".to_string(), 1, SessionState::Ready),
    ];
    let s = sort_listing(l);
    let keys: Vec<(String, u32)> = s.into_iter().map(|e| (e.0, e.1)).collect();
    assert_eq!(
        keys,
        vec![("B".to_string(), 1), ("a".to_string(), 9), ("m".to_string(), 1), ("m".to_string(), 3)]
    );
}

#[test]
fn existing_ready_reuses_a_loaded_session() {
    let p = sample();
    let s = p.existing_ready("m", 3).unwrap();
    assert_eq!(s.runner, 30);
    assert_eq!(s.state, SessionState::Ready);
    assert!(p.existing_ready("m", 2).is_none());
    assert!(p.existing_ready("zz", 1).is_none());
}
