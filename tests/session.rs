use rustlet::session::{SessionData, SessionStore};

#[test]
fn set_then_get_round_trip() {
    let mut s = SessionStore::new();
    s.set_at(7, "abc", 42u32.to_be_bytes().to_vec(), 1000);
    assert_eq!(s.get_at(7, "abc", 2000), Some(42u32.to_be_bytes().to_vec()));
    assert_eq!(s.get_at(7, "other", 2000), None);
    assert_eq!(s.get_at(8, "abc", 2000), None);
}

#[test]
fn remove_and_invalidate() {
    let mut s = SessionStore::new();
    s.set_at(1, "a", vec![1], 0);
    s.set_at(1, "b", vec![2], 0);
    s.remove_entry_at(1, "a", 5);
    assert_eq!(s.get_at(1, "a", 6), None);
    assert_eq!(s.get_at(1, "b", 6), Some(vec![2]));
    s.remove_entry_at(9, "a", 5);
    assert!(!s.contains(9));
    s.invalidate(1);
    assert!(!s.contains(1));
    assert_eq!(s.get_at(1, "b", 7), None);
}

#[test]
fn set_overwrites_value() {
    let mut s = SessionStore::new();
    s.set_at(3, "k", vec![1, 2], 0);
    s.set_at(3, "k", vec![9], 1);
    assert_eq!(s.get_at(3, "k", 2), Some(vec![9]));
    assert_eq!(s.len(), 1);
}

#[test]
fn get_creates_missing_session() {
    let mut s = SessionStore::new();
    assert_eq!(s.get_at(5, "x", 100), None);
    assert!(s.contains(5));
    s.set_at(5, "x", vec![3], 101);
    assert_eq!(s.get_at(5, "x", 102), Some(vec![3]));
}

#[test]
fn sweep_expires_idle_sessions() {
    let mut s = SessionStore::new();
    s.set_at(1, "abc", vec![42], 0);
    s.set_at(2, "abc", vec![43], 1500);
    s.sweep(2500, 1);
    assert!(!s.contains(1));
    assert!(s.contains(2));
    assert_eq!(s.get_at(1, "abc", 2600), None);
    assert_eq!(s.get_at(2, "abc", 2600), Some(vec![43]));
}

#[test]
fn sweep_boundary_and_disabled() {
    let mut s = SessionStore::new();
    s.set_at(1, "a", vec![1], 0);
    s.sweep(1000, 1);
    assert!(s.contains(1));
    s.sweep(1001, 1);
    assert!(!s.contains(1));
    s.set_at(2, "a", vec![1], 0);
    s.sweep(u128::MAX, 0);
    assert!(s.contains(2));
    s.set_at(3, "a", vec![1], 5000);
    s.sweep(1000, 1);
    assert!(s.contains(3));
}

#[test]
fn session_data_entries() {
    let mut d = SessionData::new(10);
    assert_eq!(d.get_mod_time(), 10);
    d.put("a", vec![1]);
    d.put("b", vec![2]);
    d.put("a", vec![3]);
    assert_eq!(d.get("a"), Some(vec![3]));
    d.remove("a");
    assert_eq!(d.get("a"), None);
    assert_eq!(d.get("b"), Some(vec![2]));
    d.touch(99);
    assert_eq!(d.get_mod_time(), 99);
}

#[test]
fn session_idle_just_over_timeout_expires() {
    let mut s = SessionStore::new();
    s.set_at(4, "abc", vec![42], 10_000);
    s.sweep(11_500, 1);
    assert!(!s.contains(4));
    assert_eq!(s.get_at(4, "abc", 11_600), None);
}
