use polybot::backend::{from_request, hello, is_valid, root, ApiKey, ApiKeyError, KeyOutcome};
use polybot::data_server::{
    create_user, create_user_data, get_user, get_user_data, set_points, add_points, Database, DbError,
    MyDatabase, User,
};

#[test]
fn read_after_write() {
    let mut db = MyDatabase::new();
    assert!(db.set_points("IamHardliner", "Alice", 120).is_ok());
    assert_eq!(db.get_points("iamhardliner", "alice").ok(), Some(120));
    assert_eq!(db.get_points("IAMHARDLINER", "ALICE").ok(), Some(120));
}

#[test]
fn add_returns_total() {
    let mut db = MyDatabase::new();
    assert_eq!(db.add_points("streamer", "bob", 5).ok(), Some(5));
    assert_eq!(db.add_points("streamer", "bob", 7).ok(), Some(12));
    assert_eq!(db.add_points("streamer", "bob", -20).ok(), Some(-8));
    assert_eq!(db.get_points("streamer", "bob").ok(), Some(-8));
    assert_eq!(db.get_points("other", "bob").ok(), Some(0));
}

#[test]
fn new_viewer_has_no_points() {
    let mut db = MyDatabase::new();
    assert_eq!(db.get_points("streamer", "carol").ok(), Some(0));
}

#[test]
fn checked_add_refuses_overflow() {
    let mut db = MyDatabase::new();
    assert!(db.set_points("s", "v", i32::MAX).is_ok());
    assert!(db.try_add_points("s", "v", 1).is_none());
    assert_eq!(db.get_points("s", "v").ok(), Some(i32::MAX));
    assert_eq!(db.try_add_points("s", "v", -1).and_then(|r| r.ok()), Some(i32::MAX - 1));
}

#[test]
fn user_requests() {
    let mut db = MyDatabase::new();
    assert_eq!(db.add_user("Anyone"), 1);
    assert_eq!(db.add_user("Second"), 1);
    assert_eq!(db.get_user("whoever"), "iamhardliner");
}

#[test]
fn table_operations() {
    let mut db = Database::new();
    assert_eq!(get_user(&db, "Alice").err(), Some(DbError::NotFound));
    let a = create_user(&mut db, "Alice").ok().unwrap();
    assert_eq!((a.id, a.name.as_str()), (1, "alice"));
    let b = create_user(&mut db, "Bob").ok().unwrap();
    assert_eq!(b.id, 2);
    assert_eq!(get_user(&db, "ALICE").ok().map(|u: User| u.id), Some(1));
    assert_eq!(get_user_data(&db, &a, &b).err(), Some(DbError::NotFound));
    let row = create_user_data(&mut db, &a, &b).ok().unwrap();
    assert_eq!((row.streamer_id, row.viewer_id, row.points), (1, 2, 0));
    assert_eq!(create_user_data(&mut db, &a, &b).err(), Some(DbError::UniqueViolation));
    assert!(set_points(&mut db, &a, &b, 9).is_ok());
    assert_eq!(get_user_data(&db, &a, &b).ok().map(|d| d.points), Some(9));
    assert_eq!(add_points(&mut db, &a, &b, 1).ok(), Some(10));
    assert_eq!(add_points(&mut db, &b, &a, 3).ok(), Some(3));
}

#[test]
fn key_check() {
    let file = "key-one\nkey-two\r\n";
    assert!(is_valid("key-two", file));
    assert!(!is_valid("key-three", file));
    assert!(matches!(from_request(true, &vec![], file), KeyOutcome::Success(ApiKey(k)) if k.is_empty()));
    assert!(matches!(from_request(false, &vec![], file), KeyOutcome::Failure(ApiKeyError::Missing)));
    assert!(matches!(from_request(false, &vec!["key-one".to_string()], file), KeyOutcome::Success(ApiKey(k)) if k == "key-one"));
    assert!(matches!(from_request(false, &vec!["nope".to_string()], file), KeyOutcome::Failure(ApiKeyError::Invalid)));
    assert!(matches!(
        from_request(false, &vec!["key-one".to_string(), "key-two".to_string()], file),
        KeyOutcome::Failure(ApiKeyError::BadCount)
    ));
    assert!(matches!(from_request(false, &vec!["x".to_string()], ""), KeyOutcome::Failure(ApiKeyError::Invalid)));
}

#[test]
fn pages() {
    assert_eq!(hello(ApiKey(String::new()), "Bob".to_string(), 30), "Hello, 30 year old named Bob!");
    assert_eq!(root(), "It seems you are too early. Maybe come back at a later time!");
}

#[test]
fn set_keeps_other_pairs() {
    let mut db = MyDatabase::new();
    assert!(db.set_points("s", "v1", 10).is_ok());
    assert!(db.set_points("s", "v2", 20).is_ok());
    assert!(db.set_points("t", "v1", 30).is_ok());
    assert_eq!(db.get_points("s", "v1").ok(), Some(10));
    assert_eq!(db.get_points("s", "v2").ok(), Some(20));
    assert_eq!(db.get_points("t", "v1").ok(), Some(30));
}

#[test]
fn new_users_get_unused_ids() {
    let mut db = Database::new();
    let a = create_user(&mut db, "Alice").ok().unwrap();
    let b = create_user(&mut db, "alice").ok().unwrap();
    let c = create_user(&mut db, "Carol").ok().unwrap();
    assert!(a.id != b.id && b.id != c.id && a.id != c.id);
}

#[test]
fn service_can_serve_fresh_names() {
    let mut db = MyDatabase::new();
    assert!(db.can_serve("iamhardliner", "alice"));
    assert!(db.set_points("iamhardliner", "alice", 1).is_ok());
    assert!(db.can_serve("IAMHARDLINER", "Alice"));
}
