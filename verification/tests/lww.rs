use potboiler::clock::Timestamp;
use potboiler::error::Error;
use potboiler::lww::{
    decide, screen, Change, Collection, LwwRecord, Operation, PolicyKind, Store, Verdict,
};

fn ts(time: u64, count: u32) -> Timestamp {
    Timestamp::new(0, time, count)
}

fn record(key: &str, value: &str, timestamp: Timestamp) -> LwwRecord {
    LwwRecord { key: key.to_string(), value: value.to_string(), timestamp }
}

fn set(table: &str, key: &str, value: &str) -> Change {
    Change {
        table: table.to_string(),
        key: key.to_string(),
        op: Operation::Assign,
        change: value.to_string(),
    }
}

fn users() -> Collection {
    Collection::new("users".to_string(), PolicyKind::Lww)
}

#[test]
fn first_write_creates_the_record() {
    let mut c = users();
    assert_eq!(c.apply_set("k".to_string(), "v1".to_string(), ts(5, 0)), Verdict::Accepted);
    assert_eq!(c.get("k"), Ok(record("k", "v1", ts(5, 0))));
    assert_eq!(c.len(), 1);
}

#[test]
fn older_write_is_dropped() {
    let mut c = users();
    c.apply_set("k".to_string(), "v1".to_string(), ts(5, 0));
    assert_eq!(c.apply_set("k".to_string(), "v2".to_string(), ts(4, 9)), Verdict::Rejected);
    assert_eq!(c.get("k"), Ok(record("k", "v1", ts(5, 0))));
}

#[test]
fn newer_write_replaces_the_record() {
    let mut c = users();
    c.apply_set("k".to_string(), "v1".to_string(), ts(5, 0));
    assert_eq!(c.apply_set("k".to_string(), "v2".to_string(), ts(5, 1)), Verdict::Accepted);
    assert_eq!(c.get("k"), Ok(record("k", "v2", ts(5, 1))));
    assert_eq!(c.len(), 1);
}

#[test]
fn write_with_equal_timestamp_replaces_the_record() {
    let mut c = users();
    c.apply_set("k".to_string(), "v1".to_string(), ts(5, 0));
    assert_eq!(c.apply_set("k".to_string(), "v2".to_string(), ts(5, 0)), Verdict::Accepted);
    assert_eq!(c.get("k"), Ok(record("k", "v2", ts(5, 0))));
}

#[test]
fn applying_an_accepted_write_again_changes_nothing() {
    let mut c = users();
    c.apply_set("other".to_string(), "x".to_string(), ts(1, 0));
    assert_eq!(c.apply_set("k".to_string(), "v".to_string(), ts(5, 0)), Verdict::Accepted);
    let before = c.clone();
    assert_eq!(c.apply_set("k".to_string(), "v".to_string(), ts(5, 0)), Verdict::Accepted);
    assert_eq!(c, before);
}

#[test]
fn writes_to_one_key_leave_other_keys_alone() {
    let mut c = users();
    c.apply_set("a".to_string(), "1".to_string(), ts(9, 0));
    c.apply_set("b".to_string(), "2".to_string(), ts(1, 0));
    c.apply_set("b".to_string(), "3".to_string(), ts(2, 0));
    assert_eq!(c.get("a"), Ok(record("a", "1", ts(9, 0))));
    assert_eq!(c.get("b"), Ok(record("b", "3", ts(2, 0))));
    assert_eq!(c.get("c"), Err(Error::NotFound));
}

#[test]
fn collection_knows_its_name_and_policy() {
    let c = users();
    assert_eq!(c.name(), "users");
    assert_eq!(c.policy(), PolicyKind::Lww);
    assert_eq!(c.len(), 0);
}

#[test]
fn store_applies_set_to_the_named_collection() {
    let mut s = Store::new();
    assert_eq!(s.bind("users".to_string(), PolicyKind::Lww), Ok(()));
    assert_eq!(s.bind("teams".to_string(), PolicyKind::Lww), Ok(()));
    assert_eq!(s.apply(ts(5, 0), set("users", "k", "v1")), Ok(Verdict::Accepted));
    assert_eq!(s.apply(ts(4, 0), set("users", "k", "v0")), Ok(Verdict::Rejected));
    assert_eq!(s.apply(ts(6, 0), set("users", "k", "v2")), Ok(Verdict::Accepted));
    assert_eq!(s.get("users", "k"), Ok(record("k", "v2", ts(6, 0))));
    assert_eq!(s.get("teams", "k"), Err(Error::NotFound));
}

#[test]
fn change_to_an_unknown_collection_is_refused() {
    let mut s = Store::new();
    s.bind("users".to_string(), PolicyKind::Lww).unwrap();
    let before = s.clone();
    assert_eq!(s.apply(ts(5, 0), set("nobody", "k", "v")), Err(Error::UnknownCollection));
    assert_eq!(s, before);
    assert_eq!(s.get("nobody", "k"), Err(Error::UnknownCollection));
}

#[test]
fn operations_other_than_set_are_unsupported() {
    let mut s = Store::new();
    s.bind("users".to_string(), PolicyKind::Lww).unwrap();
    let before = s.clone();
    for op in [Operation::Add, Operation::Remove] {
        let change = Change { op, ..set("users", "k", "v") };
        assert_eq!(s.apply(ts(5, 0), change), Err(Error::UnsupportedOperation));
    }
    assert_eq!(s, before);
}

#[test]
fn collections_under_another_policy_support_nothing() {
    let mut s = Store::new();
    s.bind("tags".to_string(), PolicyKind::OrSet).unwrap();
    assert_eq!(s.apply(ts(5, 0), set("tags", "k", "v")), Err(Error::UnsupportedOperation));
    assert_eq!(s.get("tags", "k"), Err(Error::NotFound));
}

#[test]
fn a_name_is_bound_once() {
    let mut s = Store::new();
    s.bind("users".to_string(), PolicyKind::Lww).unwrap();
    assert_eq!(s.bind("users".to_string(), PolicyKind::OrSet), Err(Error::AlreadyExists));
    assert_eq!(s.policy_of("users"), Ok(PolicyKind::Lww));
    assert_eq!(s.policy_of("teams"), Err(Error::UnknownCollection));
}

#[test]
fn operations_are_read_from_their_names() {
    assert_eq!(Operation::from_name("set"), Ok(Operation::Assign));
    assert_eq!(Operation::from_name("add"), Ok(Operation::Add));
    assert_eq!(Operation::from_name("remove"), Ok(Operation::Remove));
    assert_eq!(Operation::from_name("Set"), Err(Error::MalformedInput));
    assert_eq!(Operation::from_name(""), Err(Error::MalformedInput));
    for op in [Operation::Assign, Operation::Add, Operation::Remove] {
        assert_eq!(Operation::from_name(op.name()), Ok(op));
    }
    assert_eq!(Operation::Assign.name(), "set");
}

#[test]
fn duplicate_keeps_the_record() {
    let r = record("k", "v", ts(1, 2));
    assert_eq!(r.duplicate(), r);
}

#[test]
fn screen_checks_binding_policy_and_operation() {
    assert_eq!(screen(Some(PolicyKind::Lww), Operation::Assign), Ok(()));
    assert_eq!(screen(None, Operation::Assign), Err(Error::UnknownCollection));
    assert_eq!(screen(None, Operation::Add), Err(Error::UnknownCollection));
    assert_eq!(screen(Some(PolicyKind::Lww), Operation::Add), Err(Error::UnsupportedOperation));
    assert_eq!(screen(Some(PolicyKind::Lww), Operation::Remove), Err(Error::UnsupportedOperation));
    assert_eq!(
        screen(Some(PolicyKind::OrSet), Operation::Assign),
        Err(Error::UnsupportedOperation)
    );
}

#[test]
fn decide_accepts_what_is_not_older_than_what_is_held() {
    assert_eq!(decide(None, ts(1, 0)), Verdict::Accepted);
    assert_eq!(decide(Some(ts(5, 0)), ts(5, 1)), Verdict::Accepted);
    assert_eq!(decide(Some(ts(5, 0)), ts(5, 0)), Verdict::Accepted);
    assert_eq!(decide(Some(ts(5, 0)), ts(4, 9)), Verdict::Rejected);
}
