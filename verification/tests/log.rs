use potboiler::error::Error;
use potboiler::ids::{id_text, parse_id};
use potboiler::log::{location, plan_append, LogEntry, LogStore};

const A: u128 = 0xa;
const B: u128 = 0xb;

fn walk(log: &LogStore, root: u128) -> Vec<u128> {
    let mut seen = Vec::new();
    let mut at = Some(root);
    while let Some(id) = at {
        assert!(!seen.contains(&id), "cycle at {}", id);
        seen.push(id);
        at = log.get(id).unwrap().next;
    }
    seen
}

#[test]
fn first_append_is_root_and_frontier() {
    let mut log = LogStore::new();
    let entry = log.append_with_id(1, A, "{}".to_string()).unwrap();
    assert_eq!(
        entry,
        LogEntry { id: 1, owner: A, data: "{}".to_string(), prev: None, next: None }
    );
    assert_eq!(log.get(1), Ok(entry));
    assert_eq!(log.frontier(A), Some(1));
    assert_eq!(log.len(), 1);
}

#[test]
fn append_links_the_old_frontier_to_the_new_entry() {
    let mut log = LogStore::new();
    log.append_with_id(1, A, "1".to_string()).unwrap();
    let second = log.append_with_id(2, A, "2".to_string()).unwrap();
    assert_eq!(second.prev, Some(1));
    assert_eq!(second.next, None);
    let first = log.get(1).unwrap();
    assert_eq!(first.prev, None);
    assert_eq!(first.next, Some(2));
    assert_eq!(log.frontier(A), Some(2));
}

#[test]
fn chain_has_one_root_one_frontier_and_visits_every_entry_once() {
    let mut log = LogStore::new();
    for id in 1..=6u128 {
        log.append_with_id(id, A, id.to_string()).unwrap();
        log.append_with_id(100 + id, B, id.to_string()).unwrap();
    }
    for (owner, ids) in [(A, vec![1u128, 2, 3, 4, 5, 6]), (B, vec![101, 102, 103, 104, 105, 106])] {
        let entries: Vec<LogEntry> = ids.iter().map(|id| log.get(*id).unwrap()).collect();
        assert!(entries.iter().all(|e| e.owner == owner));
        assert_eq!(entries.iter().filter(|e| e.prev.is_none()).count(), 1);
        assert_eq!(entries.iter().filter(|e| e.next.is_none()).count(), 1);
        assert_eq!(walk(&log, ids[0]), ids);
        assert_eq!(log.frontier(owner), Some(*ids.last().unwrap()));
    }
}

#[test]
fn two_owners_each_get_a_valid_two_entry_chain() {
    let mut log = LogStore::new();
    log.append_with_id(1, A, "\"a1\"".to_string()).unwrap();
    log.append_with_id(2, B, "\"b1\"".to_string()).unwrap();
    log.append_with_id(3, B, "\"b2\"".to_string()).unwrap();
    log.append_with_id(4, A, "\"a2\"".to_string()).unwrap();
    assert_eq!(walk(&log, 1), vec![1, 4]);
    assert_eq!(walk(&log, 2), vec![2, 3]);
    let of_a = [log.get(1).unwrap(), log.get(4).unwrap()];
    let of_b = [log.get(2).unwrap(), log.get(3).unwrap()];
    for e in of_a.iter() {
        assert_eq!(e.owner, A);
        assert!(e.prev.map_or(true, |p| p == 1 || p == 4));
        assert!(e.next.map_or(true, |n| n == 1 || n == 4));
    }
    for e in of_b.iter() {
        assert_eq!(e.owner, B);
        assert!(e.prev.map_or(true, |p| p == 2 || p == 3));
        assert!(e.next.map_or(true, |n| n == 2 || n == 3));
    }
}

#[test]
fn appends_of_another_owner_leave_a_chain_alone() {
    let mut log = LogStore::new();
    log.append_with_id(1, A, "1".to_string()).unwrap();
    log.append_with_id(2, A, "2".to_string()).unwrap();
    let before = [log.get(1).unwrap(), log.get(2).unwrap()];
    log.append_with_id(3, B, "3".to_string()).unwrap();
    log.append_with_id(4, B, "4".to_string()).unwrap();
    assert_eq!([log.get(1).unwrap(), log.get(2).unwrap()], before);
}

#[test]
fn an_id_that_is_taken_is_refused_and_nothing_changes() {
    let mut log = LogStore::new();
    log.append_with_id(1, A, "1".to_string()).unwrap();
    let before = log.clone();
    assert_eq!(log.append_with_id(1, B, "2".to_string()), Err(Error::AlreadyExists));
    assert_eq!(log, before);
    assert_eq!(log.get(1).unwrap().next, None);
}

#[test]
fn append_draws_fresh_ids() {
    let mut log = LogStore::new();
    let first = log.append(A, "1".to_string()).unwrap();
    let second = log.append(A, "2".to_string()).unwrap();
    assert_ne!(first.id, second.id);
    assert_eq!(second.prev, Some(first.id));
    assert_eq!(log.get(first.id).unwrap().next, Some(second.id));
    assert_eq!(log.frontier(A), Some(second.id));
}

#[test]
fn get_of_an_unknown_id_is_not_found() {
    let mut log = LogStore::new();
    assert_eq!(log.get(7), Err(Error::NotFound));
    log.append_with_id(1, A, "1".to_string()).unwrap();
    assert_eq!(log.get(7), Err(Error::NotFound));
}

#[test]
fn frontier_of_an_owner_without_entries_is_none() {
    let mut log = LogStore::new();
    assert_eq!(log.frontier(A), None);
    log.append_with_id(1, B, "1".to_string()).unwrap();
    assert_eq!(log.frontier(A), None);
}

#[test]
fn frontiers_lists_each_owner_once() {
    let mut log = LogStore::new();
    assert_eq!(log.frontiers(), vec![]);
    log.append_with_id(1, A, "1".to_string()).unwrap();
    log.append_with_id(2, B, "2".to_string()).unwrap();
    log.append_with_id(3, A, "3".to_string()).unwrap();
    assert_eq!(log.frontiers(), vec![(B, 2), (A, 3)]);
}

#[test]
fn status_writes_owner_and_frontier_as_text() {
    let mut log = LogStore::new();
    log.append_with_id(1, A, "1".to_string()).unwrap();
    log.append_with_id(2, A, "2".to_string()).unwrap();
    assert_eq!(
        log.status(),
        vec![(
            "00000000-0000-0000-0000-00000000000a".to_string(),
            "00000000-0000-0000-0000-000000000002".to_string()
        )]
    );
}

#[test]
fn location_is_the_log_path_and_the_hyphenated_id() {
    assert_eq!(location(1), "/log/00000000-0000-0000-0000-000000000001");
    assert_eq!(
        location(0x0102_0304_0506_0708_090a_0b0c_0d0e_0f10),
        "/log/01020304-0506-0708-090a-0b0c0d0e0f10"
    );
}

#[test]
fn submit_stores_canonical_json_and_says_where() {
    let mut log = LogStore::new();
    let done = log.submit(A, "{ \"n\" : [1, 2] }").unwrap();
    assert_eq!(done.entry.owner, A);
    assert_eq!(done.entry.data, "{\"n\":[1,2]}");
    assert_eq!(done.entry.prev, None);
    assert_eq!(done.location, location(done.entry.id));
    let text = done.location.strip_prefix("/log/").unwrap();
    assert_eq!(parse_id(text), Ok(done.entry.id));
    assert_eq!(log.get(done.entry.id), Ok(done.entry));
}

#[test]
fn submit_of_bad_json_is_malformed_and_changes_nothing() {
    let mut log = LogStore::new();
    log.append_with_id(1, A, "1".to_string()).unwrap();
    let before = log.clone();
    assert_eq!(log.submit(A, "{oops"), Err(Error::MalformedInput));
    assert_eq!(log, before);
}

#[test]
fn read_shows_identifiers_as_text() {
    let mut log = LogStore::new();
    log.append_with_id(1, A, "{\"k\":true}".to_string()).unwrap();
    log.append_with_id(2, A, "2".to_string()).unwrap();
    let first = log.read("00000000-0000-0000-0000-000000000001").unwrap();
    assert_eq!(first.owner, "00000000-0000-0000-0000-00000000000a");
    assert_eq!(first.prev, None);
    assert_eq!(first.next, Some("00000000-0000-0000-0000-000000000002".to_string()));
    assert_eq!(first.data, "{\"k\":true}");
    let second = log.read("00000000-0000-0000-0000-000000000002").unwrap();
    assert_eq!(second.prev, Some("00000000-0000-0000-0000-000000000001".to_string()));
    assert_eq!(second.next, None);
}

#[test]
fn read_of_a_malformed_or_unknown_id_is_not_found() {
    let mut log = LogStore::new();
    log.append_with_id(1, A, "1".to_string()).unwrap();
    assert_eq!(log.read("/"), Err(Error::NotFound));
    assert_eq!(log.read("00000000-0000-0000-0000-000000000009"), Err(Error::NotFound));
}

#[test]
fn describe_and_duplicate_keep_the_entry() {
    let entry = LogEntry { id: 3, owner: A, data: "[]".to_string(), prev: Some(2), next: None };
    assert_eq!(entry.duplicate(), entry);
    let shown = entry.describe();
    assert_eq!(shown.owner, "00000000-0000-0000-0000-00000000000a");
    assert_eq!(shown.prev, Some("00000000-0000-0000-0000-000000000002".to_string()));
    assert_eq!(shown.next, None);
    assert_eq!(shown.data, "[]");
}

#[test]
fn plan_names_the_frontier_as_prev_and_as_the_entry_to_relink() {
    let first = plan_append(None, 1, A, "{}".to_string());
    assert_eq!(first.relink, None);
    assert_eq!(
        first.entry,
        LogEntry { id: 1, owner: A, data: "{}".to_string(), prev: None, next: None }
    );
    let second = plan_append(Some(1), 2, A, "[]".to_string());
    assert_eq!(second.relink, Some(1));
    assert_eq!(
        second.entry,
        LogEntry { id: 2, owner: A, data: "[]".to_string(), prev: Some(1), next: None }
    );
}

#[test]
fn first_append_of_a_log_always_succeeds() {
    for round in 0..50u128 {
        let mut log = LogStore::new();
        let entry = log.append(round, "{}".to_string()).unwrap();
        assert_eq!(entry.prev, None);
        assert_eq!(entry.next, None);
        assert_eq!(log.len(), 1);
        assert_eq!(log.frontier(round), Some(entry.id));
    }
}

#[test]
fn first_submission_of_json_always_succeeds() {
    for round in 0..50u128 {
        let mut log = LogStore::new();
        let done = log.submit(round, "[1]").unwrap();
        assert_eq!(done.entry.data, "[1]");
        assert_eq!(log.len(), 1);
    }
}

#[test]
fn reading_the_location_handed_out_finds_the_entry() {
    let mut log = LogStore::new();
    log.submit(B, "{\"first\":1}").unwrap();
    let done = log.submit(A, "{\"second\":2}").unwrap();
    let text = done.location.strip_prefix("/log/").unwrap();
    assert_eq!(text, id_text(done.entry.id));
    let shown = log.read(text).unwrap();
    assert_eq!(shown, done.entry.describe());
    assert_eq!(shown.owner, id_text(A));
    assert_eq!(shown.data, "{\"second\":2}");
}

#[test]
fn status_names_each_owner_once() {
    let mut log = LogStore::new();
    for id in 1..=9u128 {
        log.append_with_id(id, id % 3, "0".to_string()).unwrap();
    }
    let status = log.status();
    assert_eq!(status.len(), 3);
    for (i, a) in status.iter().enumerate() {
        for b in status.iter().skip(i + 1) {
            assert_ne!(a.0, b.0);
        }
    }
}
