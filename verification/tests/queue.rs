use potboiler::clock::Timestamp;
use potboiler::error::Error;
use potboiler::queue::{
    progress_stored, Queue, QueueAdd, QueueConfig, QueueCreate, QueueItem, QueueListItem,
    QueueOperation, QueueProgress, QueueState, Queues, StoredItem,
};

const W1: u128 = 0x11;
const W2: u128 = 0x22;
const BUILD: u128 = 7;

fn ts(time: u64) -> Timestamp {
    Timestamp::new(0, time, 0)
}

fn jobs_with_build() -> Queues {
    let mut qs = Queues::new();
    qs.create("jobs".to_string(), 5000).unwrap();
    qs.enqueue("jobs", BUILD, "build".to_string(), "{}".to_string(), ts(1)).unwrap();
    qs
}

fn build_item(qs: &Queues) -> QueueListItem {
    qs.get("jobs", BUILD).unwrap()
}

fn listed(id: u128, task_name: &str, state: QueueState) -> QueueListItem {
    QueueListItem { id, task_name: task_name.to_string(), state }
}

fn claim(queue_name: &str, id: u128, worker_id: u128) -> QueueProgress {
    QueueProgress { queue_name: queue_name.to_string(), id, worker_id }
}

#[test]
fn added_task_is_pending() {
    let qs = jobs_with_build();
    assert_eq!(build_item(&qs), listed(BUILD, "build", QueueState::Pending));
    assert_eq!(qs.list("jobs"), Ok(vec![listed(BUILD, "build", QueueState::Pending)]));
    assert_eq!(qs.config("jobs"), Ok(QueueConfig { timeout_ms: 5000 }));
}

#[test]
fn queue_scenario_claim_conflict_reclaim() {
    let (t0, t1, t2) = (ts(10), ts(20), ts(30));
    let mut q = Queue::new("jobs".to_string(), QueueConfig { timeout_ms: 5000 });
    q.enqueue(BUILD, "build".to_string(), "{}".to_string(), ts(1));
    assert_eq!(q.get(BUILD), Ok(listed(BUILD, "build", QueueState::Pending)));

    assert_eq!(q.progress(BUILD, W1, t1), Ok(()));
    assert_eq!(q.get(BUILD).unwrap().state, QueueState::Working);
    let after_first = q.clone();

    assert_eq!(q.progress(BUILD, W2, t0), Err(Error::Conflict));
    assert_eq!(q, after_first);

    assert_eq!(q.progress(BUILD, W2, t2), Ok(()));
    assert_eq!(q.get(BUILD).unwrap().state, QueueState::Working);
    assert_ne!(q, after_first);
    assert_eq!(q.complete(BUILD, W1, ts(40)), Err(Error::Conflict));
    assert_eq!(q.complete(BUILD, W2, ts(40)), Ok(()));
}

#[test]
fn claim_records_worker_and_timestamp() {
    let mut item = QueueItem::pending(BUILD, "build".to_string(), "{}".to_string(), ts(1));
    assert_eq!(item.worker, None);
    assert_eq!(item.claim(W1, ts(20)), Ok(()));
    assert_eq!(item.state, QueueState::Working);
    assert_eq!(item.worker, Some(W1));
    assert_eq!(item.timestamp, ts(20));

    assert_eq!(item.claim(W2, ts(10)), Err(Error::Conflict));
    assert_eq!(item.worker, Some(W1));
    assert_eq!(item.timestamp, ts(20));

    assert_eq!(item.claim(W2, ts(30)), Ok(()));
    assert_eq!(item.state, QueueState::Working);
    assert_eq!(item.worker, Some(W2));
    assert_eq!(item.timestamp, ts(30));
}

#[test]
fn claim_at_the_same_timestamp_is_a_conflict() {
    let mut item = QueueItem::pending(BUILD, "build".to_string(), "{}".to_string(), ts(1));
    item.claim(W1, ts(20)).unwrap();
    assert_eq!(item.claim(W2, ts(20)), Err(Error::Conflict));
    assert_eq!(item.worker, Some(W1));
}

#[test]
fn pending_task_is_claimed_whatever_the_timestamp() {
    let mut item = QueueItem::pending(BUILD, "build".to_string(), "{}".to_string(), ts(50));
    assert_eq!(item.claim(W1, ts(2)), Ok(()));
    assert_eq!(item.timestamp, ts(2));
}

#[test]
fn progress_on_a_missing_item_is_not_found() {
    let mut qs = jobs_with_build();
    let before = qs.clone();
    assert_eq!(qs.progress("jobs", 99, W1, ts(20)), Err(Error::NotFound));
    assert_eq!(qs.progress("nojobs", BUILD, W1, ts(20)), Err(Error::NotFound));
    assert_eq!(qs, before);
}

#[test]
fn service_scenario_claim_conflict_reclaim() {
    let mut qs = jobs_with_build();
    assert_eq!(qs.progress("jobs", BUILD, W1, ts(20)), Ok(()));
    assert_eq!(build_item(&qs).state, QueueState::Working);
    let after_first = qs.clone();
    assert_eq!(qs.progress("jobs", BUILD, W2, ts(10)), Err(Error::Conflict));
    assert_eq!(qs, after_first);
    assert_eq!(qs.progress("jobs", BUILD, W2, ts(30)), Ok(()));
    assert_eq!(build_item(&qs).state, QueueState::Working);
    assert_eq!(qs.complete("jobs", BUILD, W1, ts(31)), Err(Error::Conflict));
    assert_eq!(qs.complete("jobs", BUILD, W2, ts(31)), Ok(()));
    assert_eq!(build_item(&qs).state, QueueState::Done);
}

#[test]
fn done_is_terminal() {
    let mut qs = jobs_with_build();
    qs.progress("jobs", BUILD, W1, ts(20)).unwrap();
    qs.complete("jobs", BUILD, W1, ts(21)).unwrap();
    let before = qs.clone();
    assert_eq!(qs.progress("jobs", BUILD, W2, ts(99)), Err(Error::Conflict));
    assert_eq!(qs.complete("jobs", BUILD, W1, ts(99)), Err(Error::Conflict));
    assert_eq!(qs, before);
}

#[test]
fn complete_needs_the_lease() {
    let mut item = QueueItem::pending(BUILD, "build".to_string(), "{}".to_string(), ts(1));
    assert_eq!(item.complete(W1, ts(5)), Err(Error::Conflict));
    item.claim(W1, ts(20)).unwrap();
    assert_eq!(item.complete(W2, ts(30)), Err(Error::Conflict));
    assert_eq!(item.complete(W1, ts(3)), Ok(()));
    assert_eq!(item.state, QueueState::Done);
    assert_eq!(item.worker, None);
    assert_eq!(item.timestamp, ts(3));
}

#[test]
fn complete_on_a_missing_item_is_not_found() {
    let mut qs = jobs_with_build();
    assert_eq!(qs.complete("jobs", 99, W1, ts(20)), Err(Error::NotFound));
    assert_eq!(qs.complete("nojobs", BUILD, W1, ts(20)), Err(Error::NotFound));
}

#[test]
fn a_queue_name_is_created_once() {
    let mut qs = jobs_with_build();
    let before = qs.clone();
    assert_eq!(qs.create("jobs".to_string(), 1), Err(Error::AlreadyExists));
    assert_eq!(qs, before);
    assert_eq!(qs.config("jobs"), Ok(QueueConfig { timeout_ms: 5000 }));
    assert_eq!(qs.create("mail".to_string(), 1), Ok(()));
    assert_eq!(qs.list("mail"), Ok(vec![]));
}

#[test]
fn enqueue_to_an_unknown_queue_is_not_found() {
    let mut qs = jobs_with_build();
    assert_eq!(
        qs.enqueue("nojobs", 8, "t".to_string(), "{}".to_string(), ts(2)),
        Err(Error::NotFound)
    );
    assert_eq!(qs.list("nojobs"), Err(Error::NotFound));
    assert_eq!(qs.get("nojobs", 8), Err(Error::NotFound));
    assert_eq!(qs.get("jobs", 8), Err(Error::NotFound));
    assert_eq!(qs.config("nojobs"), Err(Error::NotFound));
}

#[test]
fn an_addition_delivered_twice_counts_once() {
    let mut qs = jobs_with_build();
    qs.progress("jobs", BUILD, W1, ts(20)).unwrap();
    let before = qs.clone();
    assert_eq!(qs.enqueue("jobs", BUILD, "build".to_string(), "{}".to_string(), ts(1)), Ok(()));
    assert_eq!(qs, before);
}

#[test]
fn list_keeps_the_order_of_addition() {
    let mut qs = jobs_with_build();
    qs.enqueue("jobs", 8, "test".to_string(), "1".to_string(), ts(2)).unwrap();
    qs.enqueue("jobs", 9, "ship".to_string(), "2".to_string(), ts(3)).unwrap();
    qs.progress("jobs", 8, W1, ts(4)).unwrap();
    assert_eq!(
        qs.list("jobs"),
        Ok(vec![
            listed(BUILD, "build", QueueState::Pending),
            listed(8, "test", QueueState::Working),
            listed(9, "ship", QueueState::Pending),
        ])
    );
}

#[test]
fn queue_reports_name_config_and_length() {
    let mut q = Queue::new("jobs".to_string(), QueueConfig { timeout_ms: 5000 });
    assert_eq!(q.name(), "jobs");
    assert_eq!(q.config(), QueueConfig { timeout_ms: 5000 });
    assert_eq!(q.len(), 0);
    q.enqueue(1, "a".to_string(), "{}".to_string(), ts(1));
    assert_eq!(q.len(), 1);
    assert_eq!(q.list(), vec![listed(1, "a", QueueState::Pending)]);
    assert_eq!(q.get(2), Err(Error::NotFound));
}

#[test]
fn events_are_dispatched_by_operation() {
    let mut qs = Queues::new();
    let create = QueueOperation::Create(QueueCreate { name: "jobs".to_string(), timeout_ms: 5000 });
    assert_eq!(qs.apply(1, ts(1), create.clone()), Ok(()));
    assert_eq!(qs.apply(2, ts(2), create), Err(Error::AlreadyExists));

    let add = QueueOperation::Add(QueueAdd {
        queue_name: "jobs".to_string(),
        task_name: "build".to_string(),
        data: "{\"target\":\"all\"}".to_string(),
    });
    assert_eq!(qs.apply(BUILD, ts(3), add), Ok(()));
    assert_eq!(build_item(&qs), listed(BUILD, "build", QueueState::Pending));

    assert_eq!(qs.apply(10, ts(20), QueueOperation::Progress(claim("jobs", BUILD, W1))), Ok(()));
    assert_eq!(
        qs.apply(11, ts(10), QueueOperation::Progress(claim("jobs", BUILD, W2))),
        Err(Error::Conflict)
    );
    assert_eq!(
        qs.apply(12, ts(30), QueueOperation::Progress(claim("jobs", 99, W2))),
        Err(Error::NotFound)
    );
    assert_eq!(qs.apply(13, ts(30), QueueOperation::Progress(claim("jobs", BUILD, W2))), Ok(()));
    assert_eq!(
        qs.apply(14, ts(31), QueueOperation::Done(claim("jobs", BUILD, W1))),
        Err(Error::Conflict)
    );
    assert_eq!(qs.apply(15, ts(32), QueueOperation::Done(claim("jobs", BUILD, W2))), Ok(()));
    assert_eq!(build_item(&qs).state, QueueState::Done);
}

#[test]
fn addition_to_an_unknown_queue_is_not_found() {
    let mut qs = Queues::new();
    let add = QueueOperation::Add(QueueAdd {
        queue_name: "jobs".to_string(),
        task_name: "build".to_string(),
        data: "{}".to_string(),
    });
    assert_eq!(qs.apply(1, ts(1), add), Err(Error::NotFound));
}

#[test]
fn deletion_is_accepted_and_has_no_effect() {
    let mut qs = jobs_with_build();
    let before = qs.clone();
    assert_eq!(qs.apply(20, ts(9), QueueOperation::Delete { name: "jobs".to_string() }), Ok(()));
    assert_eq!(qs, before);
}

#[test]
fn states_are_read_from_their_names() {
    assert_eq!(QueueState::from_name("pending"), Ok(QueueState::Pending));
    assert_eq!(QueueState::from_name("working"), Ok(QueueState::Working));
    assert_eq!(QueueState::from_name("done"), Ok(QueueState::Done));
    assert_eq!(QueueState::from_name("Pending"), Err(Error::MalformedInput));
    assert_eq!(QueueState::from_name(""), Err(Error::MalformedInput));
    for state in [QueueState::Pending, QueueState::Working, QueueState::Done] {
        assert_eq!(QueueState::from_name(state.name()), Ok(state));
    }
    assert_eq!(QueueState::Working.name(), "working");
}

fn stored(state: &str, hlc_tstamp: Vec<u8>, worker: Option<u128>) -> StoredItem {
    StoredItem {
        id: BUILD,
        task_name: "build".to_string(),
        state: state.to_string(),
        info: "{}".to_string(),
        hlc_tstamp,
        worker,
    }
}

#[test]
fn stored_form_round_trips() {
    let mut item = QueueItem::pending(BUILD, "build".to_string(), "{}".to_string(), ts(1));
    assert_eq!(item.to_stored(), stored("pending", ts(1).encode(), None));
    assert_eq!(QueueItem::from_stored(item.to_stored()), Ok(item.clone()));
    item.claim(W1, ts(20)).unwrap();
    assert_eq!(item.to_stored(), stored("working", ts(20).encode(), Some(W1)));
    assert_eq!(QueueItem::from_stored(item.to_stored()), Ok(item.clone()));
    item.complete(W1, ts(21)).unwrap();
    assert_eq!(QueueItem::from_stored(item.to_stored()), Ok(item));
}

#[test]
fn stored_form_that_stands_for_no_task_is_malformed() {
    let good = ts(1).encode();
    assert_eq!(
        QueueItem::from_stored(stored("waiting", good.clone(), None)),
        Err(Error::MalformedInput)
    );
    assert_eq!(
        QueueItem::from_stored(stored("pending", vec![0; 15], None)),
        Err(Error::MalformedInput)
    );
    assert_eq!(
        QueueItem::from_stored(stored("pending", good.clone(), Some(W1))),
        Err(Error::MalformedInput)
    );
    assert_eq!(
        QueueItem::from_stored(stored("working", good, None)),
        Err(Error::MalformedInput)
    );
}

#[test]
fn claims_on_stored_tasks_follow_the_claim_rule() {
    let pending = stored("pending", ts(1).encode(), None);
    let claimed = progress_stored(pending, W1, ts(20)).unwrap();
    assert_eq!(claimed, stored("working", ts(20).encode(), Some(W1)));
    assert_eq!(progress_stored(claimed.clone(), W2, ts(10)), Err(Error::Conflict));
    assert_eq!(progress_stored(claimed.clone(), W2, ts(20)), Err(Error::Conflict));
    assert_eq!(
        progress_stored(claimed, W2, ts(30)),
        Ok(stored("working", ts(30).encode(), Some(W2)))
    );
    assert_eq!(
        progress_stored(stored("done", ts(40).encode(), None), W2, ts(50)),
        Err(Error::Conflict)
    );
    assert_eq!(
        progress_stored(stored("pending", vec![1, 2, 3], None), W2, ts(50)),
        Err(Error::MalformedInput)
    );
}

#[test]
fn summary_shows_id_name_and_state() {
    let item = QueueItem::pending(BUILD, "build".to_string(), "{\"x\":1}".to_string(), ts(1));
    assert_eq!(item.summary(), listed(BUILD, "build", QueueState::Pending));
}
