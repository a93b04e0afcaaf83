//! The queue policy: tasks that workers claim under a lease, with claims
//! ordered by logical time.

use crate::clock::{decoding, lemma_decode_encode, Timestamp};
use crate::error::Error;
use crate::text::same_text;
use vstd::prelude::*;

verus! {

/// Where a task stands in its life.
#[derive(Clone, Copy, Debug, PartialEq, Eq, Structural, Hash)]
pub enum QueueState {
    /// Waiting for a worker.
    Pending,
    /// Claimed by a worker, who holds the lease.
    Working,
    /// Finished; no further transition is accepted.
    Done,
}

/// The settings of a queue, fixed when the queue is created.
#[derive(Clone, Copy, Debug, PartialEq, Eq, Structural)]
pub struct QueueConfig {
    /// How long a claimed task is leased to its worker, in milliseconds.
    /// Advisory: no claim is ever expired by the passing of time, only
    /// pre-empted by a newer claim.
    pub timeout_ms: i32,
}

/// One task of a queue.
#[derive(Clone, Debug, PartialEq, Eq)]
pub struct QueueItem {
    pub id: u128,
    pub task_name: String,
    pub state: QueueState,
    pub info: String,
    /// Logical time of the last accepted transition.
    pub timestamp: Timestamp,
    /// The worker that holds the lease, while the task is being worked on.
    pub worker: Option<u128>,
}

/// What a listing shows of a task.
#[derive(Clone, Debug, PartialEq, Eq)]
pub struct QueueListItem {
    pub id: u128,
    pub task_name: String,
    pub state: QueueState,
}

/// The mathematical content of a [`QueueItem`].
pub struct ItemView {
    pub id: u128,
    pub task_name: Seq<char>,
    pub state: QueueState,
    pub info: Seq<char>,
    pub timestamp: Timestamp,
    pub worker: Option<u128>,
}

/// The mathematical content of a [`QueueListItem`].
pub struct ListItemView {
    pub id: u128,
    pub task_name: Seq<char>,
    pub state: QueueState,
}

impl View for QueueItem {
    type V = ItemView;

    open spec fn view(&self) -> ItemView {
        ItemView {
            id: self.id,
            task_name: self.task_name@,
            state: self.state,
            info: self.info@,
            timestamp: self.timestamp,
            worker: self.worker,
        }
    }
}

impl View for QueueListItem {
    type V = ListItemView;

    open spec fn view(&self) -> ListItemView {
        ListItemView { id: self.id, task_name: self.task_name@, state: self.state }
    }
}

impl ItemView {
    /// A worker is recorded exactly while the task is being worked on.
    pub open spec fn wf(self) -> bool {
        self.worker is Some <==> self.state == QueueState::Working
    }

    /// A freshly added task: pending, with no worker.
    pub open spec fn pending(
        id: u128,
        task_name: Seq<char>,
        info: Seq<char>,
        when: Timestamp,
    ) -> ItemView {
        ItemView {
            id,
            task_name,
            state: QueueState::Pending,
            info,
            timestamp: when,
            worker: None,
        }
    }

    /// The claim rule: a pending task can always be claimed, and a task
    /// being worked on only by a claim strictly newer than the one that
    /// holds it.
    pub open spec fn accepts_claim(self, when: Timestamp) -> bool {
        ||| self.state == QueueState::Pending
        ||| self.state == QueueState::Working && self.timestamp.before(when)
    }

    /// The task after `worker` claimed it at `when`.
    pub open spec fn claimed(self, worker: u128, when: Timestamp) -> ItemView {
        ItemView { state: QueueState::Working, worker: Some(worker), timestamp: when, ..self }
    }

    /// How a claim at `when` ends: accepted, or in `Conflict`.
    pub open spec fn claim_outcome(self, when: Timestamp) -> Result<(), Error> {
        if self.accepts_claim(when) {
            Ok(())
        } else {
            Err(Error::Conflict)
        }
    }

    /// The task after a claim by `worker` at `when`, accepted or not.
    pub open spec fn after_claim(self, worker: u128, when: Timestamp) -> ItemView {
        if self.accepts_claim(when) {
            self.claimed(worker, when)
        } else {
            self
        }
    }

    /// The completion rule: the worker that holds the lease can finish the
    /// task, whatever the logical time.
    pub open spec fn accepts_completion(self, worker: u128) -> bool {
        self.state == QueueState::Working && self.worker == Some(worker)
    }

    /// The task after it was finished at `when`.
    pub open spec fn completed(self, when: Timestamp) -> ItemView {
        ItemView { state: QueueState::Done, worker: None, timestamp: when, ..self }
    }

    /// How a request by `worker` to finish the task ends.
    pub open spec fn completion_outcome(self, worker: u128) -> Result<(), Error> {
        if self.accepts_completion(worker) {
            Ok(())
        } else {
            Err(Error::Conflict)
        }
    }

    /// The task after a request by `worker` to finish it at `when`,
    /// accepted or not.
    pub open spec fn after_completion(self, worker: u128, when: Timestamp) -> ItemView {
        if self.accepts_completion(worker) {
            self.completed(when)
        } else {
            self
        }
    }

    /// What a listing shows of the task.
    pub open spec fn summary(self) -> ListItemView {
        ListItemView { id: self.id, task_name: self.task_name, state: self.state }
    }
}

/// The state that a stored state name stands for.
pub open spec fn state_of_name(name: Seq<char>) -> Option<QueueState> {
    if name == "pending"@ {
        Some(QueueState::Pending)
    } else if name == "working"@ {
        Some(QueueState::Working)
    } else if name == "done"@ {
        Some(QueueState::Done)
    } else {
        None
    }
}

/// The name under which a state is stored.
pub open spec fn name_of_state(state: QueueState) -> Seq<char> {
    match state {
        QueueState::Pending => "pending"@,
        QueueState::Working => "working"@,
        QueueState::Done => "done"@,
    }
}

impl QueueState {
    /// Reads a state from the name under which it is stored: `pending`,
    /// `working` or `done`. Any other name is malformed.
    pub fn from_name(name: &str) -> (r: Result<QueueState, Error>)
        ensures
            r == match state_of_name(name@) {
                Some(state) => Ok::<QueueState, Error>(state),
                None => Err(Error::MalformedInput),
            },
    {
        if same_text(name, "pending") {
            Ok(QueueState::Pending)
        } else if same_text(name, "working") {
            Ok(QueueState::Working)
        } else if same_text(name, "done") {
            Ok(QueueState::Done)
        } else {
            Err(Error::MalformedInput)
        }
    }

    /// The name under which the state is stored.
    pub fn name(&self) -> (r: &'static str)
        ensures
            r@ == name_of_state(*self),
    {
        match self {
            QueueState::Pending => "pending",
            QueueState::Working => "working",
            QueueState::Done => "done",
        }
    }
}

/// Reading the name of a state gives the state back.
pub proof fn lemma_state_name_round_trip(state: QueueState)
    ensures
        state_of_name(name_of_state(state)) == Some(state),
{
    reveal_strlit("pending");
    reveal_strlit("working");
    reveal_strlit("done");
    assert("pending"@.len() == 7);
    assert("working"@.len() == 7);
    assert("done"@.len() == 4);
    assert("pending"@[0] == 'p');
    assert("working"@[0] == 'w');
}

impl QueueItem {
    /// A new task, pending and without a worker.
    pub fn pending(id: u128, task_name: String, info: String, when: Timestamp) -> (item: QueueItem)
        ensures
            item@ == ItemView::pending(id, task_name@, info@, when),
    {
        QueueItem {
            id,
            task_name,
            state: QueueState::Pending,
            info,
            timestamp: when,
            worker: None,
        }
    }

    /// Tries to move the task into `Working` under the lease of `worker`.
    ///
    /// Accepted if the task is pending, or is being worked on under a claim
    /// strictly older than `when`; the task then belongs to `worker` at
    /// `when`. Otherwise the task is left as it is and the claim ends in
    /// `Conflict`.
    pub fn claim(&mut self, worker: u128, when: Timestamp) -> (r: Result<(), Error>)
        ensures
            r == old(self)@.claim_outcome(when),
            final(self)@ == old(self)@.after_claim(worker, when),
            old(self)@.wf() ==> final(self)@.wf(),
    {
        let accepted = match self.state {
            QueueState::Pending => true,
            QueueState::Working => self.timestamp.precedes(&when),
            QueueState::Done => false,
        };
        if accepted {
            self.state = QueueState::Working;
            self.worker = Some(worker);
            self.timestamp = when;
            Ok(())
        } else {
            Err(Error::Conflict)
        }
    }

    /// Tries to finish the task on behalf of `worker`.
    ///
    /// Accepted if `worker` holds the lease; the task is then done, with no
    /// worker, at `when`. Otherwise it is left as it is and the request ends
    /// in `Conflict`.
    pub fn complete(&mut self, worker: u128, when: Timestamp) -> (r: Result<(), Error>)
        ensures
            r == old(self)@.completion_outcome(worker),
            final(self)@ == old(self)@.after_completion(worker, when),
            old(self)@.wf() ==> final(self)@.wf(),
    {
        let holds = match (self.state, self.worker) {
            (QueueState::Working, Some(holder)) => holder == worker,
            _ => false,
        };
        if holds {
            self.state = QueueState::Done;
            self.worker = None;
            self.timestamp = when;
            Ok(())
        } else {
            Err(Error::Conflict)
        }
    }

    /// What a listing shows of the task.
    pub fn summary(&self) -> (r: QueueListItem)
        ensures
            r@ == self@.summary(),
    {
        QueueListItem { id: self.id, task_name: self.task_name.clone(), state: self.state }
    }
}

/// The mathematical content of a [`Queue`]: its name, its settings and its
/// tasks in the order in which they were added.
pub struct QueueView {
    pub name: Seq<char>,
    pub config: QueueConfig,
    pub items: Seq<ItemView>,
}

impl QueueView {
    /// Every task is well formed and no two tasks share an id.
    pub open spec fn wf(self) -> bool {
        &&& forall|i: int| 0 <= i < self.items.len() ==> (#[trigger] self.items[i]).wf()
        &&& forall|i: int, j: int|
            0 <= i < j < self.items.len() ==> (#[trigger] self.items[i]).id != (
            #[trigger] self.items[j]).id
    }

    /// The task at position `i` has the id `id`.
    pub open spec fn holds_at(self, i: int, id: u128) -> bool {
        0 <= i < self.items.len() && self.items[i].id == id
    }

    /// Whether the queue has a task with the id `id`.
    pub open spec fn has(self, id: u128) -> bool {
        exists|i: int| #[trigger] self.holds_at(i, id)
    }

    /// The position of the task with the id `id`, if there is one.
    pub open spec fn index_of(self, id: u128) -> int {
        choose|i: int| #[trigger] self.holds_at(i, id)
    }

    /// The task with the id `id`, if there is one.
    pub open spec fn item(self, id: u128) -> ItemView {
        self.items[self.index_of(id)]
    }

    /// A queue without tasks.
    pub open spec fn empty(name: Seq<char>, config: QueueConfig) -> QueueView {
        QueueView { name, config, items: Seq::empty() }
    }

    /// The queue with the task of id `id` replaced by `item`.
    pub open spec fn replace(self, id: u128, item: ItemView) -> QueueView {
        QueueView { items: self.items.update(self.index_of(id), item), ..self }
    }

    /// The queue after `item` was added: it goes to the end, unless a task
    /// of its id is there already, and then nothing changes.
    pub open spec fn enqueue(self, item: ItemView) -> QueueView {
        if self.has(item.id) {
            self
        } else {
            QueueView { items: self.items.push(item), ..self }
        }
    }

    /// How a claim of the task `id` at `when` ends.
    pub open spec fn claim_outcome(self, id: u128, when: Timestamp) -> Result<(), Error> {
        if self.has(id) {
            self.item(id).claim_outcome(when)
        } else {
            Err(Error::NotFound)
        }
    }

    /// The queue after a claim of the task `id` by `worker` at `when`.
    pub open spec fn after_claim(self, id: u128, worker: u128, when: Timestamp) -> QueueView {
        if self.has(id) {
            self.replace(id, self.item(id).after_claim(worker, when))
        } else {
            self
        }
    }

    /// How a request by `worker` to finish the task `id` ends.
    pub open spec fn completion_outcome(self, id: u128, worker: u128) -> Result<(), Error> {
        if self.has(id) {
            self.item(id).completion_outcome(worker)
        } else {
            Err(Error::NotFound)
        }
    }

    /// The queue after a request by `worker` to finish the task `id` at
    /// `when`.
    pub open spec fn after_completion(self, id: u128, worker: u128, when: Timestamp) -> QueueView {
        if self.has(id) {
            self.replace(id, self.item(id).after_completion(worker, when))
        } else {
            self
        }
    }

    /// What a listing of the queue shows: every task, in the order added.
    pub open spec fn listing(self) -> Seq<ListItemView> {
        self.items.map_values(|item: ItemView| item.summary())
    }

    /// What a lookup of the task `id` shows.
    pub open spec fn lookup(self, id: u128) -> Result<ListItemView, Error> {
        if self.has(id) {
            Ok(self.item(id).summary())
        } else {
            Err(Error::NotFound)
        }
    }
}

/// In a well-formed queue a task is found at one position only.
pub proof fn lemma_item_position(q: QueueView, i: int, id: u128)
    requires
        q.wf(),
        q.holds_at(i, id),
    ensures
        q.has(id),
        q.index_of(id) == i,
        q.item(id) == q.items[i],
{
    let j = q.index_of(id);
    assert(q.holds_at(j, id));
    if i < j {
        assert(q.items[i].id != q.items[j].id);
    } else if j < i {
        assert(q.items[j].id != q.items[i].id);
    }
}

/// One queue: a name, settings, and tasks.
#[derive(Clone, Debug, PartialEq, Eq)]
pub struct Queue {
    name: String,
    config: QueueConfig,
    items: Vec<QueueItem>,
}

impl View for Queue {
    type V = QueueView;

    closed spec fn view(&self) -> QueueView {
        QueueView {
            name: self.name@,
            config: self.config,
            items: self.items@.map_values(|item: QueueItem| item@),
        }
    }
}

impl Queue {
    /// The invariant of a queue: see [`QueueView::wf`].
    pub open spec fn wf(&self) -> bool {
        self@.wf()
    }

    /// A new queue without tasks.
    pub fn new(name: String, config: QueueConfig) -> (q: Queue)
        ensures
            q.wf(),
            q@ == QueueView::empty(name@, config),
    {
        let q = Queue { name, config, items: Vec::new() };
        assert(q@.items =~= Seq::empty());
        q
    }

    /// The name of the queue.
    pub fn name(&self) -> (r: &str)
        ensures
            r@ == self@.name,
    {
        self.name.as_str()
    }

    /// The settings of the queue.
    pub fn config(&self) -> (r: QueueConfig)
        ensures
            r == self@.config,
    {
        self.config
    }

    /// The number of tasks in the queue.
    pub fn len(&self) -> (n: usize)
        ensures
            n == self@.items.len(),
    {
        self.items.len()
    }

    /// Where the task with the id `id` is, if the queue has it.
    fn position(&self, id: u128) -> (r: Option<usize>)
        ensures
            match r {
                Some(i) => self@.holds_at(i as int, id),
                None => !self@.has(id),
            },
    {
        let mut i: usize = 0;
        while i < self.items.len()
            invariant
                i <= self.items@.len(),
                forall|j: int| 0 <= j < i ==> !self@.holds_at(j, id),
            decreases self.items@.len() - i,
        {
            if self.items[i].id == id {
                return Some(i);
            }
            i += 1;
        }
        None
    }

    /// Adds a task in state `Pending`, with no worker, at the end of the
    /// queue. A task whose id the queue holds already is not added again:
    /// the queue is then left as it is, so that an addition delivered twice
    /// counts once.
    pub fn enqueue(&mut self, id: u128, task_name: String, info: String, when: Timestamp)
        requires
            old(self).wf(),
        ensures
            final(self).wf(),
            final(self)@ == old(self)@.enqueue(ItemView::pending(id, task_name@, info@, when)),
    {
        let ghost item = ItemView::pending(id, task_name@, info@, when);
        match self.position(id) {
            None => {
                self.items.push(QueueItem::pending(id, task_name, info, when));
                proof {
                    assert(self@.items =~= old(self)@.items.push(item));
                    assert forall|i: int, j: int| 0 <= i < j < self@.items.len() implies (
                    #[trigger] self@.items[i]).id != (#[trigger] self@.items[j]).id by {
                        if j == old(self)@.items.len() {
                            assert(!old(self)@.holds_at(i, id));
                        }
                    }
                }
            },
            Some(i) => {
                assert(self@.holds_at(i as int, id));
            },
        }
    }
}

impl Queue {
    /// Tries to move the task `id` into `Working` under the lease of
    /// `worker`.
    ///
    /// `NotFound` if the queue has no such task. Otherwise the claim rule
    /// decides: a pending task is claimed, a task being worked on is taken
    /// over only by a claim strictly newer than the one that holds it, and
    /// any other claim ends in `Conflict` and changes nothing.
    pub fn progress(&mut self, id: u128, worker: u128, when: Timestamp) -> (r: Result<(), Error>)
        requires
            old(self).wf(),
        ensures
            final(self).wf(),
            r == old(self)@.claim_outcome(id, when),
            final(self)@ == old(self)@.after_claim(id, worker, when),
    {
        match self.position(id) {
            None => Err(Error::NotFound),
            Some(i) => {
                proof {
                    lemma_item_position(self@, i as int, id);
                }
                let item = &mut self.items[i];
                let r = item.claim(worker, when);
                proof {
                    let before = old(self)@;
                    assert(self@.items =~= before.items.update(
                        i as int,
                        before.items[i as int].after_claim(worker, when),
                    ));
                }
                r
            },
        }
    }

    /// Tries to finish the task `id` on behalf of `worker`.
    ///
    /// `NotFound` if the queue has no such task. Otherwise the task becomes
    /// `Done` if `worker` holds its lease, and the request ends in
    /// `Conflict` and changes nothing if not. This rule goes beyond the
    /// claim rule, which alone is settled behaviour: it is the natural
    /// completion of a lease and may be refined.
    pub fn complete(&mut self, id: u128, worker: u128, when: Timestamp) -> (r: Result<(), Error>)
        requires
            old(self).wf(),
        ensures
            final(self).wf(),
            r == old(self)@.completion_outcome(id, worker),
            final(self)@ == old(self)@.after_completion(id, worker, when),
    {
        match self.position(id) {
            None => Err(Error::NotFound),
            Some(i) => {
                proof {
                    lemma_item_position(self@, i as int, id);
                }
                let item = &mut self.items[i];
                let r = item.complete(worker, when);
                proof {
                    let before = old(self)@;
                    assert(self@.items =~= before.items.update(
                        i as int,
                        before.items[i as int].after_completion(worker, when),
                    ));
                }
                r
            },
        }
    }

    /// A snapshot of the queue: id, task name and state of every task, in
    /// the order in which the tasks were added.
    pub fn list(&self) -> (r: Vec<QueueListItem>)
        ensures
            r@.map_values(|item: QueueListItem| item@) == self@.listing(),
    {
        let mut out: Vec<QueueListItem> = Vec::new();
        let mut i: usize = 0;
        while i < self.items.len()
            invariant
                i <= self.items@.len(),
                out@.len() == i,
                forall|j: int| 0 <= j < i ==> (#[trigger] out@[j])@ == self@.items[j].summary(),
            decreases self.items@.len() - i,
        {
            out.push(self.items[i].summary());
            i += 1;
        }
        assert(out@.map_values(|item: QueueListItem| item@) =~= self@.listing());
        out
    }

    /// Task name and state of the task `id`, or `NotFound`.
    pub fn get(&self, id: u128) -> (r: Result<QueueListItem, Error>)
        requires
            self.wf(),
        ensures
            match r {
                Ok(item) => self@.lookup(id) == Ok::<ListItemView, Error>(item@),
                Err(e) => self@.lookup(id) == Err::<ListItemView, Error>(e),
            },
    {
        match self.position(id) {
            None => Err(Error::NotFound),
            Some(i) => {
                proof {
                    lemma_item_position(self@, i as int, id);
                }
                Ok(self.items[i].summary())
            },
        }
    }
}

/// Replacing a task by one of the same id keeps the queue well formed,
/// keeps which ids it holds, puts the new task in the old one's place and
/// leaves every other task as it was.
pub proof fn lemma_replace_item(q: QueueView, id: u128, item: ItemView, other: u128)
    requires
        q.wf(),
        q.has(id),
        item.id == id,
        item.wf(),
    ensures
        q.replace(id, item).wf(),
        q.replace(id, item).has(other) == q.has(other),
        q.replace(id, item).item(id) == item,
        q.has(other) && other != id ==> q.replace(id, item).item(other) == q.item(other),
{
    let i = q.index_of(id);
    let q2 = q.replace(id, item);
    assert(q.holds_at(i, id));
    assert(q2.holds_at(i, id));
    lemma_item_position(q2, i, id);
    if q.has(other) {
        let j = q.index_of(other);
        assert(q.holds_at(j, other));
        assert(q2.holds_at(j, other));
        lemma_item_position(q2, j, other);
    }
    if q2.has(other) {
        let j = q2.index_of(other);
        assert(q2.holds_at(j, other));
        assert(q.holds_at(j, other));
    }
}

/// A claim, accepted or not, keeps the queue well formed and keeps which
/// ids it holds; a claim that is not accepted changes nothing at all.
pub proof fn lemma_claim_keeps_queue(
    q: QueueView,
    id: u128,
    worker: u128,
    when: Timestamp,
    other: u128,
)
    requires
        q.wf(),
    ensures
        q.after_claim(id, worker, when).wf(),
        q.after_claim(id, worker, when).has(other) == q.has(other),
        q.claim_outcome(id, when) is Err ==> q.after_claim(id, worker, when) == q,
        q.has(other) && other != id ==> q.after_claim(id, worker, when).item(other) == q.item(
            other,
        ),
{
    if q.has(id) {
        let i = q.index_of(id);
        assert(q.holds_at(i, id));
        lemma_replace_item(q, id, q.item(id).after_claim(worker, when), other);
        if q.claim_outcome(id, when) is Err {
            assert(q.after_claim(id, worker, when).items =~= q.items);
        }
    }
}

/// A claim of a task that the queue does not hold ends in `NotFound` and
/// changes nothing.
pub proof fn lemma_claim_of_missing_item(q: QueueView, id: u128, worker: u128, when: Timestamp)
    requires
        !q.has(id),
    ensures
        q.claim_outcome(id, when) == Err::<(), Error>(Error::NotFound),
        q.after_claim(id, worker, when) == q,
{
}

/// The first claim of a pending task succeeds, and what follows is decided
/// by logical time alone.
///
/// After worker `w1` claimed a pending task at `t1`, the task is `Working`
/// for `w1` at `t1`. A further claim by `w2` at `t2` is then accepted exactly
/// when `t1` precedes `t2`, and reassigns the task to `w2` at `t2`; a claim
/// that is older than `t1`, or as old, ends in `Conflict` and leaves the
/// task with `w1` at `t1`.
pub proof fn lemma_claims_in_turn(
    q: QueueView,
    id: u128,
    w1: u128,
    t1: Timestamp,
    w2: u128,
    t2: Timestamp,
)
    requires
        q.wf(),
        q.has(id),
        q.item(id).state == QueueState::Pending,
    ensures
        q.claim_outcome(id, t1) == Ok::<(), Error>(()),
        ({
            let q1 = q.after_claim(id, w1, t1);
            let q2 = q1.after_claim(id, w2, t2);
            &&& q1.wf() && q1.has(id)
            &&& q1.item(id) == q.item(id).claimed(w1, t1)
            &&& t1.before(t2) ==> q1.claim_outcome(id, t2) == Ok::<(), Error>(()) && q2.item(id)
                == q.item(id).claimed(w2, t2)
            &&& !t1.before(t2) ==> q1.claim_outcome(id, t2) == Err::<(), Error>(Error::Conflict)
                && q2 == q1
        }),
{
    let q1 = q.after_claim(id, w1, t1);
    let i = q.index_of(id);
    assert(q.holds_at(i, id));
    assert(q.items[i].wf());
    lemma_replace_item(q, id, q.item(id).claimed(w1, t1), id);
    lemma_claim_keeps_queue(q1, id, w2, t2, id);
    if t1.before(t2) {
        lemma_replace_item(q1, id, q1.item(id).claimed(w2, t2), id);
    }
}

/// A request to provision a queue.
#[derive(Clone, Debug, PartialEq, Eq)]
pub struct QueueCreate {
    pub name: String,
    pub timeout_ms: i32,
}

/// A request to add a task to a queue.
#[derive(Clone, Debug, PartialEq, Eq)]
pub struct QueueAdd {
    pub queue_name: String,
    pub task_name: String,
    pub data: String,
}

/// A request by a worker about one task of a queue: to claim it, or to
/// finish it.
#[derive(Clone, Debug, PartialEq, Eq)]
pub struct QueueProgress {
    pub queue_name: String,
    pub id: u128,
    pub worker_id: u128,
}

/// The operations that a queue event can carry.
#[derive(Clone, Debug, PartialEq, Eq)]
pub enum QueueOperation {
    Create(QueueCreate),
    Delete { name: String },
    Add(QueueAdd),
    Progress(QueueProgress),
    Done(QueueProgress),
}

/// The mathematical content of [`Queues`]: the queues in the order in which
/// they were created.
pub struct QueuesView {
    pub queues: Seq<QueueView>,
}

impl QueuesView {
    /// Every queue is well formed and no two queues share a name.
    pub open spec fn wf(self) -> bool {
        &&& forall|i: int| 0 <= i < self.queues.len() ==> (#[trigger] self.queues[i]).wf()
        &&& forall|i: int, j: int|
            0 <= i < j < self.queues.len() ==> (#[trigger] self.queues[i]).name != (
            #[trigger] self.queues[j]).name
    }

    /// The queue at position `i` has the name `name`.
    pub open spec fn named_at(self, i: int, name: Seq<char>) -> bool {
        0 <= i < self.queues.len() && self.queues[i].name == name
    }

    /// Whether a queue of the name `name` exists.
    pub open spec fn has(self, name: Seq<char>) -> bool {
        exists|i: int| #[trigger] self.named_at(i, name)
    }

    /// The position of the queue named `name`, if there is one.
    pub open spec fn index_of(self, name: Seq<char>) -> int {
        choose|i: int| #[trigger] self.named_at(i, name)
    }

    /// The queue named `name`, if there is one.
    pub open spec fn queue(self, name: Seq<char>) -> QueueView {
        self.queues[self.index_of(name)]
    }

    /// The queues with the one named `name` replaced by `q`.
    pub open spec fn replace(self, name: Seq<char>, q: QueueView) -> QueuesView {
        QueuesView { queues: self.queues.update(self.index_of(name), q) }
    }

    /// How a request to create the queue `name` ends.
    pub open spec fn create_outcome(self, name: Seq<char>) -> Result<(), Error> {
        if self.has(name) {
            Err(Error::AlreadyExists)
        } else {
            Ok(())
        }
    }

    /// The queues after a request to create the queue `name`.
    pub open spec fn after_create(self, name: Seq<char>, config: QueueConfig) -> QueuesView {
        if self.has(name) {
            self
        } else {
            QueuesView { queues: self.queues.push(QueueView::empty(name, config)) }
        }
    }

    /// How a request to add a task to the queue `name` ends.
    pub open spec fn enqueue_outcome(self, name: Seq<char>) -> Result<(), Error> {
        if self.has(name) {
            Ok(())
        } else {
            Err(Error::NotFound)
        }
    }

    /// The queues after a request to add `item` to the queue `name`.
    pub open spec fn after_enqueue(self, name: Seq<char>, item: ItemView) -> QueuesView {
        if self.has(name) {
            self.replace(name, self.queue(name).enqueue(item))
        } else {
            self
        }
    }

    /// How a claim of the task `id` of the queue `name` at `when` ends.
    pub open spec fn claim_outcome(self, name: Seq<char>, id: u128, when: Timestamp) -> Result<
        (),
        Error,
    > {
        if self.has(name) {
            self.queue(name).claim_outcome(id, when)
        } else {
            Err(Error::NotFound)
        }
    }

    /// The queues after a claim of the task `id` of the queue `name` by
    /// `worker` at `when`.
    pub open spec fn after_claim(
        self,
        name: Seq<char>,
        id: u128,
        worker: u128,
        when: Timestamp,
    ) -> QueuesView {
        if self.has(name) {
            self.replace(name, self.queue(name).after_claim(id, worker, when))
        } else {
            self
        }
    }

    /// How a request by `worker` to finish the task `id` of the queue
    /// `name` ends.
    pub open spec fn completion_outcome(self, name: Seq<char>, id: u128, worker: u128) -> Result<
        (),
        Error,
    > {
        if self.has(name) {
            self.queue(name).completion_outcome(id, worker)
        } else {
            Err(Error::NotFound)
        }
    }

    /// The queues after a request by `worker` to finish the task `id` of
    /// the queue `name` at `when`.
    pub open spec fn after_completion(
        self,
        name: Seq<char>,
        id: u128,
        worker: u128,
        when: Timestamp,
    ) -> QueuesView {
        if self.has(name) {
            self.replace(name, self.queue(name).after_completion(id, worker, when))
        } else {
            self
        }
    }

    /// What a listing of the queue `name` shows.
    pub open spec fn listing(self, name: Seq<char>) -> Result<Seq<ListItemView>, Error> {
        if self.has(name) {
            Ok(self.queue(name).listing())
        } else {
            Err(Error::NotFound)
        }
    }

    /// What a lookup of the task `id` of the queue `name` shows.
    pub open spec fn lookup(self, name: Seq<char>, id: u128) -> Result<ListItemView, Error> {
        if self.has(name) {
            self.queue(name).lookup(id)
        } else {
            Err(Error::NotFound)
        }
    }

    /// How the operation `op`, carried by the log entry `entry_id` stamped
    /// `when`, ends.
    pub open spec fn outcome(self, entry_id: u128, when: Timestamp, op: QueueOperation) -> Result<
        (),
        Error,
    > {
        match op {
            QueueOperation::Create(create) => self.create_outcome(create.name@),
            QueueOperation::Add(add) => self.enqueue_outcome(add.queue_name@),
            QueueOperation::Progress(claim) => self.claim_outcome(
                claim.queue_name@,
                claim.id,
                when,
            ),
            QueueOperation::Done(done) => self.completion_outcome(
                done.queue_name@,
                done.id,
                done.worker_id,
            ),
            QueueOperation::Delete { name } => Ok(()),
        }
    }

    /// The queues after the operation `op`, carried by the log entry
    /// `entry_id` stamped `when`. A task that is added takes the id and the
    /// timestamp of the entry that carried the addition.
    pub open spec fn after(self, entry_id: u128, when: Timestamp, op: QueueOperation)
        -> QueuesView {
        match op {
            QueueOperation::Create(create) => self.after_create(
                create.name@,
                QueueConfig { timeout_ms: create.timeout_ms },
            ),
            QueueOperation::Add(add) => self.after_enqueue(
                add.queue_name@,
                ItemView::pending(entry_id, add.task_name@, add.data@, when),
            ),
            QueueOperation::Progress(claim) => self.after_claim(
                claim.queue_name@,
                claim.id,
                claim.worker_id,
                when,
            ),
            QueueOperation::Done(done) => self.after_completion(
                done.queue_name@,
                done.id,
                done.worker_id,
                when,
            ),
            QueueOperation::Delete { name } => self,
        }
    }
}

/// Among well-formed queues a queue is found at one position only.
pub proof fn lemma_queue_position(qs: QueuesView, i: int, name: Seq<char>)
    requires
        qs.wf(),
        qs.named_at(i, name),
    ensures
        qs.has(name),
        qs.index_of(name) == i,
        qs.queue(name) == qs.queues[i],
{
    let j = qs.index_of(name);
    assert(qs.named_at(j, name));
    if i < j {
        assert(qs.queues[i].name != qs.queues[j].name);
    } else if j < i {
        assert(qs.queues[j].name != qs.queues[i].name);
    }
}

/// The state of the queue service: every queue that was created, by name.
#[derive(Clone, Debug, PartialEq, Eq)]
pub struct Queues {
    queues: Vec<Queue>,
}

impl View for Queues {
    type V = QueuesView;

    closed spec fn view(&self) -> QueuesView {
        QueuesView { queues: self.queues@.map_values(|q: Queue| q@) }
    }
}

impl Queues {
    /// The invariant of the service state: see [`QueuesView::wf`].
    pub open spec fn wf(&self) -> bool {
        self@.wf()
    }

    /// A service without queues.
    pub fn new() -> (qs: Queues)
        ensures
            qs.wf(),
            qs@.queues == Seq::<QueueView>::empty(),
    {
        let qs = Queues { queues: Vec::new() };
        assert(qs@.queues =~= Seq::<QueueView>::empty());
        qs
    }

    /// Where the queue named `name` is, if it exists.
    fn find(&self, name: &str) -> (r: Option<usize>)
        ensures
            match r {
                Some(i) => self@.named_at(i as int, name@),
                None => !self@.has(name@),
            },
    {
        let mut i: usize = 0;
        while i < self.queues.len()
            invariant
                i <= self.queues@.len(),
                forall|j: int| 0 <= j < i ==> !self@.named_at(j, name@),
            decreases self.queues@.len() - i,
        {
            if same_text(self.queues[i].name(), name) {
                return Some(i);
            }
            i += 1;
        }
        None
    }

    /// Provisions a new, empty queue. Rejected with `AlreadyExists`, and
    /// nothing changes, if a queue of that name exists.
    pub fn create(&mut self, name: String, timeout_ms: i32) -> (r: Result<(), Error>)
        requires
            old(self).wf(),
        ensures
            final(self).wf(),
            r == old(self)@.create_outcome(name@),
            final(self)@ == old(self)@.after_create(name@, QueueConfig { timeout_ms }),
    {
        match self.find(name.as_str()) {
            Some(i) => {
                assert(self@.named_at(i as int, name@));
                Err(Error::AlreadyExists)
            },
            None => {
                let ghost added = QueueView::empty(name@, QueueConfig { timeout_ms });
                self.queues.push(Queue::new(name, QueueConfig { timeout_ms }));
                proof {
                    assert(self@.queues =~= old(self)@.queues.push(added));
                    assert forall|i: int, j: int| 0 <= i < j < self@.queues.len() implies (
                    #[trigger] self@.queues[i]).name != (#[trigger] self@.queues[j]).name by {
                        if j == old(self)@.queues.len() {
                            assert(!old(self)@.named_at(i, added.name));
                        }
                    }
                }
                Ok(())
            },
        }
    }

    /// Adds a task to the queue `queue_name`, in state `Pending` and with
    /// no worker. `NotFound` if there is no such queue; otherwise always
    /// accepted, since nothing can be in conflict with a creation.
    pub fn enqueue(
        &mut self,
        queue_name: &str,
        id: u128,
        task_name: String,
        info: String,
        when: Timestamp,
    ) -> (r: Result<(), Error>)
        requires
            old(self).wf(),
        ensures
            final(self).wf(),
            r == old(self)@.enqueue_outcome(queue_name@),
            final(self)@ == old(self)@.after_enqueue(
                queue_name@,
                ItemView::pending(id, task_name@, info@, when),
            ),
    {
        match self.find(queue_name) {
            None => Err(Error::NotFound),
            Some(i) => {
                let ghost item = ItemView::pending(id, task_name@, info@, when);
                proof {
                    lemma_queue_position(self@, i as int, queue_name@);
                }
                let q = &mut self.queues[i];
                q.enqueue(id, task_name, info, when);
                proof {
                    let before = old(self)@;
                    assert(self@.queues =~= before.queues.update(
                        i as int,
                        before.queues[i as int].enqueue(item),
                    ));
                }
                Ok(())
            },
        }
    }

    /// Tries to move the task `id` of the queue `queue_name` into `Working`
    /// under the lease of `worker`.
    ///
    /// `NotFound` if the queue or the task does not exist. Otherwise
    /// accepted if and only if the task is pending, or is being worked on
    /// under a claim strictly older than `when`; the task then is `Working`
    /// for `worker` at `when`. A claim that is not accepted ends in
    /// `Conflict` and changes nothing.
    pub fn progress(&mut self, queue_name: &str, id: u128, worker: u128, when: Timestamp) -> (r:
        Result<(), Error>)
        requires
            old(self).wf(),
        ensures
            final(self).wf(),
            r == old(self)@.claim_outcome(queue_name@, id, when),
            final(self)@ == old(self)@.after_claim(queue_name@, id, worker, when),
    {
        match self.find(queue_name) {
            None => Err(Error::NotFound),
            Some(i) => {
                proof {
                    lemma_queue_position(self@, i as int, queue_name@);
                }
                let q = &mut self.queues[i];
                let r = q.progress(id, worker, when);
                proof {
                    let before = old(self)@;
                    assert(self@.queues =~= before.queues.update(
                        i as int,
                        before.queues[i as int].after_claim(id, worker, when),
                    ));
                }
                r
            },
        }
    }

    /// Tries to finish the task `id` of the queue `queue_name` on behalf of
    /// `worker`: see [`Queue::complete`]. `NotFound` if the queue or the
    /// task does not exist.
    pub fn complete(&mut self, queue_name: &str, id: u128, worker: u128, when: Timestamp) -> (r:
        Result<(), Error>)
        requires
            old(self).wf(),
        ensures
            final(self).wf(),
            r == old(self)@.completion_outcome(queue_name@, id, worker),
            final(self)@ == old(self)@.after_completion(queue_name@, id, worker, when),
    {
        match self.find(queue_name) {
            None => Err(Error::NotFound),
            Some(i) => {
                proof {
                    lemma_queue_position(self@, i as int, queue_name@);
                }
                let q = &mut self.queues[i];
                let r = q.complete(id, worker, when);
                proof {
                    let before = old(self)@;
                    assert(self@.queues =~= before.queues.update(
                        i as int,
                        before.queues[i as int].after_completion(id, worker, when),
                    ));
                }
                r
            },
        }
    }

    /// A snapshot of the queue `queue_name`, or `NotFound`.
    pub fn list(&self, queue_name: &str) -> (r: Result<Vec<QueueListItem>, Error>)
        requires
            self.wf(),
        ensures
            match r {
                Ok(items) => self@.listing(queue_name@) == Ok::<Seq<ListItemView>, Error>(
                    items@.map_values(|item: QueueListItem| item@),
                ),
                Err(e) => self@.listing(queue_name@) == Err::<Seq<ListItemView>, Error>(e),
            },
    {
        match self.find(queue_name) {
            None => Err(Error::NotFound),
            Some(i) => {
                proof {
                    lemma_queue_position(self@, i as int, queue_name@);
                }
                Ok(self.queues[i].list())
            },
        }
    }

    /// Task name and state of the task `id` of the queue `queue_name`, or
    /// `NotFound` if the queue or the task does not exist.
    pub fn get(&self, queue_name: &str, id: u128) -> (r: Result<QueueListItem, Error>)
        requires
            self.wf(),
        ensures
            match r {
                Ok(item) => self@.lookup(queue_name@, id) == Ok::<ListItemView, Error>(item@),
                Err(e) => self@.lookup(queue_name@, id) == Err::<ListItemView, Error>(e),
            },
    {
        match self.find(queue_name) {
            None => Err(Error::NotFound),
            Some(i) => {
                proof {
                    lemma_queue_position(self@, i as int, queue_name@);
                }
                self.queues[i].get(id)
            },
        }
    }

    /// The settings of the queue `queue_name`, or `NotFound`.
    pub fn config(&self, queue_name: &str) -> (r: Result<QueueConfig, Error>)
        requires
            self.wf(),
        ensures
            r == if self@.has(queue_name@) {
                Ok::<QueueConfig, Error>(self@.queue(queue_name@).config)
            } else {
                Err(Error::NotFound)
            },
    {
        match self.find(queue_name) {
            None => Err(Error::NotFound),
            Some(i) => {
                proof {
                    lemma_queue_position(self@, i as int, queue_name@);
                }
                Ok(self.queues[i].config())
            },
        }
    }

    /// Folds one delivered log entry into the queues.
    ///
    /// `entry_id` and `when` are the id and the timestamp of the entry and
    /// `op` the operation that it carries. A creation provisions a queue; an
    /// addition puts a pending task, with the id and timestamp of the entry,
    /// into the queue named; a claim and a completion follow the rules of
    /// [`Queues::progress`] and [`Queues::complete`], at the timestamp of
    /// the entry. A deletion is accepted and has no effect.
    pub fn apply(&mut self, entry_id: u128, when: Timestamp, op: QueueOperation) -> (r: Result<
        (),
        Error,
    >)
        requires
            old(self).wf(),
        ensures
            final(self).wf(),
            r == old(self)@.outcome(entry_id, when, op),
            final(self)@ == old(self)@.after(entry_id, when, op),
    {
        match op {
            QueueOperation::Create(create) => self.create(create.name, create.timeout_ms),
            QueueOperation::Add(add) => self.enqueue(
                add.queue_name.as_str(),
                entry_id,
                add.task_name,
                add.data,
                when,
            ),
            QueueOperation::Progress(claim) => self.progress(
                claim.queue_name.as_str(),
                claim.id,
                claim.worker_id,
                when,
            ),
            QueueOperation::Done(done) => self.complete(
                done.queue_name.as_str(),
                done.id,
                done.worker_id,
                when,
            ),
            QueueOperation::Delete { name } => Ok(()),
        }
    }
}

/// Replacing a queue by one of the same name keeps the queues well formed,
/// keeps which names exist, puts the new queue in the old one's place and
/// leaves every other queue as it was.
pub proof fn lemma_replace_queue(qs: QueuesView, name: Seq<char>, q: QueueView, other: Seq<char>)
    requires
        qs.wf(),
        qs.has(name),
        q.name == name,
        q.wf(),
    ensures
        qs.replace(name, q).wf(),
        qs.replace(name, q).has(other) == qs.has(other),
        qs.replace(name, q).queue(name) == q,
        qs.has(other) && other != name ==> qs.replace(name, q).queue(other) == qs.queue(other),
{
    let i = qs.index_of(name);
    let qs2 = qs.replace(name, q);
    assert(qs.named_at(i, name));
    assert(qs2.named_at(i, name));
    lemma_queue_position(qs2, i, name);
    if qs.has(other) {
        let j = qs.index_of(other);
        assert(qs.named_at(j, other));
        assert(qs2.named_at(j, other));
        lemma_queue_position(qs2, j, other);
    }
    if qs2.has(other) {
        let j = qs2.index_of(other);
        assert(qs2.named_at(j, other));
        assert(qs.named_at(j, other));
    }
}

/// A claim addressed to a queue that does not exist, or to a task that the
/// queue does not hold, ends in `NotFound` and changes nothing.
pub proof fn lemma_progress_of_missing_item(
    qs: QueuesView,
    name: Seq<char>,
    id: u128,
    worker: u128,
    when: Timestamp,
)
    requires
        qs.wf(),
        !qs.has(name) || !qs.queue(name).has(id),
    ensures
        qs.claim_outcome(name, id, when) == Err::<(), Error>(Error::NotFound),
        qs.after_claim(name, id, worker, when) == qs,
{
    if qs.has(name) {
        let i = qs.index_of(name);
        assert(qs.named_at(i, name));
        assert(qs.after_claim(name, id, worker, when).queues =~= qs.queues);
    }
}

/// The claim rule as the service applies it: see [`lemma_claims_in_turn`].
///
/// A claim of a pending task by `w1` at `t1` succeeds. A later request by
/// `w2` at `t2` reassigns the task if `t1` precedes `t2`, and otherwise ends
/// in `Conflict` and leaves every queue as it was.
pub proof fn lemma_progress_in_turn(
    qs: QueuesView,
    name: Seq<char>,
    id: u128,
    w1: u128,
    t1: Timestamp,
    w2: u128,
    t2: Timestamp,
)
    requires
        qs.wf(),
        qs.has(name),
        qs.queue(name).has(id),
        qs.queue(name).item(id).state == QueueState::Pending,
    ensures
        qs.claim_outcome(name, id, t1) == Ok::<(), Error>(()),
        ({
            let task = qs.queue(name).item(id);
            let qs1 = qs.after_claim(name, id, w1, t1);
            let qs2 = qs1.after_claim(name, id, w2, t2);
            &&& qs1.wf() && qs1.has(name) && qs1.queue(name).has(id)
            &&& qs1.queue(name).item(id) == task.claimed(w1, t1)
            &&& t1.before(t2) ==> qs1.claim_outcome(name, id, t2) == Ok::<(), Error>(())
                && qs2.queue(name).item(id) == task.claimed(w2, t2)
            &&& !t1.before(t2) ==> qs1.claim_outcome(name, id, t2) == Err::<(), Error>(
                Error::Conflict,
            ) && qs2 == qs1
        }),
{
    let q = qs.queue(name);
    let i = qs.index_of(name);
    assert(qs.named_at(i, name));
    assert(qs.queues[i].wf());
    lemma_claims_in_turn(q, id, w1, t1, w2, t2);
    let q1 = q.after_claim(id, w1, t1);
    lemma_replace_queue(qs, name, q1, name);
    let qs1 = qs.after_claim(name, id, w1, t1);
    let q2 = q1.after_claim(id, w2, t2);
    lemma_claim_keeps_queue(q1, id, w2, t2, id);
    lemma_replace_queue(qs1, name, q2, name);
    if !t1.before(t2) {
        assert(qs1.after_claim(name, id, w2, t2).queues =~= qs1.queues);
    }
}

/// A task as it is stored: the state under its name and the timestamp in
/// its canonical encoding.
#[derive(Clone, Debug, PartialEq, Eq)]
pub struct StoredItem {
    pub id: u128,
    pub task_name: String,
    pub state: String,
    pub info: String,
    pub hlc_tstamp: Vec<u8>,
    pub worker: Option<u128>,
}

/// The mathematical content of a [`StoredItem`].
pub struct StoredView {
    pub id: u128,
    pub task_name: Seq<char>,
    pub state: Seq<char>,
    pub info: Seq<char>,
    pub hlc_tstamp: Seq<u8>,
    pub worker: Option<u128>,
}

impl View for StoredItem {
    type V = StoredView;

    open spec fn view(&self) -> StoredView {
        StoredView {
            id: self.id,
            task_name: self.task_name@,
            state: self.state@,
            info: self.info@,
            hlc_tstamp: self.hlc_tstamp@,
            worker: self.worker,
        }
    }
}

impl ItemView {
    /// The task as it is stored.
    pub open spec fn stored(self) -> StoredView {
        StoredView {
            id: self.id,
            task_name: self.task_name,
            state: name_of_state(self.state),
            info: self.info,
            hlc_tstamp: self.timestamp.encoding(),
            worker: self.worker,
        }
    }
}

impl StoredView {
    /// The task that the stored form stands for. There is none if the
    /// state name is unknown, if the timestamp is cut short, or if a worker
    /// is recorded for a task that is not being worked on or missing for
    /// one that is.
    pub open spec fn item(self) -> Option<ItemView> {
        match (state_of_name(self.state), decoding(self.hlc_tstamp)) {
            (Some(state), Some(timestamp)) => {
                let item = ItemView {
                    id: self.id,
                    task_name: self.task_name,
                    state,
                    info: self.info,
                    timestamp,
                    worker: self.worker,
                };
                if item.wf() {
                    Some(item)
                } else {
                    None
                }
            },
            _ => None,
        }
    }

    /// How a claim by a worker at `when` on the stored task ends.
    pub open spec fn claim_outcome(self, when: Timestamp) -> Result<(), Error> {
        match self.item() {
            Some(item) => item.claim_outcome(when),
            None => Err(Error::MalformedInput),
        }
    }
}

/// Reading the stored form of a well-formed task gives the task back.
pub proof fn lemma_stored_round_trip(item: ItemView)
    requires
        item.wf(),
    ensures
        item.stored().item() == Some(item),
{
    lemma_state_name_round_trip(item.state);
    lemma_decode_encode(item.timestamp, Seq::empty());
    assert(item.timestamp.encoding() + Seq::<u8>::empty() =~= item.timestamp.encoding());
}

impl QueueItem {
    /// Reads a task from its stored form. `MalformedInput` if the stored
    /// form stands for no task.
    pub fn from_stored(row: StoredItem) -> (r: Result<QueueItem, Error>)
        ensures
            match r {
                Ok(item) => row@.item() == Some(item@) && item@.wf(),
                Err(e) => row@.item() is None && e == Error::MalformedInput,
            },
    {
        let state = match QueueState::from_name(row.state.as_str()) {
            Ok(state) => state,
            Err(e) => {
                return Err(e);
            },
        };
        let timestamp = match Timestamp::decode(row.hlc_tstamp.as_slice()) {
            Some(timestamp) => timestamp,
            None => {
                return Err(Error::MalformedInput);
            },
        };
        let leased = match state {
            QueueState::Working => true,
            _ => false,
        };
        if row.worker.is_some() != leased {
            return Err(Error::MalformedInput);
        }
        Ok(
            QueueItem {
                id: row.id,
                task_name: row.task_name,
                state,
                info: row.info,
                timestamp,
                worker: row.worker,
            },
        )
    }

    /// The task in the form in which it is stored.
    pub fn to_stored(&self) -> (row: StoredItem)
        ensures
            row@ == self@.stored(),
    {
        StoredItem {
            id: self.id,
            task_name: self.task_name.clone(),
            state: self.state.name().to_owned(),
            info: self.info.clone(),
            hlc_tstamp: self.timestamp.encode(),
            worker: self.worker,
        }
    }
}

/// Decides a claim on a task in its stored form, for a store that keeps
/// tasks as rows.
///
/// The stored form is read, the claim rule applied at `when`, and the task
/// after the claim returned in stored form again. `MalformedInput` if the
/// stored form stands for no task, `Conflict` if the rule turns the claim
/// down.
pub fn progress_stored(row: StoredItem, worker: u128, when: Timestamp) -> (r: Result<
    StoredItem,
    Error,
>)
    ensures
        match r {
            Ok(next) => {
                &&& row@.claim_outcome(when) is Ok
                &&& next@ == row@.item()->0.claimed(worker, when).stored()
            },
            Err(e) => row@.claim_outcome(when) == Err::<(), Error>(e),
        },
{
    let mut item = match QueueItem::from_stored(row) {
        Ok(item) => item,
        Err(e) => {
            return Err(e);
        },
    };
    match item.claim(worker, when) {
        Ok(_) => Ok(item.to_stored()),
        Err(e) => Err(e),
    }
}

} // verus!
