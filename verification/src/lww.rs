//! The last-writer-wins policy: keyed records that keep the value of the
//! causally latest write, and the binding of named collections to policies.

use crate::clock::Timestamp;
use crate::error::Error;
use crate::text::same_text;
use vstd::prelude::*;

verus! {

/// The kinds of operation that a change can ask for.
#[derive(Clone, Copy, Debug, PartialEq, Eq, Structural, Hash)]
pub enum Operation {
    /// Replaces the value of a key; written `set`.
    Assign,
    Add,
    Remove,
}

/// The consistency policies that a collection can be bound to.
#[derive(Clone, Copy, Debug, PartialEq, Eq, Structural, Hash)]
pub enum PolicyKind {
    /// Last writer wins: one value per key, that of the latest write.
    Lww,
    /// Observed-remove set. Collections can be bound to it, but no
    /// operation on them is supported yet.
    OrSet,
}

/// Whether a write was folded into the record.
#[derive(Clone, Copy, Debug, PartialEq, Eq, Structural, Hash)]
pub enum Verdict {
    /// The write won: the record now holds its value and timestamp.
    Accepted,
    /// The write was stale and was dropped. Not an error: the record is
    /// left as it was.
    Rejected,
}

/// The operation that a name stands for.
pub open spec fn operation_of_name(name: Seq<char>) -> Option<Operation> {
    if name == "set"@ {
        Some(Operation::Assign)
    } else if name == "add"@ {
        Some(Operation::Add)
    } else if name == "remove"@ {
        Some(Operation::Remove)
    } else {
        None
    }
}

/// The name of an operation.
pub open spec fn name_of_operation(op: Operation) -> Seq<char> {
    match op {
        Operation::Assign => "set"@,
        Operation::Add => "add"@,
        Operation::Remove => "remove"@,
    }
}

impl Operation {
    /// Reads an operation from its name: `set`, `add` or `remove`. Any
    /// other name is malformed.
    pub fn from_name(name: &str) -> (r: Result<Operation, Error>)
        ensures
            r == match operation_of_name(name@) {
                Some(op) => Ok::<Operation, Error>(op),
                None => Err(Error::MalformedInput),
            },
    {
        if same_text(name, "set") {
            Ok(Operation::Assign)
        } else if same_text(name, "add") {
            Ok(Operation::Add)
        } else if same_text(name, "remove") {
            Ok(Operation::Remove)
        } else {
            Err(Error::MalformedInput)
        }
    }

    /// The name of the operation.
    pub fn name(&self) -> (r: &'static str)
        ensures
            r@ == name_of_operation(*self),
    {
        match self {
            Operation::Assign => "set",
            Operation::Add => "add",
            Operation::Remove => "remove",
        }
    }
}

/// Reading the name of an operation gives the operation back.
pub proof fn lemma_operation_name_round_trip(op: Operation)
    ensures
        operation_of_name(name_of_operation(op)) == Some(op),
{
    reveal_strlit("set");
    reveal_strlit("add");
    reveal_strlit("remove");
    assert("set"@.len() == 3);
    assert("add"@.len() == 3);
    assert("remove"@.len() == 6);
    assert("set"@[0] == 's');
    assert("add"@[0] == 'a');
}

/// Whether an operation on a collection is carried out, given the policy
/// that the collection is bound to, if any: the collection must be bound,
/// and its policy must be last-writer-wins, which supports no operation but
/// `set`.
pub open spec fn admission(policy: Option<PolicyKind>, op: Operation) -> Result<(), Error> {
    match policy {
        None => Err(Error::UnknownCollection),
        Some(PolicyKind::OrSet) => Err(Error::UnsupportedOperation),
        Some(PolicyKind::Lww) => if op == Operation::Assign {
            Ok(())
        } else {
            Err(Error::UnsupportedOperation)
        },
    }
}

/// Whether a write at `when` wins over what is held for its key: it does
/// if nothing is held, or if what is held is not newer than the write.
pub open spec fn write_wins(held: Option<Timestamp>, when: Timestamp) -> bool {
    match held {
        None => true,
        Some(existing) => existing.not_after(when),
    }
}

/// Decides whether an operation on a collection is carried out, given the
/// policy that the collection is bound to, if any. `UnknownCollection` for
/// a collection that is not bound, `UnsupportedOperation` for a policy other
/// than last-writer-wins and for an operation other than `set`.
pub fn screen(policy: Option<PolicyKind>, op: Operation) -> (r: Result<(), Error>)
    ensures
        r == admission(policy, op),
{
    match policy {
        None => Err(Error::UnknownCollection),
        Some(PolicyKind::OrSet) => Err(Error::UnsupportedOperation),
        Some(PolicyKind::Lww) => match op {
            Operation::Assign => Ok(()),
            Operation::Add => Err(Error::UnsupportedOperation),
            Operation::Remove => Err(Error::UnsupportedOperation),
        },
    }
}

/// Decides a write at `when` against the timestamp held for its key, if
/// any: `Accepted` if the write wins, `Rejected` if it is stale.
pub fn decide(held: Option<Timestamp>, when: Timestamp) -> (r: Verdict)
    ensures
        r == if write_wins(held, when) {
            Verdict::Accepted
        } else {
            Verdict::Rejected
        },
{
    match held {
        None => Verdict::Accepted,
        Some(existing) => if existing.precedes_or_equals(&when) {
            Verdict::Accepted
        } else {
            Verdict::Rejected
        },
    }
}

/// One record: the value that won for a key, and the timestamp of the write
/// that produced it.
#[derive(Clone, Debug, PartialEq, Eq)]
pub struct LwwRecord {
    pub key: String,
    pub value: String,
    pub timestamp: Timestamp,
}

/// The mathematical content of an [`LwwRecord`].
pub struct RecordView {
    pub key: Seq<char>,
    pub value: Seq<char>,
    pub timestamp: Timestamp,
}

impl View for LwwRecord {
    type V = RecordView;

    open spec fn view(&self) -> RecordView {
        RecordView { key: self.key@, value: self.value@, timestamp: self.timestamp }
    }
}

impl LwwRecord {
    /// A copy of the record.
    pub fn duplicate(&self) -> (r: LwwRecord)
        ensures
            r@ == self@,
    {
        LwwRecord {
            key: self.key.clone(),
            value: self.value.clone(),
            timestamp: self.timestamp,
        }
    }
}

/// The mathematical content of a [`Collection`]: its name, the policy it is
/// bound to, and its records in the order in which their keys were first
/// written.
pub struct CollectionView {
    pub name: Seq<char>,
    pub policy: PolicyKind,
    pub records: Seq<RecordView>,
}

impl CollectionView {
    /// No two records share a key.
    pub open spec fn wf(self) -> bool {
        forall|i: int, j: int|
            0 <= i < j < self.records.len() ==> (#[trigger] self.records[i]).key != (
            #[trigger] self.records[j]).key
    }

    /// The record at position `i` has the key `key`.
    pub open spec fn holds_at(self, i: int, key: Seq<char>) -> bool {
        0 <= i < self.records.len() && self.records[i].key == key
    }

    /// Whether the collection has a record for `key`.
    pub open spec fn has(self, key: Seq<char>) -> bool {
        exists|i: int| #[trigger] self.holds_at(i, key)
    }

    /// The position of the record for `key`, if there is one.
    pub open spec fn index_of(self, key: Seq<char>) -> int {
        choose|i: int| #[trigger] self.holds_at(i, key)
    }

    /// The record for `key`, if there is one.
    pub open spec fn record(self, key: Seq<char>) -> RecordView {
        self.records[self.index_of(key)]
    }

    /// A collection without records.
    pub open spec fn empty(name: Seq<char>, policy: PolicyKind) -> CollectionView {
        CollectionView { name, policy, records: Seq::empty() }
    }

    /// The rule of the policy: a write wins if the key has no record yet,
    /// or if the record is not newer than the write. A write as old as the
    /// record wins too.
    pub open spec fn accepts(self, key: Seq<char>, when: Timestamp) -> bool {
        write_wins(self.held(key), when)
    }

    /// The timestamp held for `key`, if the key has a record.
    pub open spec fn held(self, key: Seq<char>) -> Option<Timestamp> {
        if self.has(key) {
            Some(self.record(key).timestamp)
        } else {
            None
        }
    }

    /// Whether a write for `key` at `when` is folded in.
    pub open spec fn verdict(self, key: Seq<char>, when: Timestamp) -> Verdict {
        if self.accepts(key, when) {
            Verdict::Accepted
        } else {
            Verdict::Rejected
        }
    }

    /// The collection after a write of `value` for `key` at `when`: a write
    /// that wins creates the record or replaces its value and timestamp; a
    /// stale write changes nothing.
    pub open spec fn after_set(self, key: Seq<char>, value: Seq<char>, when: Timestamp)
        -> CollectionView {
        let written = RecordView { key, value, timestamp: when };
        if !self.has(key) {
            CollectionView { records: self.records.push(written), ..self }
        } else if self.record(key).timestamp.not_after(when) {
            CollectionView { records: self.records.update(self.index_of(key), written), ..self }
        } else {
            self
        }
    }
}

/// In a well-formed collection a record is found at one position only.
pub proof fn lemma_record_position(c: CollectionView, i: int, key: Seq<char>)
    requires
        c.wf(),
        c.holds_at(i, key),
    ensures
        c.has(key),
        c.index_of(key) == i,
        c.record(key) == c.records[i],
{
    let j = c.index_of(key);
    assert(c.holds_at(j, key));
    if i < j {
        assert(c.records[i].key != c.records[j].key);
    } else if j < i {
        assert(c.records[j].key != c.records[i].key);
    }
}

/// What a write does to a collection.
///
/// The collection stays well formed. A write that wins leaves the record
/// for its key holding exactly its value and timestamp; a stale write
/// leaves the whole collection as it was. Either way the records of all
/// other keys are as they were.
pub proof fn lemma_set(
    c: CollectionView,
    key: Seq<char>,
    value: Seq<char>,
    when: Timestamp,
    other: Seq<char>,
)
    requires
        c.wf(),
    ensures
        c.after_set(key, value, when).wf(),
        c.after_set(key, value, when).has(key),
        c.accepts(key, when) ==> c.after_set(key, value, when).record(key) == (RecordView {
            key,
            value,
            timestamp: when,
        }),
        !c.accepts(key, when) ==> c.after_set(key, value, when) == c,
        other != key ==> c.after_set(key, value, when).has(other) == c.has(other),
        other != key && c.has(other) ==> c.after_set(key, value, when).record(other) == c.record(
            other,
        ),
{
    let after = c.after_set(key, value, when);
    let written = RecordView { key, value, timestamp: when };
    if !c.has(key) {
        let n = c.records.len() as int;
        assert forall|i: int| 0 <= i < n implies (#[trigger] c.records[i]).key != key by {
            assert(!c.holds_at(i, key));
        }
        assert(after.holds_at(n, key));
        lemma_record_position(after, n, key);
    } else {
        let i = c.index_of(key);
        assert(c.holds_at(i, key));
        assert(after.holds_at(i, key));
        lemma_record_position(after, i, key);
    }
    if other != key {
        if c.has(other) {
            let j = c.index_of(other);
            assert(c.holds_at(j, other));
            assert(after.holds_at(j, other));
            lemma_record_position(after, j, other);
        }
        if after.has(other) {
            let j = after.index_of(other);
            assert(after.holds_at(j, other));
            assert(c.holds_at(j, other));
        }
    }
}

/// The later of two writes to a key wins, and the second wins a tie.
///
/// After a write of `v1` at `t1` that won, a write of `v2` at `t2` to the
/// same key is dropped if `t2` precedes `t1`, and the record stays at `v1`
/// and `t1`; otherwise it wins, and the record is at `v2` and `t2`, also
/// when `t2` equals `t1`.
pub proof fn lemma_later_write_wins(
    c: CollectionView,
    key: Seq<char>,
    v1: Seq<char>,
    t1: Timestamp,
    v2: Seq<char>,
    t2: Timestamp,
)
    requires
        c.wf(),
        c.accepts(key, t1),
    ensures
        ({
            let c1 = c.after_set(key, v1, t1);
            let c2 = c1.after_set(key, v2, t2);
            &&& c1.record(key) == RecordView { key, value: v1, timestamp: t1 }
            &&& t2.before(t1) ==> c1.verdict(key, t2) == Verdict::Rejected && c2 == c1
            &&& !t2.before(t1) ==> c1.verdict(key, t2) == Verdict::Accepted && c2.record(key)
                == RecordView { key, value: v2, timestamp: t2 }
        }),
{
    let c1 = c.after_set(key, v1, t1);
    lemma_set(c, key, v1, t1, key);
    lemma_set(c1, key, v2, t2, key);
}

/// Writing again what has already won changes nothing and is accepted
/// again.
pub proof fn lemma_set_idempotent(
    c: CollectionView,
    key: Seq<char>,
    value: Seq<char>,
    when: Timestamp,
)
    requires
        c.wf(),
        c.accepts(key, when),
    ensures
        ({
            let c1 = c.after_set(key, value, when);
            &&& c1.verdict(key, when) == Verdict::Accepted
            &&& c1.after_set(key, value, when) == c1
        }),
{
    let c1 = c.after_set(key, value, when);
    lemma_set(c, key, value, when, key);
    let i = c1.index_of(key);
    assert(c1.holds_at(i, key));
    assert(c1.after_set(key, value, when).records =~= c1.records);
}

/// A named collection of records, bound to a policy.
#[derive(Clone, Debug, PartialEq, Eq)]
pub struct Collection {
    name: String,
    policy: PolicyKind,
    records: Vec<LwwRecord>,
}

impl View for Collection {
    type V = CollectionView;

    closed spec fn view(&self) -> CollectionView {
        CollectionView {
            name: self.name@,
            policy: self.policy,
            records: self.records@.map_values(|r: LwwRecord| r@),
        }
    }
}

impl Collection {
    /// The invariant of a collection: see [`CollectionView::wf`].
    pub open spec fn wf(&self) -> bool {
        self@.wf()
    }

    /// A new collection without records.
    pub fn new(name: String, policy: PolicyKind) -> (c: Collection)
        ensures
            c.wf(),
            c@ == CollectionView::empty(name@, policy),
    {
        let c = Collection { name, policy, records: Vec::new() };
        assert(c@.records =~= Seq::empty());
        c
    }

    /// The name of the collection.
    pub fn name(&self) -> (r: &str)
        ensures
            r@ == self@.name,
    {
        self.name.as_str()
    }

    /// The policy that the collection is bound to.
    pub fn policy(&self) -> (r: PolicyKind)
        ensures
            r == self@.policy,
    {
        self.policy
    }

    /// The number of records.
    pub fn len(&self) -> (n: usize)
        ensures
            n == self@.records.len(),
    {
        self.records.len()
    }

    /// Where the record for `key` is, if the collection has one.
    fn position(&self, key: &str) -> (r: Option<usize>)
        ensures
            match r {
                Some(i) => self@.holds_at(i as int, key@),
                None => !self@.has(key@),
            },
    {
        let mut i: usize = 0;
        while i < self.records.len()
            invariant
                i <= self.records@.len(),
                forall|j: int| 0 <= j < i ==> !self@.holds_at(j, key@),
            decreases self.records@.len() - i,
        {
            if same_text(self.records[i].key.as_str(), key) {
                return Some(i);
            }
            i += 1;
        }
        None
    }

    /// Folds a write of `value` for `key` at `when` into the collection.
    ///
    /// If the key has no record, or its record is not newer than `when`,
    /// the record takes `value` and `when` and the write is `Accepted`.
    /// Otherwise the write is stale: it is `Rejected` and nothing changes.
    pub fn apply_set(&mut self, key: String, value: String, when: Timestamp) -> (r: Verdict)
        requires
            old(self).wf(),
        ensures
            final(self).wf(),
            r == old(self)@.verdict(key@, when),
            final(self)@ == old(self)@.after_set(key@, value@, when),
    {
        let ghost before = self@;
        let ghost written = RecordView { key: key@, value: value@, timestamp: when };
        proof {
            lemma_set(before, key@, value@, when, key@);
        }
        match self.position(key.as_str()) {
            None => {
                self.records.push(LwwRecord { key, value, timestamp: when });
                assert(self@.records =~= before.records.push(written));
                Verdict::Accepted
            },
            Some(i) => {
                proof {
                    lemma_record_position(before, i as int, key@);
                }
                match decide(Some(self.records[i].timestamp), when) {
                    Verdict::Accepted => {
                        let record = &mut self.records[i];
                        record.value = value;
                        record.timestamp = when;
                        assert(self@.records =~= before.records.update(i as int, written));
                        Verdict::Accepted
                    },
                    Verdict::Rejected => Verdict::Rejected,
                }
            },
        }
    }

    /// The record for `key`, or `NotFound`.
    pub fn get(&self, key: &str) -> (r: Result<LwwRecord, Error>)
        requires
            self.wf(),
        ensures
            match r {
                Ok(record) => self@.has(key@) && record@ == self@.record(key@),
                Err(e) => !self@.has(key@) && e == Error::NotFound,
            },
    {
        match self.position(key) {
            Some(i) => {
                proof {
                    lemma_record_position(self@, i as int, key@);
                }
                Ok(self.records[i].duplicate())
            },
            None => Err(Error::NotFound),
        }
    }
}

/// A change addressed to a collection: the operation `op` on `key` of the
/// collection `table`, with the payload `change`.
#[derive(Clone, Debug, PartialEq, Eq)]
pub struct Change {
    pub table: String,
    pub key: String,
    pub op: Operation,
    pub change: String,
}

/// The mathematical content of a [`Store`]: its collections in the order in
/// which they were bound.
pub struct StoreView {
    pub collections: Seq<CollectionView>,
}

impl StoreView {
    /// Every collection is well formed and no two share a name.
    pub open spec fn wf(self) -> bool {
        &&& forall|i: int|
            0 <= i < self.collections.len() ==> (#[trigger] self.collections[i]).wf()
        &&& forall|i: int, j: int|
            0 <= i < j < self.collections.len() ==> (#[trigger] self.collections[i]).name != (
            #[trigger] self.collections[j]).name
    }

    /// The collection at position `i` has the name `name`.
    pub open spec fn named_at(self, i: int, name: Seq<char>) -> bool {
        0 <= i < self.collections.len() && self.collections[i].name == name
    }

    /// Whether a collection of the name `name` is bound.
    pub open spec fn has(self, name: Seq<char>) -> bool {
        exists|i: int| #[trigger] self.named_at(i, name)
    }

    /// The position of the collection named `name`, if there is one.
    pub open spec fn index_of(self, name: Seq<char>) -> int {
        choose|i: int| #[trigger] self.named_at(i, name)
    }

    /// The collection named `name`, if there is one.
    pub open spec fn collection(self, name: Seq<char>) -> CollectionView {
        self.collections[self.index_of(name)]
    }

    /// The store with the collection named `name` replaced by `c`.
    pub open spec fn replace(self, name: Seq<char>, c: CollectionView) -> StoreView {
        StoreView { collections: self.collections.update(self.index_of(name), c) }
    }

    /// How a request to bind the collection `name` ends.
    pub open spec fn bind_outcome(self, name: Seq<char>) -> Result<(), Error> {
        if self.has(name) {
            Err(Error::AlreadyExists)
        } else {
            Ok(())
        }
    }

    /// The store after a request to bind the collection `name` to `policy`.
    pub open spec fn after_bind(self, name: Seq<char>, policy: PolicyKind) -> StoreView {
        if self.has(name) {
            self
        } else {
            StoreView { collections: self.collections.push(CollectionView::empty(name, policy)) }
        }
    }

    /// Whether the store carries out the operation `op` on the collection
    /// `table`: the collection must be bound, and its policy must be
    /// last-writer-wins, which supports no operation but `set`.
    pub open spec fn admits(self, table: Seq<char>, op: Operation) -> Result<(), Error> {
        admission(self.policy_of(table), op)
    }

    /// The policy that the collection `table` is bound to, if it is bound.
    pub open spec fn policy_of(self, table: Seq<char>) -> Option<PolicyKind> {
        if self.has(table) {
            Some(self.collection(table).policy)
        } else {
            None
        }
    }

    /// How the change `change`, stamped `when`, ends.
    pub open spec fn outcome(self, when: Timestamp, change: Change) -> Result<Verdict, Error> {
        match self.admits(change.table@, change.op) {
            Ok(_) => Ok(self.collection(change.table@).verdict(change.key@, when)),
            Err(e) => Err(e),
        }
    }

    /// The store after the change `change`, stamped `when`.
    pub open spec fn after(self, when: Timestamp, change: Change) -> StoreView {
        match self.admits(change.table@, change.op) {
            Ok(_) => self.replace(
                change.table@,
                self.collection(change.table@).after_set(change.key@, change.change@, when),
            ),
            Err(_) => self,
        }
    }
}

/// In a well-formed store a collection is found at one position only.
pub proof fn lemma_collection_position(s: StoreView, i: int, name: Seq<char>)
    requires
        s.wf(),
        s.named_at(i, name),
    ensures
        s.has(name),
        s.index_of(name) == i,
        s.collection(name) == s.collections[i],
{
    let j = s.index_of(name);
    assert(s.named_at(j, name));
    if i < j {
        assert(s.collections[i].name != s.collections[j].name);
    } else if j < i {
        assert(s.collections[j].name != s.collections[i].name);
    }
}

/// A change touches the collection it names and no other.
///
/// The store stays well formed and keeps its collections. The collection
/// named is what the policy makes of the write, if the change is admitted,
/// and every other collection is as it was; a change that is not admitted
/// changes nothing.
pub proof fn lemma_change(s: StoreView, when: Timestamp, change: Change, other: Seq<char>)
    requires
        s.wf(),
    ensures
        s.after(when, change).wf(),
        s.after(when, change).has(other) == s.has(other),
        s.outcome(when, change) is Err ==> s.after(when, change) == s,
        s.outcome(when, change) is Ok ==> s.after(when, change).collection(change.table@)
            == s.collection(change.table@).after_set(change.key@, change.change@, when),
        s.has(other) && other != change.table@ ==> s.after(when, change).collection(other)
            == s.collection(other),
{
    let table = change.table@;
    let after = s.after(when, change);
    if s.admits(table, change.op) is Ok {
        let i = s.index_of(table);
        assert(s.named_at(i, table));
        let c = s.collection(table);
        lemma_set(c, change.key@, change.change@, when, change.key@);
        assert(after.named_at(i, table));
        lemma_collection_position(after, i, table);
        if s.has(other) {
            let j = s.index_of(other);
            assert(s.named_at(j, other));
            assert(after.named_at(j, other));
            lemma_collection_position(after, j, other);
        }
        if after.has(other) {
            let j = after.index_of(other);
            assert(after.named_at(j, other));
            assert(s.named_at(j, other));
        }
    }
}

/// The state of the key-value service: the collections, each bound to its
/// policy when the service started.
#[derive(Clone, Debug, PartialEq, Eq)]
pub struct Store {
    collections: Vec<Collection>,
}

impl View for Store {
    type V = StoreView;

    closed spec fn view(&self) -> StoreView {
        StoreView { collections: self.collections@.map_values(|c: Collection| c@) }
    }
}

impl Store {
    /// The invariant of the store: see [`StoreView::wf`].
    pub open spec fn wf(&self) -> bool {
        self@.wf()
    }

    /// A store without collections.
    pub fn new() -> (s: Store)
        ensures
            s.wf(),
            s@.collections == Seq::<CollectionView>::empty(),
    {
        let s = Store { collections: Vec::new() };
        assert(s@.collections =~= Seq::<CollectionView>::empty());
        s
    }

    /// Where the collection named `name` is, if it is bound.
    fn find(&self, name: &str) -> (r: Option<usize>)
        ensures
            match r {
                Some(i) => self@.named_at(i as int, name@),
                None => !self@.has(name@),
            },
    {
        let mut i: usize = 0;
        while i < self.collections.len()
            invariant
                i <= self.collections@.len(),
                forall|j: int| 0 <= j < i ==> !self@.named_at(j, name@),
            decreases self.collections@.len() - i,
        {
            if same_text(self.collections[i].name(), name) {
                return Some(i);
            }
            i += 1;
        }
        None
    }

    /// Binds the collection `name` to `policy`, with no records.
    /// `AlreadyExists`, and nothing changes, if the name is bound already.
    pub fn bind(&mut self, name: String, policy: PolicyKind) -> (r: Result<(), Error>)
        requires
            old(self).wf(),
        ensures
            final(self).wf(),
            r == old(self)@.bind_outcome(name@),
            final(self)@ == old(self)@.after_bind(name@, policy),
    {
        match self.find(name.as_str()) {
            Some(i) => {
                assert(self@.named_at(i as int, name@));
                Err(Error::AlreadyExists)
            },
            None => {
                let ghost added = CollectionView::empty(name@, policy);
                self.collections.push(Collection::new(name, policy));
                proof {
                    assert(self@.collections =~= old(self)@.collections.push(added));
                    assert forall|i: int, j: int|
                        0 <= i < j < self@.collections.len() implies (
                    #[trigger] self@.collections[i]).name != (
                    #[trigger] self@.collections[j]).name by {
                        if j == old(self)@.collections.len() {
                            assert(!old(self)@.named_at(i, added.name));
                        }
                    }
                }
                Ok(())
            },
        }
    }

    /// The policy that the collection `name` is bound to, or
    /// `UnknownCollection`.
    pub fn policy_of(&self, name: &str) -> (r: Result<PolicyKind, Error>)
        requires
            self.wf(),
        ensures
            r == match self@.policy_of(name@) {
                Some(policy) => Ok::<PolicyKind, Error>(policy),
                None => Err(Error::UnknownCollection),
            },
    {
        match self.find(name) {
            Some(i) => {
                proof {
                    lemma_collection_position(self@, i as int, name@);
                }
                Ok(self.collections[i].policy())
            },
            None => Err(Error::UnknownCollection),
        }
    }

    /// Folds one delivered change, stamped `when`, into the store.
    ///
    /// `UnknownCollection` if no collection of the name is bound, and
    /// `UnsupportedOperation` if the collection is not bound to
    /// last-writer-wins or the operation is not `set`; nothing changes then.
    /// Otherwise the write is applied as [`Collection::apply_set`] says,
    /// and its verdict returned: a stale write is `Rejected`, which is no
    /// error.
    pub fn apply(&mut self, when: Timestamp, change: Change) -> (r: Result<Verdict, Error>)
        requires
            old(self).wf(),
        ensures
            final(self).wf(),
            r == old(self)@.outcome(when, change),
            final(self)@ == old(self)@.after(when, change),
    {
        let ghost before = self@;
        let at = self.find(change.table.as_str());
        let policy = match at {
            Some(i) => {
                proof {
                    lemma_collection_position(before, i as int, change.table@);
                }
                Some(self.collections[i].policy())
            },
            None => None,
        };
        if let Err(e) = screen(policy, change.op) {
            return Err(e);
        }
        let i = match at {
            Some(i) => i,
            None => {
                return Err(Error::UnknownCollection);
            },
        };
        proof {
            lemma_change(before, when, change, change.table@);
        }
        let collection = &mut self.collections[i];
        let verdict = collection.apply_set(change.key, change.change, when);
        proof {
            assert(self@.collections =~= before.collections.update(
                i as int,
                before.collections[i as int].after_set(change.key@, change.change@, when),
            ));
        }
        Ok(verdict)
    }

    /// The record for `key` in the collection `table`. `UnknownCollection`
    /// if the collection is not bound, `NotFound` if it has no such record.
    pub fn get(&self, table: &str, key: &str) -> (r: Result<LwwRecord, Error>)
        requires
            self.wf(),
        ensures
            match r {
                Ok(record) => {
                    &&& self@.has(table@)
                    &&& self@.collection(table@).has(key@)
                    &&& record@ == self@.collection(table@).record(key@)
                },
                Err(e) => {
                    &&& !(self@.has(table@) && self@.collection(table@).has(key@))
                    &&& e == if self@.has(table@) {
                        Error::NotFound
                    } else {
                        Error::UnknownCollection
                    }
                },
            },
    {
        match self.find(table) {
            Some(i) => {
                proof {
                    lemma_collection_position(self@, i as int, table@);
                }
                self.collections[i].get(key)
            },
            None => Err(Error::UnknownCollection),
        }
    }
}

} // verus!
