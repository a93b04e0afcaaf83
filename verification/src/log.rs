//! The log store: an append-only sequence of entries in which the entries
//! of each owner form one linked chain.

use crate::error::Error;
use crate::ids::{
    format_uuid, lemma_uuid_text_injective, parse_uuid, random_uuid, uuid_from_text, uuid_text,
};
use crate::payload::{json_canonical, parse_payload};
use vstd::prelude::*;
use vstd::string::StringExecFns;

verus! {

/// One entry of the log.
#[derive(Clone, Debug, PartialEq, Eq)]
pub struct LogEntry {
    /// Unique identifier, assigned when the entry is appended.
    pub id: u128,
    /// The writer node that appended the entry.
    pub owner: u128,
    /// The payload, as canonical JSON text.
    pub data: String,
    /// The entry that the same owner appended before this one.
    pub prev: Option<u128>,
    /// The entry that the same owner appended after this one.
    pub next: Option<u128>,
}

/// The mathematical content of a [`LogEntry`].
pub struct EntryView {
    pub id: u128,
    pub owner: u128,
    pub data: Seq<char>,
    pub prev: Option<u128>,
    pub next: Option<u128>,
}

impl View for LogEntry {
    type V = EntryView;

    open spec fn view(&self) -> EntryView {
        EntryView {
            id: self.id,
            owner: self.owner,
            data: self.data@,
            prev: self.prev,
            next: self.next,
        }
    }
}

/// The entries of `owner` among `entries`, in the order in which they were
/// appended.
pub open spec fn chain_of(entries: Seq<EntryView>, owner: u128) -> Seq<EntryView>
    decreases entries.len(),
{
    if entries.len() == 0 {
        Seq::empty()
    } else if entries.last().owner == owner {
        chain_of(entries.drop_last(), owner).push(entries.last())
    } else {
        chain_of(entries.drop_last(), owner)
    }
}

/// The entries of `chain` are linked one to the next: each names the one
/// before it as `prev` and the one after it as `next`; the first has no
/// `prev` and the last no `next`.
pub open spec fn linked(chain: Seq<EntryView>) -> bool {
    forall|k: int|
        0 <= k < chain.len() ==> {
            &&& (#[trigger] chain[k]).prev == if k == 0 {
                None
            } else {
                Some(chain[k - 1].id)
            }
            &&& chain[k].next == if k == chain.len() - 1 {
                None
            } else {
                Some(chain[k + 1].id)
            }
        }
}

/// The ids of `chain`, in order.
pub open spec fn ids_of(chain: Seq<EntryView>) -> Seq<u128> {
    chain.map_values(|e: EntryView| e.id)
}

/// The mathematical content of a [`LogStore`]: its entries in the order in
/// which they were appended.
pub struct LogView {
    pub entries: Seq<EntryView>,
}

impl LogView {
    /// The entry at position `i` has the id `id`.
    pub open spec fn holds_at(self, i: int, id: u128) -> bool {
        0 <= i < self.entries.len() && self.entries[i].id == id
    }

    /// Whether the log has an entry with the id `id`.
    pub open spec fn has(self, id: u128) -> bool {
        exists|i: int| #[trigger] self.holds_at(i, id)
    }

    /// The position of the entry with the id `id`, if there is one.
    pub open spec fn index_of(self, id: u128) -> int {
        choose|i: int| #[trigger] self.holds_at(i, id)
    }

    /// The entry with the id `id`, if there is one.
    pub open spec fn entry(self, id: u128) -> EntryView {
        self.entries[self.index_of(id)]
    }

    /// The chain of `owner`: its entries from root to frontier.
    pub open spec fn chain(self, owner: u128) -> Seq<EntryView> {
        chain_of(self.entries, owner)
    }

    /// The id of the frontier of `owner`: of its most recent entry, if it
    /// has written at all.
    pub open spec fn frontier(self, owner: u128) -> Option<u128> {
        if self.chain(owner).len() == 0 {
            None
        } else {
            Some(self.chain(owner).last().id)
        }
    }

    /// No two entries share an id, and the entries of every owner are
    /// linked into one chain.
    pub open spec fn wf(self) -> bool {
        &&& forall|i: int, j: int|
            0 <= i < j < self.entries.len() ==> (#[trigger] self.entries[i]).id != (
            #[trigger] self.entries[j]).id
        &&& forall|owner: u128| linked(#[trigger] self.chain(owner))
    }

    /// The entry that an append of `data` by `owner` under the id `id`
    /// creates: after the owner's frontier, and itself the new frontier.
    pub open spec fn appended(self, id: u128, owner: u128, data: Seq<char>) -> EntryView {
        EntryView { id, owner, data, prev: self.frontier(owner), next: None }
    }

    /// The log after an append of `data` by `owner` under the id `id`: the
    /// old frontier of the owner, if there is one, names `id` as its `next`,
    /// and the new entry stands at the end. Nothing else changes. An id
    /// that is taken is not used again: the log is then left as it is.
    pub open spec fn append(self, id: u128, owner: u128, data: Seq<char>) -> LogView {
        if self.has(id) {
            self
        } else {
            let entry = self.appended(id, owner, data);
            match self.frontier(owner) {
                Some(last) => {
                    let at = self.index_of(last);
                    let linked = EntryView { next: Some(id), ..self.entries[at] };
                    LogView { entries: self.entries.update(at, linked).push(entry) }
                },
                None => LogView { entries: self.entries.push(entry) },
            }
        }
    }

    /// The ids met by following `next` from the entry `id`, for at most
    /// `steps` entries.
    pub open spec fn walk(self, id: u128, steps: nat) -> Seq<u128>
        decreases steps,
    {
        if steps == 0 || !self.has(id) {
            Seq::empty()
        } else {
            match self.entry(id).next {
                Some(next) => seq![id] + self.walk(next, (steps - 1) as nat),
                None => seq![id],
            }
        }
    }
}

/// In a well-formed log an entry is found at one position only.
pub proof fn lemma_entry_position(log: LogView, i: int, id: u128)
    requires
        log.wf(),
        log.holds_at(i, id),
    ensures
        log.has(id),
        log.index_of(id) == i,
        log.entry(id) == log.entries[i],
{
    let j = log.index_of(id);
    assert(log.holds_at(j, id));
    if i < j {
        assert(log.entries[i].id != log.entries[j].id);
    } else if j < i {
        assert(log.entries[j].id != log.entries[i].id);
    }
}

/// Appending an entry extends the chain of its owner by that entry and
/// leaves every other chain as it was.
pub proof fn lemma_chain_push(entries: Seq<EntryView>, e: EntryView, owner: u128)
    ensures
        chain_of(entries.push(e), owner) == if e.owner == owner {
            chain_of(entries, owner).push(e)
        } else {
            chain_of(entries, owner)
        },
{
    assert(entries.push(e).drop_last() =~= entries);
}

/// Every entry of a chain is an entry of the log, with the owner of the
/// chain, and the chain keeps the order of the log.
pub proof fn lemma_chain_member(entries: Seq<EntryView>, owner: u128, k: int) -> (i: int)
    requires
        0 <= k < chain_of(entries, owner).len(),
    ensures
        0 <= i < entries.len(),
        entries[i] == chain_of(entries, owner)[k],
        entries[i].owner == owner,
        chain_of(entries.subrange(0, i), owner) == chain_of(entries, owner).subrange(0, k),
    decreases entries.len(),
{
    let rest = entries.drop_last();
    let chain = chain_of(entries, owner);
    if entries.last().owner == owner && k == chain.len() - 1 {
        let i = entries.len() - 1;
        assert(entries.subrange(0, i) =~= rest);
        assert(chain.subrange(0, k) =~= chain_of(rest, owner));
        i
    } else {
        let i = lemma_chain_member(rest, owner, k);
        assert(rest.subrange(0, i) =~= entries.subrange(0, i));
        assert(chain_of(rest, owner).subrange(0, k) =~= chain.subrange(0, k));
        i
    }
}

/// Every entry of the log is in the chain of its owner.
pub proof fn lemma_member_chain(entries: Seq<EntryView>, i: int) -> (k: int)
    requires
        0 <= i < entries.len(),
    ensures
        0 <= k < chain_of(entries, entries[i].owner).len(),
        chain_of(entries, entries[i].owner)[k] == entries[i],
    decreases entries.len(),
{
    let owner = entries[i].owner;
    let rest = entries.drop_last();
    if i == entries.len() - 1 {
        chain_of(rest, owner).len() as int
    } else {
        let k = lemma_member_chain(rest, i);
        k
    }
}

/// An owner without entries has an empty chain, and an empty chain means
/// that the owner has no entry.
pub proof fn lemma_chain_empty(entries: Seq<EntryView>, owner: u128)
    ensures
        chain_of(entries, owner).len() == 0 <==> forall|i: int|
            0 <= i < entries.len() ==> (#[trigger] entries[i]).owner != owner,
    decreases entries.len(),
{
    if entries.len() > 0 {
        let rest = entries.drop_last();
        lemma_chain_empty(rest, owner);
        if chain_of(entries, owner).len() == 0 {
            assert forall|i: int| 0 <= i < entries.len() implies (#[trigger] entries[i]).owner
                != owner by {
                if i < rest.len() {
                    assert(rest[i].owner != owner);
                }
            }
        } else if entries.last().owner != owner {
            let i = choose|i: int| 0 <= i < rest.len() && (#[trigger] rest[i]).owner == owner;
            assert(entries[i].owner == owner);
        }
    }
}

/// The last entry of an owner in the log is the last of its chain.
pub proof fn lemma_chain_last(entries: Seq<EntryView>, owner: u128, j: int)
    requires
        0 <= j < entries.len(),
        entries[j].owner == owner,
        forall|k: int| j < k < entries.len() ==> (#[trigger] entries[k]).owner != owner,
    ensures
        chain_of(entries, owner).len() > 0,
        chain_of(entries, owner).last() == entries[j],
    decreases entries.len(),
{
    if j < entries.len() - 1 {
        let rest = entries.drop_last();
        assert(entries[entries.len() - 1].owner != owner);
        assert forall|k: int| j < k < rest.len() implies (#[trigger] rest[k]).owner != owner by {
            assert(entries[k].owner != owner);
        }
        lemma_chain_last(rest, owner, j);
    }
}

/// Changing the last entry of an owner, its owner apart, changes the last
/// entry of its chain and nothing else of the chain.
pub proof fn lemma_chain_update_last(
    entries: Seq<EntryView>,
    owner: u128,
    j: int,
    e: EntryView,
)
    requires
        0 <= j < entries.len(),
        entries[j].owner == owner,
        e.owner == owner,
        forall|k: int| j < k < entries.len() ==> (#[trigger] entries[k]).owner != owner,
    ensures
        chain_of(entries, owner).len() > 0,
        chain_of(entries.update(j, e), owner) == chain_of(entries, owner).drop_last().push(e),
    decreases entries.len(),
{
    let rest = entries.drop_last();
    let updated = entries.update(j, e);
    if j == entries.len() - 1 {
        assert(updated.drop_last() =~= rest);
        assert(chain_of(entries, owner).drop_last() =~= chain_of(rest, owner));
    } else {
        assert(entries[entries.len() - 1].owner != owner);
        assert forall|k: int| j < k < rest.len() implies (#[trigger] rest[k]).owner != owner by {
            assert(entries[k].owner != owner);
        }
        lemma_chain_update_last(rest, owner, j, e);
        assert(updated.drop_last() =~= rest.update(j, e));
    }
}

/// Changing an entry, its owner apart, leaves the chains of all other
/// owners as they were.
pub proof fn lemma_chain_update_other(
    entries: Seq<EntryView>,
    owner: u128,
    j: int,
    e: EntryView,
)
    requires
        0 <= j < entries.len(),
        entries[j].owner != owner,
        e.owner != owner,
    ensures
        chain_of(entries.update(j, e), owner) == chain_of(entries, owner),
    decreases entries.len(),
{
    let rest = entries.drop_last();
    let updated = entries.update(j, e);
    if j == entries.len() - 1 {
        assert(updated.drop_last() =~= rest);
    } else {
        lemma_chain_update_other(rest, owner, j, e);
        assert(updated.drop_last() =~= rest.update(j, e));
    }
}

/// An owner with entries has a last one in the log, and that is the last of
/// its chain.
pub proof fn lemma_last_of_owner(entries: Seq<EntryView>, owner: u128) -> (j: int)
    requires
        chain_of(entries, owner).len() > 0,
    ensures
        0 <= j < entries.len(),
        entries[j].owner == owner,
        forall|k: int| j < k < entries.len() ==> (#[trigger] entries[k]).owner != owner,
        chain_of(entries, owner).last() == entries[j],
    decreases entries.len(),
{
    if entries.last().owner == owner {
        entries.len() - 1
    } else {
        let rest = entries.drop_last();
        let j = lemma_last_of_owner(rest, owner);
        assert forall|k: int| j < k < entries.len() implies (#[trigger] entries[k]).owner
            != owner by {
            if k < rest.len() {
                assert(rest[k].owner != owner);
            }
        }
        j
    }
}

/// What an append does to a well-formed log whose entries do not have the
/// id yet.
///
/// The log stays well formed and now holds the new entry under its id. The
/// chain of the owner is the old chain with the new entry at its end, the
/// old frontier now naming it as `next`; so the ids of the chain are the
/// old ones followed by the new one, and the new entry is the frontier. The
/// chain of every other owner is exactly as it was.
pub proof fn lemma_append(log: LogView, id: u128, owner: u128, data: Seq<char>, other: u128)
    requires
        log.wf(),
        !log.has(id),
    ensures
        log.append(id, owner, data).wf(),
        log.append(id, owner, data).has(id),
        log.append(id, owner, data).entry(id) == log.appended(id, owner, data),
        log.append(id, owner, data).entries.len() == log.entries.len() + 1,
        log.append(id, owner, data).frontier(owner) == Some(id),
        ids_of(log.append(id, owner, data).chain(owner)) == ids_of(log.chain(owner)).push(id),
        other != owner ==> log.append(id, owner, data).chain(other) == log.chain(other),
{
    let after = log.append(id, owner, data);
    let entry = log.appended(id, owner, data);
    let chain = log.chain(owner);
    let n = log.entries.len() as int;
    assert forall|i: int| 0 <= i < n implies (#[trigger] log.entries[i]).id != id by {
        assert(!log.holds_at(i, id));
    }
    match log.frontier(owner) {
        None => {
            assert(after.entries == log.entries.push(entry));
            assert forall|o: u128| linked(#[trigger] after.chain(o)) by {
                lemma_chain_push(log.entries, entry, o);
                assert(linked(log.chain(o)));
            }
            lemma_chain_push(log.entries, entry, owner);
            lemma_chain_push(log.entries, entry, other);
            assert(ids_of(after.chain(owner)) =~= ids_of(chain).push(id));
        },
        Some(last) => {
            let j = lemma_last_of_owner(log.entries, owner);
            assert(log.holds_at(j, last));
            lemma_entry_position(log, j, last);
            let relinked = EntryView { next: Some(id), ..log.entries[j] };
            let updated = log.entries.update(j, relinked);
            assert(after.entries == updated.push(entry));
            lemma_chain_update_last(log.entries, owner, j, relinked);
            lemma_chain_push(updated, entry, owner);
            let grown = chain.drop_last().push(relinked).push(entry);
            assert(after.chain(owner) == grown);
            assert(linked(chain));
            assert(linked(grown)) by {
                assert forall|k: int| 0 <= k < grown.len() implies {
                    &&& (#[trigger] grown[k]).prev == if k == 0 {
                        None
                    } else {
                        Some(grown[k - 1].id)
                    }
                    &&& grown[k].next == if k == grown.len() - 1 {
                        None
                    } else {
                        Some(grown[k + 1].id)
                    }
                } by {
                    if k < chain.len() {
                        assert(chain[k].id == grown[k].id);
                        assert(chain[k].prev == grown[k].prev);
                        if k > 0 {
                            assert(chain[k - 1].id == grown[k - 1].id);
                        }
                        if k < chain.len() - 1 {
                            assert(chain[k].next == grown[k].next);
                            assert(chain[k + 1].id == grown[k + 1].id);
                        }
                    }
                }
            }
            assert forall|o: u128| linked(#[trigger] after.chain(o)) by {
                if o != owner {
                    lemma_chain_update_other(log.entries, o, j, relinked);
                    lemma_chain_push(updated, entry, o);
                    assert(linked(log.chain(o)));
                }
            }
            if other != owner {
                lemma_chain_update_other(log.entries, other, j, relinked);
                lemma_chain_push(updated, entry, other);
            }
            assert(ids_of(after.chain(owner)) =~= ids_of(chain).push(id));
        },
    }
    assert(after.holds_at(n, id));
    assert forall|i: int, k: int| 0 <= i < k < after.entries.len() implies (
    #[trigger] after.entries[i]).id != (#[trigger] after.entries[k]).id by {
        if k < n {
            assert(log.entries[i].id != log.entries[k].id);
        } else {
            assert(log.entries[i].id != id);
        }
    }
    lemma_entry_position(after, n, id);
}

/// The facts of a well-formed chain.
///
/// The chain of an owner that has written has exactly one root, its first
/// entry, and exactly one frontier, its last. No id occurs twice in it, so
/// it has no cycle. Following `next` from the root for as many steps as the
/// chain is long visits the entries of the chain in order, each once, and
/// ends at the frontier; and every entry of the owner is among them.
pub proof fn lemma_chain_shape(log: LogView, owner: u128)
    requires
        log.wf(),
        log.chain(owner).len() > 0,
    ensures
        ({
            let c = log.chain(owner);
            &&& forall|k: int| 0 <= k < c.len() ==> ((#[trigger] c[k]).prev is None <==> k == 0)
            &&& forall|k: int|
                0 <= k < c.len() ==> ((#[trigger] c[k]).next is None <==> k == c.len() - 1)
            &&& ids_of(c).no_duplicates()
            &&& log.walk(c[0].id, c.len()) == ids_of(c)
            &&& log.frontier(owner) == Some(ids_of(c).last())
            &&& forall|i: int|
                0 <= i < log.entries.len() && (#[trigger] log.entries[i]).owner == owner
                    ==> ids_of(c).contains(log.entries[i].id)
        }),
{
    let c = log.chain(owner);
    let ids = ids_of(c);
    assert(linked(c));
    assert forall|k1: int, k2: int| 0 <= k1 < ids.len() && 0 <= k2 < ids.len() && k1 != k2
        implies ids[k1] != ids[k2] by {
        let i1 = lemma_chain_member(log.entries, owner, k1);
        let i2 = lemma_chain_member(log.entries, owner, k2);
        if i1 < i2 {
            assert(log.entries[i1].id != log.entries[i2].id);
        } else if i2 < i1 {
            assert(log.entries[i2].id != log.entries[i1].id);
        } else {
            assert(c.subrange(0, k1).len() == c.subrange(0, k2).len());
        }
    }
    lemma_walk_from(log, owner, 0);
    assert(ids.subrange(0, ids.len() as int) =~= ids);
    assert forall|i: int| 0 <= i < log.entries.len() && (#[trigger] log.entries[i]).owner
        == owner implies ids.contains(log.entries[i].id) by {
        let k = lemma_member_chain(log.entries, i);
        assert(ids[k] == log.entries[i].id);
    }
}

/// Following `next` from the `k`-th entry of a chain visits the rest of the
/// chain in order.
pub proof fn lemma_walk_from(log: LogView, owner: u128, k: int)
    requires
        log.wf(),
        0 <= k < log.chain(owner).len(),
    ensures
        log.walk(log.chain(owner)[k].id, (log.chain(owner).len() - k) as nat) == ids_of(
            log.chain(owner),
        ).subrange(k, log.chain(owner).len() as int),
    decreases log.chain(owner).len() - k,
{
    let c = log.chain(owner);
    let n = c.len() as int;
    let ids = ids_of(c);
    let i = lemma_chain_member(log.entries, owner, k);
    assert(log.holds_at(i, c[k].id));
    lemma_entry_position(log, i, c[k].id);
    assert(linked(c));
    assert(c[k].next == if k == n - 1 {
        None
    } else {
        Some(c[k + 1].id)
    });
    if k == n - 1 {
        assert(ids.subrange(k, n) =~= seq![c[k].id]);
    } else {
        lemma_walk_from(log, owner, k + 1);
        assert(ids.subrange(k, n) =~= seq![c[k].id] + ids.subrange(k + 1, n));
    }
}

/// Links never dangle and never leave the chain: the entry that an entry
/// names as `next` exists, has the same owner, and names the entry as its
/// `prev`; and likewise the other way round.
pub proof fn lemma_links(log: LogView, i: int)
    requires
        log.wf(),
        0 <= i < log.entries.len(),
    ensures
        log.entries[i].next matches Some(n) ==> {
            &&& log.has(n)
            &&& log.entry(n).owner == log.entries[i].owner
            &&& log.entry(n).prev == Some(log.entries[i].id)
        },
        log.entries[i].prev matches Some(p) ==> {
            &&& log.has(p)
            &&& log.entry(p).owner == log.entries[i].owner
            &&& log.entry(p).next == Some(log.entries[i].id)
        },
{
    let owner = log.entries[i].owner;
    let c = log.chain(owner);
    let k = lemma_member_chain(log.entries, i);
    assert(linked(c));
    assert(c[k].next == log.entries[i].next);
    if k < c.len() - 1 {
        let j = lemma_chain_member(log.entries, owner, k + 1);
        assert(log.holds_at(j, c[k + 1].id));
        lemma_entry_position(log, j, c[k + 1].id);
    }
    if k > 0 {
        let j = lemma_chain_member(log.entries, owner, k - 1);
        assert(log.holds_at(j, c[k - 1].id));
        lemma_entry_position(log, j, c[k - 1].id);
    }
}

/// One append of a sequence of appends.
pub struct AppendView {
    pub id: u128,
    pub owner: u128,
    pub data: Seq<char>,
}

/// The log after the appends `ops` were made to an empty log, one after
/// another.
pub open spec fn after_appends(ops: Seq<AppendView>) -> LogView
    decreases ops.len(),
{
    if ops.len() == 0 {
        LogView { entries: Seq::empty() }
    } else {
        after_appends(ops.drop_last()).append(ops.last().id, ops.last().owner, ops.last().data)
    }
}

/// After any sequence of appends, by whatever owners and in whatever order,
/// the log is well formed: the entries of every owner form one chain, as
/// [`lemma_chain_shape`] describes it.
pub proof fn lemma_appends_keep_chains(ops: Seq<AppendView>)
    ensures
        after_appends(ops).wf(),
    decreases ops.len(),
{
    if ops.len() == 0 {
        let log = after_appends(ops);
        assert forall|owner: u128| linked(#[trigger] log.chain(owner)) by {}
    } else {
        let before = after_appends(ops.drop_last());
        lemma_appends_keep_chains(ops.drop_last());
        if !before.has(ops.last().id) {
            lemma_append(before, ops.last().id, ops.last().owner, ops.last().data, 0);
        }
    }
}

/// Appends by different owners do not touch each other's chains: after
/// owner `a` and owner `b` have each appended, in either order, the chain of
/// each holds the ids it held before, followed by its own new id.
pub proof fn lemma_appends_independent(
    log: LogView,
    id_a: u128,
    a: u128,
    data_a: Seq<char>,
    id_b: u128,
    b: u128,
    data_b: Seq<char>,
)
    requires
        log.wf(),
        a != b,
        id_a != id_b,
        !log.has(id_a),
        !log.has(id_b),
    ensures
        ({
            let first_a = log.append(id_a, a, data_a).append(id_b, b, data_b);
            let first_b = log.append(id_b, b, data_b).append(id_a, a, data_a);
            &&& first_a.wf() && first_b.wf()
            &&& ids_of(first_a.chain(a)) == ids_of(log.chain(a)).push(id_a)
            &&& ids_of(first_a.chain(b)) == ids_of(log.chain(b)).push(id_b)
            &&& first_b.chain(a) == first_a.chain(a)
            &&& first_b.chain(b) == first_a.chain(b)
        }),
{
    let la = log.append(id_a, a, data_a);
    let lb = log.append(id_b, b, data_b);
    lemma_append(log, id_a, a, data_a, b);
    lemma_append(log, id_b, b, data_b, a);
    lemma_append_keeps_ids(log, id_a, a, data_a, id_b);
    lemma_append_keeps_ids(log, id_b, b, data_b, id_a);
    lemma_append(la, id_b, b, data_b, a);
    lemma_append(lb, id_a, a, data_a, b);
    lemma_append_chain(log, id_a, a, data_a);
    lemma_append_chain(log, id_b, b, data_b);
    lemma_append_chain(la, id_b, b, data_b);
    lemma_append_chain(lb, id_a, a, data_a);
}

/// An append adds one id to the log and removes none.
pub proof fn lemma_append_keeps_ids(
    log: LogView,
    id: u128,
    owner: u128,
    data: Seq<char>,
    other: u128,
)
    requires
        log.wf(),
        !log.has(id),
    ensures
        log.append(id, owner, data).has(other) <==> other == id || log.has(other),
{
    let after = log.append(id, owner, data);
    let n = log.entries.len() as int;
    lemma_append(log, id, owner, data, owner);
    assert(after.entries[n].id == id) by {
        assert(after.holds_at(after.index_of(id), id));
        lemma_append_shape(log, id, owner, data);
    }
    if log.has(other) {
        let i = log.index_of(other);
        assert(log.holds_at(i, other));
        lemma_append_shape(log, id, owner, data);
        assert(after.holds_at(i, other));
    }
    if after.has(other) && other != id {
        let i = after.index_of(other);
        assert(after.holds_at(i, other));
        lemma_append_shape(log, id, owner, data);
        assert(log.holds_at(i, other));
    }
}

/// An append keeps every entry at its position, with its id, owner, data
/// and `prev`, and puts the new entry at the end.
pub proof fn lemma_append_shape(log: LogView, id: u128, owner: u128, data: Seq<char>)
    requires
        log.wf(),
        !log.has(id),
    ensures
        ({
            let after = log.append(id, owner, data);
            &&& after.entries.len() == log.entries.len() + 1
            &&& after.entries.last() == log.appended(id, owner, data)
            &&& forall|i: int|
                0 <= i < log.entries.len() ==> {
                    &&& (#[trigger] after.entries[i]).id == log.entries[i].id
                    &&& after.entries[i].owner == log.entries[i].owner
                    &&& after.entries[i].data == log.entries[i].data
                    &&& after.entries[i].prev == log.entries[i].prev
                }
        }),
{
    match log.frontier(owner) {
        None => {},
        Some(last) => {
            let j = lemma_last_of_owner(log.entries, owner);
            assert(log.holds_at(j, last));
            lemma_entry_position(log, j, last);
        },
    }
}

/// The chain of the owner after an append: the old chain, its last entry
/// now naming the new entry as `next`, and then the new entry.
pub proof fn lemma_append_chain(log: LogView, id: u128, owner: u128, data: Seq<char>)
    requires
        log.wf(),
        !log.has(id),
    ensures
        ({
            let before = log.chain(owner);
            let after = log.append(id, owner, data).chain(owner);
            &&& after.len() == before.len() + 1
            &&& after.last() == log.appended(id, owner, data)
            &&& forall|k: int|
                0 <= k < before.len() ==> (#[trigger] after[k]) == if k == before.len() - 1 {
                    EntryView { next: Some(id), ..before[k] }
                } else {
                    before[k]
                }
        }),
{
    let entry = log.appended(id, owner, data);
    match log.frontier(owner) {
        None => {
            lemma_chain_push(log.entries, entry, owner);
        },
        Some(last) => {
            let j = lemma_last_of_owner(log.entries, owner);
            assert(log.holds_at(j, last));
            lemma_entry_position(log, j, last);
            let relinked = EntryView { next: Some(id), ..log.entries[j] };
            lemma_chain_update_last(log.entries, owner, j, relinked);
            lemma_chain_push(log.entries.update(j, relinked), entry, owner);
        },
    }
}

/// The frontier of every owner among `entries`, as pairs of owner and
/// frontier id, in the order in which the frontiers were appended.
pub open spec fn frontiers_of(entries: Seq<EntryView>) -> Seq<(u128, u128)>
    decreases entries.len(),
{
    if entries.len() == 0 {
        Seq::empty()
    } else if entries.last().next is None {
        frontiers_of(entries.drop_last()).push((entries.last().owner, entries.last().id))
    } else {
        frontiers_of(entries.drop_last())
    }
}

/// What is shown of an entry to a reader: identifiers as text.
#[derive(Clone, Debug, PartialEq, Eq)]
pub struct EntryDescription {
    pub owner: String,
    pub prev: Option<String>,
    pub next: Option<String>,
    pub data: String,
}

/// The mathematical content of an [`EntryDescription`].
pub struct DescriptionView {
    pub owner: Seq<char>,
    pub prev: Option<Seq<char>>,
    pub next: Option<Seq<char>>,
    pub data: Seq<char>,
}

impl View for EntryDescription {
    type V = DescriptionView;

    open spec fn view(&self) -> DescriptionView {
        DescriptionView {
            owner: self.owner@,
            prev: match self.prev {
                Some(text) => Some(text@),
                None => None,
            },
            next: match self.next {
                Some(text) => Some(text@),
                None => None,
            },
            data: self.data@,
        }
    }
}

/// The text of an identifier that may be absent.
pub open spec fn text_of_link(link: Option<u128>) -> Option<Seq<char>> {
    match link {
        Some(id) => Some(uuid_text(id)),
        None => None,
    }
}

impl EntryView {
    /// What is shown of the entry to a reader.
    pub open spec fn description(self) -> DescriptionView {
        DescriptionView {
            owner: uuid_text(self.owner),
            prev: text_of_link(self.prev),
            next: text_of_link(self.next),
            data: self.data,
        }
    }
}

/// Where an entry can be read: the path of the log followed by the id.
pub open spec fn location_of(id: u128) -> Seq<char> {
    "/log/"@ + uuid_text(id)
}

/// An entry that was just appended, and where it can be read.
#[derive(Clone, Debug, PartialEq, Eq)]
pub struct Appended {
    pub entry: LogEntry,
    pub location: String,
}

/// The text of an identifier that may be absent.
fn link_text(link: Option<u128>) -> (r: Option<String>)
    ensures
        match r {
            Some(text) => text_of_link(link) == Some(text@),
            None => text_of_link(link) is None,
        },
{
    match link {
        Some(id) => Some(format_uuid(id)),
        None => None,
    }
}

impl LogEntry {
    /// A copy of the entry.
    pub fn duplicate(&self) -> (r: LogEntry)
        ensures
            r@ == self@,
    {
        LogEntry {
            id: self.id,
            owner: self.owner,
            data: self.data.clone(),
            prev: self.prev,
            next: self.next,
        }
    }

    /// What is shown of the entry to a reader: owner, `prev` and `next` as
    /// text, and the payload.
    pub fn describe(&self) -> (r: EntryDescription)
        ensures
            r@ == self@.description(),
    {
        EntryDescription {
            owner: format_uuid(self.owner),
            prev: link_text(self.prev),
            next: link_text(self.next),
            data: self.data.clone(),
        }
    }
}

/// Where the entry `id` can be read. The text after the path of the log
/// is the id in hyphenated notation, which reads back as `id`.
pub fn location(id: u128) -> (r: String)
    ensures
        r@ == location_of(id),
        uuid_from_text(uuid_text(id)) == Some(id),
{
    let text = format_uuid(id);
    "/log/".to_owned().concat(text.as_str())
}

/// What an append has to write: the new entry, and the entry that has to
/// name it as `next`.
#[derive(Clone, Debug, PartialEq, Eq)]
pub struct AppendPlan {
    /// The entry to insert.
    pub entry: LogEntry,
    /// The id of the old frontier, whose `next` becomes the id of the new
    /// entry. Both writes belong to one atomic unit.
    pub relink: Option<u128>,
}

/// Plans the append of `data` by `owner` under the id `id`, given the id
/// of the owner's frontier: the new entry names the frontier as its `prev`
/// and has no `next`, and the frontier, if there is one, is to be linked to
/// it.
pub fn plan_append(frontier: Option<u128>, id: u128, owner: u128, data: String) -> (plan:
    AppendPlan)
    ensures
        plan.entry@ == (EntryView { id, owner, data: data@, prev: frontier, next: None }),
        plan.relink == frontier,
{
    AppendPlan { entry: LogEntry { id, owner, data, prev: frontier, next: None }, relink: frontier }
}

/// The log: every entry that was ever appended, in order.
#[derive(Clone, Debug, PartialEq, Eq)]
pub struct LogStore {
    entries: Vec<LogEntry>,
}

impl View for LogStore {
    type V = LogView;

    closed spec fn view(&self) -> LogView {
        LogView { entries: self.entries@.map_values(|e: LogEntry| e@) }
    }
}

impl LogStore {
    /// The invariant of the log: see [`LogView::wf`].
    pub open spec fn wf(&self) -> bool {
        self@.wf()
    }

    /// An empty log.
    pub fn new() -> (log: LogStore)
        ensures
            log.wf(),
            log@.entries == Seq::<EntryView>::empty(),
    {
        let log = LogStore { entries: Vec::new() };
        assert(log@.entries =~= Seq::<EntryView>::empty());
        assert forall|owner: u128| linked(#[trigger] log@.chain(owner)) by {}
        log
    }

    /// The number of entries.
    pub fn len(&self) -> (n: usize)
        ensures
            n == self@.entries.len(),
    {
        self.entries.len()
    }

    /// Where the entry with the id `id` is, if the log has it.
    fn position(&self, id: u128) -> (r: Option<usize>)
        ensures
            match r {
                Some(i) => self@.holds_at(i as int, id),
                None => !self@.has(id),
            },
    {
        let mut i: usize = 0;
        while i < self.entries.len()
            invariant
                i <= self.entries@.len(),
                forall|j: int| 0 <= j < i ==> !self@.holds_at(j, id),
            decreases self.entries@.len() - i,
        {
            if self.entries[i].id == id {
                return Some(i);
            }
            i += 1;
        }
        None
    }

    /// Where the most recent entry of `owner` is, if it has written.
    fn last_of(&self, owner: u128) -> (r: Option<usize>)
        ensures
            match r {
                Some(j) => {
                    &&& j < self@.entries.len()
                    &&& self@.entries[j as int].owner == owner
                    &&& forall|k: int|
                        j < k < self@.entries.len() ==> (#[trigger] self@.entries[k]).owner
                            != owner
                },
                None => forall|k: int|
                    0 <= k < self@.entries.len() ==> (#[trigger] self@.entries[k]).owner != owner,
            },
    {
        let mut i: usize = self.entries.len();
        while i > 0
            invariant
                i <= self.entries@.len(),
                forall|k: int|
                    i <= k < self@.entries.len() ==> (#[trigger] self@.entries[k]).owner != owner,
            decreases i,
        {
            i -= 1;
            if self.entries[i].owner == owner {
                return Some(i);
            }
        }
        None
    }

    /// The id of the frontier of `owner`: of its most recent entry, if it
    /// has written at all.
    pub fn frontier(&self, owner: u128) -> (r: Option<u128>)
        ensures
            r == self@.frontier(owner),
    {
        match self.last_of(owner) {
            Some(j) => {
                proof {
                    lemma_chain_last(self@.entries, owner, j as int);
                }
                Some(self.entries[j].id)
            },
            None => {
                proof {
                    lemma_chain_empty(self@.entries, owner);
                }
                None
            },
        }
    }

    /// Appends `data` for `owner` under the id `id`.
    ///
    /// The new entry names the owner's frontier as its `prev`, or nothing
    /// if the owner has not written yet; that frontier names the new entry
    /// as its `next`; and the new entry, with no `next`, is the frontier
    /// from now on. Both changes are made together or not at all: an id
    /// that is taken ends in `AlreadyExists` and leaves the log as it was.
    pub fn append_with_id(&mut self, id: u128, owner: u128, data: String) -> (r: Result<
        LogEntry,
        Error,
    >)
        requires
            old(self).wf(),
        ensures
            final(self).wf(),
            final(self)@ == old(self)@.append(id, owner, data@),
            match r {
                Ok(entry) => !old(self)@.has(id) && entry@ == old(self)@.appended(
                    id,
                    owner,
                    data@,
                ),
                Err(e) => old(self)@.has(id) && e == Error::AlreadyExists,
            },
    {
        if let Some(i) = self.position(id) {
            assert(self@.holds_at(i as int, id));
            return Err(Error::AlreadyExists);
        }
        let ghost before = self@;
        let at = self.last_of(owner);
        let frontier = match at {
            Some(j) => {
                proof {
                    lemma_chain_last(before.entries, owner, j as int);
                    assert(before.holds_at(j as int, before.entries[j as int].id));
                    lemma_entry_position(before, j as int, before.entries[j as int].id);
                }
                Some(self.entries[j].id)
            },
            None => {
                proof {
                    lemma_chain_empty(before.entries, owner);
                }
                None
            },
        };
        let plan = plan_append(frontier, id, owner, data);
        if let Some(j) = at {
            let last = &mut self.entries[j];
            last.next = Some(plan.entry.id);
        }
        let shown = plan.entry.duplicate();
        self.entries.push(plan.entry);
        proof {
            lemma_append(before, id, owner, data@, owner);
            assert(self@.entries =~= before.append(id, owner, data@).entries);
        }
        Ok(shown)
    }

    /// Appends `data` for `owner` under a fresh random id.
    ///
    /// On success the entry returned is the one appended, under an id that
    /// the log did not hold. Should the id drawn be taken, the append ends
    /// in `AlreadyExists` and the log is left as it was. In an empty log no
    /// id is taken, so the first append of a log always succeeds.
    pub fn append(&mut self, owner: u128, data: String) -> (r: Result<LogEntry, Error>)
        requires
            old(self).wf(),
        ensures
            final(self).wf(),
            old(self)@.entries.len() == 0 ==> r is Ok,
            match r {
                Ok(entry) => {
                    &&& !old(self)@.has(entry.id)
                    &&& entry@ == old(self)@.appended(entry.id, owner, data@)
                    &&& final(self)@ == old(self)@.append(entry.id, owner, data@)
                },
                Err(e) => e == Error::AlreadyExists && final(self)@ == old(self)@,
            },
    {
        let id = random_uuid();
        self.append_with_id(id, owner, data)
    }

    /// Handles the submission of a payload by `owner`: reads `body` as
    /// JSON, appends it under a fresh id, and says where the new entry can
    /// be read.
    ///
    /// `MalformedInput` if `body` is not JSON, and `AlreadyExists` should
    /// the id drawn be taken; either way the log is left as it was. In an
    /// empty log no id is taken, so the first submission of JSON to a log
    /// always succeeds. The location ends in the text of the new id, and
    /// that text reads back as the id, so that [`LogStore::read`] finds the
    /// entry there.
    pub fn submit(&mut self, owner: u128, body: &str) -> (r: Result<Appended, Error>)
        requires
            old(self).wf(),
        ensures
            final(self).wf(),
            json_canonical(body@) is None ==> r == Err::<Appended, Error>(Error::MalformedInput),
            json_canonical(body@) is Some && old(self)@.entries.len() == 0 ==> r is Ok,
            match r {
                Ok(done) => {
                    &&& json_canonical(body@) is Some
                    &&& !old(self)@.has(done.entry.id)
                    &&& uuid_from_text(uuid_text(done.entry.id)) == Some(done.entry.id)
                    &&& done.entry@ == old(self)@.appended(
                        done.entry.id,
                        owner,
                        json_canonical(body@)->0,
                    )
                    &&& done.location@ == location_of(done.entry.id)
                    &&& final(self)@ == old(self)@.append(
                        done.entry.id,
                        owner,
                        json_canonical(body@)->0,
                    )
                },
                Err(e) => {
                    &&& final(self)@ == old(self)@
                    &&& e == if json_canonical(body@) is None {
                        Error::MalformedInput
                    } else {
                        Error::AlreadyExists
                    }
                },
            },
    {
        let data = match parse_payload(body) {
            Ok(data) => data,
            Err(e) => {
                return Err(e);
            },
        };
        match self.append(owner, data) {
            Ok(entry) => {
                let location = location(entry.id);
                Ok(Appended { entry, location })
            },
            Err(e) => Err(e),
        }
    }

    /// The entry with the id `id`, or `NotFound`. The log is not changed.
    pub fn get(&self, id: u128) -> (r: Result<LogEntry, Error>)
        requires
            self.wf(),
        ensures
            match r {
                Ok(entry) => self@.has(id) && entry@ == self@.entry(id),
                Err(e) => !self@.has(id) && e == Error::NotFound,
            },
    {
        match self.position(id) {
            Some(i) => {
                proof {
                    lemma_entry_position(self@, i as int, id);
                }
                Ok(self.entries[i].duplicate())
            },
            None => Err(Error::NotFound),
        }
    }

    /// Handles the request to read the entry whose id is written `text`:
    /// owner, `prev` and `next` as text, and the payload. `NotFound` if
    /// `text` is not an identifier or the log has no such entry.
    pub fn read(&self, text: &str) -> (r: Result<EntryDescription, Error>)
        requires
            self.wf(),
        ensures
            match r {
                Ok(shown) => {
                    &&& uuid_from_text(text@) matches Some(id)
                    &&& self@.has(id)
                    &&& shown@ == self@.entry(id).description()
                },
                Err(e) => {
                    &&& e == Error::NotFound
                    &&& uuid_from_text(text@) matches Some(id) ==> !self@.has(id)
                },
            },
    {
        let id = match parse_uuid(text) {
            Some(id) => id,
            None => {
                return Err(Error::NotFound);
            },
        };
        match self.get(id) {
            Ok(entry) => Ok(entry.describe()),
            Err(e) => Err(e),
        }
    }

    /// For every owner with at least one entry, the owner and the id of its
    /// frontier, in the order in which the frontiers were appended.
    pub fn frontiers(&self) -> (r: Vec<(u128, u128)>)
        ensures
            r@ == frontiers_of(self@.entries),
    {
        let mut out: Vec<(u128, u128)> = Vec::new();
        let mut i: usize = 0;
        assert(self@.entries.subrange(0, 0) =~= Seq::<EntryView>::empty());
        while i < self.entries.len()
            invariant
                i <= self.entries@.len(),
                out@ == frontiers_of(self@.entries.subrange(0, i as int)),
            decreases self.entries@.len() - i,
        {
            proof {
                let upto = self@.entries.subrange(0, i + 1);
                assert(upto.drop_last() =~= self@.entries.subrange(0, i as int));
                assert(upto.last() == self@.entries[i as int]);
            }
            if self.entries[i].next.is_none() {
                out.push((self.entries[i].owner, self.entries[i].id));
            }
            i += 1;
        }
        assert(self@.entries.subrange(0, i as int) =~= self@.entries);
        out
    }

    /// The status of the log: for every owner with at least one entry, the
    /// owner and the id of its frontier, both as text.
    pub fn status(&self) -> (r: Vec<(String, String)>)
        ensures
            r@.len() == frontiers_of(self@.entries).len(),
            forall|k: int|
                0 <= k < r@.len() ==> {
                    &&& (#[trigger] r@[k]).0@ == uuid_text(frontiers_of(self@.entries)[k].0)
                    &&& r@[k].1@ == uuid_text(frontiers_of(self@.entries)[k].1)
                },
    {
        let pairs = self.frontiers();
        let mut out: Vec<(String, String)> = Vec::new();
        let mut i: usize = 0;
        while i < pairs.len()
            invariant
                i <= pairs@.len(),
                out@.len() == i,
                forall|k: int|
                    0 <= k < i ==> {
                        &&& (#[trigger] out@[k]).0@ == uuid_text(pairs@[k].0)
                        &&& out@[k].1@ == uuid_text(pairs@[k].1)
                    },
            decreases pairs@.len() - i,
        {
            out.push((format_uuid(pairs[i].0), format_uuid(pairs[i].1)));
            i += 1;
        }
        out
    }
}

/// The listing of frontiers names the frontier of every owner, and nothing
/// else: a pair of owner and id is listed exactly when the id is that of
/// the owner's frontier; and no owner is listed twice.
pub proof fn lemma_frontiers(log: LogView, owner: u128, id: u128)
    requires
        log.wf(),
    ensures
        frontiers_of(log.entries).contains((owner, id)) <==> log.frontier(owner) == Some(id),
        forall|a: int, b: int|
            0 <= a < b < frontiers_of(log.entries).len() ==> (#[trigger] frontiers_of(
                log.entries,
            )[a]).0 != (#[trigger] frontiers_of(log.entries)[b]).0,
{
    let listed = frontiers_of(log.entries);
    if listed.contains((owner, id)) {
        let a = choose|a: int| 0 <= a < listed.len() && listed[a] == (owner, id);
        let i = lemma_frontier_listed(log.entries, a);
        lemma_frontier_entry(log, i);
    }
    if log.frontier(owner) == Some(id) {
        let c = log.chain(owner);
        let i = lemma_chain_member(log.entries, owner, c.len() - 1);
        assert(linked(c));
        assert(c[c.len() - 1].next is None);
        let a = lemma_entry_listed(log.entries, i);
        assert(listed[a] == (owner, id));
    }
    assert forall|a: int, b: int| 0 <= a < b < listed.len() implies (#[trigger] listed[a]).0 != (
    #[trigger] listed[b]).0 by {
        let i = lemma_frontier_listed(log.entries, a);
        let j = lemma_frontier_listed(log.entries, b);
        lemma_frontier_entry(log, i);
        lemma_frontier_entry(log, j);
        if listed[a].0 == listed[b].0 {
            assert(log.entries[i].id == log.entries[j].id);
            if i < j {
                assert(log.entries[i].id != log.entries[j].id);
            } else if j < i {
                assert(log.entries[j].id != log.entries[i].id);
            }
        }
    }
}

/// The status of the log is a mapping: no two places of the listing of
/// frontiers name their owner with the same text.
pub proof fn lemma_status_is_mapping(log: LogView, a: int, b: int)
    requires
        log.wf(),
        0 <= a < b < frontiers_of(log.entries).len(),
    ensures
        uuid_text(frontiers_of(log.entries)[a].0) != uuid_text(frontiers_of(log.entries)[b].0),
{
    let listed = frontiers_of(log.entries);
    lemma_frontiers(log, 0, 0);
    assert(listed[a].0 != listed[b].0);
    lemma_uuid_text_injective(listed[a].0, listed[b].0);
}

/// An entry without `next` is the frontier of its owner.
pub proof fn lemma_frontier_entry(log: LogView, i: int)
    requires
        log.wf(),
        0 <= i < log.entries.len(),
        log.entries[i].next is None,
    ensures
        log.frontier(log.entries[i].owner) == Some(log.entries[i].id),
{
    let owner = log.entries[i].owner;
    let c = log.chain(owner);
    let k = lemma_member_chain(log.entries, i);
    assert(linked(c));
    assert(c[k].next is None);
}

/// Every pair that is listed comes from an entry without `next`, and pairs
/// are listed in the order of their entries.
pub proof fn lemma_frontier_listed(entries: Seq<EntryView>, a: int) -> (i: int)
    requires
        0 <= a < frontiers_of(entries).len(),
    ensures
        0 <= i < entries.len(),
        entries[i].next is None,
        frontiers_of(entries)[a] == (entries[i].owner, entries[i].id),
        frontiers_of(entries.subrange(0, i)).len() == a,
    decreases entries.len(),
{
    let rest = entries.drop_last();
    let listed = frontiers_of(entries);
    if entries.last().next is None && a == listed.len() - 1 {
        let i = entries.len() - 1;
        assert(entries.subrange(0, i) =~= rest);
        i
    } else {
        let i = lemma_frontier_listed(rest, a);
        assert(rest.subrange(0, i) =~= entries.subrange(0, i));
        i
    }
}

/// Every entry without `next` is listed.
pub proof fn lemma_entry_listed(entries: Seq<EntryView>, i: int) -> (a: int)
    requires
        0 <= i < entries.len(),
        entries[i].next is None,
    ensures
        0 <= a < frontiers_of(entries).len(),
        frontiers_of(entries)[a] == (entries[i].owner, entries[i].id),
    decreases entries.len(),
{
    let rest = entries.drop_last();
    if i == entries.len() - 1 {
        frontiers_of(rest).len() as int
    } else {
        lemma_entry_listed(rest, i)
    }
}

} // verus!
