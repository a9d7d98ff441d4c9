//! Rolling shared recovery: a bounded, most-recent-last list of checkpoints.
//! Transient focus and highlight actions are not recorded.
use std::sync::Arc;

use vstd::prelude::*;

use crate::bound::BoundInfo;
use crate::shared::{RevisionStamp, ViewReference};
use crate::text::decimal_string;

verus! {

/// Checkpoints the history keeps.
pub const MAX_HISTORY_ENTRIES: usize = 20;

/// Bytes the kept checkpoints may hold together.
pub const MAX_HISTORY_BYTES: usize = 16777216;

/// What one recorded change did.
#[derive(Debug, Clone, PartialEq)]
pub struct HistoryAction {
    pub kind: String,
    pub label: Option<String>,
    pub target: Option<ViewReference>,
    pub node_type: Option<String>,
    pub relationship: Option<String>,
    pub direction: Option<String>,
    pub query: Option<String>,
    pub query_truncated: bool,
    pub nodes: Option<BoundInfo>,
    pub relations: Option<BoundInfo>,
}

impl HistoryAction {
    /// An action of `kind` with an optional label and nothing else recorded.
    pub fn named(kind: &str, label: Option<&str>) -> (a: Self)
        ensures
            a.kind@ == kind@,
            match label {
                Some(l) => a.label matches Some(m) && m@ == l@,
                None => a.label is None,
            },
            a.target is None,
            a.node_type is None,
            a.relationship is None,
            a.direction is None,
            a.query is None,
            !a.query_truncated,
            a.nodes is None,
            a.relations is None,
    {
        HistoryAction {
            kind: kind.to_owned(),
            label: match label {
                Some(l) => Some(l.to_owned()),
                None => None,
            },
            target: None,
            node_type: None,
            relationship: None,
            direction: None,
            query: None,
            query_truncated: false,
            nodes: None,
            relations: None,
        }
    }
}

/// One recorded change, between two revisions.
#[derive(Debug, Clone, PartialEq)]
pub struct HistoryEntry {
    pub id: String,
    pub before: RevisionStamp,
    pub after: RevisionStamp,
    pub action: HistoryAction,
}

/// What a client is shown of the history.
#[derive(Debug, Clone, PartialEq)]
pub struct HistorySnapshot {
    pub entries: Vec<HistoryEntry>,
    pub oldest_available: Option<String>,
    pub evicted_count: String,
}

/// The history beside the stamp it describes.
#[derive(Debug, Clone, PartialEq)]
pub struct HistoryState {
    pub stamp: RevisionStamp,
    pub history: HistorySnapshot,
}

/// One kept checkpoint: its summary, the state it restores, and what the
/// state was measured to cost.
#[derive(Debug)]
pub struct Checkpoint<S> {
    pub summary: HistoryEntry,
    pub state: Arc<S>,
    pub bytes: usize,
}

/// Bytes of every checkpoint in `entries`.
pub open spec fn total_bytes<S>(entries: Seq<Checkpoint<S>>) -> nat
    decreases entries.len(),
{
    if entries.len() == 0 {
        0
    } else {
        entries[0].bytes as nat + total_bytes(entries.drop_first())
    }
}

proof fn lemma_total_push<S>(entries: Seq<Checkpoint<S>>, c: Checkpoint<S>)
    ensures
        total_bytes(entries.push(c)) == total_bytes(entries) + c.bytes,
    decreases entries.len(),
{
    if entries.len() > 0 {
        assert(entries.push(c).drop_first() =~= entries.drop_first().push(c));
        assert(entries.push(c)[0] == entries[0]);
        lemma_total_push(entries.drop_first(), c);
    } else {
        assert(entries.push(c).drop_first() =~= Seq::<Checkpoint<S>>::empty());
        assert(entries.push(c)[0] == c);
        assert(total_bytes(Seq::<Checkpoint<S>>::empty()) == 0);
    }
}

/// How many oldest checkpoints a push of `bytes` evicts first: while any
/// remain and the count or byte ceiling would be exceeded.
pub open spec fn evictions<S>(entries: Seq<Checkpoint<S>>, bytes: nat) -> nat
    decreases entries.len(),
{
    if entries.len() > 0 && (entries.len() >= MAX_HISTORY_ENTRIES || total_bytes(entries) + bytes
        > MAX_HISTORY_BYTES) {
        1 + evictions(entries.drop_first(), bytes)
    } else {
        0
    }
}

/// `a + b`, capped at `u64::MAX`.
pub open spec fn sat_add(a: u64, b: nat) -> u64 {
    if a + b > u64::MAX {
        u64::MAX
    } else {
        (a + b) as u64
    }
}

/// A bounded rolling list of recovery checkpoints, oldest first.
#[derive(Debug)]
pub struct RecoveryHistory<S> {
    entries: Vec<Checkpoint<S>>,
    bytes: usize,
    evicted: u64,
}

impl<S> RecoveryHistory<S> {
    /// The kept checkpoints, oldest first.
    pub closed spec fn entries(&self) -> Seq<Checkpoint<S>> {
        self.entries@
    }

    /// Checkpoints evicted or refused so far.
    pub closed spec fn evicted(&self) -> u64 {
        self.evicted
    }

    /// The kept checkpoints respect both ceilings, and the byte count is
    /// their sum.
    pub closed spec fn wf(&self) -> bool {
        &&& self.entries@.len() <= MAX_HISTORY_ENTRIES
        &&& self.bytes == total_bytes(self.entries@)
        &&& self.bytes <= MAX_HISTORY_BYTES
    }

    /// The history never holds more than its entry ceiling, nor more bytes
    /// of checkpoints than its byte ceiling.
    pub proof fn lemma_bounded(&self)
        requires
            self.wf(),
        ensures
            self.entries().len() <= MAX_HISTORY_ENTRIES,
            total_bytes(self.entries()) <= MAX_HISTORY_BYTES,
    {
    }

    pub fn new() -> (h: Self)
        ensures
            h.wf(),
            h.entries() == Seq::<Checkpoint<S>>::empty(),
            h.evicted() == 0,
    {
        RecoveryHistory { entries: Vec::new(), bytes: 0, evicted: 0 }
    }

    /// The summaries a client is shown, the oldest still restorable, and how
    /// many were evicted.
    pub fn snapshot(&self) -> (s: HistorySnapshot)
        requires
            self.wf(),
        ensures
            s.entries@ == self.entries().map_values(|c: Checkpoint<S>| c.summary),
            match s.oldest_available {
                Some(id) => self.entries().len() > 0 && id@ == self.entries()[0].summary.id@,
                None => self.entries().len() == 0,
            },
            s.evicted_count@ == crate::text::spec_decimal(self.evicted() as nat),
    {
        let mut entries: Vec<HistoryEntry> = Vec::new();
        let mut i: usize = 0;
        while i < self.entries.len()
            invariant
                i <= self.entries@.len(),
                entries@ == self.entries@.take(i as int).map_values(
                    |c: Checkpoint<S>| c.summary,
                ),
            decreases self.entries@.len() - i,
        {
            entries.push(clone_entry(&self.entries[i].summary));
            assert(self.entries@.take(i + 1) =~= self.entries@.take(i as int).push(
                self.entries@[i as int],
            ));
            i = i + 1;
        }
        assert(self.entries@.take(self.entries@.len() as int) =~= self.entries@);
        let oldest_available = if self.entries.len() > 0 {
            Some(self.entries[0].summary.id.clone())
        } else {
            None
        };
        HistorySnapshot {
            entries,
            oldest_available,
            evicted_count: decimal_string(self.evicted),
        }
    }

    /// Record a checkpoint, evicting the oldest while either ceiling would be
    /// exceeded. A single checkpoint over the byte ceiling is not kept and
    /// counts as evicted.
    pub fn push(&mut self, summary: HistoryEntry, state: S, bytes: usize)
        requires
            old(self).wf(),
        ensures
            final(self).wf(),
            ({
                let e = evictions(old(self).entries(), bytes as nat);
                let rest = old(self).entries().skip(e as int);
                let after = final(self).entries();
                let evicted = final(self).evicted();
                &&& e <= old(self).entries().len()
                &&& bytes > MAX_HISTORY_BYTES ==> after == rest && evicted == sat_add(
                    sat_add(old(self).evicted(), e),
                    1,
                )
                &&& bytes <= MAX_HISTORY_BYTES ==> {
                    &&& after.len() == rest.len() + 1
                    &&& after.take(rest.len() as int) == rest
                    &&& after.last().summary == summary
                    &&& *after.last().state == state
                    &&& after.last().bytes == bytes
                    &&& evicted == sat_add(old(self).evicted(), e)
                }
            }),
    {
        let ghost start = self.entries@;
        let ghost start_evicted = self.evicted;
        let mut removed: usize = 0;
        while self.entries.len() > 0 && (self.entries.len() >= MAX_HISTORY_ENTRIES
            || self.bytes.saturating_add(bytes) > MAX_HISTORY_BYTES)
            invariant
                removed <= start.len(),
                start.len() <= MAX_HISTORY_ENTRIES,
                self.entries@ == start.skip(removed as int),
                self.bytes == total_bytes(self.entries@),
                self.bytes <= MAX_HISTORY_BYTES,
                self.entries@.len() <= MAX_HISTORY_ENTRIES,
                evictions(start, bytes as nat) == removed + evictions(self.entries@, bytes as nat),
                self.evicted == sat_add(start_evicted, removed as nat),
            decreases self.entries@.len(),
        {
            let ghost cur = self.entries@;
            assert(start.skip(removed as int).len() == start.len() - removed);
            let first = self.entries.remove(0);
            assert(self.entries@ =~= cur.drop_first());
            assert(start.skip(removed + 1) =~= cur.drop_first());
            self.bytes = self.bytes - first.bytes;
            self.evicted = self.evicted.saturating_add(1);
            removed = removed + 1;
        }
        if bytes > MAX_HISTORY_BYTES {
            self.evicted = self.evicted.saturating_add(1);
            return ;
        }
        let ghost cur = self.entries@;
        let c = Checkpoint { summary, state: Arc::new(state), bytes };
        proof {
            lemma_total_push(cur, c);
        }
        self.bytes = self.bytes + bytes;
        self.entries.push(c);
        assert(self.entries@.take(cur.len() as int) =~= cur);
    }

    /// The state of the checkpoint whose id is `id`, oldest first.
    pub fn get(&self, id: &str) -> (r: Option<Arc<S>>)
        ensures
            match r {
                Some(s) => exists|i: int|
                    0 <= i < self.entries().len() && #[trigger] self.entries()[i].summary.id@ == id@
                        && *self.entries()[i].state == *s && forall|j: int|
                        0 <= j < i ==> self.entries()[j].summary.id@ != id@,
                None => forall|i: int|
                    0 <= i < self.entries().len() ==> #[trigger] self.entries()[i].summary.id@
                        != id@,
            },
    {
        let mut i: usize = 0;
        while i < self.entries.len()
            invariant
                i <= self.entries@.len(),
                forall|j: int| 0 <= j < i ==> #[trigger] self.entries@[j].summary.id@ != id@,
            decreases self.entries@.len() - i,
        {
            if crate::export::str_eq(self.entries[i].summary.id.as_str(), id) {
                return Some(share(&self.entries[i].state));
            }
            i = i + 1;
        }
        None
    }
}

/// The kept checkpoints `kept` leave room for one more of `bytes` bytes:
/// below the entry ceiling, and within the byte ceiling with it.
pub open spec fn room_for<S>(kept: Seq<Checkpoint<S>>, bytes: nat) -> bool {
    kept.len() < MAX_HISTORY_ENTRIES && total_bytes(kept) + bytes <= MAX_HISTORY_BYTES
}

/// A push evicts the fewest oldest checkpoints it can: after its evictions
/// there is room for the new one (or nothing is left to evict), and after
/// any fewer there is not.
pub proof fn lemma_evictions_fewest<S>(entries: Seq<Checkpoint<S>>, bytes: nat)
    ensures
        evictions(entries, bytes) <= entries.len(),
        evictions(entries, bytes) == entries.len() || room_for(
            entries.skip(evictions(entries, bytes) as int),
            bytes,
        ),
        forall|k: int|
            0 <= k < evictions(entries, bytes) ==> !room_for(#[trigger] entries.skip(k), bytes),
    decreases entries.len(),
{
    assert(entries.skip(0) =~= entries);
    if entries.len() > 0 && !room_for(entries, bytes) {
        let rest = entries.drop_first();
        lemma_evictions_fewest(rest, bytes);
        assert forall|k: int| 0 <= k < evictions(entries, bytes) implies !room_for(
            #[trigger] entries.skip(k),
            bytes,
        ) by {
            if k > 0 {
                assert(entries.skip(k) =~= rest.skip(k - 1));
            }
        }
        assert(entries.skip(evictions(entries, bytes) as int) =~= rest.skip(
            evictions(rest, bytes) as int,
        ));
    }
}

/// A checkpoint within the byte ceiling can be restored right after it is
/// recorded: when no kept checkpoint shares its id, the first checkpoint
/// with that id (the one `get` restores) is the new one, holding its state.
pub proof fn lemma_recorded_checkpoint_restorable<S>(
    rest: Seq<Checkpoint<S>>,
    after: Seq<Checkpoint<S>>,
    summary: HistoryEntry,
    state: S,
)
    requires
        after.len() == rest.len() + 1,
        after.take(rest.len() as int) == rest,
        after.last().summary == summary,
        *after.last().state == state,
        forall|i: int| 0 <= i < rest.len() ==> #[trigger] rest[i].summary.id@ != summary.id@,
    ensures
        exists|i: int| 0 <= i < after.len() && #[trigger] after[i].summary.id@ == summary.id@,
        forall|i: int|
            0 <= i < after.len() && #[trigger] after[i].summary.id@ == summary.id@ ==> *after[i].state
                == state,
{
    let n = rest.len() as int;
    assert(after[n].summary.id@ == summary.id@);
    assert forall|i: int| 0 <= i < after.len() && #[trigger] after[i].summary.id@ == summary.id@ implies *after[i].state
        == state by {
        if i < n {
            assert(after[i] == after.take(n)[i]);
            assert(rest[i].summary.id@ != summary.id@);
        }
    }
}

fn clone_string(s: &String) -> (r: String)
    ensures
        r == *s,
{
    s.clone()
}

fn clone_opt_string(s: &Option<String>) -> (r: Option<String>)
    ensures
        r == *s,
{
    match s {
        Some(v) => Some(v.clone()),
        None => None,
    }
}

fn clone_stamp(s: &RevisionStamp) -> (r: RevisionStamp)
    ensures
        r == *s,
{
    RevisionStamp { generation: s.generation.clone(), revision: s.revision.clone() }
}

fn clone_reference(r: &Option<ViewReference>) -> (c: Option<ViewReference>)
    ensures
        c == *r,
{
    match r {
        Some(ViewReference::Node { handle }) => Some(
            ViewReference::Node {
                handle: crate::shared::NodeHandle {
                    generation: handle.generation.clone(),
                    node_id: handle.node_id,
                },
            },
        ),
        Some(ViewReference::Type { name }) => Some(ViewReference::Type { name: name.clone() }),
        None => None,
    }
}

/// A field-by-field copy of a history entry.
pub fn clone_entry(e: &HistoryEntry) -> (c: HistoryEntry)
    ensures
        c == *e,
{
    HistoryEntry {
        id: clone_string(&e.id),
        before: clone_stamp(&e.before),
        after: clone_stamp(&e.after),
        action: HistoryAction {
            kind: clone_string(&e.action.kind),
            label: clone_opt_string(&e.action.label),
            target: clone_reference(&e.action.target),
            node_type: clone_opt_string(&e.action.node_type),
            relationship: clone_opt_string(&e.action.relationship),
            direction: clone_opt_string(&e.action.direction),
            query: clone_opt_string(&e.action.query),
            query_truncated: e.action.query_truncated,
            nodes: e.action.nodes,
            relations: e.action.relations,
        },
    }
}

/// `Arc::clone`: another handle on the same shared state.
#[verifier::external_body]
fn share<S>(state: &Arc<S>) -> (r: Arc<S>)
    ensures
        *r == **state,
{
    Arc::clone(state)
}

} // verus!
