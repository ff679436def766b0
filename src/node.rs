//! Decisions of the Raft node loop. The loop itself (waiting on channels,
//! the consensus algorithm, the clock) runs outside; it hands these
//! functions plain values and carries out what they return.
use vstd::prelude::*;
use crate::match_engine::StateMachine;

verus! {

/// Interval between two ticks of the consensus algorithm, in milliseconds.
pub const TICK_INTERVAL_MS: u64 = 100;

/// Minimum interval between two snapshots, in milliseconds.
pub const SAVE_SNAPSHOT_INTERVAL_MS: u64 = 60000;

/// Settings handed to the consensus algorithm.
#[derive(Clone, Copy, Debug, PartialEq, Eq, Structural)]
pub struct RaftSettings {
    pub id: u64,
    /// Ticks without a leader before an election starts.
    pub election_tick: u64,
    /// Ticks between two heartbeats of a leader.
    pub heartbeat_tick: u64,
    /// Index of the last entry applied to the state machine.
    pub applied: u64,
}

/// The settings of node `id` that has applied up to `applied`.
pub fn default_config(id: u64, applied: u64) -> (r: RaftSettings)
    ensures
        r == (RaftSettings { id, election_tick: 10, heartbeat_tick: 3, applied }),
{
    RaftSettings { id, election_tick: 10, heartbeat_tick: 3, applied }
}

/// The kinds of peer messages that matter to a node that has no state yet.
#[derive(Clone, Copy, Debug, PartialEq, Eq, Structural)]
pub enum MessageKind {
    RequestVote,
    RequestPreVote,
    Heartbeat,
    Other,
}

/// Whether a message can start a node: a (pre-)vote request, or a
/// heartbeat that carries no commit index.
pub fn is_initial_msg(kind: MessageKind, commit: u64) -> (r: bool)
    ensures
        r == (kind == MessageKind::RequestVote || kind == MessageKind::RequestPreVote
            || (kind == MessageKind::Heartbeat && commit == 0)),
{
    match kind {
        MessageKind::RequestVote | MessageKind::RequestPreVote => true,
        MessageKind::Heartbeat => commit == 0,
        MessageKind::Other => false,
    }
}

/// What the store starts from.
#[derive(Clone, Copy, Debug, PartialEq, Eq, Structural)]
pub enum StartupSnapshot {
    /// Load the snapshot file.
    Load,
    /// Install a synthetic snapshot at index 1, term 1, with this node as
    /// the only voter.
    Bootstrap,
    /// Start empty and catch up from the leader.
    Empty,
}

/// A saved snapshot wins; else a bootstrap leader seeds its own.
pub fn startup_snapshot(snapshot_exists: bool, bootstrap: bool) -> (r: StartupSnapshot)
    ensures
        snapshot_exists ==> r == StartupSnapshot::Load,
        !snapshot_exists && bootstrap ==> r == StartupSnapshot::Bootstrap,
        !snapshot_exists && !bootstrap ==> r == StartupSnapshot::Empty,
{
    if snapshot_exists {
        StartupSnapshot::Load
    } else if bootstrap {
        StartupSnapshot::Bootstrap
    } else {
        StartupSnapshot::Empty
    }
}

/// A submitted proposal waiting for its entry to be applied: `id` names
/// its waiting client, `proposed` is the log index it was given.
#[derive(Clone, Copy, Debug, PartialEq, Eq, Structural)]
pub struct InFlight {
    pub id: u64,
    pub proposed: u64,
}

/// The log index a submission got, from the next free index before and
/// after it: the one before, unless it did not move (the proposal was
/// refused).
pub fn submission_index(next_before: u64, next_after: u64) -> (r: Option<u64>)
    ensures
        next_after == next_before ==> r is None,
        next_after != next_before ==> r == Some(next_before),
{
    if next_after == next_before {
        None
    } else {
        Some(next_before)
    }
}

/// The queued proposals whose index has been applied, in queue order.
pub open spec fn released_of(q: Seq<InFlight>, last_applied: u64) -> Seq<InFlight> {
    q.filter(|p: InFlight| p.proposed <= last_applied)
}

/// The queued proposals still waiting, in queue order.
pub open spec fn pending_of(q: Seq<InFlight>, last_applied: u64) -> Seq<InFlight> {
    q.filter(|p: InFlight| p.proposed > last_applied)
}

/// Queues a submitted proposal behind the others.
pub fn enqueue_proposal(queue: &mut Vec<InFlight>, id: u64, proposed: u64)
    ensures
        final(queue)@ == old(queue)@.push(InFlight { id, proposed }),
{
    queue.push(InFlight { id, proposed });
}

/// Releases every queued proposal whose index has been applied
/// (`proposed <= last_applied`), whatever its place in the queue; returns
/// their ids in queue order and keeps the others in order.
pub fn notice_proposed(last_applied: u64, queue: &mut Vec<InFlight>) -> (r: Vec<u64>)
    ensures
        r@ == released_of(old(queue)@, last_applied).map_values(|p: InFlight| p.id),
        final(queue)@ == pending_of(old(queue)@, last_applied),
{
    let ghost q0 = queue@;
    let mut kept: Vec<InFlight> = Vec::new();
    let mut done: Vec<u64> = Vec::new();
    let n = queue.len();
    let mut k: usize = 0;
    while k < n
        invariant
            n == q0.len(),
            queue@ == q0,
            0 <= k <= n,
            done@ == q0.subrange(0, k as int).filter(|p: InFlight| p.proposed <= last_applied).map_values(|p: InFlight| p.id),
            kept@ == q0.subrange(0, k as int).filter(|p: InFlight| p.proposed > last_applied),
        decreases n - k,
    {
        let p = queue[k];
        proof {
            let s = q0.subrange(0, k + 1);
            assert(s.drop_last() =~= q0.subrange(0, k as int));
            reveal(Seq::filter);
        }
        if p.proposed <= last_applied {
            let ghost d0 = done@;
            done.push(p.id);
            proof {
                let f = q0.subrange(0, k as int).filter(|p: InFlight| p.proposed <= last_applied);
                assert(f.push(p).map_values(|p: InFlight| p.id) =~= d0.push(p.id));
            }
        } else {
            kept.push(p);
        }
        k += 1;
    }
    proof {
        assert(q0.subrange(0, n as int) =~= q0);
    }
    *queue = kept;
    done
}

/// Every proposal that `notice_proposed` releases has its log index at or
/// below the last applied index, so the entry it was given is committed
/// and applied; and none that stays queued has.
pub proof fn lemma_released_were_applied(q: Seq<InFlight>, last_applied: u64)
    ensures
        forall|i: int| 0 <= i < released_of(q, last_applied).len()
            ==> (#[trigger] released_of(q, last_applied)[i]).proposed <= last_applied,
        forall|i: int| 0 <= i < pending_of(q, last_applied).len()
            ==> (#[trigger] pending_of(q, last_applied)[i]).proposed > last_applied,
        released_of(q, last_applied).len() + pending_of(q, last_applied).len() == q.len(),
    decreases q.len(),
{
    assert forall|i: int| 0 <= i < released_of(q, last_applied).len()
        implies (#[trigger] released_of(q, last_applied)[i]).proposed <= last_applied by {
        q.lemma_filter_pred(|p: InFlight| p.proposed <= last_applied, i);
    }
    assert forall|i: int| 0 <= i < pending_of(q, last_applied).len()
        implies (#[trigger] pending_of(q, last_applied)[i]).proposed > last_applied by {
        q.lemma_filter_pred(|p: InFlight| p.proposed > last_applied, i);
    }
    reveal(Seq::filter);
    if q.len() > 0 {
        lemma_released_were_applied(q.drop_last(), last_applied);
    }
}

/// What the loop does with its queue when its role changes: a node that
/// stops being leader fails every queued proposal (their entries may be
/// superseded by the new leader's), returning their ids in queue order and
/// leaving the queue empty; otherwise nothing fails.
pub fn on_role_change(was_leader: bool, is_leader: bool, queue: &mut Vec<InFlight>) -> (failed: Vec<u64>)
    ensures
        was_leader && !is_leader ==> failed@ == old(queue)@.map_values(|p: InFlight| p.id)
            && final(queue)@.len() == 0,
        !(was_leader && !is_leader) ==> failed@.len() == 0 && final(queue)@ == old(queue)@,
{
    let mut failed: Vec<u64> = Vec::new();
    if !(was_leader && !is_leader) {
        return failed;
    }
    let n = queue.len();
    let mut k: usize = 0;
    while k < n
        invariant
            n == queue@.len(),
            0 <= k <= n,
            failed@ == queue@.subrange(0, k as int).map_values(|p: InFlight| p.id),
        decreases n - k,
    {
        failed.push(queue[k].id);
        proof {
            assert(failed@ =~= queue@.subrange(0, k + 1).map_values(|p: InFlight| p.id));
        }
        k += 1;
    }
    proof {
        assert(queue@.subrange(0, n as int) =~= queue@);
    }
    queue.clear();
    failed
}

/// Whether a proposal is submitted: only a leader submits; on any other
/// node it fails at once.
pub fn accepts_proposals(is_leader: bool) -> (r: bool)
    ensures
        r == is_leader,
{
    is_leader
}

/// Whether the loop is due a tick, `since_tick_ms` after the last one.
pub fn tick_due(since_tick_ms: u64) -> (r: bool)
    ensures
        r == (since_tick_ms >= TICK_INTERVAL_MS),
{
    since_tick_ms >= TICK_INTERVAL_MS
}

/// Whether the loop is due a snapshot: the interval has passed since the
/// last one and entries were applied after it.
pub fn snapshot_due(since_snapshot_ms: u64, last_snapshot_index: u64, applied: u64) -> (r: bool)
    ensures
        r == (since_snapshot_ms >= SAVE_SNAPSHOT_INTERVAL_MS && last_snapshot_index < applied),
{
    since_snapshot_ms >= SAVE_SNAPSHOT_INTERVAL_MS && last_snapshot_index < applied
}

/// A committed log entry as the loop hands it over.
#[derive(Debug)]
pub struct CommittedEntry {
    pub index: u64,
    /// Whether the entry changes the cluster's membership.
    pub conf_change: bool,
    pub data: Vec<u8>,
}

/// Index of the last entry of `es` that carries data (0 if none does).
pub open spec fn last_with_data(es: Seq<CommittedEntry>) -> u64
    decreases es.len(),
{
    if es.len() == 0 {
        0
    } else if es.last().data@.len() > 0 {
        es.last().index
    } else {
        last_with_data(es.drop_last())
    }
}

/// The payloads of the membership changes among `es` that carry data, in order.
pub open spec fn conf_changes_of(es: Seq<CommittedEntry>) -> Seq<Seq<u8>>
    decreases es.len(),
{
    if es.len() == 0 {
        Seq::empty()
    } else if es.last().data@.len() > 0 && es.last().conf_change {
        conf_changes_of(es.drop_last()).push(es.last().data@)
    } else {
        conf_changes_of(es.drop_last())
    }
}

/// The entries for the state machine among `es`, in order: those that
/// carry data and change no membership, as (index, data).
pub open spec fn normal_entries(es: Seq<CommittedEntry>) -> Seq<(u64, Seq<u8>)>
    decreases es.len(),
{
    if es.len() == 0 {
        Seq::empty()
    } else if es.last().data@.len() > 0 && !es.last().conf_change {
        normal_entries(es.drop_last()).push((es.last().index, es.last().data@))
    } else {
        normal_entries(es.drop_last())
    }
}

/// State machine `s1` is `s0` after applying `es` in order, each once:
/// there are states from `s0` to `s1`, one step per entry.
pub open spec fn runs<S: StateMachine>(s0: S, s1: S, es: Seq<(u64, Seq<u8>)>) -> bool {
    exists|states: Seq<S>| #[trigger] states.len() == es.len() + 1 && states[0] == s0
        && states[es.len() as int] == s1
        && forall|i: int| 0 <= i < es.len() ==> S::step(#[trigger] states[i], states[i + 1], es[i].0, es[i].1)
}

proof fn lemma_runs_empty<S: StateMachine>(s0: S)
    ensures
        runs(s0, s0, Seq::empty()),
{
    let states = seq![s0];
    assert(states.len() == 1 && states[0] == s0);
}

proof fn lemma_runs_push<S: StateMachine>(s0: S, mid: S, s1: S, es: Seq<(u64, Seq<u8>)>, x: (u64, Seq<u8>))
    requires
        runs(s0, mid, es),
        S::step(mid, s1, x.0, x.1),
    ensures
        runs(s0, s1, es.push(x)),
{
    let states = choose|states: Seq<S>| #[trigger] states.len() == es.len() + 1 && states[0] == s0
        && states[es.len() as int] == mid
        && forall|i: int| 0 <= i < es.len() ==> S::step(#[trigger] states[i], states[i + 1], es[i].0, es[i].1);
    let t = states.push(s1);
    let f = es.push(x);
    assert forall|i: int| 0 <= i < f.len() implies S::step(#[trigger] t[i], t[i + 1], f[i].0, f[i].1) by {
        if i < es.len() {
            assert(t[i] == states[i] && t[i + 1] == states[i + 1] && f[i] == es[i]);
        }
    }
    assert(t.len() == f.len() + 1 && t[0] == s0 && t[f.len() as int] == s1);
}

/// Applies committed entries in order: entries without data (leader
/// no-ops) are skipped, membership changes are handed back in order for
/// the consensus algorithm, and every other entry goes to the state
/// machine. Returns the index of the last entry that carried data (0 if
/// none did) and the membership changes.
pub fn handle_committed_entries<S: StateMachine>(sm: &mut S, entries: Vec<CommittedEntry>) -> (r: (u64, Vec<Vec<u8>>))
    requires
        old(sm).inv(),
    ensures
        final(sm).inv(),
        runs(*old(sm), *final(sm), normal_entries(entries@)),
        r.0 == last_with_data(entries@),
        r.1@.map_values(|d: Vec<u8>| d@) == conf_changes_of(entries@),
{
    let ghost all = entries@;
    let ghost s0 = *sm;
    proof {
        lemma_runs_empty(s0);
        assert(normal_entries(all.subrange(0, 0)) =~= Seq::<(u64, Seq<u8>)>::empty());
    }
    let mut entries = entries;
    let mut last: u64 = 0;
    let mut changes: Vec<Vec<u8>> = Vec::new();
    let n = entries.len();
    let mut k: usize = 0;
    while k < n
        invariant
            n == all.len(),
            0 <= k <= n,
            entries@ == all.skip(k as int),
            sm.inv(),
            runs(s0, *sm, normal_entries(all.subrange(0, k as int))),
            last == last_with_data(all.subrange(0, k as int)),
            changes@.map_values(|d: Vec<u8>| d@) == conf_changes_of(all.subrange(0, k as int)),
        decreases n - k,
    {
        let e = entries.remove(0);
        proof {
            assert(entries@ =~= all.skip(k + 1));
            let s = all.subrange(0, k + 1);
            assert(s.drop_last() =~= all.subrange(0, k as int));
            assert(s.last() == e);
        }
        if e.data.len() > 0 {
            if e.conf_change {
                let ghost c0 = changes@;
                let ghost d = e.data@;
                changes.push(e.data);
                proof {
                    assert(changes@.map_values(|d: Vec<u8>| d@) =~= c0.map_values(|d: Vec<u8>| d@).push(d));
                }
            } else {
                let ghost mid = *sm;
                let ghost before = normal_entries(all.subrange(0, k as int));
                sm.apply(e.index, e.data.as_slice());
                proof {
                    let after = before.push((e.index, e.data@));
                    assert(after.drop_last() =~= before);
                    assert(runs(s0, mid, after.drop_last()));
                    assert(after.last() == (e.index, e.data@));
                    lemma_runs_push(s0, mid, *sm, before, (e.index, e.data@));
                    assert(normal_entries(all.subrange(0, k + 1)) == after);
                }
            }
            last = e.index;
        }
        k += 1;
    }
    proof {
        assert(all.subrange(0, n as int) =~= all);
    }
    (last, changes)
}

} // verus!
