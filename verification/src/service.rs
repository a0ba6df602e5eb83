//! The decisions of the service that runs the pool: what to do on each
//! event, which transactions have outlived their time, and what an imported
//! block changes.

use vstd::prelude::*;
use crate::pool::Pool;
use crate::pool::commit::left;
use crate::types::{PoolTx, TxId};

verus! {

/// The confirmed transactions of a block, and the height of the block.
#[derive(Clone, Debug, PartialEq, Eq)]
pub struct ImportedBlock {
    pub tx_ids: Vec<TxId>,
    pub height: u32,
}

/// One thing that happened; the service handles one event at a time.
#[derive(Clone, Debug, PartialEq, Eq)]
pub enum Event {
    /// The service was asked to stop.
    Shutdown,
    /// It is time to look for transactions that have outlived their time.
    TtlTick,
    /// A block was imported, or the stream of blocks has ended.
    BlockImported(Option<ImportedBlock>),
    /// A peer sent a message; it holds a transaction or not. Or the stream
    /// of messages has ended.
    Gossip(Option<bool>),
    /// A peer subscribed, or the stream of subscriptions has ended.
    NewPeer(Option<bool>),
}

/// What the service does next.
#[derive(Clone, Debug, PartialEq, Eq)]
pub enum Action {
    /// Leave the loop.
    Stop,
    /// Remove the transactions that have outlived their time.
    PruneOldTransactions,
    /// Remove the confirmed transactions from the pool and take over the
    /// height of the block.
    ApplyBlock(ImportedBlock),
    /// Verify the gossiped transaction and insert it.
    InsertGossiped,
    /// Send the new peer what the pool holds.
    GreetPeer,
}

/// What the service does on an event: it stops when asked to and when a
/// stream has ended or a message holds no transaction, and handles the event
/// otherwise.
pub open spec fn action_for(event: Event) -> Action {
    match event {
        Event::Shutdown => Action::Stop,
        Event::TtlTick => Action::PruneOldTransactions,
        Event::BlockImported(Some(block)) => Action::ApplyBlock(block),
        Event::BlockImported(None) => Action::Stop,
        Event::Gossip(Some(true)) => Action::InsertGossiped,
        Event::Gossip(_) => Action::Stop,
        Event::NewPeer(Some(_)) => Action::GreetPeer,
        Event::NewPeer(None) => Action::Stop,
    }
}

/// What the service does on an event.
pub fn next_action(event: Event) -> (action: Action)
    ensures
        action == action_for(event),
{
    match event {
        Event::Shutdown => Action::Stop,
        Event::TtlTick => Action::PruneOldTransactions,
        Event::BlockImported(block) => match block {
            Some(block) => Action::ApplyBlock(block),
            None => Action::Stop,
        },
        Event::Gossip(data) => match data {
            Some(true) => Action::InsertGossiped,
            _ => Action::Stop,
        },
        Event::NewPeer(peer) => match peer {
            Some(_) => Action::GreetPeer,
            None => Action::Stop,
        },
    }
}

/// Whether the service goes on after the action.
pub fn should_continue(action: &Action) -> (r: bool)
    ensures
        r == !(*action is Stop),
{
    match action {
        Action::Stop => false,
        _ => true,
    }
}

/// Removes the confirmed transactions of an imported block from the pool,
/// each with its dependents, and takes over the height of the block.
pub fn manage_imported_block(pool: &mut Pool, current_height: &mut u32, block: ImportedBlock) -> (removed:
    Vec<PoolTx>)
    requires
        old(pool).wf(),
    ensures
        final(pool).wf(),
        final(pool).config == old(pool).config,
        final(pool).storage.config == old(pool).storage.config,
        left(old(pool)@, final(pool)@, block.tx_ids@, removed@),
        *final(current_height) == block.height,
{
    let ImportedBlock { tx_ids, height } = block;
    let removed = pool.remove_transaction(tx_ids);
    *current_height = height;
    removed
}

/// A transaction and the instant at which it was submitted.
#[derive(Clone, Copy, Debug, PartialEq, Eq)]
pub struct Submission {
    pub instant: u64,
    pub tx_id: TxId,
}

/// The submission has outlived `ttl` at the instant `now`.
pub open spec fn outlived(submission: Submission, now: u64, ttl: u64) -> bool {
    submission.instant + ttl <= now
}

/// Takes from the front of the queue the submissions that have outlived
/// `ttl`, up to the first that has not, and returns their ids.
pub fn take_expired(queue: &mut Vec<Submission>, now: u64, ttl: u64) -> (expired: Vec<TxId>)
    ensures
        expired@.len() + final(queue)@.len() == old(queue)@.len(),
        forall|k: int|
            0 <= k < expired@.len() ==> (#[trigger] expired@[k]) == old(queue)@[k].tx_id && outlived(
                old(queue)@[k],
                now,
                ttl,
            ),
        forall|k: int|
            0 <= k < final(queue)@.len() ==> (#[trigger] final(queue)@[k]) == old(queue)@[k
                + expired@.len()],
        final(queue)@.len() > 0 ==> !outlived(final(queue)@[0], now, ttl),
{
    let mut expired: Vec<TxId> = Vec::new();
    let mut k: usize = 0;
    let mut met_one_alive = false;
    let n = queue.len();
    while !met_one_alive && k < n
        invariant
            queue@ == old(queue)@,
            n == queue@.len(),
            0 <= k <= queue@.len(),
            expired@.len() == k,
            forall|j: int|
                0 <= j < k ==> (#[trigger] expired@[j]) == queue@[j].tx_id && outlived(
                    queue@[j],
                    now,
                    ttl,
                ),
            met_one_alive ==> k < queue@.len() && !outlived(queue@[k as int], now, ttl),
        decreases queue@.len() - k, (if met_one_alive { 0int } else { 1int }),
    {
        let submission = queue[k];
        let alive = match submission.instant.checked_add(ttl) {
            Some(end) => end > now,
            None => true,
        };
        if alive {
            met_one_alive = true;
        } else {
            let ghost before = expired@;
            expired.push(submission.tx_id);
            proof {
                assert(outlived(queue@[k as int], now, ttl));
                assert forall|j: int| 0 <= j < k + 1 implies (#[trigger] expired@[j])
                    == queue@[j].tx_id && outlived(queue@[j], now, ttl) by {
                    if j < k {
                        assert(expired@[j] == before[j]);
                    }
                }
            }
            k += 1;
        }
    }
    let rest = queue.split_off(k);
    *queue = rest;
    expired
}

/// The transactions that the first submissions of `before` name have left
/// the pool with their dependents, and `after` are the other submissions.
pub open spec fn pruned(
    g: crate::storage::Nodes,
    h: crate::storage::Nodes,
    before: Seq<Submission>,
    after: Seq<Submission>,
    removed: Seq<PoolTx>,
) -> bool {
    exists|expired: Seq<TxId>| #[trigger]
        left(g, h, expired, removed) && expired.len() + after.len() == before.len() && (forall|
            k: int,
        |
            0 <= k < expired.len() ==> (#[trigger] expired[k]) == before[k].tx_id) && (forall|k: int|
            0 <= k < after.len() ==> (#[trigger] after[k]) == before[k + expired.len()])
}

/// Removes from the pool the transactions that have outlived `ttl`, each
/// with its dependents.
pub fn prune_old_transactions(pool: &mut Pool, queue: &mut Vec<Submission>, now: u64, ttl: u64) -> (removed:
    Vec<PoolTx>)
    requires
        old(pool).wf(),
    ensures
        final(pool).wf(),
        final(pool).config == old(pool).config,
        final(pool).storage.config == old(pool).storage.config,
        final(queue)@.len() > 0 ==> !outlived(final(queue)@[0], now, ttl),
        pruned(old(pool)@, final(pool)@, old(queue)@, final(queue)@, removed@),
{
    let expired = take_expired(queue, now, ttl);
    let ghost ids = expired@;
    let removed = pool.remove_transaction(expired);
    proof {
        let before = old(queue)@;
        assert(left(old(pool)@, pool@, ids, removed@) && ids.len() + queue@.len()
            == before.len());
    }
    removed
}

} // verus!
