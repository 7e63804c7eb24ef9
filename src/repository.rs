//! The per-repository protocol handler: timestamps, prepares, votes and
//! accepts for the three kinds of transaction.

use std::collections::HashMap;
use vstd::prelude::*;

use crate::database::{new_tx, Database, DbModel, Outcome, TxError};
use crate::messages::{CommitVote, MessageAccept};
use crate::operations::Operation;
use crate::runtime::{tick, Runtime};

verus! {

broadcast use vstd::std_specs::hash::group_hash_axioms;

/// Why a repository refused a request.
#[derive(Clone, Copy, Debug, PartialEq, Eq, Structural)]
pub enum RepoError {
    /// A prepare named a tid this repository has already seen.
    KnownTid,
    /// The request named a tid this repository has never seen.
    UnknownTid,
    /// No timestamp is left above the ones already used.
    TimestampExhausted,
}

/// The timestamp proposed for a prepare: one above the client's timestamp,
/// the clock and the last proposal, whichever is highest.
pub open spec fn next_ts(client_ts: usize, now: usize, last: usize) -> int {
    let m = if client_ts > now { client_ts } else { now };
    (if m > last { m } else { last }) + 1
}

/// Proposals at one repository strictly increase: a proposal made once an
/// earlier one has become the last timestamp lies above it, whatever the
/// client's timestamp and the clock say.
pub proof fn lemma_proposals_increase(c1: usize, n1: usize, c2: usize, n2: usize, last: usize)
    requires
        next_ts(c1, n1, last) <= usize::MAX,
    ensures
        next_ts(c2, n2, next_ts(c1, n1, last) as usize) > next_ts(c1, n1, last),
        next_ts(c1, n1, last) > last,
{
}

/// Outcomes are delivered once: after [`Repository::get_result`] has taken
/// the outcome of `tid`, none is left for it.
pub proof fn lemma_result_collected_once(done: Map<u128, Outcome>, tid: u128)
    ensures
        !done.remove(tid).contains_key(tid),
{
}

/// `done` with the outcomes of `outs` written in order, a later one for the same tid winning.
pub open spec fn record(done: Map<u128, Outcome>, outs: Seq<(u128, Outcome)>) -> Map<u128, Outcome>
    decreases outs.len(),
{
    if outs.len() == 0 {
        done
    } else {
        record(done, outs.drop_last()).insert(outs.last().0, outs.last().1)
    }
}

/// One storage node: its database, clock, last proposed timestamp, and the
/// outcomes not yet collected.
pub struct Repository {
    pub database: Database,
    pub runtime: Runtime,
    /// The highest timestamp this repository has proposed or agreed to.
    pub last_timestamp: usize,
    /// Outcome of each finished transaction, until it is collected.
    pub done_xactions: HashMap<u128, Outcome>,
    /// Name of the repository's durable log.
    pub filename: String,
}

impl Repository {
    /// The database is well formed.
    pub open spec fn wf(&self) -> bool {
        self.database@.wf()
    }

    /// Whether this repository has seen `tid`, active or finished.
    pub open spec fn knows(&self, tid: u128) -> bool {
        self.database@.is_active(tid) || self.database@.finalized.contains_key(tid)
    }

    /// An empty repository whose log is `filename`.
    pub fn new(filename: String) -> (r: Self)
        ensures
            r.wf(),
            r.database@.store == Map::<usize, crate::operations::Table>::empty(),
            r.database@.active.len() == 0,
            r.database@.finalized == Map::<u128, usize>::empty(),
            r.runtime.current_time == 10,
            r.last_timestamp == 0,
            r.done_xactions@ == Map::<u128, Outcome>::empty(),
            r.filename@ == filename@,
    {
        Repository {
            database: Database::new(),
            runtime: Runtime::new(),
            last_timestamp: 0,
            done_xactions: HashMap::new(),
            filename,
        }
    }

    fn knows_tid(&self, tid: u128) -> (r: bool)
        requires
            self.wf(),
        ensures
            r == self.knows(tid),
    {
        self.database.is_active(tid) || self.database.tid_to_ts_end_xaction_ends.contains_key(&tid)
    }

    /// Reads the clock and proposes a timestamp for a prepare carrying
    /// `client_ts`: one above the client's timestamp, the clock and every
    /// earlier proposal. It becomes the last timestamp.
    pub fn propose_ts(&mut self, client_ts: usize) -> (r: Result<usize, RepoError>)
        requires
            old(self).wf(),
        ensures
            final(self).wf(),
            final(self).database@ == old(self).database@,
            final(self).done_xactions@ == old(self).done_xactions@,
            final(self).runtime.current_time == tick(old(self).runtime.current_time),
            ({
                let t = next_ts(client_ts, tick(old(self).runtime.current_time), old(self).last_timestamp);
                if t <= usize::MAX {
                    r == Ok::<usize, RepoError>(t as usize) && final(self).last_timestamp == t
                } else {
                    r == Err::<usize, RepoError>(RepoError::TimestampExhausted)
                        && final(self).last_timestamp == old(self).last_timestamp
                }
            }),
    {
        let now = self.runtime.now();
        let m = if client_ts > now { client_ts } else { now };
        let m = if m > self.last_timestamp { m } else { self.last_timestamp };
        if m == usize::MAX {
            return Err(RepoError::TimestampExhausted);
        }
        self.last_timestamp = m + 1;
        Ok(m + 1)
    }

    /// Writes the outcomes of `outs` into the uncollected outcomes, in order.
    fn record_outcomes(&mut self, outs: Vec<(u128, Outcome)>)
        ensures
            final(self).done_xactions@ == record(old(self).done_xactions@, outs@),
            final(self).database == old(self).database,
            final(self).runtime == old(self).runtime,
            final(self).last_timestamp == old(self).last_timestamp,
    {
        let mut i: usize = 0;
        while i < outs.len()
            invariant
                0 <= i <= outs@.len(),
                self.done_xactions@ == record(old(self).done_xactions@, outs@.take(i as int)),
                self.database == old(self).database,
                self.runtime == old(self).runtime,
                self.last_timestamp == old(self).last_timestamp,
            decreases outs@.len() - i,
        {
            let (tid, o) = outs[i];
            self.done_xactions.insert(tid, o);
            proof {
                assert(outs@.take(i + 1).drop_last() == outs@.take(i as int));
                assert(outs@.take(i + 1).last() == outs@[i as int]);
            }
            i += 1;
        }
        proof {
            assert(outs@.take(outs@.len() as int) == outs@);
        }
    }

    /// Single-repository transaction at `proposed_ts`: adds it with no vote
    /// to wait for, runs whatever can run and keeps the outcomes.
    pub fn handle_single(&mut self, tid: u128, operations: Vec<Operation>, proposed_ts: usize) -> (r:
        Result<CommitVote, RepoError>)
        requires
            old(self).wf(),
        ensures
            final(self).wf(),
            final(self).last_timestamp == old(self).last_timestamp,
            final(self).runtime == old(self).runtime,
            old(self).knows(tid) ==> r == Err::<CommitVote, RepoError>(RepoError::KnownTid)
                && final(self).database@ == old(self).database@ && final(self).done_xactions@
                == old(self).done_xactions@,
            !old(self).knows(tid) ==> ({
                let (m, outs) = old(self).database@.enlist(tid, new_tx(proposed_ts, 0, operations)).run_nexts();
                &&& r == Ok::<CommitVote, RepoError>(CommitVote::InProgress)
                &&& final(self).database@ == m
                &&& final(self).done_xactions@ == record(old(self).done_xactions@, outs)
            }),
    {
        if self.knows_tid(tid) {
            return Err(RepoError::KnownTid);
        }
        self.database.add_xaction(tid, proposed_ts, operations, 0);
        let outs = self.database.run_nexts();
        self.record_outcomes(outs);
        Ok(CommitVote::InProgress)
    }

    /// The vote a prepare of `operations` as `tid` would give now, without
    /// adding anything: `Conflict` when they conflict, `Commit` otherwise.
    /// Lets the vote be made durable before the transaction is added.
    pub fn prepare_vote(&self, tid: u128, operations: &Vec<Operation>) -> (r: Result<CommitVote, RepoError>)
        requires
            self.wf(),
        ensures
            self.knows(tid) ==> r == Err::<CommitVote, RepoError>(RepoError::KnownTid),
            !self.knows(tid) ==> r == Ok::<CommitVote, RepoError>(
                if self.database@.conflicts(tid, operations@) {
                    CommitVote::Conflict
                } else {
                    CommitVote::Commit(None)
                },
            ),
    {
        if self.knows_tid(tid) {
            return Err(RepoError::KnownTid);
        }
        if self.database.has_conflict(tid, operations) {
            Ok(CommitVote::Conflict)
        } else {
            Ok(CommitVote::Commit(None))
        }
    }

    /// Prepare of an independent transaction at `proposed_ts` with
    /// `participants_len` participants: adds it, then votes `Conflict` (and
    /// finishes it at once) when its operations conflict, `Commit` otherwise.
    pub fn handle_indep_prepare(
        &mut self,
        tid: u128,
        operations: Vec<Operation>,
        participants_len: usize,
        proposed_ts: usize,
    ) -> (r: Result<CommitVote, RepoError>)
        requires
            old(self).wf(),
        ensures
            final(self).wf(),
            final(self).last_timestamp == old(self).last_timestamp,
            final(self).runtime == old(self).runtime,
            final(self).done_xactions@ == old(self).done_xactions@,
            old(self).knows(tid) ==> r == Err::<CommitVote, RepoError>(RepoError::KnownTid)
                && final(self).database@ == old(self).database@,
            !old(self).knows(tid) ==> ({
                let m = old(self).database@.enlist(tid, new_tx(proposed_ts, participants_len, operations));
                if old(self).database@.conflicts(tid, operations@) {
                    r == Ok::<CommitVote, RepoError>(CommitVote::Conflict)
                        && final(self).database@ == m.finalize(tid, proposed_ts)
                } else {
                    r == Ok::<CommitVote, RepoError>(CommitVote::Commit(None))
                        && final(self).database@ == m
                }
            }),
    {
        self.prepare_distributed(tid, operations, participants_len, proposed_ts, false)
    }

    /// Prepare of a coordinated transaction: as for an independent one, and a
    /// transaction that votes `Commit` also takes locks on every key it names.
    pub fn handle_coord_prepare(
        &mut self,
        tid: u128,
        operations: Vec<Operation>,
        participants_len: usize,
        proposed_ts: usize,
    ) -> (r: Result<CommitVote, RepoError>)
        requires
            old(self).wf(),
        ensures
            final(self).wf(),
            final(self).last_timestamp == old(self).last_timestamp,
            final(self).runtime == old(self).runtime,
            final(self).done_xactions@ == old(self).done_xactions@,
            old(self).knows(tid) ==> r == Err::<CommitVote, RepoError>(RepoError::KnownTid)
                && final(self).database@ == old(self).database@,
            !old(self).knows(tid) ==> ({
                let m = old(self).database@.enlist(tid, new_tx(proposed_ts, participants_len, operations));
                if old(self).database@.conflicts(tid, operations@) {
                    r == Ok::<CommitVote, RepoError>(CommitVote::Conflict)
                        && final(self).database@ == m.finalize(tid, proposed_ts)
                } else {
                    r == Ok::<CommitVote, RepoError>(CommitVote::Commit(None))
                        && final(self).database@ == m.lock(tid)
                }
            }),
    {
        self.prepare_distributed(tid, operations, participants_len, proposed_ts, true)
    }

    fn prepare_distributed(
        &mut self,
        tid: u128,
        operations: Vec<Operation>,
        participants_len: usize,
        proposed_ts: usize,
        coordinated: bool,
    ) -> (r: Result<CommitVote, RepoError>)
        requires
            old(self).wf(),
        ensures
            final(self).wf(),
            final(self).last_timestamp == old(self).last_timestamp,
            final(self).runtime == old(self).runtime,
            final(self).done_xactions@ == old(self).done_xactions@,
            old(self).knows(tid) ==> r == Err::<CommitVote, RepoError>(RepoError::KnownTid)
                && final(self).database@ == old(self).database@,
            !old(self).knows(tid) ==> ({
                let m = old(self).database@.enlist(tid, new_tx(proposed_ts, participants_len, operations));
                if old(self).database@.conflicts(tid, operations@) {
                    r == Ok::<CommitVote, RepoError>(CommitVote::Conflict)
                        && final(self).database@ == m.finalize(tid, proposed_ts)
                } else {
                    r == Ok::<CommitVote, RepoError>(CommitVote::Commit(None))
                        && final(self).database@ == (if coordinated { m.lock(tid) } else { m })
                }
            }),
    {
        if self.knows_tid(tid) {
            return Err(RepoError::KnownTid);
        }
        let conflict = self.database.has_conflict(tid, &operations);
        self.database.add_xaction(tid, proposed_ts, operations, participants_len);
        if conflict {
            self.database.finalize(tid, proposed_ts);
            Ok(CommitVote::Conflict)
        } else {
            if coordinated {
                self.database.get_all_locks(tid);
            }
            Ok(CommitVote::Commit(None))
        }
    }

    /// The timestamp of `tid` here, or `UnknownTid`.
    fn accept_ts(&mut self, tid: u128) -> (r: Result<usize, RepoError>)
        requires
            old(self).wf(),
        ensures
            final(self).wf(),
            final(self).database@ == old(self).database@,
            final(self).done_xactions@ == old(self).done_xactions@,
            final(self).runtime == old(self).runtime,
            match old(self).database@.proposed_ts_of(tid) {
                Some(ts) => r == Ok::<usize, RepoError>(ts) && final(self).last_timestamp == (
                if ts > old(self).last_timestamp {
                    ts
                } else {
                    old(self).last_timestamp
                }),
                None => r == Err::<usize, RepoError>(RepoError::UnknownTid) && final(self).last_timestamp
                    == old(self).last_timestamp,
            },
    {
        match self.database.get_proposed_ts_for_tid(tid) {
            Some(ts) => {
                if ts > self.last_timestamp {
                    self.last_timestamp = ts;
                }
                Ok(ts)
            },
            None => Err(RepoError::UnknownTid),
        }
    }

    /// Second step of an independent transaction: the message carrying this
    /// repository's timestamp for `tid` and `vote`, to be sent to every
    /// participant. The last timestamp rises to that timestamp.
    pub fn send_message_accept_indep_to_participants(&mut self, tid: u128, vote: CommitVote) -> (r:
        Result<MessageAccept, RepoError>)
        requires
            old(self).wf(),
        ensures
            final(self).wf(),
            final(self).database@ == old(self).database@,
            final(self).done_xactions@ == old(self).done_xactions@,
            final(self).runtime == old(self).runtime,
            match old(self).database@.proposed_ts_of(tid) {
                Some(ts) => r == Ok::<MessageAccept, RepoError>(MessageAccept::Indep(tid, ts, vote))
                    && final(self).last_timestamp == (if ts > old(self).last_timestamp {
                    ts
                } else {
                    old(self).last_timestamp
                }),
                None => r == Err::<MessageAccept, RepoError>(RepoError::UnknownTid)
                    && final(self).last_timestamp == old(self).last_timestamp,
            },
    {
        let ts = self.accept_ts(tid)?;
        Ok(MessageAccept::Indep(tid, ts, vote))
    }

    /// As [`Self::send_message_accept_indep_to_participants`], for a coordinated transaction.
    pub fn send_message_accept_coord_to_participants(&mut self, tid: u128, vote: CommitVote) -> (r:
        Result<MessageAccept, RepoError>)
        requires
            old(self).wf(),
        ensures
            final(self).wf(),
            final(self).database@ == old(self).database@,
            final(self).done_xactions@ == old(self).done_xactions@,
            final(self).runtime == old(self).runtime,
            match old(self).database@.proposed_ts_of(tid) {
                Some(ts) => r == Ok::<MessageAccept, RepoError>(MessageAccept::Coord(tid, ts, vote))
                    && final(self).last_timestamp == (if ts > old(self).last_timestamp {
                    ts
                } else {
                    old(self).last_timestamp
                }),
                None => r == Err::<MessageAccept, RepoError>(RepoError::UnknownTid)
                    && final(self).last_timestamp == old(self).last_timestamp,
            },
    {
        let ts = self.accept_ts(tid)?;
        Ok(MessageAccept::Coord(tid, ts, vote))
    }
}

/// What a repository does with a peer's timestamp `ts` and vote on `tid`:
/// its new state, its new uncollected outcomes, and its answer.
pub open spec fn accept_step(m: DbModel, done: Map<u128, Outcome>, tid: u128, ts: usize, vote: CommitVote) -> (
    DbModel,
    Map<u128, Outcome>,
    CommitVote,
) {
    if vote == CommitVote::Conflict {
        (
            if m.is_active(tid) { m.finalize(tid, ts) } else { m },
            done.insert(tid, Err(TxError::PeerConflict)),
            CommitVote::Abort,
        )
    } else if m.finalized.contains_key(tid) {
        (m, done.insert(tid, Err(TxError::LocalConflict)), CommitVote::Abort)
    } else if !m.is_active(tid) {
        (m, done, CommitVote::Abort)
    } else {
        let (m2, outs) = m.decrement(tid).raise_ts(tid, ts).run_nexts();
        (
            if m2.left_holding(tid) { m2.unlock(tid) } else { m2 },
            record(done, outs),
            CommitVote::InProgress,
        )
    }
}

impl Repository {
    /// Takes in a peer's timestamp and vote on `tid`, for either kind of
    /// distributed transaction. A `Conflict` vote ends the transaction here
    /// with a negative outcome; so does any vote on a transaction this
    /// repository already ended. Otherwise one vote fewer is awaited, the
    /// transaction's timestamp rises to the peer's, and whatever can run runs.
    /// A coordinated transaction's locks go when it finishes, and at the end
    /// of this pass if it has all its votes but the pass stopped before it.
    pub fn handle_accept(&mut self, tid: u128, proposed_ts: usize, vote: CommitVote) -> (r: CommitVote)
        requires
            old(self).wf(),
        ensures
            final(self).wf(),
            final(self).last_timestamp == old(self).last_timestamp,
            final(self).runtime == old(self).runtime,
            (final(self).database@, final(self).done_xactions@, r) == accept_step(
                old(self).database@,
                old(self).done_xactions@,
                tid,
                proposed_ts,
                vote,
            ),
    {
        if vote == CommitVote::Conflict {
            if self.database.is_active(tid) {
                self.database.finalize(tid, proposed_ts);
            }
            self.done_xactions.insert(tid, Err(TxError::PeerConflict));
            return CommitVote::Abort;
        }
        if self.database.tid_to_ts_end_xaction_ends.contains_key(&tid) {
            self.done_xactions.insert(tid, Err(TxError::LocalConflict));
            return CommitVote::Abort;
        }
        if !self.database.is_active(tid) {
            return CommitVote::Abort;
        }
        self.database.decrement_reply_count(tid);
        self.database.update_proposed_ts_to_highest(tid, proposed_ts);
        let outs = self.database.run_nexts();
        if self.database.is_left_holding(tid) {
            self.database.release_locks(tid);
        }
        self.record_outcomes(outs);
        CommitVote::InProgress
    }

    /// Takes in an accept message of either kind.
    pub fn handle_message_accept(&mut self, msg: MessageAccept) -> (r: CommitVote)
        requires
            old(self).wf(),
        ensures
            final(self).wf(),
            final(self).last_timestamp == old(self).last_timestamp,
            final(self).runtime == old(self).runtime,
            ({
                let (tid, ts, vote) = match msg {
                    MessageAccept::Indep(tid, ts, vote) => (tid, ts, vote),
                    MessageAccept::Coord(tid, ts, vote) => (tid, ts, vote),
                };
                (final(self).database@, final(self).done_xactions@, r) == accept_step(
                    old(self).database@,
                    old(self).done_xactions@,
                    tid,
                    ts,
                    vote,
                )
            }),
    {
        match msg {
            MessageAccept::Indep(tid, ts, vote) => self.handle_accept(tid, ts, vote),
            MessageAccept::Coord(tid, ts, vote) => self.handle_accept(tid, ts, vote),
        }
    }

    /// Removes and returns the outcome of `tid`, if one is there; a second
    /// call finds nothing.
    pub fn get_result(&mut self, tid: u128) -> (r: Option<Outcome>)
        requires
            old(self).wf(),
        ensures
            final(self).wf(),
            r == (if old(self).done_xactions@.contains_key(tid) {
                Some(old(self).done_xactions@[tid])
            } else {
                None::<Outcome>
            }),
            final(self).done_xactions@ == old(self).done_xactions@.remove(tid),
            final(self).database@ == old(self).database@,
            final(self).last_timestamp == old(self).last_timestamp,
            final(self).runtime == old(self).runtime,
    {
        self.done_xactions.remove(&tid)
    }

    /// The proposal of `tid` while active, its final timestamp afterwards.
    pub fn get_proposed_ts(&self, tid: u128) -> (r: Option<usize>)
        requires
            self.wf(),
        ensures
            r == self.database@.proposed_ts_of(tid),
    {
        self.database.get_proposed_ts_for_tid(tid)
    }
}

} // verus!
