//! The client driver: single, independent and coordinated transactions
//! over repositories held in one process.

use vstd::prelude::*;

use crate::database::{
    is_next, lemma_index_of, lemma_next_unique, new_tx, next_index, DbModel, Outcome, TxError,
};
use crate::messages::{CommitVote, MessageAccept};
use crate::operations::{eval_ops, ops_keys, ops_needs, Operation, PrimaryKey, Table};
use crate::repository::{accept_step, next_ts, record, RepoError, Repository};
use crate::runtime::{tick, Runtime};

verus! {

/// Why a client transaction did not commit.
#[derive(Clone, Copy, Debug, PartialEq, Eq, Structural)]
pub enum ClientError {
    /// A repository refused a request.
    Repo(RepoError),
    /// A participant reported a negative outcome.
    Tx(TxError),
    /// A participant voted `Conflict`.
    Conflict,
    /// A participant had no outcome for the transaction.
    NoOutcome,
    /// The participants repeat, are out of range, or do not match the operation lists.
    BadParticipants,
}

/// Relies on `uuid::Uuid::new_v4`: a random 128-bit identifier (a version 4
/// UUID), read as an integer with `Uuid::as_u128`. Nothing is promised of it.
#[verifier::external_body]
fn new_tid() -> (r: u128) {
    uuid::Uuid::new_v4().as_u128()
}

/// The client's view of one outcome.
pub open spec fn client_result(o: Option<Outcome>) -> Result<Option<Table>, ClientError> {
    match o {
        None => Err(ClientError::NoOutcome),
        Some(Ok(v)) => Ok(v),
        Some(Err(e)) => Err(ClientError::Tx(e)),
    }
}

/// The client side: a set of repositories in one process, and the client
/// clock that stamps transactions. Messages between repositories are
/// delivered at once, in the order they are sent.
pub struct Application {
    pub repositories: Vec<Repository>,
    pub runtime: Runtime,
}

/// Some participant voted `Conflict`.
pub open spec fn conflict_voted(votes: Seq<CommitVote>) -> bool {
    exists|k: int| 0 <= k < votes.len() && votes[k] == CommitVote::Conflict
}

/// The `k`th outcome is there and positive.
pub open spec fn committed_at(outcomes: Seq<Option<Outcome>>, k: int) -> bool {
    outcomes[k] is Some && outcomes[k]->Some_0 is Ok
}

/// The `k`th outcome is the first one missing or negative.
pub open spec fn is_first_failure(outcomes: Seq<Option<Outcome>>, k: int) -> bool {
    &&& 0 <= k < outcomes.len()
    &&& !committed_at(outcomes, k)
    &&& forall|j: int| 0 <= j < k ==> committed_at(outcomes, j)
}

/// The result of a distributed transaction from its participants' votes and
/// outcomes, all or nothing: an error when any vote was `Conflict`, else the
/// first missing or negative outcome's error, else every participant's record.
pub fn aggregate(votes: &Vec<CommitVote>, outcomes: Vec<Option<Outcome>>) -> (r: Result<
    Vec<Option<Table>>,
    ClientError,
>)
    ensures
        conflict_voted(votes@) ==> r == Err::<Vec<Option<Table>>, ClientError>(ClientError::Conflict),
        r is Ok ==> r->Ok_0@.len() == outcomes@.len(),
        r != Err::<Vec<Option<Table>>, ClientError>(ClientError::BadParticipants),
        !conflict_voted(votes@) && (forall|k: int| 0 <= k < outcomes@.len() ==> committed_at(outcomes@, k))
            ==> r is Ok && r->Ok_0@.len() == outcomes@.len() && forall|k: int|
            0 <= k < outcomes@.len() ==> outcomes@[k] == Some(Ok::<Option<Table>, TxError>(r->Ok_0@[k])),
        forall|k: int|
            !conflict_voted(votes@) && is_first_failure(outcomes@, k) ==> r == Err::<Vec<Option<Table>>, ClientError>(
                client_result(outcomes@[k])->Err_0),
{
    let mut i: usize = 0;
    while i < votes.len()
        invariant
            0 <= i <= votes@.len(),
            forall|a: int| 0 <= a < i ==> votes@[a] != CommitVote::Conflict,
        decreases votes@.len() - i,
    {
        if votes[i] == CommitVote::Conflict {
            return Err(ClientError::Conflict);
        }
        i += 1;
    }
    let mut results: Vec<Option<Table>> = Vec::new();
    let mut i: usize = 0;
    while i < outcomes.len()
        invariant
            !conflict_voted(votes@),
            0 <= i <= outcomes@.len(),
            results@.len() == i,
            forall|k: int| 0 <= k < i ==> committed_at(outcomes@, k),
            forall|k: int| 0 <= k < i ==> outcomes@[k] == Some(Ok::<Option<Table>, TxError>(results@[k])),
        decreases outcomes@.len() - i,
    {
        match outcomes[i] {
            Some(Ok(v)) => results.push(v),
            other => {
                proof {
                    assert(is_first_failure(outcomes@, i as int));
                    assert forall|k: int| is_first_failure(outcomes@, k) implies k == i by {
                        if k < i {
                            assert(committed_at(outcomes@, k));
                        } else if k > i {
                            assert(committed_at(outcomes@, i as int));
                        }
                    }
                }
                return match other {
                    Some(Err(e)) => Err(ClientError::Tx(e)),
                    _ => Err(ClientError::NoOutcome),
                };
            },
        }
        i += 1;
    }
    proof {
        assert forall|k: int| !is_first_failure(outcomes@, k) by {
            if 0 <= k < outcomes@.len() {
                assert(committed_at(outcomes@, k));
            }
        }
    }
    Ok(results)
}

/// `ps` names distinct repositories among the first `count`.
pub open spec fn valid_participants(ps: Seq<usize>, count: int) -> bool {
    &&& forall|i: int| 0 <= i < ps.len() ==> #[trigger] ps[i] < count
    &&& forall|i: int, j: int| 0 <= i < ps.len() && 0 <= j < ps.len() && i != j ==> ps[i] != ps[j]
}

/// Every participant is idle (no active transaction) and has never seen `tid`.
pub open spec fn fresh_and_idle(repos: Seq<Repository>, ps: Seq<usize>, tid: u128) -> bool {
    forall|j: int|
        0 <= j < ps.len() ==> #[trigger] repos[ps[j] as int].database@.active.len() == 0
            && !repos[ps[j] as int].knows(tid)
}

/// Some participant's operations conflict with its state.
pub open spec fn some_conflict(repos: Seq<Repository>, ps: Seq<usize>, tid: u128, ops: Seq<Vec<Operation>>) -> bool {
    exists|j: int| 0 <= j < ps.len() && #[trigger] repos[ps[j] as int].database@.conflicts(tid, ops[j]@)
}

/// Every participant's store is as it was.
pub open spec fn stores_kept(before: Seq<Repository>, after: Seq<Repository>, ps: Seq<usize>) -> bool {
    forall|j: int|
        0 <= j < ps.len() ==> #[trigger] after[ps[j] as int].database@.store == before[ps[j] as int].database@.store
}

/// Where `tid` stands at an otherwise idle participant: finished (`ended`),
/// or its only active transaction, still waiting for `waiting` votes.
pub open spec fn stage(st: DbModel, tid: u128, ended: bool, waiting: int) -> bool {
    if ended {
        st.active.len() == 0 && st.finalized.contains_key(tid)
    } else {
        &&& st.active.len() == 1
        &&& st.active[0].0 == tid
        &&& st.active[0].1.waiting_for == waiting
        &&& !st.finalized.contains_key(tid)
    }
}

/// After its prepare, participant `k` voted as its operations' conflicts
/// decide, its store is untouched, and `tid` is finished there or awaits `n` votes.
pub open spec fn prepared(
    start: Seq<Repository>,
    repos: Seq<Repository>,
    ps: Seq<usize>,
    tid: u128,
    ops: Seq<Vec<Operation>>,
    votes: Seq<CommitVote>,
    k: int,
    n: int,
) -> bool {
    let st = repos[ps[k] as int].database@;
    let conflicted = start[ps[k] as int].database@.conflicts(tid, ops[k]@);
    &&& votes[k] == (if conflicted { CommitVote::Conflict } else { CommitVote::Commit(None) })
    &&& st.store == start[ps[k] as int].database@.store
    &&& stage(st, tid, conflicted, n)
    &&& !conflicted ==> st.active[0].1.operations@ == ops[k]@
    &&& repos[ps[k] as int].done_xactions@ == start[ps[k] as int].done_xactions@
}

/// Along a transaction that commits everywhere, participant `k` has been
/// sent the first `got` votes (`i`, or `i + 1` for the first `j`
/// participants): until the last, `tid` awaits the rest with the store
/// untouched; after it, `tid` has run, its outcome waits to be collected,
/// and the store is what its operations made of it.
pub open spec fn advancing(
    start: Seq<Repository>,
    repos: Seq<Repository>,
    ps: Seq<usize>,
    tid: u128,
    ops: Seq<Vec<Operation>>,
    k: int,
    i: int,
    j: int,
    n: int,
) -> bool {
    let got = if k < j { i + 1 } else { i };
    let s0 = start[ps[k] as int].database@.store;
    let st = repos[ps[k] as int].database@;
    let done = repos[ps[k] as int].done_xactions@;
    let (s1, v) = eval_ops(s0, ops[k]@);
    if got < n {
        &&& st.active.len() == 1
        &&& st.active[0].0 == tid
        &&& st.active[0].1.waiting_for == n - got
        &&& st.active[0].1.operations@ == ops[k]@
        &&& !st.finalized.contains_key(tid)
        &&& st.store == s0
    } else {
        &&& st.active.len() == 0
        &&& st.finalized.contains_key(tid)
        &&& st.store == s1
        &&& done.contains_key(tid)
        &&& done[tid] == Ok::<Option<Table>, TxError>(v)
    }
}

/// Participant `k`'s store is what its operations made of it, and, among the
/// first `i`, `outcomes` holds the record they yielded.
pub open spec fn settled(
    start: Seq<Repository>,
    repos: Seq<Repository>,
    ps: Seq<usize>,
    ops: Seq<Vec<Operation>>,
    outcomes: Seq<Option<Outcome>>,
    k: int,
    i: int,
) -> bool {
    let (s1, v) = eval_ops(start[ps[k] as int].database@.store, ops[k]@);
    &&& repos[ps[k] as int].database@.store == s1
    &&& k < i ==> outcomes[k] == Some(Ok::<Option<Table>, TxError>(v))
}

/// Every participant has no active transaction.
pub open spec fn all_idle(repos: Seq<Repository>, ps: Seq<usize>) -> bool {
    forall|j: int| 0 <= j < ps.len() ==> #[trigger] repos[ps[j] as int].database@.active.len() == 0
}

/// Participant `k` is idle again with `tid` finished, and (when `k < i`) its
/// outcome collected.
pub open spec fn wound_up_at(repos: Seq<Repository>, ps: Seq<usize>, tid: u128, k: int, i: int) -> bool {
    let r = repos[ps[k] as int];
    &&& r.database@.active.len() == 0
    &&& r.database@.finalized.contains_key(tid)
    &&& k < i ==> !r.done_xactions@.contains_key(tid)
}

/// Every participant is idle again with `tid` finished and its outcome collected.
pub open spec fn wound_up(repos: Seq<Repository>, ps: Seq<usize>, tid: u128) -> bool {
    forall|k: int| 0 <= k < ps.len() ==> #[trigger] wound_up_at(repos, ps, tid, k, ps.len() as int)
}

/// At an idle repository a conflict does not depend on the tid.
pub proof fn lemma_idle_conflicts(repos: Seq<Repository>, ps: Seq<usize>, t1: u128, t2: u128, ops: Seq<Vec<Operation>>)
    requires
        all_idle(repos, ps),
        ops.len() == ps.len(),
    ensures
        some_conflict(repos, ps, t1, ops) == some_conflict(repos, ps, t2, ops),
{
    assert forall|j: int| 0 <= j < ps.len() implies #[trigger] repos[ps[j] as int].database@.conflicts(t1, ops[j]@)
        == repos[ps[j] as int].database@.conflicts(t2, ops[j]@) by {
        let m = repos[ps[j] as int].database@;
        assert(m.active.len() == 0);
        assert(!m.keys_locked(t1, ops_keys(ops[j]@)));
        assert(!m.keys_locked(t2, ops_keys(ops[j]@)));
    }
    if some_conflict(repos, ps, t1, ops) {
        let j = choose|j: int| 0 <= j < ps.len() && #[trigger] repos[ps[j] as int].database@.conflicts(t1, ops[j]@);
        assert(repos[ps[j] as int].database@.conflicts(t2, ops[j]@));
    }
    if some_conflict(repos, ps, t2, ops) {
        let j = choose|j: int| 0 <= j < ps.len() && #[trigger] repos[ps[j] as int].database@.conflicts(t2, ops[j]@);
        assert(repos[ps[j] as int].database@.conflicts(t1, ops[j]@));
    }
}

/// Each participant can propose a timestamp for a client reading `clock`.
pub open spec fn ts_room(clock: usize, repos: Seq<Repository>, ps: Seq<usize>) -> bool {
    forall|k: int|
        0 <= k < ps.len() ==> #[trigger] next_ts(
            tick(clock),
            tick(repos[ps[k] as int].runtime.current_time),
            repos[ps[k] as int].last_timestamp,
        ) <= usize::MAX
}

/// Each participant's store is what its operations made of it, and `results`
/// holds the record each yielded.
pub open spec fn committed(
    before: Seq<Repository>,
    after: Seq<Repository>,
    ps: Seq<usize>,
    ops: Seq<Vec<Operation>>,
    results: Seq<Option<Table>>,
) -> bool {
    &&& results.len() == ps.len()
    &&& forall|k: int|
        0 <= k < ps.len() ==> {
            let (s1, v) = eval_ops(before[ps[k] as int].database@.store, ops[k]@);
            &&& #[trigger] after[ps[k] as int].database@.store == s1
            &&& results[k] == v
        }
}

/// Participant `k` has been sent the first `got` votes (`i`, or `i + 1` for
/// the first `j` participants): its store is untouched, and `tid` is finished
/// there once a `Conflict` is among them or its own, else awaits the other
/// `n - got` votes.
pub open spec fn standing(
    start: Seq<Repository>,
    repos: Seq<Repository>,
    ps: Seq<usize>,
    tid: u128,
    votes: Seq<CommitVote>,
    k: int,
    i: int,
    j: int,
    n: int,
) -> bool {
    let got = if k < j { i + 1 } else { i };
    let st = repos[ps[k] as int].database@;
    &&& st.store == start[ps[k] as int].database@.store
    &&& stage(st, tid, heard_conflict(votes, k, got), n - got)
}

/// Participant `k` voted `Conflict`, or has been sent one of the first `got` votes that was.
pub open spec fn heard_conflict(votes: Seq<CommitVote>, k: int, got: int) -> bool {
    votes[k] == CommitVote::Conflict || exists|a: int| 0 <= a < got && votes[a] == CommitVote::Conflict
}

/// Before any `Conflict` has been heard, the senders so far all voted
/// `Commit`, so the first `Conflict` lies ahead and some vote stays awaited.
proof fn lemma_commits_before_conflict(votes: Seq<CommitVote>, k: int, i: int, n: int)
    requires
        votes.len() == n,
        0 <= i < n,
        0 <= k < n,
        exists|c: int| 0 <= c < n && votes[c] == CommitVote::Conflict,
        !heard_conflict(votes, k, i),
        votes[i] != CommitVote::Conflict,
    ensures
        n - i >= 2,
{
    let c = choose|c: int| 0 <= c < n && votes[c] == CommitVote::Conflict;
    if c < i {
        assert(heard_conflict(votes, k, i));
    }
}

/// A prepare at an idle repository that has not seen `tid` leaves its store
/// alone and `tid` either finished (on a conflict) or waiting for `n` votes.
proof fn lemma_prepare_stage(
    st0: DbModel,
    st1: DbModel,
    tid: u128,
    ts: usize,
    n: usize,
    ops: Vec<Operation>,
    coordinated: bool,
)
    requires
        st0.wf(),
        st0.active.len() == 0,
        !st0.is_active(tid),
        !st0.finalized.contains_key(tid),
        ({
            let m = st0.enlist(tid, new_tx(ts, n, ops));
            if st0.conflicts(tid, ops@) {
                st1 == m.finalize(tid, ts)
            } else {
                st1 == (if coordinated { m.lock(tid) } else { m })
            }
        }),
    ensures
        st1.store == st0.store,
        stage(st1, tid, st0.conflicts(tid, ops@), n as int),
        !st0.conflicts(tid, ops@) ==> st1.active[0].1.operations@ == ops@,
{
    let m = st0.enlist(tid, new_tx(ts, n, ops));
    assert(m.active[0].0 == tid);
    lemma_index_of(m.active, tid, 0);
}

/// A `Commit` vote reaching a participant where `tid` is the only active
/// transaction, awaiting `waiting` votes: one fewer is awaited, and on the
/// last one `tid` runs, since its operations met no conflict at the start
/// and the store is still the one they met.
proof fn lemma_accept_advance(
    st: DbModel,
    done: Map<u128, Outcome>,
    tid: u128,
    ts: usize,
    waiting: int,
    start: DbModel,
    ops: Seq<Operation>,
)
    requires
        st.wf(),
        waiting >= 1,
        st.active.len() == 1,
        st.active[0].0 == tid,
        st.active[0].1.waiting_for == waiting,
        st.active[0].1.operations@ == ops,
        !st.finalized.contains_key(tid),
        st.store == start.store,
        !start.conflicts(tid, ops),
    ensures
        ({
            let (st2, done2, r) = accept_step(st, done, tid, ts, CommitVote::Commit(None));
            let (s1, v) = eval_ops(start.store, ops);
            &&& r == CommitVote::InProgress
            &&& waiting > 1 ==> {
                &&& st2.active.len() == 1
                &&& st2.active[0].0 == tid
                &&& st2.active[0].1.waiting_for == waiting - 1
                &&& st2.active[0].1.operations@ == ops
                &&& !st2.finalized.contains_key(tid)
                &&& st2.store == start.store
                &&& done2 == done
            }
            &&& waiting == 1 ==> {
                &&& st2.active.len() == 0
                &&& st2.finalized.contains_key(tid)
                &&& st2.store == s1
                &&& done2.contains_key(tid)
                &&& done2[tid] == Ok::<Option<Table>, TxError>(v)
            }
        }),
{
    lemma_index_of(st.active, tid, 0);
    let m1 = st.decrement(tid);
    lemma_index_of(m1.active, tid, 0);
    let m2 = m1.raise_ts(tid, ts);
    assert(m2.active.len() == 1);
    assert(m2.active[0].0 == tid);
    if waiting > 1 {
        assert(next_index(m2.active) == -1) by {
            if exists|i: int| is_next(m2.active, i) {
                let i = choose|i: int| is_next(m2.active, i);
                assert(i == 0);
            }
        }
        assert(m2.run_nexts() == (m2, Seq::<(u128, Outcome)>::empty()));
    } else {
        assert(is_next(m2.active, 0));
        lemma_next_unique(m2.active, 0);
        assert(!m2.keys_locked(tid, ops_keys(ops))) by {
            if m2.keys_locked(tid, ops_keys(ops)) {
                let k = choose|k: PrimaryKey| #[trigger] ops_keys(ops).contains(k) && m2.locked_by_other(tid, k);
                let j = choose|j: int| 0 <= j < m2.active.len() && m2.active[j].0 != tid && m2.active[j].1.holds_locks
                    && #[trigger] ops_keys(m2.active[j].1.operations@).contains(k);
                assert(j == 0);
            }
        }
        assert(!m2.keys_missing(ops_needs(ops))) by {
            if m2.keys_missing(ops_needs(ops)) {
                let k = choose|k: PrimaryKey| #[trigger] ops_needs(ops).contains(k) && !m2.store.contains_key(k);
                assert(start.keys_missing(ops_needs(ops)));
            }
        }
        let (s1, v) = eval_ops(m2.store, m2.active[0].1.operations@);
        let next = DbModel { store: s1, ..m2 }.retire(0, m2.active[0].1.proposed_ts);
        assert(next.active.len() == 0);
        assert(next_index(next.active) == -1);
        assert(next.run_nexts() == (next, Seq::<(u128, Outcome)>::empty()));
        let outs = seq![(tid, Ok::<Option<Table>, TxError>(v))];
        assert(m2.run_nexts() == (next, outs));
        assert(outs.drop_last() =~= Seq::<(u128, Outcome)>::empty());
        assert(record(done, outs) == record(done, outs.drop_last()).insert(tid, Ok::<Option<Table>, TxError>(v)));
    }
}

/// A peer's vote reaching an idle participant keeps its store, and moves
/// `tid` on: one vote fewer awaited on `Commit`, finished on `Conflict`.
proof fn lemma_accept_stage(
    st: DbModel,
    done: Map<u128, Outcome>,
    tid: u128,
    ts: usize,
    vote: CommitVote,
    ended: bool,
    waiting: int,
)
    requires
        st.wf(),
        stage(st, tid, ended, waiting),
        vote == CommitVote::Conflict || vote == CommitVote::Commit(None),
        !ended && vote != CommitVote::Conflict ==> waiting >= 2,
    ensures
        accept_step(st, done, tid, ts, vote).0.store == st.store,
        stage(
            accept_step(st, done, tid, ts, vote).0,
            tid,
            ended || vote == CommitVote::Conflict,
            waiting - 1,
        ),
{
    if !ended {
        assert(st.active[0].0 == tid);
        lemma_index_of(st.active, tid, 0);
        if vote != CommitVote::Conflict {
            let m1 = st.decrement(tid);
            lemma_index_of(m1.active, tid, 0);
            let m2 = m1.raise_ts(tid, ts);
            assert(m2.active.len() == 1);
            assert(m2.active[0].1.waiting_for > 0);
            assert(next_index(m2.active) == -1) by {
                if exists|i: int| is_next(m2.active, i) {
                    let i = choose|i: int| is_next(m2.active, i);
                    assert(i == 0);
                }
            }
        }
    }
}

/// A prepare at position `i` changes no participant at a later position.
proof fn lemma_untouched_participants(before: Seq<Repository>, after: Seq<Repository>, ps: Seq<usize>, i: int, n: int)
    requires
        ps.len() == n,
        forall|k: int| 0 <= k < n ==> #[trigger] ps[k] < before.len(),
        0 <= i < n,
        0 <= ps[i] < before.len(),
        after == before.update(ps[i] as int, after[ps[i] as int]),
        forall|a: int, b: int| 0 <= a < ps.len() && 0 <= b < ps.len() && a != b ==> ps[a] != ps[b],
    ensures
        forall|k: int| i < k < n ==> after[ps[k] as int] == before[ps[k] as int],
{
    assert forall|k: int| i < k < n implies after[ps[k] as int] == before[ps[k] as int] by {
        assert(ps[k] != ps[i]);
    }
}

/// What a single-repository transaction named `tid` at `repository` does:
/// from `a` to `b`, with result `r`.
pub open spec fn single_post(
    a: Application,
    b: Application,
    tid: u128,
    repository: usize,
    operations: Vec<Operation>,
    r: Result<Option<Table>, ClientError>,
) -> bool {
    let r0 = a.repositories@[repository as int];
    let r1 = b.repositories@[repository as int];
    let ts = next_ts(tick(a.runtime.current_time), tick(r0.runtime.current_time), r0.last_timestamp);
    if ts > usize::MAX {
        r == Err::<Option<Table>, ClientError>(ClientError::Repo(RepoError::TimestampExhausted))
            && r1.database@ == r0.database@
    } else if r0.knows(tid) {
        r == Err::<Option<Table>, ClientError>(ClientError::Repo(RepoError::KnownTid)) && r1.database@
            == r0.database@
    } else {
        let (m, outs) = r0.database@.enlist(tid, new_tx(ts as usize, 0, operations)).run_nexts();
        let done = record(r0.done_xactions@, outs);
        &&& r1.database@ == m
        &&& r == client_result(if done.contains_key(tid) { Some(done[tid]) } else { None })
        &&& r1.done_xactions@ == done.remove(tid)
    }
}

impl Application {
    /// Every repository is well formed.
    pub open spec fn wf(&self) -> bool {
        forall|i: int| 0 <= i < self.repositories@.len() ==> #[trigger] self.repositories@[i].wf()
    }

    /// A cluster without repositories whose clock starts at 10.
    pub fn new() -> (r: Self)
        ensures
            r.wf(),
            r.repositories@.len() == 0,
            r.runtime.current_time == 10,
    {
        Application { repositories: Vec::new(), runtime: Runtime::new() }
    }

    /// Adds an empty repository whose log is `filename`; returns its index.
    pub fn add_repository(&mut self, filename: String) -> (r: usize)
        requires
            old(self).wf(),
        ensures
            final(self).wf(),
            r == old(self).repositories@.len(),
            final(self).repositories@.len() == r + 1,
            forall|i: int| 0 <= i < r ==> final(self).repositories@[i] == old(self).repositories@[i],
            final(self).repositories@[r as int].database@.active.len() == 0,
            final(self).runtime == old(self).runtime,
    {
        let repo = Repository::new(filename);
        self.repositories.push(repo);
        self.repositories.len() - 1
    }

    /// Runs `operations` as a single-repository transaction named `tid` at
    /// repository `repository`: prepare, then collect its outcome.
    pub fn single_transaction_with_tid(
        &mut self,
        tid: u128,
        repository: usize,
        operations: Vec<Operation>,
    ) -> (r: Result<Option<Table>, ClientError>)
        requires
            old(self).wf(),
            repository < old(self).repositories@.len(),
        ensures
            final(self).wf(),
            final(self).repositories@.len() == old(self).repositories@.len(),
            forall|i: int|
                0 <= i < old(self).repositories@.len() && i != repository
                    ==> final(self).repositories@[i] == old(self).repositories@[i],
            final(self).runtime.current_time == tick(old(self).runtime.current_time),
            single_post(*old(self), *final(self), tid, repository, operations, r),
    {
        let client_ts = self.runtime.now();
        let repo = &mut self.repositories[repository];
        let ts = match repo.propose_ts(client_ts) {
            Ok(ts) => ts,
            Err(e) => return Err(ClientError::Repo(e)),
        };
        match repo.handle_single(tid, operations, ts) {
            Ok(_) => {},
            Err(e) => return Err(ClientError::Repo(e)),
        }
        match repo.get_result(tid) {
            None => Err(ClientError::NoOutcome),
            Some(Ok(v)) => Ok(v),
            Some(Err(e)) => Err(ClientError::Tx(e)),
        }
    }

    /// Runs `operations` as a single-repository transaction at `repository`
    /// under a fresh random tid; see [`Self::single_transaction_with_tid`].
    /// The result is the one [`single_post`] gives for the tid drawn, a tid
    /// new to the repository where it has seen none.
    pub fn single_repository_transaction(&mut self, repository: usize, operations: Vec<Operation>) -> (r:
        Result<Option<Table>, ClientError>)
        requires
            old(self).wf(),
            repository < old(self).repositories@.len(),
        ensures
            final(self).wf(),
            final(self).repositories@.len() == old(self).repositories@.len(),
            forall|i: int|
                0 <= i < old(self).repositories@.len() && i != repository
                    ==> final(self).repositories@[i] == old(self).repositories@[i],
            final(self).runtime.current_time == tick(old(self).runtime.current_time),
            exists|tid: u128| single_post(*old(self), *final(self), tid, repository, operations, r),
            (forall|t: u128| !old(self).repositories@[repository as int].knows(t)) ==> exists|tid: u128|
                !old(self).repositories@[repository as int].knows(tid) && single_post(
                    *old(self),
                    *final(self),
                    tid,
                    repository,
                    operations,
                    r,
                ),
    {
        let tid = new_tid();
        self.single_transaction_with_tid(tid, repository, operations)
    }

    /// Runs an independent distributed transaction named `tid`:
    /// `operations[i]` at repository `participants[i]`. Every participant
    /// prepares and votes; each then sends its timestamp and vote to all
    /// participants; then every outcome is collected. The result is an error
    /// when a participant voted `Conflict` or any outcome is negative, else
    /// the record each participant's last operation yielded.
    ///
    /// All or nothing: where every participant is idle and new to `tid`, and
    /// the operations of one of them conflict there, the result is an error
    /// and no participant's store changes; where none conflicts and each can
    /// still propose a timestamp, the transaction commits everywhere.
    pub fn indep_transaction_with_tid(
        &mut self,
        tid: u128,
        participants: Vec<usize>,
        operations: Vec<Vec<Operation>>,
    ) -> (r: Result<Vec<Option<Table>>, ClientError>)
        requires
            old(self).wf(),
        ensures
            final(self).wf(),
            final(self).repositories@.len() == old(self).repositories@.len(),
            forall|q: int|
                0 <= q < old(self).repositories@.len() && !participants@.contains(q as usize)
                    ==> final(self).repositories@[q] == old(self).repositories@[q],
            !(valid_participants(participants@, old(self).repositories@.len() as int)
                && operations@.len() == participants@.len()) ==> r == Err::<
                Vec<Option<Table>>,
                ClientError,
            >(ClientError::BadParticipants) && *final(self) == *old(self),
            r == Err::<Vec<Option<Table>>, ClientError>(ClientError::BadParticipants) ==> !(
            valid_participants(participants@, old(self).repositories@.len() as int)
                && operations@.len() == participants@.len()),
            r is Ok ==> r->Ok_0@.len() == participants@.len(),
            all_idle(old(self).repositories@, participants@) && some_conflict(
                old(self).repositories@,
                participants@,
                tid,
                operations@,
            ) ==> r is Err && stores_kept(old(self).repositories@, final(self).repositories@, participants@),
            valid_participants(participants@, old(self).repositories@.len() as int) && operations@.len()
                == participants@.len() && fresh_and_idle(old(self).repositories@, participants@, tid)
                && ts_room(old(self).runtime.current_time, old(self).repositories@, participants@)
                ==> wound_up(final(self).repositories@, participants@, tid),
            valid_participants(participants@, old(self).repositories@.len() as int) && operations@.len()
                == participants@.len() && fresh_and_idle(old(self).repositories@, participants@, tid)
                && !some_conflict(old(self).repositories@, participants@, tid, operations@) && ts_room(
                old(self).runtime.current_time,
                old(self).repositories@,
                participants@,
            ) ==> r is Ok && committed(
                old(self).repositories@,
                final(self).repositories@,
                participants@,
                operations@,
                r->Ok_0@,
            ),
    {
        self.distributed_transaction(tid, participants, operations, false)
    }

    /// As [`Self::indep_transaction_with_tid`], for a coordinated transaction:
    /// a participant that votes `Commit` locks every key its operations name
    /// until the transaction finishes there.
    pub fn coord_transaction_with_tid(
        &mut self,
        tid: u128,
        participants: Vec<usize>,
        operations: Vec<Vec<Operation>>,
    ) -> (r: Result<Vec<Option<Table>>, ClientError>)
        requires
            old(self).wf(),
        ensures
            final(self).wf(),
            final(self).repositories@.len() == old(self).repositories@.len(),
            forall|q: int|
                0 <= q < old(self).repositories@.len() && !participants@.contains(q as usize)
                    ==> final(self).repositories@[q] == old(self).repositories@[q],
            !(valid_participants(participants@, old(self).repositories@.len() as int)
                && operations@.len() == participants@.len()) ==> r == Err::<
                Vec<Option<Table>>,
                ClientError,
            >(ClientError::BadParticipants) && *final(self) == *old(self),
            r == Err::<Vec<Option<Table>>, ClientError>(ClientError::BadParticipants) ==> !(
            valid_participants(participants@, old(self).repositories@.len() as int)
                && operations@.len() == participants@.len()),
            r is Ok ==> r->Ok_0@.len() == participants@.len(),
            all_idle(old(self).repositories@, participants@) && some_conflict(
                old(self).repositories@,
                participants@,
                tid,
                operations@,
            ) ==> r is Err && stores_kept(old(self).repositories@, final(self).repositories@, participants@),
            valid_participants(participants@, old(self).repositories@.len() as int) && operations@.len()
                == participants@.len() && fresh_and_idle(old(self).repositories@, participants@, tid)
                && ts_room(old(self).runtime.current_time, old(self).repositories@, participants@)
                ==> wound_up(final(self).repositories@, participants@, tid),
            valid_participants(participants@, old(self).repositories@.len() as int) && operations@.len()
                == participants@.len() && fresh_and_idle(old(self).repositories@, participants@, tid)
                && !some_conflict(old(self).repositories@, participants@, tid, operations@) && ts_room(
                old(self).runtime.current_time,
                old(self).repositories@,
                participants@,
            ) ==> r is Ok && committed(
                old(self).repositories@,
                final(self).repositories@,
                participants@,
                operations@,
                r->Ok_0@,
            ),
    {
        self.distributed_transaction(tid, participants, operations, true)
    }

    /// An independent transaction under a fresh random tid; see
    /// [`Self::indep_transaction_with_tid`].
    ///
    /// Whatever tid is drawn: at idle participants, a conflict means an error
    /// with every store kept. Where no tid has been seen there and none
    /// conflicts, it commits everywhere, and every participant ends idle with
    /// the transaction finished and its outcome collected.
    pub fn indep_repository_transaction(&mut self, participants: Vec<usize>, operations: Vec<Vec<Operation>>) -> (r:
        Result<Vec<Option<Table>>, ClientError>)
        requires
            old(self).wf(),
        ensures
            final(self).wf(),
            final(self).repositories@.len() == old(self).repositories@.len(),
            forall|q: int|
                0 <= q < old(self).repositories@.len() && !participants@.contains(q as usize)
                    ==> final(self).repositories@[q] == old(self).repositories@[q],
            !(valid_participants(participants@, old(self).repositories@.len() as int)
                && operations@.len() == participants@.len()) ==> r == Err::<
                Vec<Option<Table>>,
                ClientError,
            >(ClientError::BadParticipants),
            r == Err::<Vec<Option<Table>>, ClientError>(ClientError::BadParticipants) ==> !(
            valid_participants(participants@, old(self).repositories@.len() as int)
                && operations@.len() == participants@.len()),
            r is Ok ==> r->Ok_0@.len() == participants@.len(),
            all_idle(old(self).repositories@, participants@) && some_conflict(
                old(self).repositories@,
                participants@,
                0,
                operations@,
            ) ==> r is Err && stores_kept(old(self).repositories@, final(self).repositories@, participants@),
            valid_participants(participants@, old(self).repositories@.len() as int) && operations@.len()
                == participants@.len() && (forall|t: u128| fresh_and_idle(old(self).repositories@, participants@, t))
                && !some_conflict(old(self).repositories@, participants@, 0, operations@) && ts_room(
                old(self).runtime.current_time,
                old(self).repositories@,
                participants@,
            ) ==> r is Ok && committed(
                old(self).repositories@,
                final(self).repositories@,
                participants@,
                operations@,
                r->Ok_0@,
            ),
            valid_participants(participants@, old(self).repositories@.len() as int) && operations@.len()
                == participants@.len() && (forall|t: u128| fresh_and_idle(old(self).repositories@, participants@, t))
                && ts_room(old(self).runtime.current_time, old(self).repositories@, participants@)
                ==> all_idle(final(self).repositories@, participants@) && exists|t: u128|
                wound_up(final(self).repositories@, participants@, t),
    {
        let tid = new_tid();
        proof {
            if operations@.len() == participants@.len() && all_idle(self.repositories@, participants@) {
                lemma_idle_conflicts(self.repositories@, participants@, tid, 0, operations@);
            }
        }
        let ghost before = *self;
        let r = self.distributed_transaction(tid, participants, operations, false);
        proof {
            if valid_participants(participants@, before.repositories@.len() as int) && operations@.len()
                == participants@.len() && (forall|t: u128| fresh_and_idle(before.repositories@, participants@, t))
                && ts_room(before.runtime.current_time, before.repositories@, participants@) {
                assert(fresh_and_idle(before.repositories@, participants@, tid));
                assert forall|j: int| 0 <= j < participants@.len() implies #[trigger] self.repositories@[participants@[j] as int].database@.active.len() == 0 by {
                    assert(wound_up_at(self.repositories@, participants@, tid, j, participants@.len() as int));
                }
            }
        }
        r
    }

    /// A coordinated transaction under a fresh random tid; see
    /// [`Self::coord_transaction_with_tid`].
    ///
    /// Whatever tid is drawn: at idle participants, a conflict means an error
    /// with every store kept. Where no tid has been seen there and none
    /// conflicts, it commits everywhere, and every participant ends idle with
    /// the transaction finished and its outcome collected.
    pub fn coord_repository_transaction(&mut self, participants: Vec<usize>, operations: Vec<Vec<Operation>>) -> (r:
        Result<Vec<Option<Table>>, ClientError>)
        requires
            old(self).wf(),
        ensures
            final(self).wf(),
            final(self).repositories@.len() == old(self).repositories@.len(),
            forall|q: int|
                0 <= q < old(self).repositories@.len() && !participants@.contains(q as usize)
                    ==> final(self).repositories@[q] == old(self).repositories@[q],
            !(valid_participants(participants@, old(self).repositories@.len() as int)
                && operations@.len() == participants@.len()) ==> r == Err::<
                Vec<Option<Table>>,
                ClientError,
            >(ClientError::BadParticipants),
            r == Err::<Vec<Option<Table>>, ClientError>(ClientError::BadParticipants) ==> !(
            valid_participants(participants@, old(self).repositories@.len() as int)
                && operations@.len() == participants@.len()),
            r is Ok ==> r->Ok_0@.len() == participants@.len(),
            all_idle(old(self).repositories@, participants@) && some_conflict(
                old(self).repositories@,
                participants@,
                0,
                operations@,
            ) ==> r is Err && stores_kept(old(self).repositories@, final(self).repositories@, participants@),
            valid_participants(participants@, old(self).repositories@.len() as int) && operations@.len()
                == participants@.len() && (forall|t: u128| fresh_and_idle(old(self).repositories@, participants@, t))
                && !some_conflict(old(self).repositories@, participants@, 0, operations@) && ts_room(
                old(self).runtime.current_time,
                old(self).repositories@,
                participants@,
            ) ==> r is Ok && committed(
                old(self).repositories@,
                final(self).repositories@,
                participants@,
                operations@,
                r->Ok_0@,
            ),
            valid_participants(participants@, old(self).repositories@.len() as int) && operations@.len()
                == participants@.len() && (forall|t: u128| fresh_and_idle(old(self).repositories@, participants@, t))
                && ts_room(old(self).runtime.current_time, old(self).repositories@, participants@)
                ==> all_idle(final(self).repositories@, participants@) && exists|t: u128|
                wound_up(final(self).repositories@, participants@, t),
    {
        let tid = new_tid();
        proof {
            if operations@.len() == participants@.len() && all_idle(self.repositories@, participants@) {
                lemma_idle_conflicts(self.repositories@, participants@, tid, 0, operations@);
            }
        }
        let ghost before = *self;
        let r = self.distributed_transaction(tid, participants, operations, true);
        proof {
            if valid_participants(participants@, before.repositories@.len() as int) && operations@.len()
                == participants@.len() && (forall|t: u128| fresh_and_idle(before.repositories@, participants@, t))
                && ts_room(before.runtime.current_time, before.repositories@, participants@) {
                assert(fresh_and_idle(before.repositories@, participants@, tid));
                assert forall|j: int| 0 <= j < participants@.len() implies #[trigger] self.repositories@[participants@[j] as int].database@.active.len() == 0 by {
                    assert(wound_up_at(self.repositories@, participants@, tid, j, participants@.len() as int));
                }
            }
        }
        r
    }

    /// Whether `participants` names distinct repositories of this cluster.
    fn check_participants(&self, participants: &Vec<usize>) -> (r: bool)
        ensures
            r == valid_participants(participants@, self.repositories@.len() as int),
    {
        let mut i: usize = 0;
        while i < participants.len()
            invariant
                0 <= i <= participants@.len(),
                forall|a: int| 0 <= a < i ==> #[trigger] participants@[a] < self.repositories@.len(),
                forall|a: int, b: int|
                    0 <= a < i && 0 <= b < participants@.len() && a != b ==> participants@[a]
                        != participants@[b],
            decreases participants@.len() - i,
        {
            if participants[i] >= self.repositories.len() {
                return false;
            }
            let mut j: usize = 0;
            while j < participants.len()
                invariant
                    0 <= i < participants@.len(),
                    0 <= j <= participants@.len(),
                    forall|b: int| 0 <= b < j && b != i ==> participants@[i as int] != participants@[b],
                decreases participants@.len() - j,
            {
                if j != i && participants[j] == participants[i] {
                    return false;
                }
                j += 1;
            }
            i += 1;
        }
        true
    }

    /// Runs an independent (`coordinated` false) or coordinated transaction
    /// named `tid`: `operations[i]` at repository `participants[i]`.
    fn distributed_transaction(
        &mut self,
        tid: u128,
        participants: Vec<usize>,
        operations: Vec<Vec<Operation>>,
        coordinated: bool,
    ) -> (r: Result<Vec<Option<Table>>, ClientError>)
        requires
            old(self).wf(),
        ensures
            final(self).wf(),
            final(self).repositories@.len() == old(self).repositories@.len(),
            forall|q: int|
                0 <= q < old(self).repositories@.len() && !participants@.contains(q as usize)
                    ==> final(self).repositories@[q] == old(self).repositories@[q],
            !(valid_participants(participants@, old(self).repositories@.len() as int)
                && operations@.len() == participants@.len()) ==> r == Err::<
                Vec<Option<Table>>,
                ClientError,
            >(ClientError::BadParticipants) && *final(self) == *old(self),
            r == Err::<Vec<Option<Table>>, ClientError>(ClientError::BadParticipants) ==> !(
            valid_participants(participants@, old(self).repositories@.len() as int)
                && operations@.len() == participants@.len()),
            r is Ok ==> r->Ok_0@.len() == participants@.len(),
            all_idle(old(self).repositories@, participants@) && some_conflict(
                old(self).repositories@,
                participants@,
                tid,
                operations@,
            ) ==> r is Err && stores_kept(old(self).repositories@, final(self).repositories@, participants@),
            valid_participants(participants@, old(self).repositories@.len() as int) && operations@.len()
                == participants@.len() && fresh_and_idle(old(self).repositories@, participants@, tid)
                && ts_room(old(self).runtime.current_time, old(self).repositories@, participants@)
                ==> wound_up(final(self).repositories@, participants@, tid),
            valid_participants(participants@, old(self).repositories@.len() as int) && operations@.len()
                == participants@.len() && fresh_and_idle(old(self).repositories@, participants@, tid)
                && !some_conflict(old(self).repositories@, participants@, tid, operations@) && ts_room(
                old(self).runtime.current_time,
                old(self).repositories@,
                participants@,
            ) ==> r is Ok && committed(
                old(self).repositories@,
                final(self).repositories@,
                participants@,
                operations@,
                r->Ok_0@,
            ),
    {
        if operations.len() != participants.len() || !self.check_participants(&participants) {
            return Err(ClientError::BadParticipants);
        }
        let n = participants.len();
        let ghost ps = participants@;
        let ghost count = self.repositories@.len();
        let ghost start = self.repositories@;
        let ghost ops_in = operations@;
        let ghost watched = fresh_and_idle(start, ps, tid) && some_conflict(start, ps, tid, ops_in);
        let ghost fresh = fresh_and_idle(start, ps, tid);
        let ghost clean = fresh && !some_conflict(start, ps, tid, ops_in) && ts_room(
            old(self).runtime.current_time,
            start,
            ps,
        );
        let ghost idle = all_idle(start, ps);
        let ghost room = ts_room(old(self).runtime.current_time, start, ps);
        let client_ts = self.runtime.now();
        let mut remaining = operations;
        let mut votes: Vec<CommitVote> = Vec::new();
        let mut i: usize = 0;
        while i < n
            invariant
                self.wf(),
                ps == participants@,
                n == ps.len(),
                0 <= i <= n,
                votes@.len() == i,
                remaining@ == ops_in.subrange(i as int, n as int),
                ops_in.len() == n,
                ops_in == operations@,
                valid_participants(ps, count as int),
                self.repositories@.len() == count,
                count == start.len(),
                start == old(self).repositories@,
                watched == (fresh_and_idle(start, ps, tid) && some_conflict(start, ps, tid, ops_in)),
                fresh == fresh_and_idle(start, ps, tid),
                clean == (fresh && !some_conflict(start, ps, tid, ops_in) && ts_room(old(self).runtime.current_time, start, ps)),
                idle == all_idle(start, ps),
                room == ts_room(old(self).runtime.current_time, start, ps),
                forall|q: int|
                    0 <= q < count && !ps.contains(q as usize) ==> self.repositories@[q]
                        == start[q],
                forall|k: int| i <= k < n ==> self.repositories@[ps[k] as int] == start[ps[k] as int],
                client_ts == tick(old(self).runtime.current_time),
                fresh ==> forall|k: int|
                    0 <= k < i ==> #[trigger] prepared(start, self.repositories@, ps, tid, ops_in, votes@, k, n as int),
                forall|k: int|
                    0 <= k < i ==> #[trigger] self.repositories@[ps[k] as int].database@.store
                        == start[ps[k] as int].database@.store && !start[ps[k] as int].knows(tid),
            decreases n - i,
        {
            let ops = remaining.remove(0);
            proof {
                assert(ops == ops_in[i as int]);
            }
            let p = participants[i];
            let ghost before = self.repositories@;
            proof {
                if fresh && room {
                    assert(next_ts(
                        tick(old(self).runtime.current_time),
                        tick(start[ps[i as int] as int].runtime.current_time),
                        start[ps[i as int] as int].last_timestamp,
                    ) <= usize::MAX);
                }
            }
            let repo = &mut self.repositories[p];
            let ts = match repo.propose_ts(client_ts) {
                Ok(ts) => ts,
                Err(e) => {
                    proof {
                        lemma_others_kept(start, before, self.repositories@, ps, p as int);
                        lemma_untouched_participants(before, self.repositories@, ps, i as int, n as int);
                        assert forall|k: int| 0 <= k < n implies #[trigger] self.repositories@[ps[k] as int].database@.store
                            == start[ps[k] as int].database@.store by {
                            if k < i {
                                assert(ps[k] != ps[i as int]);
                                assert(before[ps[k] as int].database@.store == start[ps[k] as int].database@.store);
                            }
                        }
                    }
                    return Err(ClientError::Repo(e));
                },
            };
            let vote = if coordinated {
                repo.handle_coord_prepare(tid, ops, n, ts)
            } else {
                repo.handle_indep_prepare(tid, ops, n, ts)
            };
            proof {
                lemma_others_kept(start, before, self.repositories@, ps, p as int);
                lemma_untouched_participants(before, self.repositories@, ps, i as int, n as int);
                if fresh {
                    assert(!start[ps[i as int] as int].knows(tid));
                    assert(start[ps[i as int] as int].database@.active.len() == 0);
                    lemma_prepare_stage(
                        before[p as int].database@,
                        self.repositories@[p as int].database@,
                        tid,
                        ts,
                        n,
                        ops_in[i as int],
                        coordinated,
                    );
                }
            }
            let ghost old_votes = votes@;
            proof {
                assert forall|k: int| 0 <= k < i implies #[trigger] self.repositories@[ps[k] as int].database@.store
                    == start[ps[k] as int].database@.store && !start[ps[k] as int].knows(tid) by {
                    assert(ps[k] != ps[i as int]);
                    assert(before[ps[k] as int].database@.store == start[ps[k] as int].database@.store);
                }
                assert(self.repositories@[ps[i as int] as int].database@.store == start[ps[i as int] as int].database@.store);
            }
            match vote {
                Ok(v) => votes.push(v),
                Err(e) => {
                    proof {
                        assert forall|k: int| 0 <= k < n implies #[trigger] self.repositories@[ps[k] as int].database@.store
                            == start[ps[k] as int].database@.store by {
                            if k > i {
                                assert(self.repositories@[ps[k] as int] == before[ps[k] as int]);
                            }
                        }
                    }
                    return Err(ClientError::Repo(e));
                },
            }
            proof {
                if fresh {
                    assert forall|k: int| 0 <= k < i + 1 implies #[trigger] prepared(
                        start, self.repositories@, ps, tid, ops_in, votes@, k, n as int) by {
                        if k < i {
                            assert(ps[k] != ps[i as int]);
                            assert(prepared(start, before, ps, tid, ops_in, old_votes, k, n as int));
                            assert(votes@[k] == old_votes[k]);
                        }
                    }
                }
            }
            i += 1;
        }
        let ghost after_prepare = self.repositories@;
        proof {
            if idle {
                assert forall|j: int| 0 <= j < ps.len() implies #[trigger] start[ps[j] as int].database@.active.len() == 0
                    && !start[ps[j] as int].knows(tid) by {
                    assert(self.repositories@[ps[j] as int].database@.store == start[ps[j] as int].database@.store);
                }
                assert(fresh);
            }
            if watched {
                let c = choose|c: int| 0 <= c < ps.len() && #[trigger] start[ps[c] as int].database@.conflicts(tid, ops_in[c]@);
                assert(prepared(start, self.repositories@, ps, tid, ops_in, votes@, c, n as int));
                assert(votes@[c] == CommitVote::Conflict);
                assert forall|k: int| 0 <= k < n implies votes@[k] == CommitVote::Conflict
                    || votes@[k] == CommitVote::Commit(None) by {
                    assert(prepared(start, self.repositories@, ps, tid, ops_in, votes@, k, n as int));
                }
                assert forall|k: int| 0 <= k < n implies #[trigger] standing(
                    start, self.repositories@, ps, tid, votes@, k, 0, 0, n as int) by {
                    assert(prepared(start, self.repositories@, ps, tid, ops_in, votes@, k, n as int));
                    assert(heard_conflict(votes@, k, 0) == (votes@[k] == CommitVote::Conflict));
                }
            }
            if clean {
                assert forall|k: int| 0 <= k < n implies votes@[k] == CommitVote::Commit(None)
                    && #[trigger] advancing(start, self.repositories@, ps, tid, ops_in, k, 0, 0, n as int) by {
                    assert(prepared(start, self.repositories@, ps, tid, ops_in, votes@, k, n as int));
                    assert(!start[ps[k] as int].database@.conflicts(tid, ops_in[k]@));
                }
                assert forall|k: int| 0 <= k < n implies votes@[k] == CommitVote::Commit(None) by {
                    assert(advancing(start, self.repositories@, ps, tid, ops_in, k, 0, 0, n as int));
                }
            }
        }
        let mut i: usize = 0;
        while i < n
            invariant
                self.wf(),
                ps == participants@,
                n == ps.len(),
                0 <= i <= n,
                votes@.len() == n,
                ops_in.len() == n,
                ops_in == operations@,
                valid_participants(ps, count as int),
                self.repositories@.len() == count,
                count == start.len(),
                start == old(self).repositories@,
                watched == (fresh_and_idle(start, ps, tid) && some_conflict(start, ps, tid, ops_in)),
                fresh == fresh_and_idle(start, ps, tid),
                clean == (fresh && !some_conflict(start, ps, tid, ops_in) && ts_room(old(self).runtime.current_time, start, ps)),
                idle == all_idle(start, ps),
                room == ts_room(old(self).runtime.current_time, start, ps),
                forall|q: int|
                    0 <= q < count && !ps.contains(q as usize) ==> self.repositories@[q]
                        == start[q],
                watched ==> exists|c: int| 0 <= c < n && votes@[c] == CommitVote::Conflict,
                (idle && some_conflict(start, ps, tid, ops_in)) ==> watched,
                fresh && room ==> watched || clean,
                watched ==> forall|k: int| 0 <= k < n ==> votes@[k] == CommitVote::Conflict
                    || votes@[k] == CommitVote::Commit(None),
                watched ==> forall|k: int|
                    0 <= k < n ==> #[trigger] standing(start, self.repositories@, ps, tid, votes@, k, i as int, 0, n as int),
                clean ==> forall|k: int| 0 <= k < n ==> votes@[k] == CommitVote::Commit(None),
                clean ==> forall|k: int|
                    0 <= k < n ==> #[trigger] advancing(start, self.repositories@, ps, tid, ops_in, k, i as int, 0, n as int),
            decreases n - i,
        {
            let p = participants[i];
            let ghost before = self.repositories@;
            proof {
                if clean {
                    assert(advancing(start, before, ps, tid, ops_in, i as int, i as int, 0, n as int));
                    lemma_index_of(before[p as int].database@.active, tid, 0);
                }
                if watched {
                    assert(standing(start, before, ps, tid, votes@, i as int, i as int, 0, n as int));
                    if !heard_conflict(votes@, i as int, i as int) {
                        lemma_index_of(before[p as int].database@.active, tid, 0);
                    }
                    assert(before[p as int].database@.proposed_ts_of(tid) is Some);
                }
            }
            let sent = if coordinated {
                self.repositories[p].send_message_accept_coord_to_participants(tid, votes[i])
            } else {
                self.repositories[p].send_message_accept_indep_to_participants(tid, votes[i])
            };
            proof {
                lemma_others_kept(start, before, self.repositories@, ps, p as int);
                if watched {
                    assert forall|k: int| 0 <= k < n implies #[trigger] standing(
                        start, self.repositories@, ps, tid, votes@, k, i as int, 0, n as int) by {
                        assert(standing(start, before, ps, tid, votes@, k, i as int, 0, n as int));
                        if ps[k] != p {
                            assert(self.repositories@[ps[k] as int] == before[ps[k] as int]);
                        }
                    }
                }
                if clean {
                    assert forall|k: int| 0 <= k < n implies #[trigger] advancing(
                        start, self.repositories@, ps, tid, ops_in, k, i as int, 0, n as int) by {
                        assert(advancing(start, before, ps, tid, ops_in, k, i as int, 0, n as int));
                        if ps[k] != p {
                            assert(self.repositories@[ps[k] as int] == before[ps[k] as int]);
                        }
                    }
                }
            }
            let msg = match sent {
                Ok(msg) => msg,
                Err(e) => {
                    proof {
                        if watched {
                            assert forall|k: int| 0 <= k < n implies #[trigger] self.repositories@[ps[k] as int].database@.store
                                == start[ps[k] as int].database@.store by {
                                assert(standing(start, self.repositories@, ps, tid, votes@, k, i as int, 0, n as int));
                            }
                        }
                    }
                    return Err(ClientError::Repo(e));
                },
            };
            let mut j: usize = 0;
            while j < n
                invariant
                    self.wf(),
                    ps == participants@,
                    n == ps.len(),
                    0 <= i < n,
                    0 <= j <= n,
                    votes@.len() == n,
                    ops_in.len() == n,
                    ops_in == operations@,
                    valid_participants(ps, count as int),
                    self.repositories@.len() == count,
                    count == start.len(),
                    start == old(self).repositories@,
                    watched == (fresh_and_idle(start, ps, tid) && some_conflict(start, ps, tid, ops_in)),
                    fresh == fresh_and_idle(start, ps, tid),
                    clean == (fresh && !some_conflict(start, ps, tid, ops_in) && ts_room(old(self).runtime.current_time, start, ps)),
                idle == all_idle(start, ps),
                room == ts_room(old(self).runtime.current_time, start, ps),
                    msg == (if coordinated { MessageAccept::Coord(tid, msg->Coord_1, votes@[i as int]) } else { MessageAccept::Indep(tid, msg->Indep_1, votes@[i as int]) }),
                    forall|q: int|
                        0 <= q < count && !ps.contains(q as usize) ==> self.repositories@[q]
                            == start[q],
                    watched ==> exists|c: int| 0 <= c < n && votes@[c] == CommitVote::Conflict,
                (idle && some_conflict(start, ps, tid, ops_in)) ==> watched,
                fresh && room ==> watched || clean,
                    watched ==> forall|k: int| 0 <= k < n ==> votes@[k] == CommitVote::Conflict
                        || votes@[k] == CommitVote::Commit(None),
                    watched ==> forall|k: int|
                        0 <= k < n ==> #[trigger] standing(start, self.repositories@, ps, tid, votes@, k,
                            i as int, j as int, n as int),
                    clean ==> forall|k: int| 0 <= k < n ==> votes@[k] == CommitVote::Commit(None),
                    clean ==> forall|k: int|
                        0 <= k < n ==> #[trigger] advancing(start, self.repositories@, ps, tid, ops_in, k,
                            i as int, j as int, n as int),
                decreases n - j,
            {
                let q = participants[j];
                let ghost before = self.repositories@;
                self.repositories[q].handle_message_accept(msg);
                proof {
                    lemma_others_kept(start, before, self.repositories@, ps, q as int);
                    if watched {
                        assert(standing(start, before, ps, tid, votes@, j as int, i as int, j as int, n as int));
                        let st0 = before[q as int].database@;
                        let vote = votes@[i as int];
                        let heard = heard_conflict(votes@, j as int, i as int);
                        if !heard && vote != CommitVote::Conflict {
                            lemma_commits_before_conflict(votes@, j as int, i as int, n as int);
                        }
                        lemma_accept_stage(
                            st0,
                            before[q as int].done_xactions@,
                            tid,
                            if coordinated { msg->Coord_1 } else { msg->Indep_1 },
                            vote,
                            heard,
                            n - i,
                        );
                        assert(heard_conflict(votes@, j as int, i + 1) == (heard || vote == CommitVote::Conflict));
                        assert forall|k: int| 0 <= k < n implies #[trigger] standing(start, self.repositories@, ps, tid, votes@, k,
                            i as int, j + 1, n as int) by {
                            assert(standing(start, before, ps, tid, votes@, k, i as int, j as int, n as int));
                            if k != j {
                                assert(ps[k] != ps[j as int]);
                            }
                        }
                    }
                    if clean {
                        assert(advancing(start, before, ps, tid, ops_in, j as int, i as int, j as int, n as int));
                        assert(!start[ps[j as int] as int].database@.conflicts(tid, ops_in[j as int]@));
                        lemma_accept_advance(
                            before[q as int].database@,
                            before[q as int].done_xactions@,
                            tid,
                            if coordinated { msg->Coord_1 } else { msg->Indep_1 },
                            n - i,
                            start[q as int].database@,
                            ops_in[j as int]@,
                        );
                        assert forall|k: int| 0 <= k < n implies #[trigger] advancing(start, self.repositories@, ps, tid, ops_in, k,
                            i as int, j + 1, n as int) by {
                            assert(advancing(start, before, ps, tid, ops_in, k, i as int, j as int, n as int));
                            if k != j {
                                assert(ps[k] != ps[j as int]);
                            }
                        }
                    }
                }
                j += 1;
            }
            proof {
                if watched {
                    assert forall|k: int| 0 <= k < n implies #[trigger] standing(
                        start, self.repositories@, ps, tid, votes@, k, i + 1, 0, n as int) by {
                        assert(standing(start, self.repositories@, ps, tid, votes@, k, i as int, n as int, n as int));
                    }
                }
                if clean {
                    assert forall|k: int| 0 <= k < n implies #[trigger] advancing(
                        start, self.repositories@, ps, tid, ops_in, k, i + 1, 0, n as int) by {
                        assert(advancing(start, self.repositories@, ps, tid, ops_in, k, i as int, n as int, n as int));
                    }
                }
            }
            i += 1;
        }
        proof {
            if watched {
                assert forall|k: int| 0 <= k < n implies #[trigger] self.repositories@[ps[k] as int].database@.store
                    == start[ps[k] as int].database@.store by {
                    assert(standing(start, self.repositories@, ps, tid, votes@, k, n as int, 0, n as int));
                }
            }
        }
        proof {
            if clean {
                assert forall|k: int| 0 <= k < n implies #[trigger] settled(
                    start, self.repositories@, ps, ops_in, Seq::<Option<Outcome>>::empty(), k, 0) by {
                    assert(advancing(start, self.repositories@, ps, tid, ops_in, k, n as int, 0, n as int));
                }
            }
        }
        proof {
            if fresh && room {
                assert forall|k: int| 0 <= k < n implies #[trigger] wound_up_at(self.repositories@, ps, tid, k, 0) by {
                    if watched {
                        assert(standing(start, self.repositories@, ps, tid, votes@, k, n as int, 0, n as int));
                        let c = choose|c: int| 0 <= c < n && votes@[c] == CommitVote::Conflict;
                        assert(heard_conflict(votes@, k, n as int));
                    } else {
                        assert(advancing(start, self.repositories@, ps, tid, ops_in, k, n as int, 0, n as int));
                    }
                }
            }
        }
        let mut outcomes: Vec<Option<Outcome>> = Vec::new();
        let mut i: usize = 0;
        while i < n
            invariant
                self.wf(),
                ps == participants@,
                n == ps.len(),
                0 <= i <= n,
                outcomes@.len() == i,
                votes@.len() == n,
                ops_in.len() == n,
                ops_in == operations@,
                valid_participants(ps, count as int),
                self.repositories@.len() == count,
                count == start.len(),
                start == old(self).repositories@,
                watched == (fresh_and_idle(start, ps, tid) && some_conflict(start, ps, tid, ops_in)),
                fresh == fresh_and_idle(start, ps, tid),
                clean == (fresh && !some_conflict(start, ps, tid, ops_in) && ts_room(old(self).runtime.current_time, start, ps)),
                idle == all_idle(start, ps),
                room == ts_room(old(self).runtime.current_time, start, ps),
                forall|q: int|
                    0 <= q < count && !ps.contains(q as usize) ==> self.repositories@[q]
                        == start[q],
                watched ==> exists|c: int| 0 <= c < n && votes@[c] == CommitVote::Conflict,
                (idle && some_conflict(start, ps, tid, ops_in)) ==> watched,
                watched ==> stores_kept(start, self.repositories@, ps),
                fresh && room ==> forall|k: int|
                    0 <= k < n ==> #[trigger] wound_up_at(self.repositories@, ps, tid, k, i as int),
                clean ==> forall|k: int| 0 <= k < n ==> votes@[k] == CommitVote::Commit(None),
                clean ==> forall|k: int|
                    i <= k < n ==> #[trigger] advancing(start, self.repositories@, ps, tid, ops_in, k, n as int, 0, n as int),
                clean ==> forall|k: int|
                    0 <= k < n ==> #[trigger] settled(start, self.repositories@, ps, ops_in, outcomes@, k, i as int),
            decreases n - i,
        {
            let p = participants[i];
            let ghost before = self.repositories@;
            let ghost old_outcomes = outcomes@;
            proof {
                if clean {
                    assert(advancing(start, before, ps, tid, ops_in, i as int, n as int, 0, n as int));
                }
            }
            let got = self.repositories[p].get_result(tid);
            outcomes.push(got);
            proof {
                lemma_others_kept(start, before, self.repositories@, ps, p as int);
                assert forall|k: int| 0 <= k < n && ps[k] != p implies #[trigger] self.repositories@[ps[k] as int]
                    == before[ps[k] as int] by {}
                if watched {
                    assert forall|k: int| 0 <= k < n implies #[trigger] self.repositories@[ps[k] as int].database@.store
                        == start[ps[k] as int].database@.store by {
                        if ps[k] != p {
                            assert(self.repositories@[ps[k] as int] == before[ps[k] as int]);
                        }
                    }
                }
                if fresh && room {
                    assert forall|k: int| 0 <= k < n implies #[trigger] wound_up_at(self.repositories@, ps, tid, k, i + 1) by {
                        assert(wound_up_at(before, ps, tid, k, i as int));
                        if ps[k] != p {
                            assert(self.repositories@[ps[k] as int] == before[ps[k] as int]);
                        }
                    }
                }
                if clean {
                    let (s1, v) = eval_ops(start[p as int].database@.store, ops_in[i as int]@);
                    assert(got == Some(Ok::<Option<Table>, TxError>(v)));
                    assert forall|k: int| 0 <= k < n implies #[trigger] settled(
                        start, self.repositories@, ps, ops_in, outcomes@, k, i + 1) by {
                        assert(settled(start, before, ps, ops_in, old_outcomes, k, i as int));
                        if k < i {
                            assert(outcomes@[k] == old_outcomes[k]);
                        }
                        if ps[k] != p {
                            assert(self.repositories@[ps[k] as int] == before[ps[k] as int]);
                        }
                        assert(self.repositories@[ps[k] as int].database@.store == before[ps[k] as int].database@.store);
                    }
                    assert forall|k: int| i + 1 <= k < n implies #[trigger] advancing(
                        start, self.repositories@, ps, tid, ops_in, k, n as int, 0, n as int) by {
                        assert(ps[k] != p);
                        assert(advancing(start, before, ps, tid, ops_in, k, n as int, 0, n as int));
                    }
                }
            }
            i += 1;
        }
        proof {
            if watched {
                let c = choose|c: int| 0 <= c < n && votes@[c] == CommitVote::Conflict;
                assert(conflict_voted(votes@));
            }
            if clean {
                assert(!conflict_voted(votes@));
                assert forall|k: int| 0 <= k < n implies committed_at(outcomes@, k) by {
                    assert(settled(start, self.repositories@, ps, ops_in, outcomes@, k, n as int));
                }
            }
            if fresh && room {
                assert forall|k: int| 0 <= k < n implies #[trigger] wound_up_at(self.repositories@, ps, tid, k, n as int) by {
                    assert(wound_up_at(self.repositories@, ps, tid, k, n as int));
                }
            }
        }
        let r = aggregate(&votes, outcomes);
        proof {
            if clean {
                let rs = r->Ok_0@;
                assert forall|k: int| 0 <= k < n implies {
                    let (s1, v) = eval_ops(start[ps[k] as int].database@.store, ops_in[k]@);
                    &&& #[trigger] self.repositories@[ps[k] as int].database@.store == s1
                    &&& rs[k] == v
                } by {
                    assert(settled(start, self.repositories@, ps, ops_in, outcomes@, k, n as int));
                }
            }
        }
        r
    }
}

/// Changing the repository at `p`, one of the participants `ps`, keeps every
/// repository outside `ps` as it was at the start.
proof fn lemma_others_kept(start: Seq<Repository>, before: Seq<Repository>, after: Seq<Repository>, ps: Seq<usize>, p: int)
    requires
        before.len() == start.len(),
        after == before.update(p, after[p]),
        0 <= p < before.len(),
        exists|i: int| 0 <= i < ps.len() && ps[i] == p,
        forall|q: int| 0 <= q < start.len() && !ps.contains(q as usize) ==> before[q] == start[q],
    ensures
        forall|q: int| 0 <= q < start.len() && !ps.contains(q as usize) ==> after[q] == start[q],
{
}

} // verus!
