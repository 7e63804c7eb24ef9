//! One repository's store and transaction table: conflict checks, locks,
//! and running transactions in timestamp order.

use std::collections::BTreeMap;
use std::collections::HashMap;
use vstd::prelude::*;

use crate::operations::{
    eval_expr, eval_op, eval_ops, eval_write, expr_keys, expr_needs, op_keys, op_needs,
    ops_keys, ops_needs, Expr, Operation, PrimaryKey, Statement, Store, Table,
};

verus! {

broadcast use vstd::std_specs::hash::group_hash_axioms;

/// Why a transaction did not commit at a repository.
#[derive(Clone, Copy, Debug, PartialEq, Eq, Structural)]
pub enum TxError {
    /// A peer voted `Conflict`.
    PeerConflict,
    /// This repository found a conflict earlier and already finished the transaction.
    LocalConflict,
    /// A conflict came to light when the transaction was about to run.
    LateConflict,
}

/// What a transaction yields at one repository: the record of its last
/// operation, or why it did not commit.
pub type Outcome = Result<Option<Table>, TxError>;

/// A transaction as one repository sees it.
#[derive(Debug)]
pub struct Transaction {
    /// Timestamp at which it will run; only ever raised.
    pub proposed_ts: usize,
    /// Votes of peers still to come.
    pub waiting_for: usize,
    /// Whether it holds locks on every key it names (coordinated transactions).
    pub holds_locks: bool,
    /// What it does at this repository.
    pub operations: Vec<Operation>,
}

/// A transaction at `proposed_ts`, waiting for `waiting_for` votes, without locks.
pub open spec fn new_tx(proposed_ts: usize, waiting_for: usize, operations: Vec<Operation>) -> Transaction {
    Transaction { proposed_ts, waiting_for, holds_locks: false, operations }
}

impl Transaction {
    /// A transaction that holds no locks yet.
    pub fn new(proposed_ts: usize, waiting_for: usize, operations: Vec<Operation>) -> (r: Self)
        ensures
            r == new_tx(proposed_ts, waiting_for, operations),
    {
        Transaction { proposed_ts, waiting_for, holds_locks: false, operations }
    }
}

/// The abstract state of a [`Database`].
pub struct DbModel {
    pub store: Store,
    /// Active transactions with their identifiers, without repeats.
    pub active: Seq<(u128, Transaction)>,
    /// Timestamp at which each finished transaction left the active set.
    pub finalized: Map<u128, usize>,
}

/// Index of `tid` in `s`, or -1.
pub open spec fn index_of(s: Seq<(u128, Transaction)>, tid: u128) -> int {
    if exists|i: int| 0 <= i < s.len() && s[i].0 == tid {
        choose|i: int| 0 <= i < s.len() && s[i].0 == tid
    } else {
        -1
    }
}

/// No identifier occurs twice in `s`.
pub open spec fn tids_unique(s: Seq<(u128, Transaction)>) -> bool {
    forall|i: int, j: int| 0 <= i < s.len() && 0 <= j < s.len() && i != j ==> s[i].0 != s[j].0
}

/// With identifiers unique, `index_of` finds the one entry that holds `tid`.
pub proof fn lemma_index_of(s: Seq<(u128, Transaction)>, tid: u128, i: int)
    requires
        tids_unique(s),
        0 <= i < s.len(),
        s[i].0 == tid,
    ensures
        index_of(s, tid) == i,
{
}

/// What `index_of` finds holds `tid`.
pub proof fn lemma_index_of_found(s: Seq<(u128, Transaction)>, tid: u128)
    requires
        index_of(s, tid) >= 0,
    ensures
        index_of(s, tid) < s.len(),
        s[index_of(s, tid)].0 == tid,
{
}

/// Without an entry for `tid`, `index_of` gives -1.
pub proof fn lemma_index_of_absent(s: Seq<(u128, Transaction)>, tid: u128)
    requires
        forall|i: int| 0 <= i < s.len() ==> s[i].0 != tid,
    ensures
        index_of(s, tid) == -1,
{
}

/// Rewriting one entry in place, its identifier kept, moves no other identifier.
pub proof fn lemma_index_of_update(s: Seq<(u128, Transaction)>, i: int, e: (u128, Transaction))
    requires
        tids_unique(s),
        0 <= i < s.len(),
        s[i].0 == e.0,
    ensures
        tids_unique(s.update(i, e)),
        index_of(s.update(i, e), e.0) == i,
        forall|other: u128| #[trigger] index_of(s.update(i, e), other) == index_of(s, other),
{
    let s2 = s.update(i, e);
    assert(s2[i].0 == e.0);
    lemma_index_of(s2, e.0, i);
    lemma_index_of(s, e.0, i);
    assert forall|other: u128| #[trigger] index_of(s2, other) == index_of(s, other) by {
        if exists|j: int| 0 <= j < s.len() && s[j].0 == other {
            let j = choose|j: int| 0 <= j < s.len() && s[j].0 == other;
            assert(s2[j].0 == other);
            lemma_index_of(s, other, j);
            lemma_index_of(s2, other, j);
        } else {
            lemma_index_of_absent(s, other);
            lemma_index_of_absent(s2, other);
        }
    }
}

/// Appending an entry with a new identifier moves no other identifier.
pub proof fn lemma_index_of_push(s: Seq<(u128, Transaction)>, e: (u128, Transaction))
    requires
        tids_unique(s),
        forall|j: int| 0 <= j < s.len() ==> s[j].0 != e.0,
    ensures
        tids_unique(s.push(e)),
        index_of(s.push(e), e.0) == s.len(),
        forall|other: u128| other != e.0 ==> #[trigger] index_of(s.push(e), other) == index_of(s, other),
{
    let s2 = s.push(e);
    assert(s2[s.len() as int].0 == e.0);
    lemma_index_of(s2, e.0, s.len() as int);
    assert forall|other: u128| other != e.0 implies #[trigger] index_of(s2, other) == index_of(s, other) by {
        if exists|j: int| 0 <= j < s.len() && s[j].0 == other {
            let j = choose|j: int| 0 <= j < s.len() && s[j].0 == other;
            assert(s2[j].0 == other);
            lemma_index_of(s, other, j);
            lemma_index_of(s2, other, j);
        } else {
            lemma_index_of_absent(s, other);
            lemma_index_of_absent(s2, other);
        }
    }
}

/// `a` runs before `b`: a lower timestamp, or the same one and a lower tid.
pub open spec fn precedes(a: (u128, Transaction), b: (u128, Transaction)) -> bool {
    a.1.proposed_ts < b.1.proposed_ts || (a.1.proposed_ts == b.1.proposed_ts && a.0 < b.0)
}

/// The entry at `i` waits for no vote and runs before every other such entry.
pub open spec fn is_next(s: Seq<(u128, Transaction)>, i: int) -> bool {
    &&& 0 <= i < s.len()
    &&& s[i].1.waiting_for == 0
    &&& forall|j: int|
        0 <= j < s.len() && j != i && #[trigger] s[j].1.waiting_for == 0 ==> precedes(s[i], s[j])
}

/// Index of the transaction to run next, or -1 when none can run.
pub open spec fn next_index(s: Seq<(u128, Transaction)>) -> int {
    if exists|i: int| is_next(s, i) {
        choose|i: int| is_next(s, i)
    } else {
        -1
    }
}

/// At most one entry is next.
pub proof fn lemma_next_unique(s: Seq<(u128, Transaction)>, i: int)
    requires
        is_next(s, i),
    ensures
        next_index(s) == i,
{
    let j = next_index(s);
    if j != i {
        assert(is_next(s, j));
        assert(precedes(s[i], s[j]));
        assert(precedes(s[j], s[i]));
    }
}

impl DbModel {
    /// Identifiers unique, and no transaction both active and finalized.
    pub open spec fn wf(self) -> bool {
        &&& tids_unique(self.active)
        &&& forall|i: int|
            0 <= i < self.active.len() ==> !(#[trigger] self.finalized.contains_key(
                self.active[i].0,
            ))
    }

    /// `tid` is among the active transactions.
    pub open spec fn is_active(self, tid: u128) -> bool {
        index_of(self.active, tid) >= 0
    }

    /// The active transaction `tid`.
    pub open spec fn tx(self, tid: u128) -> Transaction {
        self.active[index_of(self.active, tid)].1
    }

    /// Moves `tid` to the finalized set at `ts`; a tid that is already there keeps its timestamp.
    pub open spec fn finalize(self, tid: u128, ts: usize) -> DbModel {
        if self.finalized.contains_key(tid) {
            self
        } else {
            let i = index_of(self.active, tid);
            DbModel {
                active: if i >= 0 { self.active.remove(i) } else { self.active },
                finalized: self.finalized.insert(tid, ts),
                ..self
            }
        }
    }

    /// `tid` added as an active transaction `t`.
    pub open spec fn enlist(self, tid: u128, t: Transaction) -> DbModel {
        DbModel { active: self.active.push((tid, t)), ..self }
    }

    /// `tid` with one vote fewer to wait for.
    pub open spec fn decrement(self, tid: u128) -> DbModel {
        let t = self.tx(tid);
        if self.is_active(tid) && t.waiting_for > 0 {
            self.with_tx(tid, Transaction { waiting_for: (t.waiting_for - 1) as usize, ..t })
        } else {
            self
        }
    }

    /// `tid` with its timestamp raised to `ts` where that is higher.
    pub open spec fn raise_ts(self, tid: u128, ts: usize) -> DbModel {
        let t = self.tx(tid);
        if self.is_active(tid) {
            self.with_tx(
                tid,
                Transaction { proposed_ts: if t.proposed_ts > ts { t.proposed_ts } else { ts }, ..t },
            )
        } else {
            self
        }
    }

    /// `tid` holding locks on every key it names.
    pub open spec fn lock(self, tid: u128) -> DbModel {
        let t = self.tx(tid);
        if self.is_active(tid) {
            self.with_tx(tid, Transaction { holds_locks: true, ..t })
        } else {
            self
        }
    }

    /// `tid` holding no locks.
    pub open spec fn unlock(self, tid: u128) -> DbModel {
        let t = self.tx(tid);
        if self.is_active(tid) {
            self.with_tx(tid, Transaction { holds_locks: false, ..t })
        } else {
            self
        }
    }

    /// `tid` is active, has every vote it waits for, and still holds locks:
    /// a pass that stopped early left it behind.
    pub open spec fn left_holding(self, tid: u128) -> bool {
        self.is_active(tid) && self.tx(tid).waiting_for == 0 && self.tx(tid).holds_locks
    }

    /// Some transaction other than `tid` holds a lock on `k`.
    pub open spec fn locked_by_other(self, tid: u128, k: PrimaryKey) -> bool {
        exists|j: int|
            0 <= j < self.active.len() && self.active[j].0 != tid && self.active[j].1.holds_locks
                && #[trigger] ops_keys(self.active[j].1.operations@).contains(k)
    }

    /// Every key that some active transaction holds a lock on.
    pub open spec fn locked_keys(self) -> Set<PrimaryKey> {
        Set::new(
            |k: PrimaryKey|
                exists|j: int|
                    0 <= j < self.active.len() && self.active[j].1.holds_locks
                        && #[trigger] ops_keys(self.active[j].1.operations@).contains(k),
        )
    }

    /// One of `ks` is locked by a transaction other than `tid`.
    pub open spec fn keys_locked(self, tid: u128, ks: Set<PrimaryKey>) -> bool {
        exists|k: PrimaryKey| #[trigger] ks.contains(k) && self.locked_by_other(tid, k)
    }

    /// One of `ks` has no record.
    pub open spec fn keys_missing(self, ks: Set<PrimaryKey>) -> bool {
        exists|k: PrimaryKey| #[trigger] ks.contains(k) && !self.store.contains_key(k)
    }

    /// `ops`, run as `tid`, name a key locked by another transaction, or read
    /// or delete a key that has no record.
    pub open spec fn conflicts(self, tid: u128, ops: Seq<Operation>) -> bool {
        self.keys_locked(tid, ops_keys(ops)) || self.keys_missing(ops_needs(ops))
    }

    /// The active transaction at `i` leaves the active set, finalized at `ts`.
    pub open spec fn retire(self, i: int, ts: usize) -> DbModel {
        DbModel {
            active: self.active.remove(i),
            finalized: self.finalized.insert(self.active[i].0, ts),
            ..self
        }
    }

    /// Runs every transaction that can run, lowest timestamp first, until none
    /// is left or one turns out to conflict; that one is finalized with a
    /// negative outcome and the pass stops. Yields the new state and the
    /// outcome of each transaction it finished, in order.
    pub open spec fn run_nexts(self) -> (DbModel, Seq<(u128, Outcome)>)
        decreases self.active.len(),
    {
        let i = next_index(self.active);
        if 0 <= i < self.active.len() {
            let tid = self.active[i].0;
            let t = self.active[i].1;
            if self.conflicts(tid, t.operations@) {
                (self.retire(i, t.proposed_ts), seq![(tid, Err(TxError::LateConflict))])
            } else {
                let (s1, r) = eval_ops(self.store, t.operations@);
                let next = DbModel { store: s1, ..self }.retire(i, t.proposed_ts);
                let (m, rest) = next.run_nexts();
                (m, seq![(tid, Ok(r))] + rest)
            }
        } else {
            (self, Seq::empty())
        }
    }

    /// The timestamp of `tid`: its proposal while active, its final one afterwards.
    pub open spec fn proposed_ts_of(self, tid: u128) -> Option<usize> {
        if self.is_active(tid) {
            Some(self.tx(tid).proposed_ts)
        } else if self.finalized.contains_key(tid) {
            Some(self.finalized[tid])
        } else {
            None
        }
    }

    /// Replaces the active transaction `tid` with `t`.
    pub open spec fn with_tx(self, tid: u128, t: Transaction) -> DbModel {
        let i = index_of(self.active, tid);
        if i >= 0 {
            DbModel { active: self.active.update(i, (tid, t)), ..self }
        } else {
            self
        }
    }
}

/// A repository's store and transaction table.
pub struct Database {
    pub data_structure: BTreeMap<PrimaryKey, Table>,
    pub active_transactions: Vec<(u128, Transaction)>,
    pub tid_to_ts_end_xaction_ends: HashMap<u128, usize>,
}

impl View for Database {
    type V = DbModel;

    open spec fn view(&self) -> DbModel {
        DbModel {
            store: self.data_structure@,
            active: self.active_transactions@,
            finalized: self.tid_to_ts_end_xaction_ends@,
        }
    }
}

impl Database {
    /// An empty database.
    pub fn new() -> (r: Self)
        ensures
            r@.wf(),
            r@.store == Store::empty(),
            r@.active.len() == 0,
            r@.finalized == Map::<u128, usize>::empty(),
    {
        Database {
            data_structure: BTreeMap::new(),
            active_transactions: Vec::new(),
            tid_to_ts_end_xaction_ends: HashMap::new(),
        }
    }

    /// Position of `tid` among the active transactions.
    pub fn find(&self, tid: u128) -> (r: Option<usize>)
        requires
            self@.wf(),
        ensures
            r == (if self@.is_active(tid) {
                Some(index_of(self@.active, tid) as usize)
            } else {
                None::<usize>
            }),
            r matches Some(i) ==> i < self@.active.len() && self@.active[i as int].0 == tid,
    {
        let mut i: usize = 0;
        while i < self.active_transactions.len()
            invariant
                self@.wf(),
                0 <= i <= self.active_transactions@.len(),
                forall|j: int| 0 <= j < i ==> self.active_transactions@[j].0 != tid,
            decreases self.active_transactions@.len() - i,
        {
            if self.active_transactions[i].0 == tid {
                proof {
                    lemma_index_of(self@.active, tid, i as int);
                }
                return Some(i);
            }
            i += 1;
        }
        proof {
            lemma_index_of_absent(self@.active, tid);
        }
        None
    }

    /// Whether `tid` is active.
    pub fn is_active(&self, tid: u128) -> (r: bool)
        requires
            self@.wf(),
        ensures
            r == self@.is_active(tid),
    {
        self.find(tid).is_some()
    }

    /// Adds `tid` as an active transaction waiting for `participants_len` votes,
    /// replacing an active one with the same identifier.
    pub fn add_xaction(
        &mut self,
        tid: u128,
        proposed_ts: usize,
        operation: Vec<Operation>,
        participants_len: usize,
    )
        requires
            old(self)@.wf(),
            !old(self)@.finalized.contains_key(tid),
        ensures
            final(self)@.wf(),
            final(self)@.is_active(tid),
            final(self)@.store == old(self)@.store,
            final(self)@.finalized == old(self)@.finalized,
            !old(self)@.is_active(tid) ==> final(self)@ == old(self)@.enlist(
                tid,
                new_tx(proposed_ts, participants_len, operation),
            ),
            ({
                let t = final(self)@.tx(tid);
                t.proposed_ts == proposed_ts && t.waiting_for == participants_len
                    && !t.holds_locks && t.operations@ == operation@
            }),
            forall|other: u128|
                other != tid ==> (#[trigger] final(self)@.is_active(other) == old(self)@.is_active(
                    other,
                ) && (old(self)@.is_active(other) ==> final(self)@.tx(other) == old(
                    self,
                )@.tx(other))),
    {
        let xaction = Transaction::new(proposed_ts, participants_len, operation);
        match self.find(tid) {
            Some(i) => {
                proof {
                    lemma_index_of_update(self@.active, i as int, (tid, xaction));
                }
                self.active_transactions.set(i, (tid, xaction));
            },
            None => {
                proof {
                    lemma_index_of_push(self@.active, (tid, xaction));
                }
                self.active_transactions.push((tid, xaction));
            },
        }
    }

    /// Counts one more vote received for `tid`.
    pub fn decrement_reply_count(&mut self, tid: u128)
        requires
            old(self)@.wf(),
        ensures
            final(self)@ == old(self)@.decrement(tid),
            final(self)@.wf(),
    {
        if let Some(i) = self.find(tid) {
            let w = self.active_transactions[i].1.waiting_for;
            if w > 0 {
                let (t, x) = self.active_transactions.remove(i);
                let x = Transaction { waiting_for: w - 1, ..x };
                self.active_transactions.insert(i, (t, x));
                proof {
                    lemma_index_of_update(old(self)@.active, i as int, (tid, x));
                    assert(self@.active =~= old(self)@.active.update(i as int, (tid, x)));
                }
            }
        }
    }

    /// Keeps the higher of `tid`'s timestamp and `ts`.
    pub fn update_proposed_ts_to_highest(&mut self, tid: u128, ts: usize)
        requires
            old(self)@.wf(),
        ensures
            final(self)@ == old(self)@.raise_ts(tid, ts),
            final(self)@.wf(),
    {
        if let Some(i) = self.find(tid) {
            let (t, x) = self.active_transactions.remove(i);
            let highest = if x.proposed_ts > ts { x.proposed_ts } else { ts };
            let x = Transaction { proposed_ts: highest, ..x };
            self.active_transactions.insert(i, (t, x));
            proof {
                lemma_index_of_update(old(self)@.active, i as int, (tid, x));
                assert(self@.active =~= old(self)@.active.update(i as int, (tid, x)));
            }
        }
    }

    /// Makes `tid` hold locks on every key it names.
    pub fn get_all_locks(&mut self, tid: u128)
        requires
            old(self)@.wf(),
        ensures
            final(self)@ == old(self)@.lock(tid),
            final(self)@.wf(),
    {
        if let Some(i) = self.find(tid) {
            let (t, x) = self.active_transactions.remove(i);
            let x = Transaction { holds_locks: true, ..x };
            self.active_transactions.insert(i, (t, x));
            proof {
                lemma_index_of_update(old(self)@.active, i as int, (tid, x));
                assert(self@.active =~= old(self)@.active.update(i as int, (tid, x)));
            }
        }
    }

    /// Whether `tid` is active, has every vote and still holds locks.
    pub fn is_left_holding(&self, tid: u128) -> (r: bool)
        requires
            self@.wf(),
        ensures
            r == self@.left_holding(tid),
    {
        match self.find(tid) {
            Some(i) => {
                let t = &self.active_transactions[i].1;
                t.waiting_for == 0 && t.holds_locks
            },
            None => false,
        }
    }

    /// Releases the locks of `tid`.
    pub fn release_locks(&mut self, tid: u128)
        requires
            old(self)@.wf(),
        ensures
            final(self)@ == old(self)@.unlock(tid),
            final(self)@.wf(),
    {
        if let Some(i) = self.find(tid) {
            let (t, x) = self.active_transactions.remove(i);
            let x = Transaction { holds_locks: false, ..x };
            self.active_transactions.insert(i, (t, x));
            proof {
                lemma_index_of_update(old(self)@.active, i as int, (tid, x));
                assert(self@.active =~= old(self)@.active.update(i as int, (tid, x)));
            }
        }
    }

    /// Ends `tid` at timestamp `ts`: it leaves the active set, with its locks,
    /// and is recorded as finalized. Nothing changes for a tid already finalized.
    pub fn finalize(&mut self, tid: u128, ts: usize)
        requires
            old(self)@.wf(),
        ensures
            final(self)@ == old(self)@.finalize(tid, ts),
            final(self)@.wf(),
    {
        if self.tid_to_ts_end_xaction_ends.contains_key(&tid) {
            return;
        }
        if let Some(i) = self.find(tid) {
            self.active_transactions.remove(i);
            proof {
                assert forall|j: int, k: int|
                    0 <= j < self@.active.len() && 0 <= k < self@.active.len() && j != k implies
                    self@.active[j].0 != self@.active[k].0 by {
                    let oj = if j < i { j } else { j + 1 };
                    let ok = if k < i { k } else { k + 1 };
                    assert(self@.active[j] == old(self)@.active[oj]);
                    assert(self@.active[k] == old(self)@.active[ok]);
                }
                assert forall|j: int| 0 <= j < self@.active.len() implies self@.active[j].0 != tid by {
                    let oj = if j < i { j } else { j + 1 };
                    assert(self@.active[j] == old(self)@.active[oj]);
                }
            }
        } else {
            proof {
                assert forall|j: int| 0 <= j < self@.active.len() implies self@.active[j].0 != tid by {
                    if self@.active[j].0 == tid {
                        lemma_index_of(self@.active, tid, j);
                    }
                }
            }
        }
        let ghost mid = self@;
        self.tid_to_ts_end_xaction_ends.insert(tid, ts);
        proof {
            assert forall|j: int| 0 <= j < self@.active.len() implies !(
            #[trigger] self@.finalized.contains_key(self@.active[j].0)) by {
                assert(!mid.finalized.contains_key(mid.active[j].0) || mid.active[j].0 == tid) by {
                    if j >= 0 {
                        let oj = if index_of(old(self)@.active, tid) >= 0 && j >= index_of(old(self)@.active, tid) { j + 1 } else { j };
                        assert(mid.active[j] == old(self)@.active[oj]);
                        assert(!old(self)@.finalized.contains_key(old(self)@.active[oj].0));
                    }
                }
            }
        }
    }

    /// The proposal of `tid` while active, its final timestamp afterwards,
    /// and `None` for a tid never seen.
    pub fn get_proposed_ts_for_tid(&self, tid: u128) -> (r: Option<usize>)
        requires
            self@.wf(),
        ensures
            r == self@.proposed_ts_of(tid),
    {
        if let Some(i) = self.find(tid) {
            return Some(self.active_transactions[i].1.proposed_ts);
        }
        match self.tid_to_ts_end_xaction_ends.get(&tid) {
            Some(ts) => Some(*ts),
            None => None,
        }
    }

    /// Evaluates `op` against `database`, changing it in place, and returns the record it yields.
    pub fn eval_operation(database: &mut BTreeMap<PrimaryKey, Table>, op: &Operation) -> (r: Option<
        Table,
    >)
        ensures
            (final(database)@, r) == eval_op(old(database)@, *op),
    {
        match op {
            Operation::Expr(e) => Self::eval_expression(database, e),
            Operation::Statement(Statement::Create(k, e)) => Self::eval_write(database, *k, e),
            Operation::Statement(Statement::Update(k, e)) => Self::eval_write(database, *k, e),
        }
    }

    fn eval_write(database: &mut BTreeMap<PrimaryKey, Table>, k: PrimaryKey, e: &Expr) -> (r: Option<
        Table,
    >)
        ensures
            (final(database)@, r) == eval_write(old(database)@, k, *e),
    {
        let value = Self::eval_expression(database, e);
        if let Some(v) = value {
            database.insert(k, v);
        }
        value
    }

    fn eval_expression(database: &mut BTreeMap<PrimaryKey, Table>, e: &Expr) -> (r: Option<Table>)
        ensures
            (final(database)@, r) == eval_expr(old(database)@, *e),
        decreases e,
    {
        match e {
            Expr::Value(t) => Some(*t),
            Expr::Read(k) => match database.get(k) {
                Some(t) => Some(*t),
                None => None,
            },
            Expr::Delete(k) => database.remove(k),
            Expr::Add(a, b) => {
                let ra = Self::eval_expression(database, a);
                let rb = Self::eval_expression(database, b);
                match (ra, rb) {
                    (Some(x), Some(y)) => x.add(y),
                    _ => None,
                }
            },
            Expr::Sub(a, b) => {
                let ra = Self::eval_expression(database, a);
                let rb = Self::eval_expression(database, b);
                match (ra, rb) {
                    (Some(x), Some(y)) => x.sub(y),
                    _ => None,
                }
            },
        }
    }

    /// Whether `e` names `k`.
    fn expr_names(e: &Expr, k: PrimaryKey) -> (r: bool)
        ensures
            r == expr_keys(*e).contains(k),
        decreases e,
    {
        match e {
            Expr::Value(_) => false,
            Expr::Read(x) => *x == k,
            Expr::Delete(x) => *x == k,
            Expr::Add(a, b) => Self::expr_names(a, k) || Self::expr_names(b, k),
            Expr::Sub(a, b) => Self::expr_names(a, k) || Self::expr_names(b, k),
        }
    }

    /// Whether one of `ops` names `k`.
    fn ops_name(ops: &Vec<Operation>, k: PrimaryKey) -> (r: bool)
        ensures
            r == ops_keys(ops@).contains(k),
    {
        let mut i: usize = 0;
        while i < ops.len()
            invariant
                0 <= i <= ops@.len(),
                forall|j: int| 0 <= j < i ==> !(#[trigger] op_keys(ops@[j]).contains(k)),
            decreases ops@.len() - i,
        {
            let found = match &ops[i] {
                Operation::Expr(e) => Self::expr_names(e, k),
                Operation::Statement(Statement::Create(x, e)) => *x == k || Self::expr_names(e, k),
                Operation::Statement(Statement::Update(x, e)) => *x == k || Self::expr_names(e, k),
            };
            if found {
                assert(op_keys(ops@[i as int]).contains(k));
                return true;
            }
            i += 1;
        }
        false
    }

    /// Whether a transaction other than `tid` holds a lock on `k`.
    pub fn is_locked_by_other(&self, tid: u128, k: PrimaryKey) -> (r: bool)
        ensures
            r == self@.locked_by_other(tid, k),
    {
        let mut j: usize = 0;
        while j < self.active_transactions.len()
            invariant
                0 <= j <= self@.active.len(),
                forall|i: int|
                    0 <= i < j ==> !(self@.active[i].0 != tid && self@.active[i].1.holds_locks
                        && #[trigger] ops_keys(self@.active[i].1.operations@).contains(k)),
            decreases self@.active.len() - j,
        {
            let entry = &self.active_transactions[j];
            if entry.0 != tid && entry.1.holds_locks && Self::ops_name(&entry.1.operations, k) {
                return true;
            }
            j += 1;
        }
        false
    }

    /// Whether some active transaction holds a lock on `k`.
    pub fn is_locked(&self, k: PrimaryKey) -> (r: bool)
        ensures
            r == self@.locked_keys().contains(k),
    {
        let mut j: usize = 0;
        while j < self.active_transactions.len()
            invariant
                0 <= j <= self@.active.len(),
                forall|i: int|
                    0 <= i < j ==> !(self@.active[i].1.holds_locks
                        && #[trigger] ops_keys(self@.active[i].1.operations@).contains(k)),
            decreases self@.active.len() - j,
        {
            let entry = &self.active_transactions[j];
            if entry.1.holds_locks && Self::ops_name(&entry.1.operations, k) {
                return true;
            }
            j += 1;
        }
        false
    }

    /// Whether `e`, run as `tid`, names a key locked by another transaction or
    /// reads or deletes a key without a record.
    fn expr_has_problem(&self, tid: u128, e: &Expr) -> (r: bool)
        ensures
            r == (self@.keys_locked(tid, expr_keys(*e)) || self@.keys_missing(expr_needs(*e))),
        decreases e,
    {
        match e {
            Expr::Value(_) => false,
            Expr::Read(k) | Expr::Delete(k) => {
                let r = self.is_locked_by_other(tid, *k) || !self.data_structure.contains_key(k);
                proof {
                    assert(expr_keys(*e).contains(*k));
                    assert(expr_needs(*e).contains(*k));
                }
                r
            },
            Expr::Add(a, b) | Expr::Sub(a, b) => {
                let ra = self.expr_has_problem(tid, a);
                let rb = self.expr_has_problem(tid, b);
                proof {
                    assert(expr_keys(*e) == expr_keys(**a).union(expr_keys(**b)));
                    assert(expr_needs(*e) == expr_needs(**a).union(expr_needs(**b)));
                    lemma_union_problem(self@, tid, expr_keys(**a), expr_keys(**b), expr_needs(**a), expr_needs(**b));
                }
                ra || rb
            },
        }
    }

    /// Whether `op`, run as `tid`, names a key locked by another transaction
    /// or reads or deletes a key without a record.
    pub fn check_for_problems_per_operation(&self, tid: u128, op: &Operation) -> (r: bool)
        ensures
            r == (self@.keys_locked(tid, op_keys(*op)) || self@.keys_missing(op_needs(*op))),
    {
        match op {
            Operation::Expr(e) => self.expr_has_problem(tid, e),
            Operation::Statement(Statement::Create(k, e)) | Operation::Statement(
                Statement::Update(k, e),
            ) => {
                let locked = self.is_locked_by_other(tid, *k);
                let r = self.expr_has_problem(tid, e);
                proof {
                    assert(op_keys(*op) == expr_keys(**e).union(set![*k]));
                    lemma_union_problem(self@, tid, expr_keys(**e), set![*k], expr_needs(**e), Set::empty());
                    assert(op_needs(*op) == expr_needs(**e));
                    assert(expr_needs(**e).union(Set::empty()) == expr_needs(**e));
                    if locked {
                        assert(set![*k].contains(*k));
                    }
                }
                locked || r
            },
        }
    }

    /// Whether `ops`, run as `tid`, conflict with the state of this database.
    pub fn has_conflict(&self, tid: u128, ops: &Vec<Operation>) -> (r: bool)
        ensures
            r == self@.conflicts(tid, ops@),
    {
        let mut i: usize = 0;
        while i < ops.len()
            invariant
                0 <= i <= ops@.len(),
                forall|j: int|
                    0 <= j < i ==> !(self@.keys_locked(tid, #[trigger] op_keys(ops@[j]))
                        || self@.keys_missing(op_needs(ops@[j]))),
            decreases ops@.len() - i,
        {
            if self.check_for_problems_per_operation(tid, &ops[i]) {
                proof {
                    let op = ops@[i as int];
                    if self@.keys_locked(tid, op_keys(op)) {
                        let k = choose|k: PrimaryKey| #[trigger] op_keys(op).contains(k) && self@.locked_by_other(tid, k);
                        assert(ops_keys(ops@).contains(k));
                    } else {
                        let k = choose|k: PrimaryKey| #[trigger] op_needs(op).contains(k) && !self@.store.contains_key(k);
                        assert(ops_needs(ops@).contains(k));
                    }
                }
                return true;
            }
            i += 1;
        }
        proof {
            assert forall|k: PrimaryKey| #[trigger] ops_keys(ops@).contains(k) implies !self@.locked_by_other(tid, k) by {
                let j = choose|j: int| 0 <= j < ops@.len() && #[trigger] op_keys(ops@[j]).contains(k);
                assert(!self@.keys_locked(tid, op_keys(ops@[j])));
            }
            assert forall|k: PrimaryKey| #[trigger] ops_needs(ops@).contains(k) implies self@.store.contains_key(k) by {
                let j = choose|j: int| 0 <= j < ops@.len() && #[trigger] op_needs(ops@[j]).contains(k);
                assert(!self@.keys_locked(tid, op_keys(ops@[j])));
                assert(!self@.keys_missing(op_needs(ops@[j])));
            }
        }
        false
    }

    /// Whether the active transaction `tid` conflicts with the state of this
    /// database; `false` for a tid that is not active.
    pub fn check_for_conflicts_and_primary_key(&self, tid: u128) -> (r: bool)
        requires
            self@.wf(),
        ensures
            r == (self@.is_active(tid) && self@.conflicts(tid, self@.tx(tid).operations@)),
    {
        match self.find(tid) {
            Some(i) => self.has_conflict(tid, &self.active_transactions[i].1.operations),
            None => false,
        }
    }

    /// The active transaction that runs next: among those waiting for no
    /// vote, the one with the lowest timestamp, ties going to the lower tid.
    pub fn set_next_to_run(&self) -> (r: Option<u128>)
        requires
            self@.wf(),
        ensures
            r == (if next_index(self@.active) >= 0 {
                Some(self@.active[next_index(self@.active)].0)
            } else {
                None::<u128>
            }),
            next_index(self@.active) >= 0 ==> is_next(self@.active, next_index(self@.active)),
    {
        let ghost s = self@.active;
        let mut best: Option<usize> = None;
        let mut i: usize = 0;
        while i < self.active_transactions.len()
            invariant
                self@.wf(),
                s == self@.active,
                0 <= i <= s.len(),
                match best {
                    Some(b) => {
                        &&& b < i
                        &&& s[b as int].1.waiting_for == 0
                        &&& forall|j: int|
                            0 <= j < i && j != b && #[trigger] s[j].1.waiting_for == 0 ==> precedes(
                                s[b as int],
                                s[j],
                            )
                    },
                    None => forall|j: int| 0 <= j < i ==> #[trigger] s[j].1.waiting_for != 0,
                },
            decreases s.len() - i,
        {
            let e = &self.active_transactions[i];
            if e.1.waiting_for == 0 {
                match best {
                    None => {
                        best = Some(i);
                    },
                    Some(b) => {
                        let c = &self.active_transactions[b];
                        if e.1.proposed_ts < c.1.proposed_ts || (e.1.proposed_ts == c.1.proposed_ts
                            && e.0 < c.0) {
                            best = Some(i);
                        } else {
                            proof {
                                assert(s[b as int].0 != s[i as int].0);
                            }
                        }
                    },
                }
            }
            i += 1;
        }
        match best {
            Some(b) => {
                proof {
                    assert(is_next(s, b as int));
                    lemma_next_unique(s, b as int);
                }
                Some(self.active_transactions[b].0)
            },
            None => {
                proof {
                    if exists|j: int| is_next(s, j) {
                        let j = choose|j: int| is_next(s, j);
                        assert(s[j].1.waiting_for == 0);
                    }
                }
                None
            },
        }
    }

    /// Runs the active transaction `tid` against the store and finalizes it
    /// at its timestamp; returns the record of its last operation. Does
    /// nothing for a tid that is not active.
    pub fn run_operations(&mut self, tid: u128) -> (r: Option<Table>)
        requires
            old(self)@.wf(),
        ensures
            final(self)@.wf(),
            old(self)@.is_active(tid) ==> {
                let t = old(self)@.tx(tid);
                let (s1, v) = eval_ops(old(self)@.store, t.operations@);
                &&& final(self)@ == DbModel { store: s1, ..old(self)@ }.finalize(tid, t.proposed_ts)
                &&& r == v
            },
            !old(self)@.is_active(tid) ==> final(self)@ == old(self)@ && r.is_none(),
    {
        let i = match self.find(tid) {
            Some(i) => i,
            None => return None,
        };
        let ts = self.active_transactions[i].1.proposed_ts;
        let ghost ops = self@.active[i as int].1.operations@;
        let ghost s0 = self@.store;
        let mut last: Option<Table> = None;
        let mut j: usize = 0;
        while j < self.active_transactions[i].1.operations.len()
            invariant
                self@.active == old(self)@.active,
                self@.finalized == old(self)@.finalized,
                old(self)@.wf(),
                i < self@.active.len(),
                ops == self@.active[i as int].1.operations@,
                0 <= j <= ops.len(),
                (self@.store, last) == eval_ops(s0, ops.take(j as int)),
            decreases ops.len() - j,
        {
            let v = Self::eval_operation(
                &mut self.data_structure,
                &self.active_transactions[i].1.operations[j],
            );
            proof {
                assert(ops.take(j + 1).drop_last() == ops.take(j as int));
                assert(ops.take(j + 1).last() == ops[j as int]);
            }
            last = v;
            j += 1;
        }
        proof {
            assert(ops.take(ops.len() as int) == ops);
        }
        self.finalize(tid, ts);
        last
    }

    /// Runs whatever can run, in timestamp order, as [`DbModel::run_nexts`]
    /// describes, and returns the outcome of each transaction it finished.
    pub fn run_nexts(&mut self) -> (r: Vec<(u128, Outcome)>)
        requires
            old(self)@.wf(),
        ensures
            final(self)@.wf(),
            (final(self)@, r@) == old(self)@.run_nexts(),
    {
        let mut results: Vec<(u128, Outcome)> = Vec::new();
        loop
            invariant
                self@.wf(),
                old(self)@.run_nexts() == (self@.run_nexts().0, results@ + self@.run_nexts().1),
            decreases self@.active.len(),
        {
            let ghost before = self@;
            let ghost prev = results@;
            let tid = match self.set_next_to_run() {
                Some(tid) => tid,
                None => {
                    proof {
                        assert(results@ + Seq::<(u128, Outcome)>::empty() == results@);
                    }
                    return results;
                },
            };
            let ghost i = next_index(before.active);
            proof {
                lemma_index_of(before.active, tid, i);
                assert(!before.finalized.contains_key(before.active[i].0));
            }
            if self.check_for_conflicts_and_primary_key(tid) {
                let ts = match self.get_proposed_ts_for_tid(tid) {
                    Some(ts) => ts,
                    None => 0,
                };
                self.finalize(tid, ts);
                results.push((tid, Err(TxError::LateConflict)));
                proof {
                    assert(self@ == before.retire(i, ts));
                    assert(before.run_nexts() == (self@, seq![(tid, Err::<Option<Table>, TxError>(TxError::LateConflict))]));
                    assert(results@ == prev + seq![(tid, Err::<Option<Table>, TxError>(TxError::LateConflict))]);
                }
                return results;
            }
            let v = self.run_operations(tid);
            results.push((tid, Ok(v)));
            proof {
                let t = before.active[i].1;
                let (s1, _) = eval_ops(before.store, t.operations@);
                assert(self@ == DbModel { store: s1, ..before }.retire(i, t.proposed_ts));
                assert(results@ == prev.push((tid, Ok::<Option<Table>, TxError>(v))));
                assert(seq![(tid, Ok::<Option<Table>, TxError>(v))] + self@.run_nexts().1
                    == before.run_nexts().1);
                assert(prev + (seq![(tid, Ok::<Option<Table>, TxError>(v))]
                    + self@.run_nexts().1) == results@ + self@.run_nexts().1);
            }
        }
    }
}


/// Finalizing a tid a second time changes nothing, whatever the timestamp.
pub proof fn lemma_finalize_idempotent(m: DbModel, tid: u128, ts1: usize, ts2: usize)
    ensures
        m.finalize(tid, ts1).finalize(tid, ts2) == m.finalize(tid, ts1),
{
}

/// While a coordinated transaction `owner` holds its locks, any other
/// transaction that names one of the keys `owner` names conflicts. That is the
/// test both a prepare and [`DbModel::run_nexts`] apply, so such a transaction
/// votes `Conflict`, or ends with a negative outcome instead of running.
pub proof fn lemma_locks_exclude_others(m: DbModel, owner: u128, tid: u128, ops: Seq<Operation>, k: PrimaryKey)
    requires
        m.wf(),
        m.is_active(owner),
        m.tx(owner).holds_locks,
        tid != owner,
        ops_keys(m.tx(owner).operations@).contains(k),
        ops_keys(ops).contains(k),
    ensures
        m.conflicts(tid, ops),
{
    lemma_index_of_found(m.active, owner);
    assert(m.locked_by_other(tid, k));
}

/// The store `s` after running, one after another, the transactions of `outs`
/// that committed, each with its operations in `m`.
pub open spec fn serial_store(s: Store, m: DbModel, outs: Seq<(u128, Outcome)>) -> Store
    decreases outs.len(),
{
    if outs.len() == 0 {
        s
    } else {
        let s1 = if outs[0].1 is Ok {
            eval_ops(s, m.tx(outs[0].0).operations@).0
        } else {
            s
        };
        serial_store(s1, m, outs.drop_first())
    }
}

/// `serial_store` reads only the transactions it runs.
proof fn lemma_serial_store_agree(s: Store, m1: DbModel, m2: DbModel, outs: Seq<(u128, Outcome)>)
    requires
        forall|i: int| 0 <= i < outs.len() ==> m1.tx(#[trigger] outs[i].0) == m2.tx(outs[i].0),
    ensures
        serial_store(s, m1, outs) == serial_store(s, m2, outs),
    decreases outs.len(),
{
    if outs.len() > 0 {
        assert(m1.tx(outs[0].0) == m2.tx(outs[0].0));
        let s1 = if outs[0].1 is Ok {
            eval_ops(s, m1.tx(outs[0].0).operations@).0
        } else {
            s
        };
        assert forall|i: int| 0 <= i < outs.drop_first().len() implies m1.tx(
            #[trigger] outs.drop_first()[i].0,
        ) == m2.tx(outs.drop_first()[i].0) by {
            assert(outs.drop_first()[i] == outs[i + 1]);
        }
        lemma_serial_store_agree(s1, m1, m2, outs.drop_first());
    }
}

/// Retiring one active transaction keeps the others as they were.
proof fn lemma_retire(m: DbModel, i: int, ts: usize)
    requires
        m.wf(),
        0 <= i < m.active.len(),
    ensures
        m.retire(i, ts).wf(),
        forall|x: u128|
            #[trigger] m.retire(i, ts).is_active(x) ==> m.is_active(x) && x != m.active[i].0
                && m.retire(i, ts).tx(x) == m.tx(x),
{
    let r = m.retire(i, ts);
    let tid = m.active[i].0;
    assert forall|j: int, k: int|
        0 <= j < r.active.len() && 0 <= k < r.active.len() && j != k implies r.active[j].0
        != r.active[k].0 by {
        let oj = if j < i { j } else { j + 1 };
        let ok = if k < i { k } else { k + 1 };
        assert(r.active[j] == m.active[oj]);
        assert(r.active[k] == m.active[ok]);
    }
    assert forall|j: int| 0 <= j < r.active.len() implies !(#[trigger] r.finalized.contains_key(
        r.active[j].0,
    )) by {
        let oj = if j < i { j } else { j + 1 };
        assert(r.active[j] == m.active[oj]);
        assert(!m.finalized.contains_key(m.active[oj].0));
    }
    assert forall|x: u128| #[trigger] r.is_active(x) implies m.is_active(x) && x != tid && r.tx(x)
        == m.tx(x) by {
        lemma_index_of_found(r.active, x);
        let j = index_of(r.active, x);
        let oj = if j < i { j } else { j + 1 };
        assert(r.active[j] == m.active[oj]);
        lemma_index_of(m.active, x, oj);
    }
}

/// Transactions finished in one pass finish in ascending order of timestamp,
/// ties going to the lower tid, each of them active and waiting for no vote
/// beforehand; and the store afterwards is the one that running the committed
/// ones one after another, in that order, gives.
pub proof fn lemma_run_nexts_serial(m: DbModel)
    requires
        m.wf(),
    ensures
        ({
            let (m2, outs) = m.run_nexts();
            &&& forall|a: int| 0 <= a < outs.len() ==> #[trigger] m.is_active(outs[a].0)
                && m.tx(outs[a].0).waiting_for == 0
            &&& forall|a: int, b: int|
                0 <= a < b < outs.len() ==> precedes(
                    (outs[a].0, m.tx(outs[a].0)),
                    (outs[b].0, m.tx(outs[b].0)),
                )
            &&& m2.store == serial_store(m.store, m, outs)
        }),
    decreases m.active.len(),
{
    let i = next_index(m.active);
    if 0 <= i < m.active.len() {
        let tid = m.active[i].0;
        let t = m.active[i].1;
        assert(is_next(m.active, i));
        lemma_index_of(m.active, tid, i);
        if m.conflicts(tid, t.operations@) {
            let outs = seq![(tid, Err::<Option<Table>, TxError>(TxError::LateConflict))];
            assert(m.run_nexts() == (m.retire(i, t.proposed_ts), outs));
            assert(outs.drop_first() =~= Seq::<(u128, Outcome)>::empty());
            assert(serial_store(m.store, m, outs) == serial_store(m.store, m, outs.drop_first()));
            assert(outs[0].0 == tid);
        } else {
            let (s1, r) = eval_ops(m.store, t.operations@);
            let next = DbModel { store: s1, ..m }.retire(i, t.proposed_ts);
            let m1 = DbModel { store: s1, ..m };
            assert(m1.wf());
            lemma_retire(m1, i, t.proposed_ts);
            lemma_run_nexts_serial(next);
            let (m2, rest) = next.run_nexts();
            let outs = seq![(tid, Ok::<Option<Table>, TxError>(r))] + rest;
            assert(m.run_nexts() == (m2, outs));
            assert(outs.drop_first() == rest);
            assert(outs[0] == (tid, Ok::<Option<Table>, TxError>(r)));
            assert(m.tx(tid) == t);
            assert(serial_store(m.store, m, outs) == serial_store(s1, m, rest));
            assert forall|a: int| 0 <= a < rest.len() implies m.tx(#[trigger] rest[a].0) == next.tx(
                rest[a].0,
            ) by {
                assert(next.is_active(rest[a].0));
            }
            lemma_serial_store_agree(s1, next, m, rest);
            assert forall|a: int| 0 <= a < outs.len() implies #[trigger] m.is_active(outs[a].0)
                && m.tx(outs[a].0).waiting_for == 0 by {
                if a > 0 {
                    assert(outs[a] == rest[a - 1]);
                    assert(next.is_active(rest[a - 1].0));
                }
            }
            assert forall|a: int, b: int| 0 <= a < b < outs.len() implies precedes(
                (outs[a].0, m.tx(outs[a].0)),
                (outs[b].0, m.tx(outs[b].0)),
            ) by {
                assert(outs[b] == rest[b - 1]);
                let x = rest[b - 1].0;
                assert(next.is_active(x));
                if a == 0 {
                    let j = index_of(m.active, x);
                    lemma_index_of_found(m.active, x);
                    assert(m.active[j].1.waiting_for == 0);
                    assert(j != i);
                } else {
                    assert(outs[a] == rest[a - 1]);
                    assert(next.is_active(rest[a - 1].0));
                }
            }
        }
    }
}

/// A problem over a union of key sets is a problem over one of them.
pub proof fn lemma_union_problem(
    m: DbModel,
    tid: u128,
    ka: Set<PrimaryKey>,
    kb: Set<PrimaryKey>,
    na: Set<PrimaryKey>,
    nb: Set<PrimaryKey>,
)
    ensures
        m.keys_locked(tid, ka.union(kb)) == (m.keys_locked(tid, ka) || m.keys_locked(tid, kb)),
        m.keys_missing(na.union(nb)) == (m.keys_missing(na) || m.keys_missing(nb)),
{
    if m.keys_locked(tid, ka.union(kb)) {
        let k = choose|k: PrimaryKey| #[trigger] ka.union(kb).contains(k) && m.locked_by_other(tid, k);
        assert(ka.contains(k) || kb.contains(k));
    }
    if m.keys_locked(tid, ka) {
        let k = choose|k: PrimaryKey| #[trigger] ka.contains(k) && m.locked_by_other(tid, k);
        assert(ka.union(kb).contains(k));
    }
    if m.keys_locked(tid, kb) {
        let k = choose|k: PrimaryKey| #[trigger] kb.contains(k) && m.locked_by_other(tid, k);
        assert(ka.union(kb).contains(k));
    }
    if m.keys_missing(na.union(nb)) {
        let k = choose|k: PrimaryKey| #[trigger] na.union(nb).contains(k) && !m.store.contains_key(k);
        assert(na.contains(k) || nb.contains(k));
    }
    if m.keys_missing(na) {
        let k = choose|k: PrimaryKey| #[trigger] na.contains(k) && !m.store.contains_key(k);
        assert(na.union(nb).contains(k));
    }
    if m.keys_missing(nb) {
        let k = choose|k: PrimaryKey| #[trigger] nb.contains(k) && !m.store.contains_key(k);
        assert(na.union(nb).contains(k));
    }
}

} // verus!
