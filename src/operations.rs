//! Records, expressions, statements and operations, with their meaning as
//! spec functions over a store.

use vstd::prelude::*;

verus! {

/// Key of a record inside one repository.
pub type PrimaryKey = usize;

/// A stored record: a pair of signed integers.
#[derive(Clone, Copy, Debug, PartialEq, Eq, Structural)]
pub struct Table(pub i64, pub i64);

/// Component-wise sum, or `None` when a component leaves the `i64` range.
pub open spec fn table_add(a: Table, b: Table) -> Option<Table> {
    let x = a.0 + b.0;
    let y = a.1 + b.1;
    if i64::MIN <= x <= i64::MAX && i64::MIN <= y <= i64::MAX {
        Some(Table(x as i64, y as i64))
    } else {
        None
    }
}

/// Component-wise difference, or `None` when a component leaves the `i64` range.
pub open spec fn table_sub(a: Table, b: Table) -> Option<Table> {
    let x = a.0 - b.0;
    let y = a.1 - b.1;
    if i64::MIN <= x <= i64::MAX && i64::MIN <= y <= i64::MAX {
        Some(Table(x as i64, y as i64))
    } else {
        None
    }
}

impl Table {
    /// Adds two records component by component.
    pub fn add(self, rhs: Table) -> (r: Option<Table>)
        ensures
            r == table_add(self, rhs),
    {
        match (self.0.checked_add(rhs.0), self.1.checked_add(rhs.1)) {
            (Some(x), Some(y)) => Some(Table(x, y)),
            _ => None,
        }
    }

    /// Subtracts two records component by component.
    pub fn sub(self, rhs: Table) -> (r: Option<Table>)
        ensures
            r == table_sub(self, rhs),
    {
        match (self.0.checked_sub(rhs.0), self.1.checked_sub(rhs.1)) {
            (Some(x), Some(y)) => Some(Table(x, y)),
            _ => None,
        }
    }
}

/// An expression over the records of one repository.
#[derive(Debug, PartialEq)]
pub enum Expr {
    Value(Table),
    Add(Box<Expr>, Box<Expr>),
    Sub(Box<Expr>, Box<Expr>),
    Read(PrimaryKey),
    Delete(PrimaryKey),
}

impl Clone for Expr {
    fn clone(&self) -> (r: Self)
        ensures
            r == *self,
        decreases self,
    {
        match self {
            Expr::Value(t) => Expr::Value(*t),
            Expr::Add(a, b) => Expr::Add(Box::new((**a).clone()), Box::new((**b).clone())),
            Expr::Sub(a, b) => Expr::Sub(Box::new((**a).clone()), Box::new((**b).clone())),
            Expr::Read(k) => Expr::Read(*k),
            Expr::Delete(k) => Expr::Delete(*k),
        }
    }
}

/// A write to one key.
#[derive(Debug, Clone, PartialEq)]
pub enum Statement {
    Create(PrimaryKey, Box<Expr>),
    Update(PrimaryKey, Box<Expr>),
}

/// One step of a transaction.
#[derive(Debug, Clone, PartialEq)]
pub enum Operation {
    Expr(Expr),
    Statement(Statement),
}

/// What a client hands to a repository: its timestamp and the operations.
#[derive(Debug, Clone)]
pub struct Arguments {
    pub timestamp: usize,
    pub operations: Vec<Operation>,
}

/// The store as a map from key to record.
pub type Store = Map<PrimaryKey, Table>;

/// Sum (`add`) or difference of two optional records; `None` when either is absent.
pub open spec fn combine(add: bool, a: Option<Table>, b: Option<Table>) -> Option<Table> {
    match (a, b) {
        (Some(x), Some(y)) => if add { table_add(x, y) } else { table_sub(x, y) },
        _ => None,
    }
}

/// The store after evaluating `e`, and the record it yields.
pub open spec fn eval_expr(s: Store, e: Expr) -> (Store, Option<Table>)
    decreases e,
{
    match e {
        Expr::Value(t) => (s, Some(t)),
        Expr::Read(k) => (s, if s.contains_key(k) { Some(s[k]) } else { None }),
        Expr::Delete(k) => (s.remove(k), if s.contains_key(k) { Some(s[k]) } else { None }),
        Expr::Add(a, b) => {
            let (s1, ra) = eval_expr(s, *a);
            let (s2, rb) = eval_expr(s1, *b);
            (s2, combine(true, ra, rb))
        },
        Expr::Sub(a, b) => {
            let (s1, ra) = eval_expr(s, *a);
            let (s2, rb) = eval_expr(s1, *b);
            (s2, combine(false, ra, rb))
        },
    }
}

/// Writes the record that `e` yields at `k`; nothing is written when it yields none.
pub open spec fn eval_write(s: Store, k: PrimaryKey, e: Expr) -> (Store, Option<Table>) {
    let (s1, r) = eval_expr(s, e);
    match r {
        Some(v) => (s1.insert(k, v), Some(v)),
        None => (s1, None),
    }
}

/// The store after running `op`, and the record it yields.
pub open spec fn eval_op(s: Store, op: Operation) -> (Store, Option<Table>) {
    match op {
        Operation::Expr(e) => eval_expr(s, e),
        Operation::Statement(Statement::Create(k, e)) => eval_write(s, k, *e),
        Operation::Statement(Statement::Update(k, e)) => eval_write(s, k, *e),
    }
}

/// The store after running `ops` in order, and the record the last one yields
/// (`None` for no operations).
pub open spec fn eval_ops(s: Store, ops: Seq<Operation>) -> (Store, Option<Table>)
    decreases ops.len(),
{
    if ops.len() == 0 {
        (s, None)
    } else {
        eval_op(eval_ops(s, ops.drop_last()).0, ops.last())
    }
}

/// Every key that `e` names.
pub open spec fn expr_keys(e: Expr) -> Set<PrimaryKey>
    decreases e,
{
    match e {
        Expr::Value(_) => Set::empty(),
        Expr::Read(k) => set![k],
        Expr::Delete(k) => set![k],
        Expr::Add(a, b) => expr_keys(*a).union(expr_keys(*b)),
        Expr::Sub(a, b) => expr_keys(*a).union(expr_keys(*b)),
    }
}

/// Every key that `op` names.
pub open spec fn op_keys(op: Operation) -> Set<PrimaryKey> {
    match op {
        Operation::Expr(e) => expr_keys(e),
        Operation::Statement(Statement::Create(k, e)) => expr_keys(*e).insert(k),
        Operation::Statement(Statement::Update(k, e)) => expr_keys(*e).insert(k),
    }
}

/// Every key that one of `ops` names.
pub open spec fn ops_keys(ops: Seq<Operation>) -> Set<PrimaryKey> {
    Set::new(|k: PrimaryKey| exists|i: int| 0 <= i < ops.len() && #[trigger] op_keys(ops[i]).contains(k))
}

/// Keys that `e` reads or deletes, which must be present for it to run.
pub open spec fn expr_needs(e: Expr) -> Set<PrimaryKey>
    decreases e,
{
    match e {
        Expr::Value(_) => Set::empty(),
        Expr::Read(k) => set![k],
        Expr::Delete(k) => set![k],
        Expr::Add(a, b) => expr_needs(*a).union(expr_needs(*b)),
        Expr::Sub(a, b) => expr_needs(*a).union(expr_needs(*b)),
    }
}

/// Keys that `op` reads or deletes.
pub open spec fn op_needs(op: Operation) -> Set<PrimaryKey> {
    match op {
        Operation::Expr(e) => expr_needs(e),
        Operation::Statement(Statement::Create(_, e)) => expr_needs(*e),
        Operation::Statement(Statement::Update(_, e)) => expr_needs(*e),
    }
}

/// Keys that one of `ops` reads or deletes.
pub open spec fn ops_needs(ops: Seq<Operation>) -> Set<PrimaryKey> {
    Set::new(|k: PrimaryKey| exists|i: int| 0 <= i < ops.len() && #[trigger] op_needs(ops[i]).contains(k))
}

/// After `Create(k, Value(r))`, reading `k` yields `r`; after `Update(k, Value(r))`
/// on a store without `k`, reading `k` yields `r` too.
pub proof fn lemma_create_update_then_read(s: Store, k: PrimaryKey, r: Table)
    ensures
        eval_op(
            eval_op(s, Operation::Statement(Statement::Create(k, Box::new(Expr::Value(r))))).0,
            Operation::Expr(Expr::Read(k)),
        ).1 == Some(r),
        !s.contains_key(k) ==> eval_op(
            eval_op(s, Operation::Statement(Statement::Update(k, Box::new(Expr::Value(r))))).0,
            Operation::Expr(Expr::Read(k)),
        ).1 == Some(r),
{
}

} // verus!
