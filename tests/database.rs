use cereal_core::database::{Database, Outcome, TxError};
use cereal_core::operations::{Expr, Operation, Statement, Table};
use uuid::Uuid;

fn new_tid() -> u128 {
    Uuid::new_v4().as_u128()
}

fn waiting_for(database: &Database, tid: u128) -> Option<usize> {
    database
        .active_transactions
        .iter()
        .find(|e| e.0 == tid)
        .map(|e| e.1.waiting_for)
}

fn proposed_ts(database: &Database, tid: u128) -> Option<usize> {
    database
        .active_transactions
        .iter()
        .find(|e| e.0 == tid)
        .map(|e| e.1.proposed_ts)
}

fn outcome_of(results: &[(u128, Outcome)], tid: u128) -> Option<Outcome> {
    results.iter().find(|e| e.0 == tid).map(|e| e.1)
}

#[test]
fn test_add_xaction_and_decrement_xaction() {
    let mut database = Database::new();
    let tid = new_tid();
    let participants_len = 2;
    database.add_xaction(tid, 0, vec![], participants_len);
    database.decrement_reply_count(tid);
    assert_eq!(waiting_for(&database, tid), Some(participants_len - 1));
}

#[test]
fn test_set_next_to_run_waiting_0() {
    let mut database = Database::new();
    let tid = new_tid();
    let participants_len = 1;
    database.add_xaction(tid, 0, vec![], participants_len);
    database.decrement_reply_count(tid);
    let tid_next = database.set_next_to_run();
    assert_eq!(Some(tid), tid_next);
}

#[test]
fn test_not_next_to_run_if_still_waiting() {
    let mut database = Database::new();
    let tid = new_tid();
    let participants_len = 2;
    database.add_xaction(tid, 0, vec![], participants_len);
    database.decrement_reply_count(tid);
    let tid_next = database.set_next_to_run();
    assert_eq!(None, tid_next);
}

#[test]
fn test_next_to_run_smallest_ts() {
    let mut database = Database::new();
    let participants_len = 0;

    let tid_ts_bigger = new_tid();
    database.add_xaction(tid_ts_bigger, 10, vec![], participants_len);
    let tid_ts_smaller = new_tid();
    database.add_xaction(tid_ts_smaller, 4, vec![], participants_len);

    assert_eq!(Some(tid_ts_smaller), database.set_next_to_run());
    database.run_operations(tid_ts_smaller);
    assert_eq!(Some(tid_ts_bigger), database.set_next_to_run());
}

#[test]
fn test_run_nexts() {
    let mut database = Database::new();
    database.data_structure.insert(0, Table(0, 0));
    database.data_structure.insert(1, Table(1, 1));
    database.data_structure.insert(2, Table(2, 2));

    let participants_len = 0;
    let tid_0 = new_tid();
    database.add_xaction(tid_0, 0, vec![Operation::Expr(Expr::Read(0))], participants_len);
    let tid_1 = new_tid();
    database.add_xaction(tid_1, 1, vec![Operation::Expr(Expr::Read(1))], participants_len);
    let tid_2 = new_tid();
    database.add_xaction(tid_2, 2, vec![Operation::Expr(Expr::Read(2))], participants_len);

    let result = database.run_nexts();
    assert_eq!(outcome_of(&result, tid_0), Some(Ok(Some(Table(0, 0)))));
    assert_eq!(outcome_of(&result, tid_1), Some(Ok(Some(Table(1, 1)))));
    assert_eq!(outcome_of(&result, tid_2), Some(Ok(Some(Table(2, 2)))));
}

#[test]
fn get_all_locks() {
    let mut database = Database::new();
    database.data_structure.insert(0, Table(0, 0));

    let participants_len = 0;
    let tid = new_tid();
    database.add_xaction(tid, 0, vec![Operation::Expr(Expr::Read(0))], participants_len);

    database.get_all_locks(tid);

    assert!(database.is_locked(0));
}

#[test]
fn test_update_ts() {
    let mut database = Database::new();

    let participants_len = 0;
    let tid = new_tid();
    database.add_xaction(tid, 0, vec![], participants_len);

    database.update_proposed_ts_to_highest(tid, 4);
    assert_eq!(proposed_ts(&database, tid), Some(4));

    database.update_proposed_ts_to_highest(tid, 2);
    assert_eq!(proposed_ts(&database, tid), Some(4));
}

#[test]
fn test_finalize() {
    let mut database = Database::new();

    let participants_len = 0;
    let tid = new_tid();
    database.add_xaction(tid, 0, vec![], participants_len);

    database.finalize(tid, 1);

    assert!(database.active_transactions.is_empty());
    assert_eq!(database.tid_to_ts_end_xaction_ends.get(&tid), Some(&1));
}

#[test]
fn finalize_twice_keeps_first_timestamp() {
    let mut database = Database::new();
    database.add_xaction(7, 3, vec![], 0);
    database.finalize(7, 5);
    database.finalize(7, 9);
    assert_eq!(database.tid_to_ts_end_xaction_ends.get(&7), Some(&5));
    assert_eq!(database.get_proposed_ts_for_tid(7), Some(5));
}

#[test]
fn proposed_ts_follows_the_transaction() {
    let mut database = Database::new();
    assert_eq!(database.get_proposed_ts_for_tid(1), None);
    database.add_xaction(1, 6, vec![], 1);
    assert_eq!(database.get_proposed_ts_for_tid(1), Some(6));
    database.update_proposed_ts_to_highest(1, 8);
    assert_eq!(database.get_proposed_ts_for_tid(1), Some(8));
    database.finalize(1, 8);
    assert_eq!(database.get_proposed_ts_for_tid(1), Some(8));
}

#[test]
fn equal_timestamps_run_lower_tid_first() {
    let mut database = Database::new();
    database.add_xaction(9, 5, vec![], 0);
    database.add_xaction(3, 5, vec![], 0);
    assert_eq!(database.set_next_to_run(), Some(3));
    let results = database.run_nexts();
    assert_eq!(results, vec![(3, Ok(None)), (9, Ok(None))]);
}

#[test]
fn run_nexts_runs_in_timestamp_order() {
    let mut database = Database::new();
    database.data_structure.insert(0, Table(1, 1));
    let double = Operation::Statement(Statement::Update(
        0,
        Box::new(Expr::Add(Box::new(Expr::Read(0)), Box::new(Expr::Read(0)))),
    ));
    let add_ten = Operation::Statement(Statement::Update(
        0,
        Box::new(Expr::Add(Box::new(Expr::Read(0)), Box::new(Expr::Value(Table(10, 10))))),
    ));
    database.add_xaction(1, 20, vec![double], 0);
    database.add_xaction(2, 10, vec![add_ten], 0);
    let results = database.run_nexts();
    assert_eq!(results, vec![(2, Ok(Some(Table(11, 11)))), (1, Ok(Some(Table(22, 22))))]);
    assert_eq!(database.data_structure.get(&0), Some(&Table(22, 22)));
}

#[test]
fn late_conflict_ends_the_pass() {
    let mut database = Database::new();
    database.data_structure.insert(0, Table(1, 1));
    database.add_xaction(1, 1, vec![Operation::Expr(Expr::Read(5))], 0);
    database.add_xaction(2, 2, vec![Operation::Expr(Expr::Read(0))], 0);
    let results = database.run_nexts();
    assert_eq!(results, vec![(1, Err(TxError::LateConflict))]);
    assert_eq!(database.get_proposed_ts_for_tid(1), Some(1));
    assert_eq!(database.active_transactions.len(), 1);
    let results = database.run_nexts();
    assert_eq!(results, vec![(2, Ok(Some(Table(1, 1))))]);
}

#[test]
fn conflict_check_sees_locks_and_missing_keys() {
    let mut database = Database::new();
    database.data_structure.insert(1, Table(1, 1));
    database.add_xaction(1, 1, vec![Operation::Statement(Statement::Update(2, Box::new(Expr::Value(Table(0, 0)))))], 1);
    database.get_all_locks(1);
    assert!(database.is_locked(2));
    assert!(!database.is_locked(1));
    // the owner itself is not blocked by its own locks
    assert!(!database.check_for_conflicts_and_primary_key(1));
    // another transaction naming a locked key conflicts
    assert!(database.has_conflict(2, &vec![Operation::Statement(Statement::Create(2, Box::new(Expr::Value(Table(3, 3)))))]));
    // a read of a missing key conflicts
    assert!(database.has_conflict(2, &vec![Operation::Expr(Expr::Read(7))]));
    // create and update do not need the key to exist
    assert!(!database.has_conflict(2, &vec![Operation::Statement(Statement::Create(9, Box::new(Expr::Value(Table(3, 3)))))]));
    assert!(!database.has_conflict(2, &vec![Operation::Expr(Expr::Delete(1))]));
    // finalizing the owner releases its locks
    database.finalize(1, 1);
    assert!(!database.is_locked(2));
}

#[test]
fn eval_operation_semantics() {
    let mut store = std::collections::BTreeMap::new();
    store.insert(1usize, Table(5, 7));
    let create = Operation::Statement(Statement::Create(2, Box::new(Expr::Value(Table(1, 2)))));
    assert_eq!(Database::eval_operation(&mut store, &create), Some(Table(1, 2)));
    assert_eq!(Database::eval_operation(&mut store, &Operation::Expr(Expr::Read(2))), Some(Table(1, 2)));
    let sub = Operation::Expr(Expr::Sub(Box::new(Expr::Read(1)), Box::new(Expr::Read(2))));
    assert_eq!(Database::eval_operation(&mut store, &sub), Some(Table(4, 5)));
    assert_eq!(Database::eval_operation(&mut store, &Operation::Expr(Expr::Delete(1))), Some(Table(5, 7)));
    assert_eq!(Database::eval_operation(&mut store, &Operation::Expr(Expr::Read(1))), None);
    // an absent operand yields no record, and nothing is written
    let upd = Operation::Statement(Statement::Update(3, Box::new(Expr::Add(Box::new(Expr::Read(1)), Box::new(Expr::Value(Table(1, 1)))))));
    assert_eq!(Database::eval_operation(&mut store, &upd), None);
    assert_eq!(store.get(&3), None);
    // update of an absent key inserts it
    let upd = Operation::Statement(Statement::Update(3, Box::new(Expr::Value(Table(8, 8)))));
    assert_eq!(Database::eval_operation(&mut store, &upd), Some(Table(8, 8)));
    assert_eq!(Database::eval_operation(&mut store, &Operation::Expr(Expr::Read(3))), Some(Table(8, 8)));
}

#[test]
fn create_then_read_and_update_absent_then_read() {
    let mut store = std::collections::BTreeMap::new();
    store.insert(4usize, Table(0, 0));
    let create = Operation::Statement(Statement::Create(4, Box::new(Expr::Value(Table(6, -6)))));
    Database::eval_operation(&mut store, &create);
    assert_eq!(Database::eval_operation(&mut store, &Operation::Expr(Expr::Read(4))), Some(Table(6, -6)));
    let update = Operation::Statement(Statement::Update(5, Box::new(Expr::Value(Table(2, 3)))));
    Database::eval_operation(&mut store, &update);
    assert_eq!(Database::eval_operation(&mut store, &Operation::Expr(Expr::Read(5))), Some(Table(2, 3)));
}

#[test]
fn table_arithmetic() {
    assert_eq!(Table(1, 2).add(Table(10, 20)), Some(Table(11, 22)));
    assert_eq!(Table(1, 2).sub(Table(10, 20)), Some(Table(-9, -18)));
    assert_eq!(Table(i64::MAX, 0).add(Table(1, 0)), None);
    assert_eq!(Table(0, i64::MIN).sub(Table(0, 1)), None);
}
