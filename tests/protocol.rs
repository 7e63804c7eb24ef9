use cereal_core::client::{aggregate, Application, ClientError};
use cereal_core::database::TxError;
use cereal_core::messages::{CommitVote, MessageAccept};
use cereal_core::operations::{Expr, Operation, Statement, Table};
use cereal_core::repository::{RepoError, Repository};
use cereal_core::runtime::Runtime;

fn create(key: usize, t: Table) -> Operation {
    Operation::Statement(Statement::Create(key, Box::new(Expr::Value(t))))
}

fn update(key: usize, t: Table) -> Operation {
    Operation::Statement(Statement::Update(key, Box::new(Expr::Value(t))))
}

fn read(key: usize) -> Operation {
    Operation::Expr(Expr::Read(key))
}

fn create_customer_product_tables(app: &mut Application) -> (usize, usize) {
    let customer = app.add_repository("customer".to_string());
    let operations = vec![create(1, Table(1, 1)), create(2, Table(2, 2)), create(3, Table(3, 3))];
    let cust = app.single_repository_transaction(customer, operations);
    assert_eq!(cust, Ok(Some(Table(3, 3))));

    let product = app.add_repository("product".to_string());
    let operations = vec![create(0, Table(4, 4)), create(1, Table(5, 5)), create(2, Table(6, 6))];
    let prod = app.single_repository_transaction(product, operations);
    assert_eq!(prod, Ok(Some(Table(6, 6))));

    (customer, product)
}

fn store_of(app: &Application, repo: usize) -> Vec<(usize, Table)> {
    app.repositories[repo]
        .database
        .data_structure
        .iter()
        .map(|(k, v)| (*k, *v))
        .collect()
}

#[test]
fn lib_test_indep_ok() {
    let mut app = Application::new();
    let (customer, product) = create_customer_product_tables(&mut app);
    let operations = vec![vec![read(1)], vec![read(1)]];

    let res = app.indep_repository_transaction(vec![customer, product], operations);

    assert!(res.is_ok());
    for r in res.unwrap() {
        assert!(r.is_some());
    }
    println!("Reading a key that exists on both. Should be ok.");
}

#[test]
fn lib_test_indep_not_valid_key() {
    let mut app = Application::new();
    let (customer, product) = create_customer_product_tables(&mut app);
    let operations = vec![vec![read(1)], vec![read(4)]];

    let res = app.indep_repository_transaction(vec![customer, product], operations);
    assert!(res.is_err());
    println!("Read transaction failed because of a primary key violation. Should be err.");
}

#[test]
fn lib_test_indep_update_failed_because_of_primary_key_violation() {
    let mut app = Application::new();
    let (customer, product) = create_customer_product_tables(&mut app);
    let cust_before = app.single_repository_transaction(customer, vec![read(1)]);

    let operations = vec![vec![update(1, Table(1000, 1000))], vec![read(4)]];
    let res = app.indep_repository_transaction(vec![customer, product], operations);
    assert!(res.is_err());

    let cust = app.single_repository_transaction(customer, vec![read(1)]);

    assert!(cust.is_ok());
    assert_eq!(cust_before.unwrap(), cust.unwrap());
    println!("An `abort` transaction has not effect on a repo");
}

#[test]
fn lib_test_coord_ok() {
    let mut app = Application::new();
    let (customer, product) = create_customer_product_tables(&mut app);

    let operations = vec![vec![update(1, Table(10, 10))], vec![update(1, Table(40, 40))]];
    let res = app.coord_repository_transaction(vec![customer, product], operations);
    assert!(res.is_ok());

    let cust = app.single_repository_transaction(customer, vec![read(1)]);
    let prod = app.single_repository_transaction(product, vec![read(1)]);

    assert!(cust.is_ok());
    assert!(prod.is_ok());
    assert_eq!(cust.unwrap(), Some(Table(10, 10)));
    assert_eq!(prod.unwrap(), Some(Table(40, 40)));
    println!("Coordinated update succeeded.");
}

#[test]
fn lib_test_coord_should_fail() {
    let mut app = Application::new();
    let (customer, product) = create_customer_product_tables(&mut app);

    let operations = vec![
        vec![update(1, Table(10, 10))],
        // Should fail.
        vec![update(1, Table(40, 40)), read(5)],
    ];
    let res = app.coord_repository_transaction(vec![customer, product], operations);
    assert!(res.is_err());

    let cust = app.single_repository_transaction(customer, vec![read(1)]);
    let prod = app.single_repository_transaction(product, vec![read(1)]);

    assert!(cust.is_ok());
    assert!(prod.is_ok());
    assert_eq!(cust.unwrap(), Some(Table(1, 1)));
    assert_eq!(prod.unwrap(), Some(Table(5, 5)));
    println!("Coordinated fail to update due to primary key violation.");
}

fn two_repositories() -> (Application, usize, usize) {
    let mut app = Application::new();
    let a = app.add_repository("a".to_string());
    let b = app.add_repository("b".to_string());
    assert_eq!(app.single_repository_transaction(a, vec![create(1, Table(1, 1))]), Ok(Some(Table(1, 1))));
    assert_eq!(app.single_repository_transaction(b, vec![create(1, Table(5, 5))]), Ok(Some(Table(5, 5))));
    (app, a, b)
}

#[test]
fn single_read_commits() {
    let mut app = Application::new();
    let a = app.add_repository("a".to_string());
    app.single_repository_transaction(a, vec![create(1, Table(1, 1)), create(2, Table(2, 2))]).unwrap();
    let before = store_of(&app, a);
    assert_eq!(app.single_repository_transaction(a, vec![read(1)]), Ok(Some(Table(1, 1))));
    assert_eq!(store_of(&app, a), before);
    assert_eq!(before, vec![(1, Table(1, 1)), (2, Table(2, 2))]);
}

#[test]
fn independent_read_on_missing_key_aborts_both() {
    let (mut app, a, b) = two_repositories();
    let res = app.indep_repository_transaction(vec![a, b], vec![vec![read(1)], vec![read(4)]]);
    assert_eq!(res, Err(ClientError::Conflict));
    assert_eq!(store_of(&app, a), vec![(1, Table(1, 1))]);
    assert_eq!(store_of(&app, b), vec![(1, Table(5, 5))]);
}

#[test]
fn independent_failed_update_is_rolled_back() {
    let (mut app, a, b) = two_repositories();
    assert_eq!(app.single_repository_transaction(a, vec![read(1)]), Ok(Some(Table(1, 1))));
    let res = app.indep_repository_transaction(vec![a, b], vec![vec![update(1, Table(1000, 1000))], vec![read(4)]]);
    assert!(res.is_err());
    assert_eq!(app.single_repository_transaction(a, vec![read(1)]), Ok(Some(Table(1, 1))));
}

#[test]
fn coordinated_update_commits() {
    let (mut app, a, b) = two_repositories();
    let res = app.coord_repository_transaction(vec![a, b], vec![vec![update(1, Table(10, 10))], vec![update(1, Table(40, 40))]]);
    assert_eq!(res, Ok(vec![Some(Table(10, 10)), Some(Table(40, 40))]));
    assert_eq!(app.single_repository_transaction(a, vec![read(1)]), Ok(Some(Table(10, 10))));
    assert_eq!(app.single_repository_transaction(b, vec![read(1)]), Ok(Some(Table(40, 40))));
    // the locks went with the transaction
    assert!(!app.repositories[a].database.is_locked(1));
    assert!(!app.repositories[b].database.is_locked(1));
}

#[test]
fn coordinated_aborts_when_any_participant_conflicts() {
    let (mut app, a, b) = two_repositories();
    let res = app.coord_repository_transaction(
        vec![a, b],
        vec![vec![update(1, Table(10, 10))], vec![update(1, Table(40, 40)), read(5)]],
    );
    assert_eq!(res, Err(ClientError::Conflict));
    assert_eq!(app.single_repository_transaction(a, vec![read(1)]), Ok(Some(Table(1, 1))));
    assert_eq!(app.single_repository_transaction(b, vec![read(1)]), Ok(Some(Table(5, 5))));
    assert!(!app.repositories[a].database.is_locked(1));
}

#[test]
fn arithmetic_expression() {
    let mut app = Application::new();
    let a = app.add_repository("a".to_string());
    app.single_repository_transaction(a, vec![create(0, Table(10, 10))]).unwrap();
    let op = Operation::Statement(Statement::Update(
        0,
        Box::new(Expr::Add(Box::new(Expr::Read(0)), Box::new(Expr::Value(Table(1, 1))))),
    ));
    assert_eq!(app.single_repository_transaction(a, vec![op]), Ok(Some(Table(11, 11))));
    assert_eq!(app.single_repository_transaction(a, vec![read(0)]), Ok(Some(Table(11, 11))));
}

#[test]
fn proposals_strictly_increase() {
    let mut repo = Repository::new("r".to_string());
    let t1 = repo.propose_ts(0).unwrap();
    assert_eq!(t1, 12);
    let t2 = repo.propose_ts(100).unwrap();
    assert_eq!(t2, 101);
    let t3 = repo.propose_ts(5).unwrap();
    assert_eq!(t3, 102);
    assert!(t1 < t2 && t2 < t3);
    assert_eq!(repo.last_timestamp, 102);
}

#[test]
fn scripted_clock_sets_the_proposal() {
    let mut repo = Repository::new("r".to_string());
    repo.runtime = Runtime::starting_at(499);
    assert_eq!(repo.propose_ts(7), Ok(501));
    assert_eq!(repo.runtime.current_time, 500);
    let mut clock = Runtime::new();
    assert_eq!(clock.now(), 11);
    assert_eq!(clock.now(), 12);
    let mut top = Runtime::starting_at(usize::MAX);
    assert_eq!(top.now(), usize::MAX);
}

#[test]
fn timestamps_run_out() {
    let mut repo = Repository::new("r".to_string());
    assert_eq!(repo.propose_ts(usize::MAX), Err(RepoError::TimestampExhausted));
    assert_eq!(repo.propose_ts(usize::MAX - 1), Ok(usize::MAX));
    assert_eq!(repo.propose_ts(0), Err(RepoError::TimestampExhausted));
}

#[test]
fn get_result_is_delivered_once() {
    let mut repo = Repository::new("r".to_string());
    let ts = repo.propose_ts(0).unwrap();
    assert_eq!(repo.handle_single(5, vec![create(1, Table(2, 3))], ts), Ok(CommitVote::InProgress));
    assert_eq!(repo.get_result(5), Some(Ok(Some(Table(2, 3)))));
    assert_eq!(repo.get_result(5), None);
}

#[test]
fn prepare_with_a_known_tid_is_refused() {
    let mut repo = Repository::new("r".to_string());
    assert_eq!(repo.handle_single(5, vec![], 3), Ok(CommitVote::InProgress));
    assert_eq!(repo.handle_single(5, vec![], 4), Err(RepoError::KnownTid));
    assert_eq!(repo.handle_indep_prepare(5, vec![], 2, 4), Err(RepoError::KnownTid));
}

#[test]
fn accept_for_an_unknown_tid() {
    let mut repo = Repository::new("r".to_string());
    assert_eq!(repo.send_message_accept_indep_to_participants(9, CommitVote::Commit(None)), Err(RepoError::UnknownTid));
    assert_eq!(repo.handle_accept(9, 3, CommitVote::Commit(None)), CommitVote::Abort);
    assert_eq!(repo.get_result(9), None);
    assert_eq!(repo.get_proposed_ts(9), None);
}

#[test]
fn coordinated_locks_make_others_conflict() {
    let mut repo = Repository::new("r".to_string());
    repo.handle_single(1, vec![create(1, Table(1, 1))], 1).unwrap();
    assert_eq!(repo.handle_coord_prepare(2, vec![update(1, Table(9, 9))], 2, 5), Ok(CommitVote::Commit(None)));
    assert!(repo.database.is_locked(1));
    // another transaction on the same key votes Conflict while the locks stand
    assert_eq!(repo.handle_indep_prepare(3, vec![read(1)], 2, 6), Ok(CommitVote::Conflict));
    // a key the coordinated transaction does not name is free
    assert_eq!(repo.handle_indep_prepare(4, vec![create(2, Table(0, 0))], 1, 7), Ok(CommitVote::Commit(None)));
    // the coordinated transaction gathers its two votes and runs; its locks go
    assert_eq!(repo.handle_accept(2, 5, CommitVote::Commit(None)), CommitVote::InProgress);
    assert_eq!(repo.handle_accept(2, 8, CommitVote::Commit(None)), CommitVote::InProgress);
    assert_eq!(repo.get_result(2), Some(Ok(Some(Table(9, 9)))));
    assert_eq!(repo.get_proposed_ts(2), Some(8));
    assert!(!repo.database.is_locked(1));
}

#[test]
fn peer_conflict_and_local_conflict_outcomes() {
    let mut repo = Repository::new("r".to_string());
    assert_eq!(repo.handle_indep_prepare(1, vec![], 2, 4), Ok(CommitVote::Commit(None)));
    assert_eq!(repo.handle_accept(1, 6, CommitVote::Conflict), CommitVote::Abort);
    assert_eq!(repo.get_result(1), Some(Err(TxError::PeerConflict)));
    assert_eq!(repo.get_proposed_ts(1), Some(6));
    // a later vote on the finished transaction
    assert_eq!(repo.handle_accept(1, 7, CommitVote::Commit(None)), CommitVote::Abort);
    assert_eq!(repo.get_result(1), Some(Err(TxError::LocalConflict)));
    assert_eq!(repo.get_proposed_ts(1), Some(6));
}

#[test]
fn accept_message_carries_the_proposal() {
    let mut repo = Repository::new("r".to_string());
    let ts = repo.propose_ts(40).unwrap();
    assert_eq!(ts, 41);
    repo.handle_coord_prepare(3, vec![], 2, ts).unwrap();
    assert_eq!(
        repo.send_message_accept_coord_to_participants(3, CommitVote::Commit(None)),
        Ok(MessageAccept::Coord(3, 41, CommitVote::Commit(None)))
    );
    repo.handle_message_accept(MessageAccept::Coord(3, 50, CommitVote::Commit(None)));
    repo.handle_message_accept(MessageAccept::Coord(3, 45, CommitVote::Commit(None)));
    assert_eq!(repo.get_result(3), Some(Ok(None)));
    assert_eq!(repo.get_proposed_ts(3), Some(50));
    assert_eq!(
        repo.send_message_accept_indep_to_participants(3, CommitVote::Abort),
        Ok(MessageAccept::Indep(3, 50, CommitVote::Abort))
    );
    assert_eq!(repo.last_timestamp, 50);
}

#[test]
fn bad_participants_are_refused() {
    let (mut app, a, b) = two_repositories();
    assert_eq!(app.indep_repository_transaction(vec![a, a], vec![vec![], vec![]]), Err(ClientError::BadParticipants));
    assert_eq!(app.coord_repository_transaction(vec![a, 7], vec![vec![], vec![]]), Err(ClientError::BadParticipants));
    assert_eq!(app.coord_repository_transaction(vec![a, b], vec![vec![]]), Err(ClientError::BadParticipants));
}

#[test]
fn single_with_known_tid_and_missing_outcome() {
    let mut app = Application::new();
    let a = app.add_repository("a".to_string());
    assert_eq!(app.single_transaction_with_tid(1, a, vec![create(1, Table(1, 1))]), Ok(Some(Table(1, 1))));
    assert_eq!(app.single_transaction_with_tid(1, a, vec![read(1)]), Err(ClientError::Repo(RepoError::KnownTid)));
    assert_eq!(app.single_transaction_with_tid(2, a, vec![read(3)]), Err(ClientError::Tx(TxError::LateConflict)));
    // a coordinated transaction on one repository is not blocked by its own locks
    assert_eq!(app.coord_transaction_with_tid(3, vec![a], vec![vec![update(1, Table(2, 2))]]), Ok(vec![Some(Table(2, 2))]));
    // a transaction still waiting for a vote does not hold back a later one
    app.repositories[a].handle_indep_prepare(4, vec![], 1, 1).unwrap();
    assert_eq!(app.single_transaction_with_tid(5, a, vec![read(1)]), Ok(Some(Table(2, 2))));
}

#[test]
fn aggregate_is_all_or_nothing() {
    let commit = CommitVote::Commit(None);
    assert_eq!(
        aggregate(&vec![commit, commit], vec![Some(Ok(Some(Table(1, 1)))), Some(Ok(None))]),
        Ok(vec![Some(Table(1, 1)), None])
    );
    assert_eq!(
        aggregate(&vec![commit, CommitVote::Conflict], vec![Some(Ok(None)), Some(Ok(None))]),
        Err(ClientError::Conflict)
    );
    assert_eq!(
        aggregate(&vec![commit, commit, commit], vec![Some(Ok(None)), None, Some(Err(TxError::PeerConflict))]),
        Err(ClientError::NoOutcome)
    );
    assert_eq!(
        aggregate(&vec![commit, commit], vec![Some(Err(TxError::PeerConflict)), None]),
        Err(ClientError::Tx(TxError::PeerConflict))
    );
}

#[test]
fn prepare_vote_previews_without_adding() {
    let mut repo = Repository::new("r".to_string());
    repo.handle_single(1, vec![create(1, Table(1, 1))], 1).unwrap();
    assert_eq!(repo.prepare_vote(2, &vec![read(1)]), Ok(CommitVote::Commit(None)));
    assert_eq!(repo.prepare_vote(2, &vec![read(3)]), Ok(CommitVote::Conflict));
    assert_eq!(repo.prepare_vote(1, &vec![read(1)]), Err(RepoError::KnownTid));
    assert_eq!(repo.get_proposed_ts(2), None);
    assert_eq!(repo.handle_indep_prepare(2, vec![read(3)], 2, 4), Ok(CommitVote::Conflict));
}

#[test]
fn locks_released_when_the_pass_stops_before_the_owner() {
    let mut repo = Repository::new("r".to_string());
    repo.handle_single(1, vec![create(1, Table(1, 1))], 1).unwrap();
    // a runnable transaction with a lower timestamp that will conflict
    repo.database.add_xaction(2, 3, vec![read(9)], 0);
    assert_eq!(repo.handle_coord_prepare(3, vec![update(1, Table(7, 7))], 1, 5), Ok(CommitVote::Commit(None)));
    assert!(repo.database.is_locked(1));
    assert_eq!(repo.handle_accept(3, 5, CommitVote::Commit(None)), CommitVote::InProgress);
    assert_eq!(repo.get_result(2), Some(Err(TxError::LateConflict)));
    // the coordinated transaction did not run in that pass, but its locks are gone
    assert_eq!(repo.get_result(3), None);
    assert!(!repo.database.is_locked(1));
    assert_eq!(repo.get_proposed_ts(3), Some(5));
}

#[test]
fn participants_end_idle_with_outcomes_collected() {
    let (mut app, a, b) = two_repositories();
    app.coord_transaction_with_tid(77, vec![a, b], vec![vec![update(1, Table(10, 10))], vec![update(1, Table(40, 40))]])
        .unwrap();
    for r in [a, b] {
        assert!(app.repositories[r].database.active_transactions.is_empty());
        assert!(app.repositories[r].done_xactions.is_empty());
        assert_eq!(app.repositories[r].get_proposed_ts(77).is_some(), true);
    }
    let res = app.indep_transaction_with_tid(78, vec![a, b], vec![vec![read(1)], vec![read(4)]]);
    assert_eq!(res, Err(ClientError::Conflict));
    for r in [a, b] {
        assert!(app.repositories[r].database.active_transactions.is_empty());
        assert!(app.repositories[r].done_xactions.is_empty());
    }
}
