use cereal_core::client::Application;
use cereal_core::operations::{Expr, Operation, Statement, Table};

fn create(key: usize, t: Table) -> Operation {
    Operation::Statement(Statement::Create(key, Box::new(Expr::Value(t))))
}

fn update(key: usize, t: Table) -> Operation {
    Operation::Statement(Statement::Update(key, Box::new(Expr::Value(t))))
}

fn read(key: usize) -> Operation {
    Operation::Expr(Expr::Read(key))
}

fn create_customer_product_tables(app: &mut Application) -> (usize, usize) {
    let customer = app.add_repository("customer".to_string());
    let operations = vec![create(1, Table(1, 1)), create(2, Table(2, 2)), create(3, Table(3, 3))];
    let cust = app.single_repository_transaction(customer, operations);
    assert_eq!(cust, Ok(Some(Table(3, 3))));

    let product = app.add_repository("product".to_string());
    let operations = vec![create(0, Table(4, 4)), create(1, Table(5, 5)), create(2, Table(6, 6))];
    let prod = app.single_repository_transaction(product, operations);
    assert_eq!(prod, Ok(Some(Table(6, 6))));

    (customer, product)
}

#[test]
fn application_test_indep_ok() {
    let mut app = Application::new();
    let (customer, product) = create_customer_product_tables(&mut app);
    let operations = vec![vec![read(1)], vec![read(1)]];

    let res = app.indep_repository_transaction(vec![customer, product], operations);

    assert!(res.is_ok());
    for r in res.unwrap() {
        assert!(r.is_some());
    }
    println!("Reading a key that exists on both. Should be ok.");
}

#[test]
fn application_test_indep_not_valid_key() {
    let mut app = Application::new();
    let (customer, product) = create_customer_product_tables(&mut app);
    let operations = vec![vec![read(1)], vec![read(4)]];

    let res = app.indep_repository_transaction(vec![customer, product], operations);
    assert!(res.is_err());
    println!("Read transaction failed because of a primary key violation. Should be err.");
}

#[test]
fn application_test_indep_update_failed_because_of_primary_key_violation() {
    let mut app = Application::new();
    let (customer, product) = create_customer_product_tables(&mut app);
    let cust_before = app.single_repository_transaction(customer, vec![read(1)]);

    let operations = vec![vec![update(1, Table(1000, 1000))], vec![read(4)]];
    let res = app.indep_repository_transaction(vec![customer, product], operations);
    assert!(res.is_err());

    let cust = app.single_repository_transaction(customer, vec![read(1)]);

    assert!(cust.is_ok());
    assert_eq!(cust_before.unwrap(), cust.unwrap());
    println!("An `abort` transaction has not effect on a repo");
}

#[test]
fn application_test_coord_ok() {
    let mut app = Application::new();
    let (customer, product) = create_customer_product_tables(&mut app);

    let operations = vec![vec![update(1, Table(10, 10))], vec![update(1, Table(40, 40))]];
    let res = app.coord_repository_transaction(vec![customer, product], operations);
    assert!(res.is_ok());

    let cust = app.single_repository_transaction(customer, vec![read(1)]);
    let prod = app.single_repository_transaction(product, vec![read(1)]);

    assert!(cust.is_ok());
    assert!(prod.is_ok());
    assert_eq!(cust.unwrap(), Some(Table(10, 10)));
    assert_eq!(prod.unwrap(), Some(Table(40, 40)));
    println!("Coordinated update succeeded.");
}

#[test]
fn application_test_coord_should_fail() {
    let mut app = Application::new();
    let (customer, product) = create_customer_product_tables(&mut app);

    let operations = vec![
        vec![update(1, Table(10, 10))],
        // Should fail.
        vec![update(1, Table(40, 40)), read(5)],
    ];
    let res = app.coord_repository_transaction(vec![customer, product], operations);
    assert!(res.is_err());

    let cust = app.single_repository_transaction(customer, vec![read(1)]);
    let prod = app.single_repository_transaction(product, vec![read(1)]);

    assert!(cust.is_ok());
    assert!(prod.is_ok());
    assert_eq!(cust.unwrap(), Some(Table(1, 1)));
    assert_eq!(prod.unwrap(), Some(Table(5, 5)));
    println!("Coordinated fail to update due to primary key violation.");
}
