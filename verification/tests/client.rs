use mysticeti::{pick_target, rate_per_worker, ConnectionPool};

#[test]
fn pool_holds_one_connection_per_target() {
    let mut pool: ConnectionPool<u32> = ConnectionPool::new(vec!["a:1".to_string(), "b:2".to_string()]);
    assert_eq!(pool.len(), 2);
    assert_eq!(pool.target(1), "b:2");
    assert_eq!(pool.take_conn(0), None);
    pool.put_conn(0, 17);
    assert_eq!(pool.take_conn(0), Some(17));
    assert_eq!(pool.take_conn(0), None);
    assert_eq!(pool.take_conn(1), None);
}

#[test]
fn target_choice_and_rate() {
    assert_eq!(pick_target(1, 12345), 0);
    assert_eq!(pick_target(3, 10), 1);
    assert_eq!(rate_per_worker(100, 4), 25);
    assert_eq!(rate_per_worker(3, 4), 1);
    assert_eq!(rate_per_worker(0, 1), 1);
}
