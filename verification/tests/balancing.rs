use proxy::lb::{BackendAddr, BackendConnPool, BackendPool};

fn picks<A: Copy>(pool: &mut BackendPool<A>, n: usize) -> Vec<Option<(usize, A)>> {
    (0..n).map(|_| pool.next_backend()).collect()
}

#[test]
fn round_robin_cycles_through_backends() {
    let mut pool = BackendPool::new(vec![11u16, 22, 33]);
    let got: Vec<u16> = picks(&mut pool, 7).into_iter().map(|p| p.unwrap().1).collect();
    assert_eq!(got, vec![11, 22, 33, 11, 22, 33, 11]);
    assert_eq!(pool.backends(), &[11u16, 22, 33][..]);
}

#[test]
fn next_backend_reports_the_index() {
    let mut pool = BackendPool::new(vec!['a', 'b', 'c', 'd']);
    assert_eq!(pool.next_backend(), Some((0, 'a')));
    assert_eq!(pool.next_backend(), Some((1, 'b')));
    assert_eq!(pool.next_backend(), Some((2, 'c')));
    assert_eq!(pool.next_backend(), Some((3, 'd')));
    assert_eq!(pool.next_backend(), Some((0, 'a')));
}

#[test]
fn round_robin_is_fair_over_a_window() {
    let mut pool = BackendPool::new(vec![1u8, 2, 3, 4, 5]);
    for _ in 0..3 {
        pool.next_backend();
    }
    let mut seen: Vec<u8> = picks(&mut pool, 5).into_iter().map(|p| p.unwrap().1).collect();
    seen.sort();
    assert_eq!(seen, vec![1, 2, 3, 4, 5]);
}

#[test]
fn unhealthy_backends_are_skipped_until_marked_healthy() {
    let mut pool = BackendPool::new(vec![10u32, 20, 30]);
    pool.mark_unhealthy(1);
    let got: Vec<usize> = picks(&mut pool, 4).into_iter().map(|p| p.unwrap().0).collect();
    assert_eq!(got, vec![0, 2, 0, 2]);
    pool.mark_healthy(1);
    assert_eq!(pool.next_backend(), Some((0, 10)));
    assert_eq!(pool.next_backend(), Some((1, 20)));
    assert_eq!(pool.next_backend(), Some((2, 30)));
}

#[test]
fn no_backend_when_all_are_unhealthy() {
    let mut pool = BackendPool::new(vec![7u8, 8]);
    pool.mark_unhealthy(0);
    pool.mark_unhealthy(1);
    assert_eq!(pool.next_backend(), None);
    assert_eq!(pool.next_backend(), None);
    pool.mark_healthy(1);
    assert_eq!(pool.next_backend(), Some((1, 8)));
    assert_eq!(pool.next_backend(), Some((1, 8)));
}

#[test]
fn marking_an_unknown_index_changes_nothing() {
    let mut pool = BackendPool::new(vec![5u8]);
    pool.mark_unhealthy(3);
    assert_eq!(pool.next_backend(), Some((0, 5)));
}

fn addr(port: u16) -> BackendAddr {
    BackendAddr { ip: 0x7f00_0001, v6: false, port, flowinfo: 0, scope_id: 0 }
}

#[test]
fn idle_connections_are_last_in_first_out() {
    let mut pool: BackendConnPool<&str> = BackendConnPool::new();
    assert_eq!(pool.borrow(addr(81)), None);
    pool.return_conn(addr(81), "first");
    pool.return_conn(addr(81), "second");
    pool.return_conn(addr(82), "other");
    assert_eq!(pool.borrow(addr(81)), Some("second"));
    assert_eq!(pool.borrow(addr(81)), Some("first"));
    assert_eq!(pool.borrow(addr(81)), None);
    assert_eq!(pool.borrow(addr(82)), Some("other"));
    assert_eq!(pool.borrow(addr(83)), None);
}

#[test]
fn idle_connections_are_kept_by_address() {
    let mut pool: BackendConnPool<u32> = BackendConnPool::new();
    let v6 = BackendAddr { ip: 0x7f00_0001, v6: true, port: 81, flowinfo: 0, scope_id: 0 };
    pool.return_conn(addr(81), 1);
    assert_eq!(pool.borrow(v6), None);
    pool.return_conn(v6, 2);
    assert_eq!(pool.borrow(addr(81)), Some(1));
    assert_eq!(pool.borrow(v6), Some(2));
    assert_eq!(pool.borrow(v6), None);
}
