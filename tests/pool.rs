use dawn_checker::pool::BoundedPool;

fn simulate(limit: usize, total: usize, seed: u64) -> (usize, usize) {
    let mut pool = BoundedPool::new(limit, total);
    let mut running: Vec<usize> = Vec::new();
    let mut order: Vec<usize> = Vec::new();
    let mut state = seed;
    while !pool.is_done() {
        while let Some(i) = pool.try_start() {
            running.push(i);
            assert!(pool.in_flight() <= limit);
        }
        state = state.wrapping_mul(6364136223846793005).wrapping_add(1442695040888963407);
        let pick = (state >> 33) as usize % running.len();
        order.push(running.swap_remove(pick));
        pool.finish();
    }
    assert_eq!(order.len(), total);
    (pool.peak(), order.len())
}

#[test]
fn pool_never_exceeds_limit() {
    for limit in 1..6 {
        for seed in 0..5 {
            let (peak, done) = simulate(limit, 23, seed);
            assert!(peak <= limit);
            assert_eq!(peak, limit);
            assert_eq!(done, 23);
        }
    }
}

#[test]
fn pool_with_fewer_units_than_slots() {
    let (peak, done) = simulate(10, 3, 1);
    assert_eq!(peak, 3);
    assert_eq!(done, 3);
    let empty = BoundedPool::new(4, 0);
    assert!(empty.is_done());
}

#[test]
fn single_slot_pool_runs_one_at_a_time() {
    let mut pool = BoundedPool::new(1, 3);
    assert_eq!(pool.try_start(), Some(0));
    assert_eq!(pool.try_start(), None);
    pool.finish();
    assert_eq!(pool.try_start(), Some(1));
    assert_eq!(pool.in_flight(), 1);
    pool.finish();
    assert_eq!(pool.try_start(), Some(2));
    pool.finish();
    assert_eq!(pool.try_start(), None);
    assert!(pool.is_done());
    assert_eq!(pool.peak(), 1);
}
