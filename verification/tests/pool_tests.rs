use workpool::pool::ThreadPool;

#[test]
fn tickets_are_consecutive() {
    let mut pool = ThreadPool::new(4);
    assert_eq!(pool.execute(), 0);
    assert_eq!(pool.execute(), 1);
    assert_eq!(pool.execute(), 2);
    pool.shutdown();
}

#[test]
fn each_job_runs_exactly_once() {
    let mut pool = ThreadPool::new(4);
    for expected in 0..6usize {
        let ticket = pool.execute();
        assert_eq!(ticket, expected);
    }
    pool.shutdown();
    let done = pool.completed();
    assert_eq!(done.len(), 6);
    for id in 0..6usize {
        assert_eq!(done.iter().filter(|&&d| d == id).count(), 1);
    }
}

#[test]
fn teardown_with_no_jobs_is_immediate() {
    let mut pool = ThreadPool::new(3);
    pool.shutdown();
    assert_eq!(pool.pending_count(), 0);
    assert_eq!(pool.running_count(), 0);
    assert_eq!(pool.completed().len(), 0);
    assert_eq!(pool.size(), 3);
}

#[test]
fn shutdown_drains_everything() {
    let mut pool = ThreadPool::new(2);
    for _ in 0..5 {
        pool.execute();
    }
    pool.shutdown();
    assert_eq!(pool.pending_count(), 0);
    assert_eq!(pool.running_count(), 0);
    assert_eq!(pool.completed().len(), 5);
}

#[test]
fn size_is_constant_through_lifecycle() {
    let mut pool = ThreadPool::new(4);
    assert_eq!(pool.size(), 4);
    pool.execute();
    assert_eq!(pool.size(), 4);
    let t = pool.dispatch();
    assert_eq!(pool.size(), 4);
    pool.finish(0);
    assert_eq!(t, 0);
    assert_eq!(pool.size(), 4);
    pool.shutdown();
    assert_eq!(pool.size(), 4);
}

#[test]
fn single_worker_pool_is_serial() {
    let mut pool = ThreadPool::new(1);
    for _ in 0..3 {
        pool.execute();
    }
    // with one worker each job must be taken and finished before the next
    let mut order = Vec::new();
    for _ in 0..3 {
        let t = pool.dispatch();
        assert_eq!(pool.running_count(), 1);
        pool.finish(0);
        order.push(t);
    }
    assert_eq!(order, vec![0, 1, 2]);
    pool.shutdown();
    assert_eq!(pool.completed(), &vec![0, 1, 2]);
}

#[test]
fn dispatch_is_fifo() {
    let mut pool = ThreadPool::new(3);
    for _ in 0..3 {
        pool.execute();
    }
    assert_eq!(pool.dispatch(), 0);
    assert_eq!(pool.dispatch(), 1);
    assert_eq!(pool.dispatch(), 2);
    assert_eq!(pool.running_count(), 3);
    // workers race: the middle job may finish first
    pool.finish(1);
    pool.finish(0);
    pool.finish(0);
    assert_eq!(pool.completed(), &vec![1, 0, 2]);
    pool.shutdown();
}
