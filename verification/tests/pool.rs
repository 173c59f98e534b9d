use load_balancer::{PoolCreationError, PoolState, Rejected, WorkerStep};

#[test]
fn build_refuses_more_than_four_workers() {
    let result: Result<PoolState<u32>, PoolCreationError> = PoolState::build(5);
    assert!(matches!(result, Err(PoolCreationError::SizeTooLarge)));
}

#[test]
fn build_accepts_up_to_four_workers() {
    for size in 1..5 {
        let result: Result<PoolState<u32>, PoolCreationError> = PoolState::build(size);
        let pool = result.ok().unwrap();
        assert_eq!(pool.size(), size);
        assert_eq!(pool.idle(), size);
        assert!(pool.is_accepting());
    }
}

#[test]
fn pool_creation_error_message() {
    assert_eq!(PoolCreationError::SizeTooLarge.message(), "The maximum number of threads is 4!");
}

#[test]
fn new_pool_has_idle_workers_and_no_jobs() {
    let pool: PoolState<u32> = PoolState::new(8);
    assert_eq!(pool.size(), 8);
    assert_eq!(pool.idle(), 8);
    assert_eq!(pool.busy(), 0);
    assert_eq!(pool.pending(), 0);
    assert_eq!(pool.queue_limit(), usize::MAX);
    assert!(pool.is_accepting());
    assert!(!pool.is_terminated());
}

#[test]
fn full_queue_hands_the_job_back_until_a_worker_takes_one() {
    let mut pool: PoolState<u32> = PoolState::with_queue_limit(1, 2);
    assert_eq!(pool.queue_limit(), 2);
    assert_eq!(pool.submit(1), Ok(()));
    assert_eq!(pool.submit(2), Ok(()));
    assert_eq!(pool.submit(3), Err(Rejected::QueueFull(3)));
    assert_eq!(pool.pending(), 2);
    assert_eq!(pool.next_step(), WorkerStep::Run(1));
    assert_eq!(pool.submit(3), Ok(()));
    assert_eq!(pool.submit(4), Err(Rejected::QueueFull(4)));
    pool.finish();
    assert_eq!(pool.next_step(), WorkerStep::Run(2));
    pool.finish();
    assert_eq!(pool.next_step(), WorkerStep::Run(3));
}

#[test]
fn queue_without_room_accepts_nothing() {
    let mut pool: PoolState<u32> = PoolState::with_queue_limit(2, 0);
    assert_eq!(pool.submit(1), Err(Rejected::QueueFull(1)));
    assert_eq!(pool.pending(), 0);
    assert_eq!(pool.next_step(), WorkerStep::Wait);
}

#[test]
fn shutdown_is_reported_before_a_full_queue() {
    let mut pool: PoolState<u32> = PoolState::with_queue_limit(1, 1);
    assert_eq!(pool.submit(1), Ok(()));
    assert_eq!(pool.submit(2), Err(Rejected::QueueFull(2)));
    pool.shut_down();
    assert_eq!(pool.submit(2), Err(Rejected::ShutDown(2)));
    assert_eq!(pool.next_step(), WorkerStep::Run(1));
}

#[test]
fn idle_worker_waits_while_no_job_is_queued() {
    let mut pool: PoolState<u32> = PoolState::new(2);
    assert_eq!(pool.next_step(), WorkerStep::Wait);
    assert_eq!(pool.idle(), 2);
    assert_eq!(pool.busy(), 0);
}

#[test]
fn jobs_are_taken_in_the_order_submitted() {
    let mut pool: PoolState<u32> = PoolState::new(2);
    assert_eq!(pool.submit(1), Ok(()));
    assert_eq!(pool.submit(2), Ok(()));
    assert_eq!(pool.submit(3), Ok(()));
    assert_eq!(pool.pending(), 3);
    assert_eq!(pool.next_step(), WorkerStep::Run(1));
    assert_eq!(pool.next_step(), WorkerStep::Run(2));
    assert_eq!(pool.busy(), 2);
    assert_eq!(pool.idle(), 0);
    assert_eq!(pool.pending(), 1);
    pool.finish();
    assert_eq!(pool.busy(), 1);
    assert_eq!(pool.next_step(), WorkerStep::Run(3));
    pool.finish();
    pool.finish();
    assert_eq!(pool.busy(), 0);
    assert_eq!(pool.next_step(), WorkerStep::Wait);
}

#[test]
fn shutdown_refuses_new_jobs_and_hands_them_back() {
    let mut pool: PoolState<String> = PoolState::new(1);
    assert_eq!(pool.submit("kept".to_string()), Ok(()));
    pool.shut_down();
    assert!(!pool.is_accepting());
    assert_eq!(pool.submit("late".to_string()), Err(Rejected::ShutDown("late".to_string())));
    assert_eq!(pool.pending(), 1);
    pool.shut_down();
    assert_eq!(pool.submit("later".to_string()), Err(Rejected::ShutDown("later".to_string())));
    assert_eq!(pool.pending(), 1);
}

#[test]
fn shutdown_drains_the_queue_before_workers_leave() {
    let mut pool: PoolState<u32> = PoolState::new(2);
    assert_eq!(pool.submit(1), Ok(()));
    assert_eq!(pool.submit(2), Ok(()));
    assert_eq!(pool.submit(3), Ok(()));
    assert_eq!(pool.next_step(), WorkerStep::Run(1));
    pool.shut_down();
    assert!(!pool.is_terminated());
    assert_eq!(pool.next_step(), WorkerStep::Run(2));
    pool.finish();
    assert_eq!(pool.next_step(), WorkerStep::Run(3));
    pool.finish();
    assert_eq!(pool.next_step(), WorkerStep::Exit);
    assert!(!pool.is_terminated());
    assert_eq!(pool.busy(), 1);
    assert_eq!(pool.idle(), 0);
    pool.finish();
    assert_eq!(pool.next_step(), WorkerStep::Exit);
    assert!(pool.is_terminated());
    assert_eq!(pool.busy(), 0);
    assert_eq!(pool.pending(), 0);
    assert_eq!(pool.submit(4), Err(Rejected::ShutDown(4)));
}

#[test]
fn shutdown_of_an_idle_pool_lets_every_worker_leave() {
    let mut pool: PoolState<u32> = PoolState::new(3);
    pool.shut_down();
    assert_eq!(pool.next_step(), WorkerStep::Exit);
    assert_eq!(pool.next_step(), WorkerStep::Exit);
    assert!(!pool.is_terminated());
    assert_eq!(pool.next_step(), WorkerStep::Exit);
    assert!(pool.is_terminated());
}
