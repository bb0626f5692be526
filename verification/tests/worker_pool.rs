use webserver::worker::MAX_THREAD_POOL_SIZE;
use webserver::worker::SharedQueueThreadPool;
use webserver::worker::ThreadPool;
use webserver::worker::ThreadPoolMessage;
use webserver::worker::WorkItem;

#[test]
fn construction_respects_the_thread_ceiling() {
    assert!(SharedQueueThreadPool::new(MAX_THREAD_POOL_SIZE + 1).is_err());
    assert!(SharedQueueThreadPool::new(MAX_THREAD_POOL_SIZE).is_ok());
    assert!(SharedQueueThreadPool::new(0).is_ok());
}

#[test]
fn spawn_queues_and_steps_execute_in_order() {
    let mut p = SharedQueueThreadPool::new(2).unwrap();
    assert!(p.running_now());
    p.spawn(WorkItem { fd: 1, payload: b"a".to_vec() });
    p.spawn(WorkItem { fd: 2, payload: b"b".to_vec() });
    assert_eq!(p.queue_len(), 2);
    assert_eq!(p.executed_count(), 0);

    let exited = p.worker_step();
    assert!(!exited);
    assert_eq!(p.executed_count(), 1);
    assert_eq!(p.executed_at(0).fd, 1);

    let exited = p.worker_step();
    assert!(!exited);
    assert_eq!(p.executed_count(), 2);
    assert_eq!(p.executed_at(1).fd, 2);
    assert_eq!(p.queue_len(), 0);
}

#[test]
fn shutdown_joins_all_workers_and_drops_no_task() {
    let mut p = SharedQueueThreadPool::new(3).unwrap();
    p.spawn(WorkItem { fd: 10, payload: b"x".to_vec() });
    p.spawn(WorkItem { fd: 11, payload: b"y".to_vec() });
    p.shutdown();

    assert!(p.stopped_now());
    assert_eq!(p.live_count(), 0);
    assert_eq!(p.queue_len(), 0);
    assert_eq!(p.executed_count(), 2);
    assert_eq!(p.executed_at(0).fd, 10);
    assert_eq!(p.executed_at(1).fd, 11);
}

#[test]
fn shutdown_is_idempotent() {
    let mut p = SharedQueueThreadPool::new(2).unwrap();
    p.spawn(WorkItem { fd: 1, payload: Vec::new() });
    p.shutdown();
    assert!(p.stopped_now());
    let ran = p.executed_count();
    p.shutdown();
    assert!(p.stopped_now());
    assert_eq!(p.executed_count(), ran);
    assert_eq!(p.live_count(), 0);
}

#[test]
fn shutdown_of_idle_pool() {
    let mut p = SharedQueueThreadPool::new(4).unwrap();
    p.shutdown();
    assert!(p.stopped_now());
    assert_eq!(p.executed_count(), 0);
    assert_eq!(p.queue_len(), 0);
}

#[test]
fn pool_without_workers_runs_nothing() {
    let mut p = SharedQueueThreadPool::new(0).unwrap();
    p.spawn(WorkItem { fd: 5, payload: b"q".to_vec() });
    p.shutdown();
    assert!(p.stopped_now());
    assert_eq!(p.executed_count(), 0);
    assert_eq!(p.queue_len(), 1);
}

#[test]
fn thread_pool_message_variants() {
    let task = ThreadPoolMessage::Task(WorkItem { fd: 3, payload: b"z".to_vec() });
    let stop = ThreadPoolMessage::Shutdown;
    match task {
        ThreadPoolMessage::Task(w) => {
            assert_eq!(w.fd, 3);
            assert_eq!(w.payload, b"z".to_vec());
        },
        ThreadPoolMessage::Shutdown => panic!("expected a task"),
    }
    assert!(matches!(stop, ThreadPoolMessage::Shutdown));
}
