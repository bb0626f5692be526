use webserver::backlog::Backlog;
use webserver::backlog::Intent;
use webserver::buffer_pool::BufferPool;
use webserver::buffer_pool::copy_bytes;

#[test]
fn capacity_two_third_acquire_fails() {
    // hard capacity 2: two acquisitions succeed with distinct indices, a
    // third before any release fails (this pool's documented policy)
    let mut p = BufferPool::new(Some(2), 16);
    let a = p.acquire().expect("first acquire");
    let b = p.acquire().expect("second acquire");
    assert_ne!(a, b);
    assert_eq!(p.acquire(), None);

    p.release(a);
    assert_eq!(p.acquire(), Some(a));
}

#[test]
fn unbounded_pool_always_grows() {
    let mut p = BufferPool::new(None, 4);
    for _ in 0..100 {
        assert!(p.acquire().is_some());
    }
    assert_eq!(p.buf_count(), 100);
    assert_eq!(p.idle_count(), 0);
}

#[test]
fn released_buffer_is_reused_not_reallocated() {
    let mut p = BufferPool::new(None, 8);
    let a = p.acquire().unwrap();
    p.release(a);
    let b = p.acquire().unwrap();
    assert_eq!(a, b);
    assert_eq!(p.buf_count(), 1);
}

#[test]
fn store_and_copy_out_round_trip() {
    let mut p = BufferPool::new(None, 8);
    let i = p.acquire().unwrap();
    p.store(i, vec![1, 2, 3]);
    assert_eq!(p.copy_out(i), vec![1, 2, 3]);
    assert_eq!(p.stored_len(i), 3);
}

#[test]
fn fresh_buffer_is_zeroed_to_its_size() {
    let mut p = BufferPool::new(None, 4);
    let i = p.acquire().unwrap();
    assert_eq!(p.copy_out(i), vec![0u8, 0, 0, 0]);
}

#[test]
fn acquire_with_stores_the_payload() {
    let mut p = BufferPool::new(Some(1), 8);
    let data = vec![9u8, 8, 7];
    let i = p.acquire_with(&data).unwrap();
    assert_eq!(p.copy_out(i), data);
    assert_eq!(p.acquire_with(&data), None);
}

#[test]
fn copy_bytes_copies_exactly() {
    let src = vec![5u8, 6, 7, 8];
    assert_eq!(copy_bytes(&src), src);
    assert_eq!(copy_bytes(&Vec::new()), Vec::<u8>::new());
}

#[test]
fn backlog_is_fifo_and_lossless() {
    let mut q = Backlog::new();
    let a = Intent::Accept { token: 0 };
    let b = Intent::Poll { fd: 5, token: 1 };
    let c = Intent::Recv { fd: 5, buf_index: 2, token: 1 };
    q.push(a);
    q.push(b);
    q.push(c);
    assert_eq!(q.len(), 3);

    let first = q.drain(1);
    assert_eq!(first, vec![a]);
    let rest = q.drain(99);
    assert_eq!(rest, vec![b, c]);
    assert_eq!(q.len(), 0);
}

#[test]
fn drain_with_no_room_removes_nothing() {
    let mut q = Backlog::new();
    q.push(Intent::Accept { token: 7 });
    let out = q.drain(0);
    assert!(out.is_empty());
    assert_eq!(q.len(), 1);
}
