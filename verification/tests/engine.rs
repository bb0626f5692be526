use webserver::backlog::Intent;
use webserver::fanout::FanoutPolicy;
use webserver::reactor::Action;
use webserver::reactor::Reactor;
use webserver::reactor::ReactorConfig;

fn config(policy: FanoutPolicy, pool_cap: Option<usize>) -> ReactorConfig {
    ReactorConfig { accept_concurrency: 10, buf_size: 2048, pool_cap, policy }
}

/// Accept a connection and arm its first read; returns the descriptor slot
/// and the buffer index of the read in progress.
fn accept_and_arm(r: &mut Reactor, fd: i32) -> (usize, usize) {
    let acts = r.on_accepted(fd, 0x7F000001, 40000 + fd as u16);
    assert_eq!(acts.len(), 2);
    assert_eq!(acts[0], Action::SetNonblocking(fd));
    let tok = match acts[1] {
        Action::Submit(Intent::Poll { fd: f, token }) => {
            assert_eq!(f, fd);
            token
        },
        other => panic!("expected a poll submission, got {:?}", other),
    };
    let acts = r.on_ready(tok);
    assert_eq!(acts.len(), 1);
    let buf = match acts[0] {
        Action::Submit(Intent::Recv { fd: f, buf_index, token }) => {
            assert_eq!(f, fd);
            assert_eq!(token, tok);
            buf_index
        },
        other => panic!("expected a receive submission, got {:?}", other),
    };
    (tok, buf)
}

fn outbound_of(r: &Reactor, fd: i32) -> Vec<Vec<u8>> {
    let i = r.registry.find(fd).expect("connection not registered");
    let c = r.registry.get(i);
    let mut out = Vec::new();
    let mut k: usize = 0;
    while k < c.outbound.len() {
        let e = c.outbound[k];
        let bytes = r.pool.copy_out(e.buf_index);
        out.push(bytes[e.offset..e.len].to_vec());
        k += 1;
    }
    out
}

#[test]
fn three_peers_relay() {
    let mut r = Reactor::new(5, config(FanoutPolicy::AllExceptSender, None));
    let (ta, _) = accept_and_arm(&mut r, 10);
    let (_tb, _) = accept_and_arm(&mut r, 11);
    let (_tc, _) = accept_and_arm(&mut r, 12);

    let acts = r.on_read_done(ta, b"hello".to_vec());
    assert_eq!(acts.len(), 1);
    assert_eq!(acts[0], Action::Submit(Intent::Poll { fd: 10, token: ta }));

    assert_eq!(outbound_of(&r, 10), Vec::<Vec<u8>>::new());
    assert_eq!(outbound_of(&r, 11), vec![b"hello".to_vec()]);
    assert_eq!(outbound_of(&r, 12), vec![b"hello".to_vec()]);
}

#[test]
fn echo_policy_targets_sender_only() {
    let mut r = Reactor::new(5, config(FanoutPolicy::EchoOnly, None));
    let (ta, _) = accept_and_arm(&mut r, 20);
    let (_tb, _) = accept_and_arm(&mut r, 21);

    r.on_read_done(ta, b"ping".to_vec());
    assert_eq!(outbound_of(&r, 20), vec![b"ping".to_vec()]);
    assert_eq!(outbound_of(&r, 21), Vec::<Vec<u8>>::new());
}

#[test]
fn all_peers_policy_includes_sender() {
    let mut r = Reactor::new(5, config(FanoutPolicy::AllPeers, None));
    let (ta, _) = accept_and_arm(&mut r, 30);
    let (_tb, _) = accept_and_arm(&mut r, 31);

    r.on_read_done(ta, b"x".to_vec());
    assert_eq!(outbound_of(&r, 30), vec![b"x".to_vec()]);
    assert_eq!(outbound_of(&r, 31), vec![b"x".to_vec()]);
}

#[test]
fn close_propagation_on_zero_read() {
    let mut r = Reactor::new(5, config(FanoutPolicy::AllExceptSender, None));
    let (ta, _) = accept_and_arm(&mut r, 40);
    let (_tb, _) = accept_and_arm(&mut r, 41);

    let acts = r.on_read_done(ta, Vec::new());
    assert_eq!(acts, vec![Action::Close(40)]);
    assert!(r.registry.find(40).is_none());
    assert!(r.registry.find(41).is_some());
    assert_eq!(r.registry.len(), 1);
}

#[test]
fn accepted_connections_all_registered() {
    let mut r = Reactor::new(5, config(FanoutPolicy::AllExceptSender, None));
    r.on_accepted(50, 1, 1);
    r.on_accepted(51, 2, 2);
    r.on_accepted(52, 3, 3);
    assert_eq!(r.registry.len(), 3);
    assert!(r.registry.find(50).is_some());
    assert!(r.registry.find(51).is_some());
    assert!(r.registry.find(52).is_some());

    // a duplicate descriptor is a stale event: ignored, never dual-owned
    let acts = r.on_accepted(51, 9, 9);
    assert!(acts.is_empty());
    assert_eq!(r.registry.len(), 3);
}

#[test]
fn accept_count_is_conserved() {
    let mut r = Reactor::new(5, ReactorConfig::default());
    assert_eq!(r.accept.count, 10);
    let out = r.arm_accepts(3);
    assert_eq!(out.len(), 3);
    assert!(out.iter().all(|i| matches!(i, Intent::Accept { .. })));
    assert_eq!(r.accept.count, 7);
    let out = r.arm_accepts(100);
    assert_eq!(out.len(), 7);
    assert_eq!(r.accept.count, 0);

    r.on_accepted(60, 0, 0);
    assert_eq!(r.accept.count, 1);
}

#[test]
fn write_cycle_partial_then_complete() {
    let mut r = Reactor::new(5, config(FanoutPolicy::AllExceptSender, None));
    let (ta, _) = accept_and_arm(&mut r, 70);
    let (_tb, _) = accept_and_arm(&mut r, 71);

    r.on_read_done(ta, b"hi".to_vec());
    let acts = r.pump_writes();
    assert_eq!(acts.len(), 1);
    let (wt, wbuf) = match acts[0] {
        Action::Submit(Intent::Send { fd, buf_index, offset, len, token }) => {
            assert_eq!(fd, 71);
            assert_eq!(offset, 0);
            assert_eq!(len, 2);
            (token, buf_index)
        },
        other => panic!("expected a send submission, got {:?}", other),
    };
    // the queue entry moved into the write descriptor
    let i = r.registry.find(71).unwrap();
    assert_eq!(r.registry.get(i).outbound.len(), 0);
    assert_eq!(r.registry.get(i).write_token, Some(wt));

    // one byte written: the continuation keeps the cursor
    let acts = r.on_write_done(wt, 1);
    assert_eq!(
        acts,
        vec![Action::Submit(Intent::Send { fd: 71, buf_index: wbuf, offset: 1, len: 2, token: wt })]
    );

    // the rest written (an overshooting count is clamped): descriptor retired
    let idle_before = r.pool.idle_count();
    let acts = r.on_write_done(wt, 99);
    assert!(acts.is_empty());
    let i = r.registry.find(71).unwrap();
    assert_eq!(r.registry.get(i).write_token, None);
    assert_eq!(r.pool.idle_count(), idle_before + 1);
}

#[test]
fn transient_resubmits_unchanged() {
    let mut r = Reactor::new(5, config(FanoutPolicy::AllExceptSender, None));
    let (ta, buf) = accept_and_arm(&mut r, 80);
    let len_before = r.registry.len();
    let acts = r.on_transient(ta);
    assert_eq!(
        acts,
        vec![Action::Submit(Intent::Recv { fd: 80, buf_index: buf, token: ta })]
    );
    assert_eq!(r.registry.len(), len_before);
}

#[test]
fn failed_operation_is_connection_fatal() {
    let mut r = Reactor::new(5, config(FanoutPolicy::AllExceptSender, None));
    let (ta, _) = accept_and_arm(&mut r, 90);
    let (_tb, _) = accept_and_arm(&mut r, 91);

    let acts = r.on_failed(ta);
    assert_eq!(acts, vec![Action::Close(90)]);
    assert!(r.registry.find(90).is_none());
    assert!(r.registry.find(91).is_some());
}

#[test]
fn stale_events_are_ignored() {
    let mut r = Reactor::new(5, config(FanoutPolicy::AllExceptSender, None));
    let (ta, _) = accept_and_arm(&mut r, 100);

    assert!(r.on_ready(9999).is_empty());
    assert!(r.on_write_done(ta, 4).is_empty()); // a read slot is not a write slot
    assert!(r.on_failed(9999).is_empty());
    assert!(r.registry.find(100).is_some());
}

#[test]
fn backlog_defer_then_drain_in_order() {
    let mut r = Reactor::new(5, config(FanoutPolicy::AllExceptSender, None));
    let a = Intent::Poll { fd: 1, token: 1 };
    let b = Intent::Recv { fd: 2, buf_index: 0, token: 2 };
    let c = Intent::Send { fd: 3, buf_index: 1, offset: 0, len: 4, token: 3 };
    r.defer(a);
    r.defer(b);
    r.defer(c);
    assert_eq!(r.backlog.len(), 3);

    let out = r.drain_backlog(2);
    assert_eq!(out, vec![a, b]);
    assert_eq!(r.backlog.len(), 1);

    let out = r.drain_backlog(10);
    assert_eq!(out, vec![c]);
    assert_eq!(r.backlog.len(), 0);
}

#[test]
fn exhausted_pool_rearms_the_poll() {
    let mut r = Reactor::new(5, config(FanoutPolicy::AllExceptSender, Some(0)));
    let acts = r.on_accepted(110, 0, 0);
    let tok = match acts[1] {
        Action::Submit(Intent::Poll { token, .. }) => token,
        _ => panic!("expected a poll submission"),
    };
    let acts = r.on_ready(tok);
    assert_eq!(acts, vec![Action::Submit(Intent::Poll { fd: 110, token: tok })]);
}

#[test]
fn bounded_pool_skips_recipients_beyond_capacity() {
    // both buffers are held by the two reads in progress, so the fan-out
    // finds no room: the recipient misses this payload and both connections
    // stay registered (the fan-out never fails as a whole)
    let mut r = Reactor::new(5, config(FanoutPolicy::AllExceptSender, Some(2)));
    let (ta, _) = accept_and_arm(&mut r, 120);
    let (_tb, _) = accept_and_arm(&mut r, 121);

    let acts = r.on_read_done(ta, b"m".to_vec());
    assert_eq!(acts, vec![Action::Submit(Intent::Poll { fd: 120, token: ta })]);
    assert!(outbound_of(&r, 121).is_empty());
    assert!(outbound_of(&r, 120).is_empty());
    assert!(r.registry.find(120).is_some());
    assert!(r.registry.find(121).is_some());
    // the sender's read buffer went back to the pool
    assert_eq!(r.pool.idle_count(), 1);
}

#[test]
fn reactor_config_defaults() {
    let c = ReactorConfig::default();
    assert_eq!(c.accept_concurrency, 10);
    assert_eq!(c.buf_size, 2048);
    assert_eq!(c.pool_cap, None);
    assert_eq!(c.policy, FanoutPolicy::AllExceptSender);
}

#[test]
fn listen_config_defaults() {
    let c = webserver::ListenConfig::default();
    assert_eq!(c.ip, 0x7F00_0001);
    assert_eq!(c.port, 8080);
    assert_eq!(c.os_backlog, 1024);
}
