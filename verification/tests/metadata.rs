use pegaflow::metaserver::batch::{BlockHashBatch, MetaServerCommand};
use pegaflow::metaserver::client::{
    flush_result, leave_step, on_register_sent, on_unregister_sent, register_command,
    shutdown_step, unregister_command, BarrierOutcome, LeaveEvent, LeaveStep, SendCounts,
    SendOutcome, ShutdownEvent, ShutdownStep,
};
use pegaflow::metaserver::drain::{drain, Drained};
use pegaflow::metaserver::publish::{Publication, PublishAction};
use pegaflow::metaserver::session::{
    chunk_hashes, heartbeat_period_from_stale_after, rpc_chunks, unsent_after_failure,
    HeartbeatState, MetaServerClientConfig, MetaServerSession, Readiness,
    DEFAULT_METASERVER_QUEUE_DEPTH, MAX_HASHES_PER_RPC,
};
use std::collections::BTreeMap;

type Groups = Vec<(String, Vec<Vec<u8>>)>;
type RequestSet = BTreeMap<String, Vec<Vec<u8>>>;

#[derive(Default)]
struct FakeMetaServer {
    heartbeats: usize,
    unregistered: usize,
    reject_inserts: usize,
    inserts: Groups,
    removes: Groups,
}

fn collect(requests: &Groups) -> RequestSet {
    let mut grouped: RequestSet = BTreeMap::new();
    for (namespace, hashes) in requests {
        grouped.entry(namespace.clone()).or_default().extend(hashes.iter().cloned());
    }
    for hashes in grouped.values_mut() {
        hashes.sort();
    }
    grouped
}

fn expected(entries: &[(&str, Vec<u8>)]) -> RequestSet {
    let mut grouped: RequestSet = BTreeMap::new();
    for (namespace, hash) in entries {
        grouped.entry((*namespace).to_string()).or_default().push(hash.clone());
    }
    for hashes in grouped.values_mut() {
        hashes.sort();
    }
    grouped
}

fn prepare(session: &mut MetaServerSession, server: &mut FakeMetaServer, now: u64) -> bool {
    loop {
        match session.ensure_heartbeat_registered(now) {
            Readiness::Ready => return true,
            Readiness::Connect => session.on_connected(),
            Readiness::Heartbeat => {
                server.heartbeats += 1;
                session.on_heartbeat(2, now);
            }
            Readiness::NotYet => return false,
        }
    }
}

fn tick(session: &mut MetaServerSession, server: &mut FakeMetaServer) {
    let now = session.next_heartbeat_at();
    if matches!(session.heartbeat_due(), Readiness::Connect) {
        session.on_connected();
    }
    assert!(matches!(session.heartbeat_due(), Readiness::Heartbeat));
    server.heartbeats += 1;
    session.on_heartbeat(2, now);
}

fn publish(
    publication: &mut Publication,
    session: &mut MetaServerSession,
    server: &mut FakeMetaServer,
    now: u64,
) -> Result<(), String> {
    loop {
        match publication.next_action() {
            PublishAction::PrepareSession => {
                let ready = prepare(session, server, now);
                publication.on_session(session, ready);
            }
            PublishAction::Insert(chunk) => {
                if server.reject_inserts > 0 {
                    server.reject_inserts -= 1;
                    publication.on_failed(session, true);
                } else {
                    let groups = publication.insert_groups();
                    server.inserts.push((groups[chunk.group].0.clone(), chunk_hashes(groups, &chunk)));
                    publication.on_acknowledged();
                }
            }
            PublishAction::Remove(chunk) => {
                let groups = publication.remove_groups();
                server.removes.push((groups[chunk.group].0.clone(), chunk_hashes(groups, &chunk)));
                publication.on_acknowledged();
            }
            PublishAction::Succeed => return Ok(()),
            PublishAction::Fail(m) => return Err(m),
        }
    }
}

fn run(
    commands: Vec<MetaServerCommand>,
    session: &mut MetaServerSession,
    server: &mut FakeMetaServer,
    now: u64,
) -> Vec<(u64, Result<(), String>)> {
    match drain(commands) {
        Drained::Shutdown(ticket) => {
            server.unregistered += 1;
            vec![(ticket, Ok(()))]
        }
        Drained::Work { inserts, removes, waiters } => {
            let mut publication = Publication::new(inserts, removes);
            let result = publish(&mut publication, session, server, now);
            waiters.into_iter().map(|w| (w, result.clone())).collect()
        }
    }
}

#[test]
fn heartbeat_loop_sends_initial_heartbeat_and_unregisters_on_shutdown() {
    let mut server = FakeMetaServer::default();
    let mut session = MetaServerSession::new(0);
    assert!(matches!(session.heartbeat_due(), Readiness::Connect));
    session.on_connected();
    assert!(matches!(session.heartbeat_due(), Readiness::Heartbeat));
    server.heartbeats += 1;
    session.on_heartbeat(2, 0);
    assert_eq!(server.heartbeats, 1);
    assert!(matches!(session.ensure_heartbeat_registered(0), Readiness::Ready));
    let done = run(vec![MetaServerCommand::Shutdown(7)], &mut session, &mut server, 0);
    assert_eq!(done, vec![(7, Ok(()))]);
    assert_eq!(server.unregistered, 1);
}

#[test]
fn stale_session_write_error_triggers_new_heartbeat() {
    let mut server = FakeMetaServer { reject_inserts: 1, ..FakeMetaServer::default() };
    let mut session = MetaServerSession::new(0);
    assert!(prepare(&mut session, &mut server, 0));
    assert_eq!(server.heartbeats, 1);
    let name = session.session_id().to_string();
    let command = register_command("ns".to_string(), vec![vec![1]]).unwrap();
    run(vec![command], &mut session, &mut server, 0);
    tick(&mut session, &mut server);
    assert_eq!(server.heartbeats, 2);
    assert_eq!(session.session_id(), name);
}

#[test]
fn flush_waits_for_prior_publications() {
    let mut server = FakeMetaServer::default();
    let mut session = MetaServerSession::new(0);
    assert!(prepare(&mut session, &mut server, 0));
    let command = register_command("ns".to_string(), vec![vec![1], vec![2]]).unwrap();
    let done =
        run(vec![command, MetaServerCommand::Flush(3)], &mut session, &mut server, 0);
    assert_eq!(done.len(), 1);
    let (ticket, result) = done.into_iter().next().unwrap();
    assert_eq!(ticket, 3);
    flush_result(&session, BarrierOutcome::Reached(result)).expect("publication barrier");
    assert_eq!(
        collect(&server.inserts),
        expected(&[("ns", vec![1]), ("ns", vec![2])])
    );
}

#[test]
fn flush_fails_after_an_earlier_publication_was_lost() {
    let mut server = FakeMetaServer { reject_inserts: 1, ..FakeMetaServer::default() };
    let mut session = MetaServerSession::new(0);
    assert!(prepare(&mut session, &mut server, 0));
    let command = register_command("ns".to_string(), vec![vec![1]]).unwrap();
    run(vec![command], &mut session, &mut server, 0);
    tick(&mut session, &mut server);
    assert_eq!(server.heartbeats, 2);

    let done = run(vec![MetaServerCommand::Flush(4)], &mut session, &mut server, 0);
    let (_, result) = done.into_iter().next().unwrap();
    let error = flush_result(&session, BarrierOutcome::Reached(result))
        .expect_err("lost publication must fail barrier");
    assert!(error.contains("previously lost block hashes"), "{error}");
}

#[test]
fn unsent_after_failure_counts_only_unsent_tail() {
    let ns = |name: &str, n: usize| (name.to_string(), vec![vec![0u8]; n]);
    let namespaces = vec![ns("a", 100), ns("b", 50), ns("c", 30)];

    assert_eq!(unsent_after_failure(&namespaces, 1, 0), 50 + 30);
    assert_eq!(unsent_after_failure(&namespaces, 1, 40), 10 + 30);
    assert_eq!(unsent_after_failure(&namespaces, 2, 20), 10);
    assert_eq!(unsent_after_failure(&namespaces, 2, 999), 0);
}

#[test]
fn large_namespace_removal_splits_into_bounded_rpcs() {
    let mut server = FakeMetaServer::default();
    let mut session = MetaServerSession::new(0);
    let sha256_hash = |i: u32| {
        let mut h = vec![0u8; 32];
        h[..4].copy_from_slice(&i.to_le_bytes());
        h
    };
    let total = MAX_HASHES_PER_RPC * 10 + 1;
    let expected_chunks = total.div_ceil(MAX_HASHES_PER_RPC);
    let hashes: Vec<Vec<u8>> = (0..total as u32).map(sha256_hash).collect();
    let command =
        MetaServerCommand::Remove(BlockHashBatch::single_namespace("ns".to_string(), hashes.clone()));
    run(vec![command], &mut session, &mut server, 0);

    assert_eq!(server.removes.len(), expected_chunks, "removal split into wrong RPC count");
    let mut sent: Vec<Vec<u8>> = Vec::with_capacity(total);
    for (namespace, chunk) in &server.removes {
        assert_eq!(namespace, "ns");
        assert!(chunk.len() <= MAX_HASHES_PER_RPC);
        sent.extend(chunk.iter().cloned());
    }
    sent.sort();
    let mut wanted = hashes;
    wanted.sort();
    assert_eq!(sent, wanted, "chunking lost or duplicated hashes");
}

#[test]
fn mixed_insert_remove_drain_preserves_last_write_per_namespace() {
    let mut server = FakeMetaServer::default();
    let mut session = MetaServerSession::new(0);
    let insert_then_remove = vec![0xa0];
    let remove_then_insert = vec![0xb0];
    let remove_only = vec![0xc0];
    let insert_only = vec![0xd0];
    let commands = vec![
        MetaServerCommand::Insert(BlockHashBatch::single_namespace(
            "ns-first".to_string(),
            vec![insert_then_remove.clone()],
        )),
        MetaServerCommand::Remove(BlockHashBatch::from_entries(vec![(
            "ns-first".to_string(),
            insert_then_remove.clone(),
        )])),
        MetaServerCommand::Remove(BlockHashBatch::from_entries(vec![
            ("ns-second".to_string(), remove_then_insert.clone()),
            ("ns-remove".to_string(), remove_only.clone()),
        ])),
        MetaServerCommand::Insert(BlockHashBatch::single_namespace(
            "ns-second".to_string(),
            vec![remove_then_insert.clone()],
        )),
        MetaServerCommand::Insert(BlockHashBatch::single_namespace(
            "ns-insert".to_string(),
            vec![insert_only.clone()],
        )),
    ];
    run(commands, &mut session, &mut server, 0);

    assert_eq!(
        collect(&server.inserts),
        expected(&[("ns-second", remove_then_insert), ("ns-insert", insert_only)])
    );
    assert_eq!(
        collect(&server.removes),
        expected(&[("ns-first", insert_then_remove), ("ns-remove", remove_only)])
    );
    let done = run(vec![MetaServerCommand::Shutdown(1)], &mut session, &mut server, 0);
    assert_eq!(done, vec![(1, Ok(()))]);
}

#[test]
fn client_config_keeps_what_it_is_given() {
    let config = MetaServerClientConfig::new("http://m:1".to_string(), "n:2".to_string());
    assert_eq!(config.queue_depth, DEFAULT_METASERVER_QUEUE_DEPTH);
    let config = config.with_queue_depth(3);
    assert_eq!((config.metaserver_addr.as_str(), config.queue_depth), ("http://m:1", 3));
    assert_eq!(config.advertise_addr, "n:2");
}

#[test]
fn nothing_to_send_is_no_command() {
    assert!(register_command("ns".to_string(), Vec::new()).is_none());
    assert!(unregister_command(Vec::new()).is_none());
    let command = unregister_command(vec![
        ("a".to_string(), vec![1]),
        ("b".to_string(), vec![2]),
        ("a".to_string(), vec![3]),
    ]);
    match command {
        Some(MetaServerCommand::Remove(batch)) => {
            assert_eq!(batch.count(), 3);
            assert_eq!(collect(&batch.groups), expected(&[("a", vec![1]), ("a", vec![3]), ("b", vec![2])]));
        }
        other => panic!("{other:?}"),
    }
}

#[test]
fn dropped_registrations_are_never_forgotten() {
    let mut session = MetaServerSession::new(0);
    let counts = on_register_sent(&mut session, 5, SendOutcome::Queued);
    assert_eq!(counts, SendCounts { queued: 5, dropped: 0 });
    assert!(session.flush().is_ok());
    let counts = on_register_sent(&mut session, 2, SendOutcome::Full);
    assert_eq!(counts, SendCounts { queued: 0, dropped: 2 });
    on_register_sent(&mut session, 1, SendOutcome::Closed);
    assert_eq!(
        session.flush().unwrap_err(),
        "MetaServer publication barrier observed 3 previously lost block hashes"
    );
    on_register_sent(&mut session, usize::MAX, SendOutcome::Full);
    on_register_sent(&mut session, 1, SendOutcome::Full);
    assert!(session.flush().is_err());
    assert_eq!(on_unregister_sent(4, SendOutcome::Full), SendCounts { queued: 0, dropped: 4 });
    assert_eq!(
        flush_result(&session, BarrierOutcome::LoopGone).unwrap_err(),
        "MetaServer registration loop has exited"
    );
    assert_eq!(
        flush_result(&session, BarrierOutcome::Dropped).unwrap_err(),
        "MetaServer registration barrier was dropped"
    );
}

#[test]
fn waits_grow_to_their_bound() {
    let mut state = HeartbeatState::new(0);
    let mut last = 0;
    for _ in 0..12 {
        let delay = state.advance_backoff();
        assert!(delay >= last);
        last = delay;
    }
    assert_eq!(last, state.advance_backoff());
    assert!(heartbeat_period_from_stale_after(0) > 0);
    assert!(heartbeat_period_from_stale_after(60) > heartbeat_period_from_stale_after(6));
}

#[test]
fn chunks_cover_each_group_in_order() {
    let groups: Groups = vec![
        ("a".to_string(), vec![vec![1], vec![2]]),
        ("b".to_string(), Vec::new()),
        ("c".to_string(), vec![vec![3]]),
    ];
    let mut sent = Vec::new();
    for chunk in rpc_chunks(&groups) {
        sent.push((chunk.group, chunk_hashes(&groups, &chunk)));
    }
    assert_eq!(sent, vec![(0, vec![vec![1], vec![2]]), (2, vec![vec![3]])]);
}

#[test]
fn a_barrier_never_succeeds_again_after_a_loss() {
    let insert = |hash: u8| {
        MetaServerCommand::Insert(BlockHashBatch::single_namespace("ns".into(), vec![vec![hash]]))
    };
    let remove = |hash: u8| {
        MetaServerCommand::Remove(BlockHashBatch::single_namespace("ns".into(), vec![vec![hash]]))
    };
    let mut server = FakeMetaServer::default();
    let mut session = MetaServerSession::new(0);
    let done = run(vec![insert(1), remove(1), insert(2)], &mut session, &mut server, 0);
    assert!(done.is_empty());
    let done = run(vec![insert(3), MetaServerCommand::Flush(4)], &mut session, &mut server, 0);
    assert_eq!(done, vec![(4, Ok(()))]);
    assert!(flush_result(&session, BarrierOutcome::Reached(Ok(()))).is_ok());
    assert_eq!(collect(&server.inserts), expected(&[("ns", vec![2]), ("ns", vec![3])]));

    on_register_sent(&mut session, 2, SendOutcome::Full);
    for ticket in 5..8 {
        let done = run(vec![MetaServerCommand::Flush(ticket)], &mut session, &mut server, 0);
        assert_eq!(done, vec![(ticket, Ok(()))]);
        let told = flush_result(&session, BarrierOutcome::Reached(Ok(()))).unwrap_err();
        assert!(told.contains("observed 2 previously lost"), "{told}");
    }
}

#[test]
fn failures_of_a_drain_are_counted() {
    let group = |n: u8| vec![("ns".to_string(), (0..n).map(|h| vec![h]).collect::<Vec<_>>())];
    let mut session = MetaServerSession::new(0);
    let mut publication = Publication::new(group(3), group(2));
    publication.on_session(&mut session, false);
    let counts = publication.counts();
    assert_eq!((counts.registration_failures, counts.removal_failures), (3, 2));

    let mut publication = Publication::new(group(3), group(2));
    publication.on_session(&mut session, true);
    assert_eq!(publication.counts().registration_failures, 0);
    publication.on_acknowledged();
    publication.on_failed(&mut session, false);
    let counts = publication.counts();
    assert_eq!((counts.registration_failures, counts.removal_failures), (0, 2));
}

#[test]
fn a_node_leaves_the_server_at_most_once() {
    assert_eq!(leave_step(LeaveEvent::Asked { connected: false }), LeaveStep::Connect);
    let call = LeaveStep::Call { timeout_secs: 3 };
    assert_eq!(leave_step(LeaveEvent::Asked { connected: true }), call);
    assert_eq!(leave_step(LeaveEvent::Connected), call);
    assert_eq!(leave_step(LeaveEvent::Left), LeaveStep::Over { failures: 0 });
    for failed in [LeaveEvent::ConnectFailed, LeaveEvent::Refused, LeaveEvent::TimedOut] {
        assert_eq!(leave_step(failed), LeaveStep::Over { failures: 1 });
    }
    assert_eq!(shutdown_step(ShutdownEvent::Asked), ShutdownStep::Queue { timeout_secs: 4 });
    assert_eq!(shutdown_step(ShutdownEvent::Queued), ShutdownStep::Wait { timeout_secs: 4 });
    assert_eq!(shutdown_step(ShutdownEvent::NotQueued), ShutdownStep::Over);
    assert_eq!(shutdown_step(ShutdownEvent::Ended), ShutdownStep::Over);
}
