use crossbeam::channel::{bounded, unbounded, Receiver, TryRecvError};
use libsql_scheduler::scheduler::{
    Action, ClientId, DispatchError, Job, Scheduler, ServerMessage, Statements,
    UpdateStateMessage,
};
use std::collections::HashMap;
use std::collections::HashSet;

type TestJob = Job<(), ()>;

fn new_scheduler() -> (Scheduler<(), ()>, Receiver<TestJob>) {
    let (pool_sender, pool_receiver) = unbounded();
    (Scheduler::new(pool_sender, ()), pool_receiver)
}

fn execute(client_id: ClientId, sql: &str) -> ServerMessage<()> {
    ServerMessage {
        client_id,
        action: Action::Execute(Statements { stmts: sql.to_string() }),
        responder: (),
    }
}

fn disconnect(client_id: ClientId) -> ServerMessage<()> {
    ServerMessage { client_id, action: Action::Disconnect, responder: () }
}

fn dispatch(s: &mut Scheduler<(), ()>) -> Vec<ClientId> {
    match s.schedule_work() {
        Ok(served) => served,
        Err(_) => panic!("dispatch failed"),
    }
}

#[test]
fn client_jobs_are_sequential() {
    let (mut s, pool_receiver) = new_scheduler();
    s.update_queues(execute(0, "SELECT * FROM test;"));
    s.update_queues(execute(0, "SELECT * FROM test2;"));
    dispatch(&mut s);

    let job = pool_receiver.try_recv().unwrap();
    // the second job was not enqueued
    assert_eq!(pool_receiver.try_recv().unwrap_err(), TryRecvError::Empty);
    assert_eq!(job.statements.stmts, "SELECT * FROM test;");
    assert_eq!(job.client_id, 0);

    s.update_queue_status(UpdateStateMessage::Ready(0));
    dispatch(&mut s);

    let job = pool_receiver.try_recv().unwrap();
    assert_eq!(pool_receiver.try_recv().unwrap_err(), TryRecvError::Empty);
    assert_eq!(job.statements.stmts, "SELECT * FROM test2;");
}

#[test]
fn different_clients_processed_concurrently() {
    let (mut s, pool_receiver) = new_scheduler();
    s.update_queues(execute(0, "SELECT * FROM test;"));
    s.update_queues(execute(1, "SELECT * FROM test2;"));
    let mut served = dispatch(&mut s);
    served.sort();
    assert_eq!(served, vec![0, 1]);

    let job1 = pool_receiver.try_recv().unwrap();
    let job2 = pool_receiver.try_recv().unwrap();
    assert_eq!(pool_receiver.try_recv().unwrap_err(), TryRecvError::Empty);

    let mut got = vec![job1.statements.stmts.clone(), job2.statements.stmts.clone()];
    got.sort();
    assert_eq!(got, vec!["SELECT * FROM test2;".to_string(), "SELECT * FROM test;".to_string()]);

    s.update_queue_status(UpdateStateMessage::Ready(0));
    s.update_queue_status(UpdateStateMessage::Ready(1));
    // queue is empty
    assert_eq!(dispatch(&mut s), Vec::<ClientId>::new());
    assert_eq!(pool_receiver.try_recv().unwrap_err(), TryRecvError::Empty);
}

fn sequence_number(job: &TestJob) -> usize {
    job.statements
        .stmts
        .split_whitespace()
        .last()
        .unwrap()
        .trim_matches('"')
        .parse::<usize>()
        .unwrap()
}

fn run_random_scheduling(num_tasks: usize, num_clients: usize, mut seed: u64) {
    let (mut s, pool_receiver) = new_scheduler();
    for i in 0..num_tasks {
        seed = seed.wrapping_mul(6364136223846793005).wrapping_add(1442695040888963407);
        let client_id = ((seed >> 33) as usize) % num_clients;
        s.update_queues(execute(client_id, &format!("SELECT * FROM \"{i}\"")));
    }

    let mut seen_tasks = 0;
    let mut client_last_task_id: HashMap<ClientId, usize> = HashMap::new();
    loop {
        dispatch(&mut s);
        let mut batch = Vec::new();
        while let Ok(job) = pool_receiver.try_recv() {
            batch.push(job);
        }
        if batch.is_empty() {
            break;
        }
        seen_tasks += batch.len();
        let mut distinct_clients = HashSet::new();
        for j in &batch {
            distinct_clients.insert(j.client_id);
            s.update_queue_status(UpdateStateMessage::Ready(j.client_id));
            let idx = sequence_number(j);
            if let Some(old) = client_last_task_id.insert(j.client_id, idx) {
                assert!(old < idx);
            }
        }
        // only one job per client in a batch
        assert_eq!(batch.len(), distinct_clients.len());
    }
    assert_eq!(seen_tasks, num_tasks);
    assert!(s.should_stop(true));
}

#[test]
fn random_scheduling_keeps_order_and_fairness() {
    run_random_scheduling(20, 1, 7);
    run_random_scheduling(57, 7, 11);
    run_random_scheduling(99, 19, 3);
    run_random_scheduling(100, 20, 42);
}

#[test]
fn transaction_jobs_go_to_the_transaction() {
    let (mut s, pool_receiver) = new_scheduler();
    s.update_queues(execute(0, "BEGIN;"));
    s.update_queues(execute(0, "INSERT INTO t VALUES (1);"));
    s.update_queues(execute(0, "SELECT 3;"));
    dispatch(&mut s);
    assert_eq!(pool_receiver.try_recv().unwrap().statements.stmts, "BEGIN;");

    let (txn_sender, txn_receiver) = bounded(1);
    assert!(!s.has_txn(0));
    s.update_queue_status(UpdateStateMessage::TxnBegin(0, txn_sender));
    assert!(s.has_txn(0));
    // the transaction-opening job is not done yet: nothing to hand out
    assert_eq!(dispatch(&mut s), Vec::<ClientId>::new());
    s.update_queue_status(UpdateStateMessage::Ready(0));
    s.update_queues(execute(0, "SELECT 4;"));
    assert_eq!(dispatch(&mut s), vec![0]);
    assert_eq!(txn_receiver.try_recv().unwrap().statements.stmts, "INSERT INTO t VALUES (1);");
    assert_eq!(pool_receiver.try_recv().unwrap_err(), TryRecvError::Empty);

    s.update_queue_status(UpdateStateMessage::TxnEnded(0));
    assert!(!s.has_txn(0));
    dispatch(&mut s);
    assert_eq!(pool_receiver.try_recv().unwrap().statements.stmts, "SELECT 3;");
    // the scheduler has let go of the transaction channel
    assert_eq!(txn_receiver.try_recv().unwrap_err(), TryRecvError::Disconnected);
    s.update_queue_status(UpdateStateMessage::Ready(0));
    dispatch(&mut s);
    assert_eq!(pool_receiver.try_recv().unwrap().statements.stmts, "SELECT 4;");
}

#[test]
fn closed_transaction_falls_back_to_the_pool() {
    let (mut s, pool_receiver) = new_scheduler();
    s.update_queues(execute(0, "BEGIN;"));
    s.update_queues(execute(0, "SELECT 1;"));
    dispatch(&mut s);
    assert_eq!(pool_receiver.try_recv().unwrap().statements.stmts, "BEGIN;");
    let (txn_sender, txn_receiver) = bounded(1);
    s.update_queue_status(UpdateStateMessage::TxnBegin(0, txn_sender));
    s.update_queue_status(UpdateStateMessage::Ready(0));
    drop(txn_receiver);
    assert_eq!(dispatch(&mut s), vec![0]);
    assert_eq!(pool_receiver.try_recv().unwrap().statements.stmts, "SELECT 1;");
    assert!(!s.has_txn(0));
}

#[test]
fn full_transaction_channel_is_an_error() {
    let (mut s, pool_receiver) = new_scheduler();
    s.update_queues(execute(0, "BEGIN;"));
    s.update_queues(execute(0, "SELECT 1;"));
    dispatch(&mut s);
    assert_eq!(pool_receiver.try_recv().unwrap().statements.stmts, "BEGIN;");
    let (txn_sender, txn_receiver) = bounded(1);
    txn_sender
        .send(Job {
            scheduler_sender: (),
            statements: Statements { stmts: "SELECT 0;".to_string() },
            client_id: 0,
            responder: (),
        })
        .unwrap();
    s.update_queue_status(UpdateStateMessage::TxnBegin(0, txn_sender));
    s.update_queue_status(UpdateStateMessage::Ready(0));
    match s.schedule_work() {
        Err(DispatchError::TransactionFull(client_id)) => assert_eq!(client_id, 0),
        _ => panic!("expected a full transaction channel"),
    }
    // the job went back to the head of the queue: once there is room, it
    // goes to the transaction
    assert_eq!(txn_receiver.try_recv().unwrap().statements.stmts, "SELECT 0;");
    assert_eq!(dispatch(&mut s), vec![0]);
    assert_eq!(txn_receiver.try_recv().unwrap().statements.stmts, "SELECT 1;");
    assert_eq!(pool_receiver.try_recv().unwrap_err(), TryRecvError::Empty);
}

#[test]
fn closed_worker_pool_is_an_error() {
    let (mut s, pool_receiver) = new_scheduler();
    drop(pool_receiver);
    s.update_queues(execute(3, "SELECT 1;"));
    match s.schedule_work() {
        Err(DispatchError::WorkerPoolClosed(job)) => {
            assert_eq!(job.statements.stmts, "SELECT 1;");
            assert_eq!(job.client_id, 3);
        }
        _ => panic!("expected a closed worker pool"),
    }
}

#[test]
fn disconnect_drains_then_retires_the_queue() {
    let (mut s, pool_receiver) = new_scheduler();
    s.update_queues(execute(0, "SELECT 1;"));
    s.update_queues(execute(0, "SELECT 2;"));
    s.update_queues(disconnect(0));
    dispatch(&mut s);
    assert_eq!(pool_receiver.try_recv().unwrap().statements.stmts, "SELECT 1;");
    assert!(!s.should_stop(true));
    s.update_queue_status(UpdateStateMessage::Ready(0));
    dispatch(&mut s);
    assert_eq!(pool_receiver.try_recv().unwrap().statements.stmts, "SELECT 2;");
    // the queue is gone, but its last job is still in flight
    assert!(!s.should_stop(true));
    s.update_queue_status(UpdateStateMessage::Ready(0));
    assert_eq!(dispatch(&mut s), Vec::<ClientId>::new());
    assert!(s.should_stop(true));
    assert!(!s.should_stop(false));
}

#[test]
fn disconnect_of_an_unknown_client_changes_nothing() {
    let (mut s, pool_receiver) = new_scheduler();
    s.update_queues(disconnect(5));
    assert_eq!(dispatch(&mut s), Vec::<ClientId>::new());
    assert_eq!(pool_receiver.try_recv().unwrap_err(), TryRecvError::Empty);
    assert!(s.should_stop(true));
}

#[test]
fn shutdown_waits_for_work_in_flight() {
    let (mut s, pool_receiver) = new_scheduler();
    s.update_queues(execute(0, "SELECT 1;"));
    dispatch(&mut s);
    assert!(pool_receiver.try_recv().is_ok());
    assert!(!s.should_stop(true));
    s.update_queue_status(UpdateStateMessage::Ready(0));
    assert_eq!(dispatch(&mut s), Vec::<ClientId>::new());
    assert_eq!(pool_receiver.try_recv().unwrap_err(), TryRecvError::Empty);
    assert!(s.should_stop(true));
}

#[test]
fn ready_is_idempotent() {
    let (mut s, pool_receiver) = new_scheduler();
    s.update_queues(execute(0, "SELECT 1;"));
    s.update_queue_status(UpdateStateMessage::Ready(0));
    s.update_queue_status(UpdateStateMessage::Ready(0));
    assert_eq!(dispatch(&mut s), vec![0]);
    assert_eq!(pool_receiver.try_recv().unwrap().statements.stmts, "SELECT 1;");
}

#[test]
fn txn_messages_for_unknown_clients_are_ignored() {
    let (mut s, pool_receiver) = new_scheduler();
    let (txn_sender, _txn_receiver) = bounded(1);
    s.update_queue_status(UpdateStateMessage::TxnBegin(9, txn_sender));
    assert!(!s.has_txn(9));
    s.update_queue_status(UpdateStateMessage::TxnEnded(9));
    assert_eq!(dispatch(&mut s), Vec::<ClientId>::new());
    assert_eq!(pool_receiver.try_recv().unwrap_err(), TryRecvError::Empty);
    assert!(s.should_stop(true));
}

#[test]
fn new_scheduler_stops_at_once_after_shutdown() {
    let (s, _pool_receiver) = new_scheduler();
    assert!(s.should_stop(true));
    assert!(!s.should_stop(false));
}

#[test]
fn retired_client_in_flight_holds_off_shutdown() {
    let (mut s, pool_receiver) = new_scheduler();
    s.update_queues(execute(0, "SELECT 1;"));
    s.update_queues(disconnect(0));
    dispatch(&mut s);
    assert_eq!(pool_receiver.try_recv().unwrap().statements.stmts, "SELECT 1;");
    // the queue was retired as soon as its last job went out, but that job
    // is still in flight
    assert!(!s.should_stop(true));
    // the late acknowledgement brings the scheduler to quiescence
    s.update_queue_status(UpdateStateMessage::Ready(0));
    assert!(s.should_stop(true));
}

#[test]
fn reused_client_id_waits_for_its_earlier_job() {
    let (mut s, pool_receiver) = new_scheduler();
    s.update_queues(execute(0, "SELECT 1;"));
    s.update_queues(disconnect(0));
    dispatch(&mut s);
    assert_eq!(pool_receiver.try_recv().unwrap().statements.stmts, "SELECT 1;");
    // a new queue for the same id, while the old job is still in flight
    s.update_queues(execute(0, "SELECT 2;"));
    assert_eq!(dispatch(&mut s), Vec::<ClientId>::new());
    assert_eq!(pool_receiver.try_recv().unwrap_err(), TryRecvError::Empty);
    s.update_queue_status(UpdateStateMessage::Ready(0));
    assert_eq!(dispatch(&mut s), vec![0]);
    assert_eq!(pool_receiver.try_recv().unwrap().statements.stmts, "SELECT 2;");
}

#[test]
fn txn_ended_for_retired_client_acknowledges_its_job() {
    let (mut s, pool_receiver) = new_scheduler();
    s.update_queues(execute(4, "BEGIN;"));
    s.update_queues(disconnect(4));
    dispatch(&mut s);
    assert_eq!(pool_receiver.try_recv().unwrap().statements.stmts, "BEGIN;");
    assert!(!s.should_stop(true));
    s.update_queue_status(UpdateStateMessage::TxnEnded(4));
    assert!(s.should_stop(true));
}

#[test]
fn new_client_after_disconnect_of_another_is_served() {
    let (mut s, pool_receiver) = new_scheduler();
    s.update_queues(execute(1, "SELECT 1;"));
    s.update_queues(disconnect(1));
    s.update_queues(execute(2, "SELECT 2;"));
    let mut served = dispatch(&mut s);
    served.sort();
    assert_eq!(served, vec![1, 2]);
    let mut got = vec![
        pool_receiver.try_recv().unwrap().client_id,
        pool_receiver.try_recv().unwrap().client_id,
    ];
    got.sort();
    assert_eq!(got, vec![1, 2]);
}
