use std::sync::mpsc;

use hyper_client_pool::{
    delivery_result, Admission, Config, Deliverable, DeliveryResult, ErrorKind, Message, Method, Pool, Request,
    Response, StartupError, Ticket, Transaction, TransportError, Worker,
};

type Sink = mpsc::Sender<DeliveryResult>;

fn config(workers: usize, max: usize, timeout_ms: u64) -> Config {
    Config::new(3_000, timeout_ms, max, workers)
}

fn get(tx: &Sink) -> Transaction<Sink> {
    Transaction::new(tx.clone(), Request::new(Method::Get, "https://example.com/".to_string()))
}

fn ok() -> Result<Response, TransportError> {
    Ok(Response::new(200, Vec::new()))
}

#[test]
fn throughput_two_thousand_responses() {
    let mut pool: Pool<Sink> = Pool::new(config(2, 1000, 10_000)).unwrap();
    let (tx, rx) = mpsc::channel();
    let mut tickets: Vec<Ticket> = Vec::new();
    for _ in 0..2000 {
        tickets.push(pool.request(get(&tx), 0).expect("request ok"));
    }
    assert_eq!(pool.in_flight(0) + pool.in_flight(1), 2000);
    for t in &tickets {
        assert!(pool.on_response(*t, Ok(Response::new(204, Vec::new())), 10));
    }
    let mut n = 0;
    while let Ok(r) = rx.try_recv() {
        match r {
            DeliveryResult::Response { response, .. } => assert!(response.is_success()),
            other => panic!("unexpected {:?}", other),
        }
        n += 1;
    }
    assert_eq!(n, 2000);
}

#[test]
fn pool_full_hands_transaction_back_and_counters_return_to_zero() {
    let mut pool: Pool<Sink> = Pool::new(config(3, 1, 10_000)).unwrap();
    let (tx, rx) = mpsc::channel();
    let tickets: Vec<Ticket> = (0..3).map(|_| pool.request(get(&tx), 0).unwrap()).collect();
    let err = pool.request(get(&tx), 0).unwrap_err();
    assert_eq!(err.kind, ErrorKind::PoolFull);
    assert_eq!(err.transaction.request.uri, "https://example.com/");
    assert!(rx.try_recv().is_err());
    for t in &tickets {
        assert!(pool.on_response(*t, ok(), 5));
    }
    for w in 0..3 {
        assert_eq!(pool.in_flight(w), 0);
    }
    // the refused transaction can be offered again
    assert!(pool.request(err.transaction, 6).is_ok());
}

#[test]
fn request_after_shutdown_is_pool_closed() {
    let mut pool: Pool<Sink> = Pool::new(config(2, 4, 10_000)).unwrap();
    let (tx, rx) = mpsc::channel();
    pool.begin_shutdown();
    let err = pool.request(get(&tx), 0).unwrap_err();
    assert_eq!(err.kind, ErrorKind::PoolClosed);
    assert!(pool.is_closed());
    assert!(pool.is_drained());
    assert!(rx.try_recv().is_err());
}

#[test]
fn second_shutdown_changes_nothing() {
    let mut pool: Pool<Sink> = Pool::new(config(2, 4, 10_000)).unwrap();
    let (tx, _rx) = mpsc::channel();
    let t = pool.request(get(&tx), 0).unwrap();
    pool.begin_shutdown();
    pool.begin_shutdown();
    assert!(pool.is_closed());
    assert!(!pool.is_drained());
    assert_eq!(pool.in_flight(t.worker), 1);
    assert!(pool.on_response(t, ok(), 1));
    assert!(pool.is_drained());
}

#[test]
fn identical_requests_are_all_admitted() {
    let mut pool: Pool<Sink> = Pool::new(config(1, 3, 10_000)).unwrap();
    let (tx, _rx) = mpsc::channel();
    let a = pool.request(get(&tx), 0).unwrap();
    let b = pool.request(get(&tx), 0).unwrap();
    let c = pool.request(get(&tx), 0).unwrap();
    assert_eq!((a.id, b.id, c.id), (0, 1, 2));
    assert_eq!(pool.in_flight(0), 3);
}

#[test]
fn single_slot_pool_holds_one_at_a_time() {
    let mut pool: Pool<Sink> = Pool::new(config(1, 1, 10_000)).unwrap();
    let (tx, _rx) = mpsc::channel();
    let a = pool.request(get(&tx), 0).unwrap();
    assert_eq!(pool.request(get(&tx), 0).unwrap_err().kind, ErrorKind::PoolFull);
    assert_eq!(pool.in_flight(0), 1);
    assert!(pool.on_response(a, ok(), 1));
    let b = pool.request(get(&tx), 2).unwrap();
    assert_eq!(pool.in_flight(0), 1);
    assert_eq!(b.id, 1);
}

#[test]
fn least_loaded_worker_with_round_robin_ties() {
    let mut pool: Pool<Sink> = Pool::new(config(3, 5, 10_000)).unwrap();
    let (tx, _rx) = mpsc::channel();
    let picks: Vec<usize> = (0..4).map(|_| pool.request(get(&tx), 0).unwrap().worker).collect();
    assert_eq!(picks, vec![0, 1, 2, 0]);
    // worker 1 and 2 now hold one each, worker 0 two; free worker 2
    assert!(pool.on_response(Ticket { worker: 2, id: 0 }, ok(), 1));
    assert_eq!(pool.request(get(&tx), 2).unwrap().worker, 2);
}

#[test]
fn invalid_configs_are_refused() {
    assert_eq!(Pool::<Sink>::new(config(0, 1, 10)).err(), Some(StartupError::InvalidConfig));
    assert_eq!(Pool::<Sink>::new(config(1, 0, 10)).err(), Some(StartupError::InvalidConfig));
    assert_eq!(Pool::<Sink>::new(config(usize::MAX, 2, 10)).err(), Some(StartupError::InvalidConfig));
    assert!(config(2, 3, 10).is_valid());
    assert!(!config(0, 3, 10).is_valid());
}

#[test]
fn response_before_deadline_carries_duration() {
    let mut pool: Pool<Sink> = Pool::new(config(1, 2, 2_000)).unwrap();
    let (tx, rx) = mpsc::channel();
    let t = pool.request(get(&tx), 500).unwrap();
    assert!(pool.on_response(t, Ok(Response::new(404, b"nope".to_vec())), 1_500));
    match rx.try_recv().unwrap() {
        DeliveryResult::Response { response, duration_ms } => {
            assert_eq!(response.status(), 404);
            assert!(!response.is_success());
            assert_eq!(duration_ms, 1_000);
        }
        other => panic!("unexpected {:?}", other),
    }
}

#[test]
fn transport_failure_is_hyper_error() {
    let mut pool: Pool<Sink> = Pool::new(config(1, 2, 2_000)).unwrap();
    let (tx, rx) = mpsc::channel();
    let t = pool.request(get(&tx), 0).unwrap();
    let e = TransportError { message: "connection reset".to_string() };
    assert!(pool.on_response(t, Err(e), 10));
    match rx.try_recv().unwrap() {
        DeliveryResult::HyperError { error } => assert_eq!(error.message, "connection reset"),
        other => panic!("unexpected {:?}", other),
    }
    assert_eq!(pool.in_flight(0), 0);
}

#[test]
fn late_response_is_timeout_and_result_comes_once() {
    let mut pool: Pool<Sink> = Pool::new(config(1, 2, 2_000)).unwrap();
    let (tx, rx) = mpsc::channel();
    let t = pool.request(get(&tx), 0).unwrap();
    assert!(pool.on_response(t, ok(), 5_000));
    assert!(!pool.on_response(t, ok(), 5_001));
    assert!(!pool.on_timer(t, 5_002));
    match rx.try_recv().unwrap() {
        DeliveryResult::Timeout { duration_ms } => assert_eq!(duration_ms, 2_000),
        other => panic!("unexpected {:?}", other),
    }
    assert!(rx.try_recv().is_err());
}

#[test]
fn timer_before_deadline_does_nothing() {
    let mut pool: Pool<Sink> = Pool::new(config(1, 2, 2_000)).unwrap();
    let (tx, rx) = mpsc::channel();
    let t = pool.request(get(&tx), 100).unwrap();
    assert!(!pool.on_timer(t, 2_099));
    assert!(rx.try_recv().is_err());
    assert!(pool.on_timer(t, 2_100));
    assert!(matches!(rx.try_recv().unwrap(), DeliveryResult::Timeout { duration_ms: 2_000 }));
}

#[test]
fn tick_expires_only_due_transactions() {
    let mut pool: Pool<Sink> = Pool::new(config(2, 4, 1_000)).unwrap();
    let (tx, rx) = mpsc::channel();
    let early = pool.request(get(&tx), 0).unwrap();
    let late = pool.request(get(&tx), 600).unwrap();
    assert_eq!(pool.tick(1_000), 1);
    assert!(!pool.on_response(early, ok(), 1_001));
    assert!(pool.on_response(late, ok(), 1_100));
    assert!(matches!(rx.try_recv().unwrap(), DeliveryResult::Timeout { duration_ms: 1_000 }));
    assert!(matches!(rx.try_recv().unwrap(), DeliveryResult::Response { duration_ms: 500, .. }));
}

#[test]
fn abandoned_worker_delivers_dropped() {
    let mut pool: Pool<Sink> = Pool::new(config(1, 3, 1_000)).unwrap();
    let (tx, rx) = mpsc::channel();
    let first = pool.request(get(&tx), 0).unwrap();
    assert!(pool.on_response(first, ok(), 1));
    assert!(matches!(rx.try_recv().unwrap(), DeliveryResult::Response { .. }));
    pool.request(get(&tx), 0).unwrap();
    pool.request(get(&tx), 0).unwrap();
    assert_eq!(pool.abandon(0), 2);
    assert_eq!(pool.in_flight(0), 0);
    assert!(!pool.on_response(first, ok(), 2));
    assert_eq!(pool.request(get(&tx), 3).unwrap().id, 3);
    assert!(matches!(rx.try_recv().unwrap(), DeliveryResult::Dropped));
    assert!(matches!(rx.try_recv().unwrap(), DeliveryResult::Dropped));
    assert!(rx.try_recv().is_err());
}

#[test]
fn delivery_result_values() {
    let r = delivery_result(100, 300, 200, Ok(Response::new(201, Vec::new())), 250);
    assert!(matches!(r, DeliveryResult::Response { duration_ms: 150, .. }));
    let r = delivery_result(100, 300, 200, Ok(Response::new(201, Vec::new())), 300);
    assert!(matches!(r, DeliveryResult::Timeout { duration_ms: 200 }));
    let r = delivery_result(100, 300, 200, Err(TransportError { message: "x".to_string() }), 299);
    assert!(matches!(r, DeliveryResult::HyperError { .. }));
    let r = delivery_result(100, 300, 200, ok(), 50);
    assert!(matches!(r, DeliveryResult::Response { duration_ms: 0, .. }));
}

#[test]
fn worker_assigns_ids_and_deadlines() {
    let (tx, rx) = mpsc::channel();
    let mut w: Worker<Sink> = Worker::new(100);
    assert_eq!(w.next_deadline(), None);
    assert_eq!(w.execute(get(&tx), 50), 0);
    assert_eq!(w.execute(get(&tx), 10), 1);
    assert_eq!(w.execute(get(&tx), u64::MAX - 5), 2);
    assert_eq!(w.next_deadline(), Some(110));
    assert_eq!(w.position(1), Some(1));
    assert_eq!(w.position(7), None);
    assert_eq!(w.expire_due(150), 2);
    assert_eq!(w.next_deadline(), Some(u64::MAX));
    assert_eq!(w.in_flight_count(), 1);
    w.begin_shutdown();
    assert!(!w.is_finished());
    assert!(w.on_response(2, ok(), u64::MAX - 1));
    assert!(w.is_finished());
    assert_eq!(rx.try_iter().count(), 3);
}

#[test]
fn admission_counts_and_closes() {
    let mut a = Admission::new(2, 1);
    assert_eq!(a.select(), Some(0));
    assert_eq!(a.acquire(), Ok(0));
    assert_eq!(a.acquire(), Ok(1));
    assert_eq!(a.select(), None);
    assert_eq!(a.acquire(), Err(ErrorKind::PoolFull));
    a.release(0);
    assert_eq!(a.in_flight(0), 0);
    a.release_many(1, 1);
    assert_eq!(a.in_flight(1), 0);
    a.close();
    assert_eq!(a.acquire(), Err(ErrorKind::PoolClosed));
    assert_eq!(a.worker_count(), 2);
    assert_eq!(a.max_per_worker(), 1);
}

#[test]
fn sender_deliverable_forwards_result() {
    let (tx, rx) = mpsc::channel();
    tx.complete(DeliveryResult::Timeout { duration_ms: 7 });
    assert!(matches!(rx.recv().unwrap(), DeliveryResult::Timeout { duration_ms: 7 }));
    let (tx2, rx2) = mpsc::channel::<DeliveryResult>();
    drop(rx2);
    // a receiver that has gone away: the result is discarded
    tx2.complete(DeliveryResult::Dropped);
}

#[test]
fn worker_messages_and_closed_channel() {
    let (tx, rx) = mpsc::channel();
    let mut w: Worker<Sink> = Worker::new(1_000);
    assert_eq!(w.on_message(Some(Message::Execute(get(&tx))), 0), Some(0));
    assert_eq!(w.on_message(Some(Message::Shutdown), 1), None);
    assert!(!w.is_finished());
    // work queued ahead of the shutdown still runs
    assert_eq!(w.on_message(Some(Message::Execute(get(&tx))), 2), Some(1));
    assert_eq!(w.in_flight_count(), 2);
    assert!(w.on_response(0, ok(), 3));
    assert!(w.on_timer(1, 1_002));
    assert!(w.is_finished());
    let mut v: Worker<Sink> = Worker::new(1_000);
    assert_eq!(v.on_message(None, 0), None);
    assert!(v.is_finished());
    assert_eq!(rx.try_iter().count(), 2);
}

#[test]
fn drain_step_waits_for_in_flight_work() {
    let mut pool: Pool<Sink> = Pool::new(config(2, 4, 1_000)).unwrap();
    let (tx, rx) = mpsc::channel();
    let a = pool.request(get(&tx), 0).unwrap();
    let _b = pool.request(get(&tx), 0).unwrap();
    assert!(!pool.drain_step(10));
    assert!(pool.is_closed());
    assert_eq!(pool.request(get(&tx), 10).unwrap_err().kind, ErrorKind::PoolClosed);
    assert!(pool.on_response(a, ok(), 20));
    assert!(!pool.drain_step(20));
    // the unanswered one ends with its timeout
    assert!(pool.drain_step(1_000));
    assert_eq!(rx.try_iter().count(), 2);
    // a drained pool stays drained and delivers nothing more
    assert!(pool.drain_step(1_001));
    assert!(pool.drain_step(5_000));
    assert!(rx.try_recv().is_err());
}

#[test]
fn drain_step_times_out_only_due_work() {
    let mut pool: Pool<Sink> = Pool::new(config(1, 4, 1_000)).unwrap();
    let (tx, rx) = mpsc::channel();
    let early = pool.request(get(&tx), 0).unwrap();
    let late = pool.request(get(&tx), 500).unwrap();
    assert!(!pool.drain_step(1_000));
    assert_eq!(pool.in_flight(0), 1);
    assert!(!pool.on_response(early, ok(), 1_001));
    assert!(pool.on_response(late, ok(), 1_200));
    assert!(pool.drain_step(1_200));
    assert!(matches!(rx.try_recv().unwrap(), DeliveryResult::Timeout { duration_ms: 1_000 }));
    assert!(matches!(rx.try_recv().unwrap(), DeliveryResult::Response { duration_ms: 700, .. }));
    assert!(rx.try_recv().is_err());
}

#[test]
fn pool_timer_frees_due_slot() {
    let mut pool: Pool<Sink> = Pool::new(config(1, 1, 500)).unwrap();
    let (tx, rx) = mpsc::channel();
    let t = pool.request(get(&tx), 0).unwrap();
    assert!(!pool.on_timer(Ticket { worker: 0, id: 9 }, 600));
    assert!(pool.on_timer(t, 500));
    assert_eq!(pool.in_flight(0), 0);
    assert!(matches!(rx.try_recv().unwrap(), DeliveryResult::Timeout { duration_ms: 500 }));
}
