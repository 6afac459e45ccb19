use wruster::errors::HttpError;
use wruster::message::Request;
use wruster::observed::ObservedStreamList;
use wruster::pool::Pool;
use wruster::pool::PoolResource;
use wruster::server::is_connection_persistent;
use wruster::server::plan_request;
use wruster::server::RequestPlan;
use wruster::status::StatusCode;
use wruster::timeout::IoPlan;
use wruster::timeout::TimeoutStream;
use wruster::streams::classify_read;
use wruster::streams::classify_wait;
use wruster::streams::ReadOutcome;
use wruster::streams::WaitOutcome;
use wruster::workers;
use wruster::workers::Dispatch;
use wruster::workers::PoolError;

#[test]
fn returns_resource() {
    let mut pool: Pool<&str> = Pool::new(Some(2));
    pool.insert("addr1", PoolResource::new("resource1", 0));
    let pool_resource = pool.get("addr1").unwrap();
    let resource = pool_resource.resource();
    assert_eq!(resource, "resource1")
}

#[test]
fn pool_get_removes_the_entry() {
    let mut pool: Pool<&str> = Pool::new(None);
    pool.insert("addr1", PoolResource::new("resource1", 0));
    assert!(pool.get("addr1").is_some());
    assert!(pool.get("addr1").is_none());
}

#[test]
fn pool_insert_at_cap_evicts_least_recently_used() {
    let mut pool: Pool<u32> = Pool::new(None);
    for i in 0..100u32 {
        let key = format!("addr{}", i);
        pool.insert(key.as_str(), PoolResource::new(i, 1000 + u64::from(i)));
    }
    // The pool is full: inserting evicts the least recently used entry,
    // which is the first inserted one.
    pool.insert("late", PoolResource::new(999, 5000));
    assert!(pool.get("addr0").is_none());
    assert!(pool.get("addr1").is_some());
}

#[test]
fn pool_expire_removes_idle_entries() {
    let mut pool: Pool<&str> = Pool::new(Some(30));
    pool.insert("old", PoolResource::new("old", 0));
    pool.insert("fresh", PoolResource::new("fresh", 90));
    pool.expire_connections(100);
    assert!(pool.get("old").is_none());
    assert!(pool.get("fresh").is_some());
}

#[test]
fn accepts_max_less_than_min() {
    let pool = workers::Pool::new(1, 0);
    assert!(!pool.has_dynamic());
    assert!(pool.has_static());
}

#[test]
fn accepts_min_zero() {
    let pool = workers::Pool::new(0, 1);
    assert!(pool.has_dynamic());
    assert!(!pool.has_static());
}

#[test]
fn mod_returns_busy_error() {
    let mut pool = workers::Pool::new(1, 2);
    let static_busy = vec![true];
    let dynamic_busy = vec![true];
    // The first task claims the only dynamic cell.
    match pool.run("first", &static_busy, &dynamic_busy) {
        Ok((Dispatch::Spawned(0), "first")) => {}
        _ => panic!("expected the dynamic cell to take the task"),
    }
    // With the static worker busy and the dynamic worker busy, the next
    // task comes back undispatched.
    match pool.run("second", &static_busy, &dynamic_busy) {
        Err(PoolError::Busy("second")) => {}
        _ => panic!("expected error"),
    }
}

#[test]
fn static_pool_returns_busy_error() {
    let mut pool = workers::Static::new(1);
    let busy = vec![true];
    match pool.run("task", &busy) {
        Err(PoolError::Busy("task")) => {}
        _ => panic!("expected error"),
    }
}

#[test]
fn static_pool_runs_an_action() {
    let mut pool = workers::Static::new(1);
    let busy = vec![false];
    match pool.run("done", &busy) {
        Ok((0, "done")) => {}
        _ => panic!("expected the worker to take the task"),
    }
}

#[test]
fn static_pool_round_robin_moves_on() {
    let mut pool = workers::Static::new(2);
    let busy = vec![false, false];
    let first = pool.run("first", &busy).unwrap();
    let second = pool.run("second", &busy).unwrap();
    assert_eq!(first.0, 0);
    assert_eq!(second.0, 1);
}

#[test]
fn dynamic_pool_returns_busy_error() {
    let mut pool = workers::Dynamic::new(1, 10);
    let busy = vec![true];
    // The only cell spawns a worker for the first task; with that worker
    // busy, a second task comes back.
    assert!(pool.run("long task", &busy).is_ok());
    match pool.run("second", &busy) {
        Err(PoolError::Busy("second")) => {}
        _ => panic!("expected error"),
    }
}

#[test]
fn dynamic_pool_runs_an_action() {
    let mut pool = workers::Dynamic::new(2, 10);
    let busy = vec![false, false];
    match pool.run("done", &busy) {
        Ok((Dispatch::Spawned(0), "done")) => {}
        _ => panic!("expected a spawned worker"),
    }
    assert_eq!(pool.number_of_workers(), 1);
}

#[test]
fn dynamic_pool_reuses_idle_worker() {
    let mut pool = workers::Dynamic::new(1, 10);
    let busy = vec![false];
    assert!(matches!(
        pool.run("first", &busy),
        Ok((Dispatch::Spawned(0), "first"))
    ));
    // The cell is occupied but its worker is idle: it takes the next task.
    assert!(matches!(
        pool.run("second", &busy),
        Ok((Dispatch::Existing(0), "second"))
    ));
    // Once the worker retires its cell spawns again.
    pool.worker_finished(0);
    assert!(matches!(
        pool.run("third", &busy),
        Ok((Dispatch::Spawned(0), "third"))
    ));
}

#[test]
fn static_cursor_drives_dispatch_order() {
    let mut cursor = workers::Static::new(3);
    assert_eq!(cursor.first_choice(), 0);
    assert_eq!(cursor.next_choice(0), 1);
    assert_eq!(cursor.next_choice(2), 0);
    cursor.dispatched(1);
    assert_eq!(cursor.first_choice(), 2);
    cursor.dispatched(2);
    assert_eq!(cursor.first_choice(), 0);
}

#[test]
fn wait_and_read_outcomes_classify() {
    assert_eq!(classify_wait(true, 0), WaitOutcome::NotConnected);
    assert_eq!(classify_wait(false, 0), WaitOutcome::TimedOut);
    assert_eq!(classify_wait(false, 2), WaitOutcome::Ready);
    assert_eq!(classify_read(true, 0), ReadOutcome::Closed);
    assert_eq!(classify_read(false, 0), ReadOutcome::Interrupted);
    assert_eq!(classify_read(true, 7), ReadOutcome::Transferred(7));
}

#[test]
fn timeout_stream_budget_spans_calls() {
    let mut stream = TimeoutStream::from(Some(3), None);
    assert_eq!(stream.begin_read(), IoPlan::WaitFor(3));
    stream.end_read(2);
    assert_eq!(stream.begin_read(), IoPlan::WaitFor(1));
    stream.end_read(2);
    // The message budget is spent: the next read fails without touching
    // the transport.
    assert_eq!(stream.begin_read(), IoPlan::TimedOut);
    assert_eq!(stream.begin_read(), IoPlan::TimedOut);
}

#[test]
fn timeout_stream_without_budget_passes_through() {
    let mut stream = TimeoutStream::from(None, Some(5));
    assert_eq!(stream.begin_read(), IoPlan::PassThrough);
    assert_eq!(stream.begin_write(), IoPlan::WaitFor(5));
}

#[test]
fn observed_list_tracks_streams_until_dropped() {
    let mut list = ObservedStreamList::new();
    let a = list.track();
    let b = list.track();
    assert_ne!(a, b);
    assert_eq!(list.len(), 2);
    list.dropped(a);
    assert_eq!(list.len(), 1);
    list.dropped(a);
    assert_eq!(list.len(), 1);
    let drained = list.drain();
    assert_eq!(drained, vec![b]);
    assert_eq!(list.len(), 0);
}

#[test]
fn plan_handles_parse_outcomes() {
    let ok = Request::read_from_str("GET / HTTP/1.1\r\n\r\n");
    match plan_request(ok) {
        RequestPlan::Handle(req, keep) => {
            assert_eq!(req.uri.as_str(), "/");
            assert!(keep);
        }
        _ => panic!("expected the request to be handled"),
    }
    match plan_request(Err(HttpError::InvalidRequest(String::from("bad")))) {
        RequestPlan::Reject(resp) => assert_eq!(resp.status, StatusCode::BadRequest),
        _ => panic!("expected a refusal"),
    }
    assert!(matches!(plan_request(Err(HttpError::Timeout)), RequestPlan::Drop));
    assert!(matches!(
        plan_request(Err(HttpError::ConnectionClosed)),
        RequestPlan::Drop
    ));
}

#[test]
fn error_messages_mirror_the_variants() {
    assert_eq!(HttpError::ConnectionClosed.message(), "connection closed");
    assert_eq!(HttpError::Timeout.message(), "operation timeout");
    assert_eq!(
        HttpError::Unknown(String::from("something odd")).message(),
        "something odd"
    );
    assert_eq!(
        HttpError::InvalidRequest(String::from("bad framing")).message(),
        "bad framing"
    );
}

#[test]
fn connection_close_among_several_values_wins() {
    // Any Connection value reading close makes the connection
    // non-persistent, wherever it stands in the list.
    let req = Request::read_from_str(
        "GET / HTTP/1.1\r\nConnection: Keep-Alive\r\nConnection: Close\r\n\r\n",
    )
    .unwrap();
    assert!(!is_connection_persistent(&req));
}

#[test]
fn connection_persistence_rule() {
    let plain_11 = Request::read_from_str("GET / HTTP/1.1\r\n\r\n").unwrap();
    assert!(is_connection_persistent(&plain_11));

    let close_11 = Request::read_from_str("GET / HTTP/1.1\r\nConnection: Close\r\n\r\n").unwrap();
    assert!(!is_connection_persistent(&close_11));

    let plain_10 = Request::read_from_str("GET / HTTP/1.0\r\n\r\n").unwrap();
    assert!(!is_connection_persistent(&plain_10));

    let keep_10 =
        Request::read_from_str("GET / HTTP/1.0\r\nConnection: Keep-Alive\r\n\r\n").unwrap();
    assert!(is_connection_persistent(&keep_10));
}
