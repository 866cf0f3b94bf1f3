use std::time::Duration;

use nabla::client::{
    boot, classify, listen_to, next_reconnect_delay, quote_view, timeout_ms, Action, Boot, Error, Event, Failure, Op, Options,
    QueryError, RawChange, ResyncReason, Subscription,
};

fn change(seq: i64, xid: i64, lsn: &str, op: &str) -> RawChange {
    RawChange {
        seq,
        lsn: lsn.to_string(),
        xid: Some(xid),
        op: op.to_string(),
        row: serde_json::Value::from(seq),
    }
}

fn following(batch: i32) -> Subscription {
    let mut sub = Subscription::open_with(" public.v ", Options { batch, ..Options::default() });
    sub.connected("public.v".to_string());
    sub.snapshot(3, "0/10".to_string(), 41, vec![]);
    assert!(matches!(sub.next(), Action::Yield(Event::Snapshot { cursor: 41, .. })));
    sub
}

fn server(code: &str, detail: Option<&str>) -> QueryError {
    QueryError::Server { code: code.to_string(), detail: detail.map(|d| d.to_string()), text: "boom".to_string() }
}

#[test]
fn names_are_quoted_part_by_part() {
    assert_eq!(quote_view("public.Order \"lines\""), "\"public\".\"Order \"\"lines\"\"\"");
    assert_eq!(quote_view("plain"), "\"plain\"");
    assert_eq!(quote_view("a.b.c"), "\"a\".\"b.c\"");
}

#[test]
fn errors_are_classified_by_code() {
    assert!(matches!(classify(QueryError::Transport, 1), Failure::Disconnected));
    assert!(matches!(classify(server("NB001", None), 1), Failure::Lagged));
    match classify(server("NB002", None), 1) {
        Failure::Stale(reason) => assert_eq!(reason, "reason not recorded"),
        _ => panic!("not stale"),
    }
    assert!(matches!(
        classify(server("NB003", Some("epoch 1 -> 7")), 1),
        Failure::EpochChanged { from: 1, to: 7 }
    ));
    assert!(matches!(
        classify(server("NB003", Some("epoch 1 -> x")), 1),
        Failure::EpochChanged { from: 1, to: 1 }
    ));
    assert!(matches!(classify(server("NB003", None), 4), Failure::EpochChanged { from: 4, to: 4 }));
    assert!(matches!(
        classify(server("NB003", Some("99999999999")), 4),
        Failure::EpochChanged { from: 4, to: 4 }
    ));
    match classify(server("NB006", Some("no table")), 1) {
        Failure::Other(e) => assert_eq!(e.message(), "view failed to build: no table"),
        _ => panic!("not failed"),
    }
    match classify(server("42P01", Some("x")), 1) {
        Failure::Other(e) => assert_eq!(e.message(), "postgres: boom"),
        _ => panic!("not other"),
    }
}

#[test]
fn errors_and_reasons_have_words() {
    assert_eq!(Error::Protocol("gap".into()).message(), "protocol violation: gap");
    assert_eq!(Error::NotConnected.message(), "not connected");
    assert_eq!(ResyncReason::Lagged.message(), "lagged");
    assert_eq!(ResyncReason::EpochChanged { from: 1, to: 2 }.message(), "epoch changed (1 -> 2)");
    assert_eq!(ResyncReason::Stale { reason: "r".into() }.message(), "stale: r");
    assert_eq!(ResyncReason::Disconnected.message(), "disconnected");
}

#[test]
fn a_subscription_begins_with_a_bootstrap() {
    let mut sub = Subscription::open(" public.v ");
    assert_eq!(sub.view(), "public.v");
    assert!(matches!(sub.next(), Action::Reconnect));
    sub.connected("public.V2".to_string());
    assert_eq!(sub.listen(), "LISTEN \"nabla:public.V2\"");
    assert!(matches!(sub.next(), Action::Bootstrap));
    sub.snapshot(2, "0/10".to_string(), 9, vec![serde_json::Value::from(1)]);
    assert_eq!((sub.epoch(), sub.cursor()), (2, 9));
    match sub.next() {
        Action::Yield(Event::Snapshot { epoch, frontier, cursor, rows }) => {
            assert_eq!((epoch, frontier.as_str(), cursor, rows.len()), (2, "0/10", 9, 1));
        }
        _ => panic!("no snapshot"),
    }
    assert!(matches!(sub.next(), Action::Follow { wait: true, after: 9 }));
}

#[test]
fn statuses_decide_the_bootstrap() {
    assert!(matches!(boot("initializing", None), Boot::Building));
    assert!(matches!(boot("refreshing", None), Boot::Building));
    assert!(matches!(boot("live", None), Boot::Ready));
    assert!(matches!(boot("failed", Some("x".to_string())), Boot::Failed(r) if r == "x"));
    assert!(matches!(boot("stale", None), Boot::Stale(r) if r == "reason not recorded"));
}

#[test]
fn rows_are_read_by_visible_columns() {
    let mut sub = Subscription::open("public.v");
    sub.connected("public.v".to_string());
    assert_eq!(sub.rows_query(None), "SELECT to_jsonb(v) FROM \"public\".\"v\" AS v");
    assert_eq!(
        sub.rows_query(Some(&vec!["a".to_string(), "B".to_string()])),
        "SELECT to_jsonb(v) FROM (SELECT \"a\", \"B\" FROM \"public\".\"v\") AS v"
    );
}

#[test]
fn batches_become_transactions() {
    let mut sub = following(10);
    sub.fetched(vec![
        change(42, 7, "0/20", "D"),
        change(43, 7, "0/20", "I"),
        change(44, 7, "0/30", "I"),
        change(45, 8, "0/40", "I"),
    ])
    .unwrap();
    let mut seen = Vec::new();
    for _ in 0..3 {
        let before = sub.cursor();
        match sub.next() {
            Action::Yield(Event::Transaction { xid, lsn, epoch, deltas }) => {
                assert_eq!(epoch, 3);
                assert_eq!(deltas[0].seq, before + 1);
                assert_eq!(sub.cursor(), deltas.last().unwrap().seq);
                seen.push((xid, lsn, deltas.len(), deltas[0].op));
            }
            _ => panic!("no transaction"),
        }
    }
    assert_eq!(
        seen,
        vec![
            (Some(7), "0/20".to_string(), 2, Op::Delete),
            (Some(7), "0/30".to_string(), 1, Op::Insert),
            (Some(8), "0/40".to_string(), 1, Op::Insert),
        ]
    );
    assert!(matches!(sub.next(), Action::Follow { wait: true, after: 45 }));
}

#[test]
fn full_batches_keep_their_last_transaction() {
    let mut sub = following(2);
    sub.fetched(vec![change(42, 7, "0/20", "I"), change(43, 8, "0/30", "I")]).unwrap();
    assert!(matches!(sub.next(), Action::Yield(Event::Transaction { xid: Some(7), .. })));
    assert_eq!(sub.cursor(), 42);
    // The kept row is known, so the next batch begins behind it, at once.
    assert!(matches!(sub.next(), Action::Follow { wait: false, after: 43 }));
    sub.fetched(vec![change(44, 8, "0/30", "D")]).unwrap();
    match sub.next() {
        Action::Yield(Event::Transaction { xid, deltas, .. }) => assert_eq!((xid, deltas.len()), (Some(8), 2)),
        _ => panic!("no transaction"),
    }
    assert_eq!(sub.cursor(), 44);
}

#[test]
fn gaps_and_unknown_operations_are_protocol_errors() {
    let mut sub = following(10);
    assert_eq!(
        sub.fetched(vec![change(43, 7, "0/20", "I")]).unwrap_err().message(),
        "protocol violation: expected seq 42, got 43: deltas of a view must be contiguous"
    );
    assert_eq!(
        sub.fetched(vec![change(42, 7, "0/20", "U\n")]).unwrap_err().message(),
        "protocol violation: unknown op \"U\\n\""
    );
    assert!(matches!(sub.next(), Action::Follow { wait: true, after: 41 }));
}

#[test]
fn resyncs_lead_to_a_new_bootstrap() {
    let mut sub = following(2);
    sub.fetched(vec![change(42, 7, "0/20", "I"), change(43, 8, "0/30", "I")]).unwrap();
    sub.fetch_failed(Failure::Lagged).unwrap();
    assert!(matches!(sub.next(), Action::Yield(Event::Transaction { .. })));
    assert!(matches!(sub.next(), Action::Yield(Event::Resync { reason: ResyncReason::Lagged })));
    assert!(matches!(sub.next(), Action::Bootstrap));

    let mut sub = following(2);
    sub.fetch_failed(Failure::EpochChanged { from: 3, to: 4 }).unwrap();
    assert!(matches!(
        sub.next(),
        Action::Yield(Event::Resync { reason: ResyncReason::EpochChanged { from: 3, to: 4 } })
    ));

    let mut sub = following(2);
    sub.fetch_failed(Failure::Disconnected).unwrap();
    assert!(matches!(sub.next(), Action::Reconnect));
    sub.reconnected("public.v".to_string());
    assert!(matches!(sub.next(), Action::Yield(Event::Resync { reason: ResyncReason::Disconnected })));
    assert!(matches!(sub.next(), Action::Bootstrap));
    assert!(sub.boot_failed(Failure::Lagged).is_ok());
    assert!(sub.boot_failed(Failure::Other(Error::NotConnected)).is_err());
    sub.boot_failed(Failure::Disconnected).unwrap();
    assert!(matches!(sub.next(), Action::Reconnect));
}

#[test]
fn stale_views_are_retried_with_growing_waits() {
    let mut sub = Subscription::open_with("public.v", Options { max_backoff: 3_000_000_000, ..Options::default() });
    sub.connected("public.v".to_string());
    let waits: Vec<u128> = (0..4).map(|_| sub.stale("r".to_string())).collect();
    assert_eq!(waits, vec![1_000_000_000, 2_000_000_000, 3_000_000_000, 3_000_000_000]);
    assert!(matches!(sub.next(), Action::Yield(Event::Resync { reason: ResyncReason::Stale { .. } })));
    sub.snapshot(1, "0/1".to_string(), 0, vec![]);
    assert_eq!(sub.stale("r".to_string()), 1_000_000_000);
}

#[test]
fn waits_and_timeouts_are_bounded() {
    assert_eq!(next_reconnect_delay(500_000_000), 1_000_000_000);
    assert_eq!(next_reconnect_delay(4_000_000_000), 5_000_000_000);
    assert_eq!(timeout_ms(5_999_999), 5);
    assert_eq!(timeout_ms(Duration::MAX.as_nanos()), i32::MAX);
    let mut sub = Subscription::open("public.v");
    assert!(matches!(sub.wait_for(5_000_000), Err(Error::NotConnected)));
    sub.connected("public.v".to_string());
    assert_eq!(sub.wait_for(5_000_000).unwrap(), 5);
    sub.disconnected();
    assert!(sub.wait_for(5_000_000).is_err());
    let options = Options::default();
    assert_eq!(options.batch, 1000);
    assert_eq!(options.poll_interval, Duration::from_secs(1).as_nanos());
    assert_eq!(options.max_backoff, Duration::from_secs(30).as_nanos());
    assert_eq!(options.build_poll, Duration::from_millis(200).as_nanos());
    // Times below a millisecond are kept.
    let brief = Duration::from_micros(500).as_nanos();
    let mut sub = Subscription::open_with("public.v", Options { max_backoff: brief, build_poll: brief, ..options });
    assert_eq!(sub.options.build_poll, 500_000);
    assert_eq!(sub.stale("r".to_string()), 1_000_000_000);
    assert_eq!(sub.stale("r".to_string()), 500_000);
    assert!(!options.keep_hidden);
}

#[test]
fn runs_go_on_where_the_snapshot_ended() {
    let mut sub = following(3);
    assert_eq!(sub.listen(), listen_to("public.v"));
    assert_eq!(listen_to("a.\"b"), "LISTEN \"nabla:a.\"\"b\"");
    let mut seqs: Vec<i64> = Vec::new();
    let batches = vec![
        vec![change(42, 1, "0/1", "I"), change(43, 2, "0/2", "I"), change(44, 2, "0/2", "D")],
        vec![change(45, 2, "0/2", "I"), change(46, 3, "0/3", "I"), change(47, 3, "0/3", "I"), change(48, 3, "0/3", "I")],
        vec![],
    ];
    for batch in batches {
        let held = sub.tail.len() + batch.len();
        sub.fetched(batch).unwrap();
        let pending: usize = sub
            .pending
            .iter()
            .map(|(event, _)| match event {
                Event::Transaction { deltas, .. } => deltas.len(),
                _ => 0,
            })
            .sum();
        assert_eq!(pending + sub.tail.len(), held);
        while let Action::Yield(event) = sub.next() {
            match event {
                Event::Transaction { epoch, deltas, .. } => {
                    assert_eq!(epoch, 3);
                    seqs.extend(deltas.iter().map(|d| d.seq));
                    assert_eq!(sub.cursor(), deltas.last().unwrap().seq);
                }
                _ => panic!("not a transaction"),
            }
        }
    }
    assert_eq!(seqs, (42..=48).collect::<Vec<i64>>());
}

#[test]
fn events_are_copied_whole() {
    let mut sub = following(3);
    sub.fetched(vec![change(42, 1, "0/1", "I")]).unwrap();
    let event = match sub.next() {
        Action::Yield(event) => event,
        _ => panic!("nothing handed out"),
    };
    match event.clone() {
        Event::Transaction { xid, lsn, epoch, deltas } => {
            assert_eq!((xid, lsn.as_str(), epoch, deltas.len()), (Some(1), "0/1", 3, 1));
            let delta = deltas[0].clone();
            assert_eq!((delta.seq, delta.op, delta.row), (42, Op::Insert, serde_json::Value::from(42)));
        }
        _ => panic!("not a transaction"),
    }
    let reason = ResyncReason::EpochChanged { from: 1, to: 2 };
    assert_eq!(reason.clone().message(), reason.message());
}
