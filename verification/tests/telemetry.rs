use telemetry_queue::event::{classify_outcome, BatchPayload, Outcome, PhEvent};
use telemetry_queue::flush::{flush_apply, flush_plan, ph_send_batch, startup_flush, FlushPlan,
    TelemetryState};
use telemetry_queue::queue::{QueueStore, QueuedEvent, FLUSH_BATCH_SIZE, MAX_QUEUE_SIZE};

fn ev(name: &str) -> PhEvent {
    PhEvent {
        event: name.to_string(),
        properties: "{}".to_string(),
        timestamp: None,
    }
}

fn state() -> TelemetryState {
    TelemetryState::new("https://eu.example.test".to_string())
}

fn plan_ids(state: &TelemetryState, key: &str) -> Option<Vec<i64>> {
    match flush_plan(state, key) {
        FlushPlan::Skip => None,
        FlushPlan::Attempt { ids, .. } => Some(ids),
    }
}

#[test]
fn scenario_a_flush_success_drains() {
    let mut st = state();
    let events = vec![ev("a"), ev("b"), ev("c")];
    let n = st.queue.enqueue(&events, 1_000);
    assert_eq!(n, 3);
    assert_eq!(st.queue.len(), 3);
    let ids = plan_ids(&st, "phc_key").expect("expected an attempt");
    assert_eq!(ids.len(), 3);
    flush_apply(&mut st, &ids, true);
    assert_eq!(st.queue.len(), 0);
}

#[test]
fn scenario_b_five_failures_purge() {
    let mut st = state();
    let n = st.queue.enqueue(&vec![ev("only")], 1_000);
    assert_eq!(n, 1);
    for pass in 0..5 {
        let ids = plan_ids(&st, "phc_key").expect("row should still be eligible");
        assert_eq!(ids.len(), 1);
        flush_apply(&mut st, &ids, false);
        if pass < 4 {
            assert_eq!(st.queue.len(), 1);
            assert_eq!(st.queue.rows[0].retry_count, (pass + 1) as i64);
        }
    }
    // The fifth failed pass brought the row to the ceiling and purged it.
    assert_eq!(st.queue.len(), 0);
    assert!(plan_ids(&st, "phc_key").is_none());
}

#[test]
fn scenario_c_cap_keeps_newest_500() {
    let mut st = state();
    for k in 0..600 {
        let n = st.queue.enqueue(&vec![ev("e")], 1_000 + k as i64);
        assert_eq!(n, 1);
        assert!(st.queue.len() <= MAX_QUEUE_SIZE);
    }
    assert_eq!(st.queue.len(), 500);
    // Ids are assigned from 1; the survivors are the 500 most recent inserts.
    assert_eq!(st.queue.rows[0].id, 101);
    assert_eq!(st.queue.rows[499].id, 600);
    assert_eq!(st.queue.rows[0].created_at, 1_100);
}

#[test]
fn scenario_d_submit_batch_counts() {
    let mut st = state();
    let payload = BatchPayload {
        events: vec![ev("a"), ev("b")],
        api_key: "phc_key".to_string(),
    };
    let r = ph_send_batch(&mut st, &payload, &Outcome::Success, 5);
    assert_eq!(r.sent, 2);
    assert_eq!(r.queued, 0);
    assert_eq!(st.queue.len(), 0);

    let r = ph_send_batch(&mut st, &payload, &Outcome::Rejected(503), 6);
    assert_eq!(r.sent, 0);
    assert_eq!(r.queued, 2);
    assert_eq!(st.queue.len(), 2);

    let r = ph_send_batch(&mut st, &payload, &Outcome::Unreachable, 7);
    assert_eq!(r.sent, 0);
    assert_eq!(r.queued, 2);
    assert_eq!(st.queue.len(), 4);
}

#[test]
fn scenario_e_overlapping_passes_are_benign() {
    let mut st = state();
    st.queue.enqueue(&vec![ev("a"), ev("b"), ev("c")], 1_000);
    let ids1 = plan_ids(&st, "phc_key").expect("attempt");
    let ids2 = plan_ids(&st, "phc_key").expect("attempt");
    assert_eq!(ids1, ids2);
    flush_apply(&mut st, &ids1, true);
    assert_eq!(st.queue.len(), 0);
    // The overlapping pass applies its outcome to rows already gone: no-op.
    flush_apply(&mut st, &ids2, true);
    assert_eq!(st.queue.len(), 0);
    flush_apply(&mut st, &ids2, false);
    assert_eq!(st.queue.len(), 0);
}

#[test]
fn cap_holds_for_one_big_batch() {
    let mut st = state();
    let mut events: Vec<PhEvent> = Vec::new();
    for _ in 0..600 {
        events.push(ev("bulk"));
    }
    let n = st.queue.enqueue(&events, 42);
    assert_eq!(n, 600);
    assert_eq!(st.queue.len(), 500);
}

#[test]
fn select_eligible_skips_exhausted_rows() {
    let mut q = QueueStore::new();
    q.rows.push(QueuedEvent {
        id: 1,
        event_json: "{\"event\":\"a\",\"properties\":{}}".to_string(),
        created_at: 10,
        retry_count: 5,
    });
    q.rows.push(QueuedEvent {
        id: 2,
        event_json: "{\"event\":\"b\",\"properties\":{}}".to_string(),
        created_at: 20,
        retry_count: 4,
    });
    q.next_id = 3;
    let sel = q.select_eligible(FLUSH_BATCH_SIZE);
    assert_eq!(sel.len(), 1);
    assert_eq!(sel[0].id, 2);
    assert!(sel[0].retry_count < 5);
}

#[test]
fn select_eligible_is_oldest_first_and_limited() {
    let mut st = state();
    for k in 0..60 {
        st.queue.enqueue(&vec![ev("e")], 1_000 + k as i64);
    }
    let sel = st.queue.select_eligible(FLUSH_BATCH_SIZE);
    assert_eq!(sel.len(), 50);
    assert_eq!(sel[0].id, 1);
    assert_eq!(sel[49].id, 50);
    for w in sel.windows(2) {
        assert!(w[0].created_at <= w[1].created_at);
    }
}

#[test]
fn startup_flush_touches_nothing() {
    let mut st = state();
    startup_flush(&mut st);
    assert_eq!(st.queue.len(), 0);

    st.queue.enqueue(&vec![ev("pending")], 1_000);
    startup_flush(&mut st);
    assert_eq!(st.queue.len(), 1);
    assert_eq!(st.queue.rows[0].retry_count, 0);
}

#[test]
fn flush_plan_skips_without_credential() {
    let mut st = state();
    st.queue.enqueue(&vec![ev("pending")], 1_000);
    assert!(plan_ids(&st, "").is_none());
    assert_eq!(st.queue.len(), 1);
}

#[test]
fn failure_pass_increments_exactly_the_selected_ids() {
    let mut st = state();
    st.queue.enqueue(&vec![ev("a"), ev("b")], 1_000);
    let ids = vec![st.queue.rows[0].id];
    flush_apply(&mut st, &ids, false);
    assert_eq!(st.queue.rows[0].retry_count, 1);
    assert_eq!(st.queue.rows[1].retry_count, 0);
    assert_eq!(st.queue.len(), 2);
}

#[test]
fn delete_is_exact() {
    let mut st = state();
    st.queue.enqueue(&vec![ev("a"), ev("b"), ev("c")], 1_000);
    let keep = st.queue.rows[1].id;
    let ids = vec![st.queue.rows[0].id, st.queue.rows[2].id];
    st.queue.delete_ids(&ids);
    assert_eq!(st.queue.len(), 1);
    assert_eq!(st.queue.rows[0].id, keep);
}

#[test]
fn empty_batch_is_a_noop() {
    let mut st = state();
    let n = st.queue.enqueue(&Vec::new(), 1_000);
    assert_eq!(n, 0);
    assert_eq!(st.queue.len(), 0);
    let payload = BatchPayload { events: Vec::new(), api_key: "phc_key".to_string() };
    let r = ph_send_batch(&mut st, &payload, &Outcome::Success, 1);
    assert_eq!(r.sent, 0);
    assert_eq!(r.queued, 0);
    let r = ph_send_batch(&mut st, &payload, &Outcome::Unreachable, 2);
    assert_eq!(r.sent, 0);
    assert_eq!(r.queued, 0);
    assert_eq!(st.queue.len(), 0);
}

#[test]
fn flush_plan_skips_on_empty_queue_with_credential() {
    let st = state();
    assert!(plan_ids(&st, "phc_key").is_none());
}

#[test]
fn increment_is_clamped_at_the_ceiling() {
    let mut q = QueueStore::new();
    q.rows.push(QueuedEvent {
        id: 1,
        event_json: "{\"event\":\"a\",\"properties\":{}}".to_string(),
        created_at: 10,
        retry_count: 5,
    });
    q.next_id = 2;
    let ids = vec![1];
    // An overlapping pass may charge a row already at the ceiling: no change.
    q.increment_retry(&ids);
    assert_eq!(q.rows[0].retry_count, 5);
    q.purge_exhausted(&ids);
    assert_eq!(q.len(), 0);
}

#[test]
fn purge_only_touches_the_given_ids() {
    let mut q = QueueStore::new();
    for id in 1..=2 {
        q.rows.push(QueuedEvent {
            id,
            event_json: "{\"event\":\"a\",\"properties\":{}}".to_string(),
            created_at: 10 * id,
            retry_count: 5,
        });
    }
    q.next_id = 3;
    q.purge_exhausted(&vec![2]);
    assert_eq!(q.len(), 1);
    assert_eq!(q.rows[0].id, 1);
}

#[test]
fn eviction_orders_by_time_then_id() {
    let mut st = state();
    // Two inserts sharing one timestamp: the earlier id counts as older.
    for _ in 0..500 {
        st.queue.enqueue(&vec![ev("e")], 1_000);
    }
    st.queue.enqueue(&vec![ev("late")], 1_000);
    assert_eq!(st.queue.len(), 500);
    assert_eq!(st.queue.rows[0].id, 2);
    assert_eq!(st.queue.rows[499].id, 501);
}

#[test]
fn classify_outcome_follows_the_relay_contract() {
    assert!(matches!(classify_outcome(Some(200)), Outcome::Success));
    assert!(matches!(classify_outcome(Some(204)), Outcome::Success));
    assert!(matches!(classify_outcome(Some(299)), Outcome::Success));
    assert!(matches!(classify_outcome(Some(199)), Outcome::Rejected(199)));
    assert!(matches!(classify_outcome(Some(301)), Outcome::Rejected(301)));
    assert!(matches!(classify_outcome(Some(503)), Outcome::Rejected(503)));
    assert!(matches!(classify_outcome(None), Outcome::Unreachable));
}
