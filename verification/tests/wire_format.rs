use telemetry_queue::event::PhEvent;
use telemetry_queue::flush::{batch_request, flush_apply, flush_plan, FlushPlan, TelemetryState};
use telemetry_queue::event::BatchPayload;
use telemetry_queue::queue::QueuedEvent;
use telemetry_queue::wire::{batch_body, check_json_text, wire_event};

fn ev(name: &str, properties: &str, timestamp: Option<&str>) -> PhEvent {
    PhEvent {
        event: name.to_string(),
        properties: properties.to_string(),
        timestamp: timestamp.map(|t| t.to_string()),
    }
}

#[test]
fn wire_event_exact_text() {
    let e = ev("click", "{\"a\":1}", None);
    let text = wire_event(&e).expect("valid properties");
    assert_eq!(text, "{\"event\":\"click\",\"properties\":{\"a\":1}}");
    // The produced text is itself well-formed JSON.
    assert!(check_json_text(&text));
    assert!(serde_json::from_str::<serde_json::Value>(&text).is_ok());
}

#[test]
fn wire_event_with_timestamp() {
    let e = ev("open", "{}", Some("2024-05-01T10:00:00Z"));
    let text = wire_event(&e).expect("valid properties");
    assert_eq!(
        text,
        "{\"event\":\"open\",\"properties\":{},\"timestamp\":\"2024-05-01T10:00:00Z\"}"
    );
}

#[test]
fn wire_event_escapes_name() {
    let e = ev("a\"b\\c\nd", "{}", None);
    let text = wire_event(&e).expect("valid properties");
    assert_eq!(
        text,
        "{\"event\":\"a\\\"b\\\\c\\u000ad\",\"properties\":{}}"
    );
    assert!(serde_json::from_str::<serde_json::Value>(&text).is_ok());
}

#[test]
fn wire_event_rejects_bad_properties() {
    // Dropped at serialization time: the property text is not JSON.
    let e = ev("click", "{not json", None);
    assert!(wire_event(&e).is_none());
}

#[test]
fn check_json_text_accepts_and_rejects() {
    assert!(check_json_text("{\"x\": [1, 2, null]}"));
    assert!(check_json_text("42"));
    assert!(!check_json_text(""));
    assert!(!check_json_text("{\"x\":"));
}

#[test]
fn batch_body_exact_text() {
    let texts = vec!["{\"event\":\"a\",\"properties\":{}}".to_string()];
    let body = batch_body("phc_k\"ey", &texts);
    assert_eq!(
        body,
        "{\"api_key\":\"phc_k\\\"ey\",\"batch\":[{\"event\":\"a\",\"properties\":{}}]}"
    );
    assert!(serde_json::from_str::<serde_json::Value>(&body).is_ok());
}

#[test]
fn batch_body_joins_with_commas() {
    let texts = vec!["1".to_string(), "2".to_string(), "3".to_string()];
    let body = batch_body("k", &texts);
    assert_eq!(body, "{\"api_key\":\"k\",\"batch\":[1,2,3]}");
}

#[test]
fn batch_request_builds_endpoint_and_body() {
    let st = TelemetryState::new("https://eu.example.test".to_string());
    let payload = BatchPayload {
        events: vec![ev("a", "{}", None), ev("bad", "nope", None)],
        api_key: "phc_key".to_string(),
    };
    let (endpoint, body) = batch_request(&st, &payload);
    assert_eq!(endpoint, "https://eu.example.test/batch");
    // The unserializable event is left out of the wire body.
    assert_eq!(
        body,
        "{\"api_key\":\"phc_key\",\"batch\":[{\"event\":\"a\",\"properties\":{}}]}"
    );
    let v: serde_json::Value = serde_json::from_str(&body).unwrap();
    assert_eq!(v["batch"].as_array().unwrap().len(), 1);
    assert_eq!(v["api_key"], "phc_key");
}

#[test]
fn enqueue_drops_unserializable_events() {
    let mut st = TelemetryState::new("https://eu.example.test".to_string());
    let events = vec![ev("good", "{}", None), ev("bad", "{oops", None)];
    let n = st.queue.enqueue(&events, 1_000);
    assert_eq!(n, 1);
    assert_eq!(st.queue.len(), 1);
    assert_eq!(
        st.queue.rows[0].event_json,
        "{\"event\":\"good\",\"properties\":{}}"
    );
}

#[test]
fn corrupt_rows_are_skipped_but_still_accounted() {
    let mut st = TelemetryState::new("https://eu.example.test".to_string());
    st.queue.enqueue(&vec![ev("good", "{}", None)], 1_000);
    // A row corrupted in storage: no longer JSON.
    st.queue.rows.push(QueuedEvent {
        id: 99,
        event_json: "### not json ###".to_string(),
        created_at: 2_000,
        retry_count: 0,
    });
    st.queue.next_id = 100;
    match flush_plan(&st, "phc_key") {
        FlushPlan::Skip => panic!("one deliverable row remains"),
        FlushPlan::Attempt { ids, body, .. } => {
            // Both selected ids are accounted, only the deliverable text is sent.
            assert_eq!(ids.len(), 2);
            assert!(!body.contains("###"));
            assert!(body.contains("\"event\":\"good\""));
            // A success pass deletes every selected id, deliverable or not.
            flush_apply(&mut st, &ids, true);
            assert_eq!(st.queue.len(), 0);
        },
    }
}

#[test]
fn all_corrupt_rows_skip_the_pass() {
    let mut st = TelemetryState::new("https://eu.example.test".to_string());
    st.queue.rows.push(QueuedEvent {
        id: 1,
        event_json: "broken".to_string(),
        created_at: 1_000,
        retry_count: 0,
    });
    st.queue.next_id = 2;
    match flush_plan(&st, "phc_key") {
        FlushPlan::Skip => {},
        FlushPlan::Attempt { .. } => panic!("nothing deliverable: the pass must skip"),
    }
    // The undeliverable row is left untouched by the skipped pass.
    assert_eq!(st.queue.len(), 1);
    assert_eq!(st.queue.rows[0].retry_count, 0);
}
