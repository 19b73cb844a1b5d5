use std::cell::RefCell;

use raxon::host::{
    command_batch_value, command_outcome, ensure_supported, event_outcome, HostBridgeRequest, HostBridgeResponse, HostDriver,
    HostSessionError, HostSessionRegistry, HOST_BRIDGE_PROTOCOL_VERSION,
};

#[derive(Debug)]
struct RecordingDriver {
    ticks: usize,
    viewport: (u32, u32),
    events: RefCell<Vec<String>>,
    command_batches: RefCell<Vec<String>>,
}

impl RecordingDriver {
    fn new(command_batches: Vec<&str>) -> Self {
        RecordingDriver {
            ticks: 0,
            viewport: (0, 0),
            events: RefCell::new(Vec::new()),
            command_batches: RefCell::new(command_batches.into_iter().map(String::from).collect()),
        }
    }
}

impl HostDriver for RecordingDriver {
    type Viewport = (u32, u32);

    fn tick(&mut self) {
        self.ticks += 1;
    }

    fn set_viewport(&mut self, viewport: (u32, u32)) {
        self.viewport = viewport;
    }

    fn dispatch_wire_event_batch_json(&self, payload: &str) -> Result<(), String> {
        if payload.starts_with('{') {
            self.events.borrow_mut().push(payload.to_string());
            Ok(())
        } else {
            Err(format!("malformed event batch: {payload}"))
        }
    }

    fn drain_command_batch_json(&self) -> Result<String, String> {
        let mut batches = self.command_batches.borrow_mut();
        if batches.is_empty() {
            Ok("{\"commands\":[]}".to_string())
        } else {
            Ok(batches.remove(0))
        }
    }
}

fn json_value(text: &str) -> serde_json::Value {
    serde_json::from_str(text).expect("test JSON parses")
}

#[test]
fn bridge_json_routes_resize_tick_and_nested_command_batch() {
    let mut registry = HostSessionRegistry::new();
    let handle = registry.insert_driver(RecordingDriver::new(vec![
        "{\"commands\":[{\"kind\":\"mount\",\"id\":7}]}",
    ]));

    let response = registry
        .handle_request(HostBridgeRequest::ResizeTickAndDrainCommandBatch {
            handle: handle.to_raw(),
            viewport: (375, 812),
        })
        .expect("bridge request succeeds");

    assert_eq!(
        response,
        HostBridgeResponse::CommandBatch { batch: json_value("{\"commands\":[{\"kind\":\"mount\",\"id\":7}]}") }
    );
    let driver = registry.get(handle).expect("session remains live").driver();
    assert_eq!(driver.ticks, 1);
    assert_eq!(driver.viewport, (375, 812));
}

#[test]
fn bridge_json_dispatches_events_and_destroy_errors_after_removal() {
    let mut registry = HostSessionRegistry::new();
    let handle = registry.insert_driver(RecordingDriver::new(Vec::new()));
    let batch = "{\"events\":[{\"type\":\"tap\",\"target\":42}]}".to_string();

    let response = registry
        .handle_request(HostBridgeRequest::DispatchEventBatch { handle: handle.to_raw(), payload: batch.clone() })
        .expect("event dispatch succeeds");
    assert_eq!(response, HostBridgeResponse::Applied);
    assert_eq!(registry.get(handle).expect("session remains live").driver().events.borrow()[0], batch);

    let response = registry
        .handle_request(HostBridgeRequest::Destroy { handle: handle.to_raw() })
        .expect("destroy succeeds");
    assert_eq!(response, HostBridgeResponse::Destroyed { handle: handle.to_raw() });
    assert_eq!(
        registry.handle_request(HostBridgeRequest::TickAndDrainCommandBatch { handle: handle.to_raw() }),
        Err(HostSessionError::UnknownSession { handle: handle.to_raw() })
    );
}

#[test]
fn bridge_json_reports_invalid_request_json_and_unknown_handles() {
    let mut registry: HostSessionRegistry<RecordingDriver> = HostSessionRegistry::new();
    assert_eq!(
        ensure_supported(HOST_BRIDGE_PROTOCOL_VERSION + 1),
        Err(HostSessionError::UnsupportedBridgeVersion {
            expected: HOST_BRIDGE_PROTOCOL_VERSION,
            found: HOST_BRIDGE_PROTOCOL_VERSION + 1,
        })
    );
    assert_eq!(
        registry.handle_request(HostBridgeRequest::DrainCommandBatch { handle: 99 }),
        Err(HostSessionError::UnknownSession { handle: 99 })
    );
}

#[test]
fn refused_event_batches_are_reported_without_ticking() {
    let mut registry = HostSessionRegistry::new();
    let handle = registry.insert_driver(RecordingDriver::new(Vec::new()));
    let r = registry.handle_request(HostBridgeRequest::DispatchEventsTickAndDrainCommandBatch {
        handle: handle.to_raw(),
        payload: "not json".to_string(),
    });
    assert_eq!(r, Err(HostSessionError::Event("malformed event batch: not json".to_string())));
    assert_eq!(registry.get(handle).unwrap().driver().ticks, 0);

    let r = registry.handle_request(HostBridgeRequest::DispatchEventsTickAndDrainCommandBatch {
        handle: handle.to_raw(),
        payload: "{\"events\":[]}".to_string(),
    });
    assert_eq!(r, Ok(HostBridgeResponse::CommandBatch { batch: json_value("{\"commands\":[]}") }));
    assert_eq!(registry.get(handle).unwrap().driver().ticks, 1);
}

#[test]
fn set_viewport_and_tick_touch_only_the_addressed_session() {
    let mut registry = HostSessionRegistry::new();
    let a = registry.insert_driver(RecordingDriver::new(Vec::new()));
    let b = registry.insert_driver(RecordingDriver::new(Vec::new()));
    assert_eq!(
        registry.handle_request(HostBridgeRequest::SetViewport { handle: a.to_raw(), viewport: (10, 20) }),
        Ok(HostBridgeResponse::Applied)
    );
    assert_eq!(registry.tick(a), Ok(()));
    assert_eq!(registry.get(a).unwrap().driver().viewport, (10, 20));
    assert_eq!(registry.get(a).unwrap().driver().ticks, 1);
    assert_eq!(registry.get(b).unwrap().driver().viewport, (0, 0));
    assert_eq!(registry.get(b).unwrap().driver().ticks, 0);
    assert_eq!(registry.len(), 2);
}

#[test]
fn session_errors_render_their_messages() {
    assert_eq!(
        HostSessionError::RequestJson("eof".to_string()).message(),
        "invalid host request JSON: eof"
    );
    assert_eq!(
        HostSessionError::UnsupportedBridgeVersion { expected: 1, found: 2 }.message(),
        "unsupported host bridge protocol version 2; expected 1"
    );
    assert_eq!(HostSessionError::UnknownSession { handle: 99 }.message(), "unknown host session handle 99");
    assert_eq!(HostSessionError::Event("bad tap".to_string()).message(), "bad tap");
    assert_eq!(
        HostSessionError::CommandJson("io".to_string()).message(),
        "failed to encode host command batch: io"
    );
    assert_eq!(
        HostSessionError::ResponseJson("io".to_string()).message(),
        "failed to encode host response: io"
    );
}

#[test]
fn driver_failures_map_to_session_errors() {
    assert_eq!(event_outcome(Ok(())), Ok(()));
    assert_eq!(event_outcome(Err("x".to_string())), Err(HostSessionError::Event("x".to_string())));
    assert_eq!(command_outcome(Ok("{}".to_string())), Ok("{}".to_string()));
    assert_eq!(command_outcome(Err("y".to_string())), Err(HostSessionError::CommandJson("y".to_string())));
}

#[test]
fn default_registry_is_empty() {
    let registry: HostSessionRegistry<RecordingDriver> = Default::default();
    assert!(registry.is_empty());
    assert_eq!(registry.len(), 0);
}

#[test]
fn fresh_registry_hands_out_handles_from_one() {
    let mut registry = HostSessionRegistry::new();
    let first = registry.insert_driver(RecordingDriver::new(Vec::new()));
    let second = registry.insert_driver(RecordingDriver::new(Vec::new()));
    assert_eq!(first.to_raw(), 1);
    assert_eq!(second.to_raw(), 2);
    assert!(registry.remove(first).is_some());
    let third = registry.insert_driver(RecordingDriver::new(Vec::new()));
    assert_eq!(third.to_raw(), 3);
}

#[test]
fn drained_text_that_is_not_json_is_a_command_json_error() {
    let mut registry = HostSessionRegistry::new();
    let handle = registry.insert_driver(RecordingDriver::new(vec!["{not json"]));
    let r = registry.handle_request(HostBridgeRequest::DrainCommandBatch { handle: handle.to_raw() });
    assert!(matches!(r, Err(HostSessionError::CommandJson(_))));
    let r = registry.handle_request(HostBridgeRequest::DrainCommandBatch { handle: handle.to_raw() });
    assert_eq!(r, Ok(HostBridgeResponse::CommandBatch { batch: json_value("{\"commands\":[]}") }));
}

#[test]
fn command_batch_values_parse_or_report_the_parser_message() {
    assert_eq!(command_batch_value("[1, 2]"), Ok(json_value("[1,2]")));
    match command_batch_value("[1,") {
        Err(HostSessionError::CommandJson(message)) => assert!(!message.is_empty()),
        other => panic!("unexpected {other:?}"),
    }
}
