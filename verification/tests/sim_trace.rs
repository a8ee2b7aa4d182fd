//! Traces.

use ferrite::sim::trace::{Trace, TraceEvent, TraceEventKind, TracePayload};

fn sample_run() -> Trace {
    let mut trace = Trace::new();
    trace.record(TraceEvent::new(
        0,
        TraceEventKind::SimStart,
        None,
        Some(TracePayload::SimulationStart {
            seed: 7,
            nodes: vec![1, 2, 3],
        }),
    ));
    trace.record(TraceEvent::new(0, TraceEventKind::TickStart, None, None));
    trace.record(TraceEvent::new(0, TraceEventKind::NodeStep, Some(1), None));
    trace.record(TraceEvent::new(0, TraceEventKind::Echo, Some(1), None));
    trace.record(TraceEvent::new(0, TraceEventKind::NodeStep, Some(2), None));
    trace.record(TraceEvent::new(0, TraceEventKind::Echo, Some(2), None));
    trace.record(TraceEvent::new(0, TraceEventKind::TickEnd, None, None));
    trace.record(TraceEvent::new(
        1,
        TraceEventKind::Send,
        Some(2),
        Some(TracePayload::Bytes(vec![0, 15, 255])),
    ));
    trace.record(TraceEvent::new(1, TraceEventKind::Deliver, Some(1), None));
    trace.record(TraceEvent::new(1, TraceEventKind::Drop, Some(3), None));
    trace
}

#[test]
fn empty_trace_is_empty_and_has_empty_canonical_form() {
    let trace = Trace::new();

    assert_eq!(trace.len(), 0);
    assert!(trace.is_empty());
    assert!(trace.events().is_empty());
    assert_eq!(trace.canonical(), "");
    assert_eq!(trace.pretty(), "");
}

#[test]
fn record_preserves_order_and_exposes_event_accessors() {
    let mut trace = Trace::new();
    let event = TraceEvent::new(
        9,
        TraceEventKind::Echo,
        Some(4),
        Some(TracePayload::Bytes(vec![0xab])),
    );
    trace.record(event.clone());
    trace.record(TraceEvent::new(10, TraceEventKind::TickEnd, None, None));

    assert_eq!(trace.len(), 2);
    assert!(!trace.is_empty());
    assert_eq!(trace.events()[0].tick(), 9);
    assert_eq!(trace.events()[0].kind(), TraceEventKind::Echo);
    assert_eq!(trace.events()[0].node(), Some(4));
    assert_eq!(
        trace.events()[0].payload(),
        Some(&TracePayload::Bytes(vec![0xab]))
    );
    assert_eq!(trace.events()[1].kind(), TraceEventKind::TickEnd);
    assert_eq!(trace.events()[1].node(), None);
    assert_eq!(trace.events()[1].payload(), None);
}

#[test]
fn canonical_trace_uses_stable_field_order_and_newlines() {
    let trace = sample_run();

    assert_eq!(
        trace.canonical(),
        "tick=0 kind=sim_start node=- payload=seed:7,nodes:1,2,3\n\
         tick=0 kind=tick_start node=- payload=-\n\
         tick=0 kind=node_step node=1 payload=-\n\
         tick=0 kind=echo node=1 payload=-\n\
         tick=0 kind=node_step node=2 payload=-\n\
         tick=0 kind=echo node=2 payload=-\n\
         tick=0 kind=tick_end node=- payload=-\n\
         tick=1 kind=send node=2 payload=hex:000fff\n\
         tick=1 kind=deliver node=1 payload=-\n\
         tick=1 kind=drop node=3 payload=-\n"
    );
}

#[test]
fn canonical_form_is_deterministic_across_identical_record_sequences() {
    assert_eq!(sample_run().canonical(), sample_run().canonical());
}

#[test]
fn empty_payload_variants_serialize_stably() {
    let mut trace = Trace::new();
    trace.record(TraceEvent::new(
        0,
        TraceEventKind::SimStart,
        None,
        Some(TracePayload::SimulationStart {
            seed: 0,
            nodes: Vec::new(),
        }),
    ));
    trace.record(TraceEvent::new(
        0,
        TraceEventKind::Send,
        Some(1),
        Some(TracePayload::Bytes(Vec::new())),
    ));

    assert_eq!(
        trace.canonical(),
        "tick=0 kind=sim_start node=- payload=seed:0,nodes:\n\
         tick=0 kind=send node=1 payload=hex:\n"
    );
}

#[test]
fn simulation_start_preserves_caller_provided_node_order() {
    let mut ascending = Trace::new();
    ascending.record(TraceEvent::new(
        0,
        TraceEventKind::SimStart,
        None,
        Some(TracePayload::SimulationStart {
            seed: 1,
            nodes: vec![1, 2, 3],
        }),
    ));

    let mut reverse = Trace::new();
    reverse.record(TraceEvent::new(
        0,
        TraceEventKind::SimStart,
        None,
        Some(TracePayload::SimulationStart {
            seed: 1,
            nodes: vec![3, 2, 1],
        }),
    ));

    assert_ne!(ascending.canonical(), reverse.canonical());
    assert!(ascending.canonical().contains("nodes:1,2,3"));
    assert!(reverse.canonical().contains("nodes:3,2,1"));
}

#[test]
fn display_is_legible_but_not_the_canonical_oracle() {
    let mut with_node = Trace::new();
    with_node.record(TraceEvent::new(4, TraceEventKind::NodeStep, Some(9), None));

    let mut without_node = Trace::new();
    without_node.record(TraceEvent::new(0, TraceEventKind::TickStart, None, None));

    assert_eq!(with_node.pretty(), "tick 4: node_step (node 9)\n");
    assert_eq!(without_node.pretty(), "tick 0: tick_start\n");
    assert_ne!(with_node.pretty(), with_node.canonical());
    assert!(with_node.pretty().contains("node 9"));
    assert!(with_node.pretty().contains("4"));
    assert!(!with_node.pretty().contains("kind="));
}

#[test]
fn all_event_kinds_have_stable_canonical_names() {
    let cases = [
        (TraceEventKind::SimStart, "sim_start"),
        (TraceEventKind::TickStart, "tick_start"),
        (TraceEventKind::TickEnd, "tick_end"),
        (TraceEventKind::NodeStep, "node_step"),
        (TraceEventKind::Echo, "echo"),
        (TraceEventKind::Send, "send"),
        (TraceEventKind::Deliver, "deliver"),
        (TraceEventKind::Drop, "drop"),
    ];

    for (kind, name) in cases {
        let mut trace = Trace::new();
        trace.record(TraceEvent::new(0, kind, None, None));
        assert_eq!(
            trace.canonical(),
            format!("tick=0 kind={name} node=- payload=-\n")
        );
    }
}
