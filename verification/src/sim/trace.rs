//! Deterministic event tracing for simulator runs.

use vstd::prelude::*;

use crate::config::NodeId;
use crate::text::{decimal, push_str, push_u64};

verus! {

/// The stable category of a simulator trace event.
///
/// New variants must be append-only: canonical traces are used to replay and
/// compare deterministic simulator runs.
#[derive(Clone, Copy, Debug, PartialEq, Eq, Structural)]
pub enum TraceEventKind {
    SimStart,
    TickStart,
    TickEnd,
    NodeStep,
    Echo,
    Send,
    Deliver,
    Drop,
}

impl TraceEventKind {
    /// The name of the category in traces.
    pub open spec fn name(self) -> Seq<char> {
        match self {
            TraceEventKind::SimStart => "sim_start"@,
            TraceEventKind::TickStart => "tick_start"@,
            TraceEventKind::TickEnd => "tick_end"@,
            TraceEventKind::NodeStep => "node_step"@,
            TraceEventKind::Echo => "echo"@,
            TraceEventKind::Send => "send"@,
            TraceEventKind::Deliver => "deliver"@,
            TraceEventKind::Drop => "drop"@,
        }
    }

    /// The name of the category in traces.
    pub fn canonical_name(self) -> (r: &'static str)
        ensures
            r@ == self.name(),
    {
        match self {
            TraceEventKind::SimStart => "sim_start",
            TraceEventKind::TickStart => "tick_start",
            TraceEventKind::TickEnd => "tick_end",
            TraceEventKind::NodeStep => "node_step",
            TraceEventKind::Echo => "echo",
            TraceEventKind::Send => "send",
            TraceEventKind::Deliver => "deliver",
            TraceEventKind::Drop => "drop",
        }
    }
}

/// Optional event data, deliberately limited to deterministic values.
#[derive(Clone, Debug, PartialEq, Eq)]
pub enum TracePayload {
    /// Metadata recorded once at the start of a simulator run.
    SimulationStart { seed: u64, nodes: Vec<NodeId> },
    /// Opaque deterministic bytes, serialized as lower-case hexadecimal.
    Bytes(Vec<u8>),
}

/// What a [`TracePayload`] holds.
pub enum PayloadView {
    SimulationStart { seed: u64, nodes: Seq<NodeId> },
    Bytes(Seq<u8>),
}

impl View for TracePayload {
    type V = PayloadView;

    open spec fn view(&self) -> PayloadView {
        match self {
            TracePayload::SimulationStart { seed, nodes } => PayloadView::SimulationStart {
                seed: *seed,
                nodes: nodes@,
            },
            TracePayload::Bytes(bytes) => PayloadView::Bytes(bytes@),
        }
    }
}

/// One structured simulator event.
#[derive(Clone, Debug, PartialEq, Eq)]
pub struct TraceEvent {
    tick: u64,
    kind: TraceEventKind,
    node: Option<NodeId>,
    payload: Option<TracePayload>,
}

/// What a [`TraceEvent`] holds.
pub struct EventView {
    pub tick: u64,
    pub kind: TraceEventKind,
    pub node: Option<NodeId>,
    pub payload: Option<PayloadView>,
}

/// What an optional payload holds.
pub open spec fn payload_view(payload: Option<TracePayload>) -> Option<PayloadView> {
    match payload {
        Some(p) => Some(p@),
        None => None,
    }
}

impl View for TraceEvent {
    type V = EventView;

    closed spec fn view(&self) -> EventView {
        EventView {
            tick: self.tick,
            kind: self.kind,
            node: self.node,
            payload: payload_view(self.payload),
        }
    }
}

impl TraceEvent {
    /// Creates an event at `tick` with optional node and payload fields.
    pub fn new(
        tick: u64,
        kind: TraceEventKind,
        node: Option<NodeId>,
        payload: Option<TracePayload>,
    ) -> (r: Self)
        ensures
            r@ == (EventView { tick, kind, node, payload: payload_view(payload) }),
    {
        Self { tick, kind, node, payload }
    }

    /// Returns the event's logical tick.
    pub fn tick(&self) -> (r: u64)
        ensures
            r == self@.tick,
    {
        self.tick
    }

    /// Returns the event's category.
    pub fn kind(&self) -> (r: TraceEventKind)
        ensures
            r == self@.kind,
    {
        self.kind
    }

    /// Returns the node associated with this event, when applicable.
    pub fn node(&self) -> (r: Option<NodeId>)
        ensures
            r == self@.node,
    {
        self.node
    }

    /// Returns the optional event payload.
    pub fn payload(&self) -> (r: Option<&TracePayload>)
        ensures
            match r {
                Some(p) => self@.payload == Some(p@),
                None => self@.payload is None,
            },
    {
        self.payload.as_ref()
    }
}

impl TraceEvent {
    /// Appends the event's line in a canonical trace.
    fn push_canonical(&self, out: &mut String)
        ensures
            final(out)@ == old(out)@ + self@.canonical(),
    {
        let ghost before = out@;
        push_str(out, "tick=");
        push_u64(out, self.tick);
        push_str(out, " kind=");
        push_str(out, self.kind.canonical_name());
        push_str(out, " node=");
        match self.node {
            Some(node) => push_u64(out, node),
            None => push_str(out, "-"),
        }
        push_str(out, " payload=");
        write_payload(out, &self.payload);
        push_str(out, "\n");
        assert(out@ =~= before + self@.canonical());
    }

    /// Appends the event's line for humans.
    fn push_pretty(&self, out: &mut String)
        ensures
            final(out)@ == old(out)@ + self@.pretty(),
    {
        let ghost before = out@;
        push_str(out, "tick ");
        push_u64(out, self.tick);
        push_str(out, ": ");
        push_str(out, self.kind.canonical_name());
        match self.node {
            Some(node) => {
                push_str(out, " (node ");
                push_u64(out, node);
                push_str(out, ")");
            },
            None => {},
        }
        push_str(out, "\n");
        assert(out@ =~= before + self@.pretty());
    }
}

/// What events hold, in order.
pub open spec fn events_view(events: Seq<TraceEvent>) -> Seq<EventView> {
    Seq::new(events.len(), |i: int| events[i]@)
}

/// Append-only buffer of simulator events.
#[derive(Debug)]
pub struct Trace {
    events: Vec<TraceEvent>,
}

impl View for Trace {
    type V = Seq<EventView>;

    closed spec fn view(&self) -> Seq<EventView> {
        events_view(self.events@)
    }
}

/// A hexadecimal digit.
pub open spec fn hex_digit(d: u8) -> char {
    if d < 10 {
        (d + 48) as char
    } else {
        (d + 87) as char
    }
}

/// Bytes in lower-case hexadecimal.
pub open spec fn hex_text(bytes: Seq<u8>) -> Seq<char>
    decreases bytes.len(),
{
    if bytes.len() == 0 {
        Seq::empty()
    } else {
        hex_text(bytes.drop_last()).push(hex_digit(bytes.last() / 16)).push(
            hex_digit(bytes.last() % 16),
        )
    }
}

/// Node ids with commas between them.
pub open spec fn ids_text(ids: Seq<NodeId>) -> Seq<char>
    decreases ids.len(),
{
    if ids.len() == 0 {
        Seq::empty()
    } else if ids.len() == 1 {
        decimal(ids[0] as nat)
    } else {
        ids_text(ids.drop_last()) + ","@ + decimal(ids.last() as nat)
    }
}

/// A payload in a canonical trace.
pub open spec fn payload_text(payload: Option<PayloadView>) -> Seq<char> {
    match payload {
        None => "-"@,
        Some(PayloadView::SimulationStart { seed, nodes }) => "seed:"@ + decimal(seed as nat)
            + ",nodes:"@ + ids_text(nodes),
        Some(PayloadView::Bytes(bytes)) => "hex:"@ + hex_text(bytes),
    }
}

/// An optional node in a canonical trace.
pub open spec fn node_text(node: Option<NodeId>) -> Seq<char> {
    match node {
        Some(id) => decimal(id as nat),
        None => "-"@,
    }
}

impl EventView {
    /// The event's line in a canonical trace.
    pub open spec fn canonical(self) -> Seq<char> {
        "tick="@ + decimal(self.tick as nat) + " kind="@ + self.kind.name() + " node="@
            + node_text(self.node) + " payload="@ + payload_text(self.payload) + "\n"@
    }

    /// The event's line for humans.
    pub open spec fn pretty(self) -> Seq<char> {
        "tick "@ + decimal(self.tick as nat) + ": "@ + self.kind.name() + (match self.node {
            Some(id) => " (node "@ + decimal(id as nat) + ")"@,
            None => Seq::empty(),
        }) + "\n"@
    }
}

/// A canonical trace: one line for each event.
pub open spec fn canonical_text(events: Seq<EventView>) -> Seq<char>
    decreases events.len(),
{
    if events.len() == 0 {
        Seq::empty()
    } else {
        canonical_text(events.drop_last()) + events.last().canonical()
    }
}

/// A trace for humans: one line for each event.
pub open spec fn pretty_text(events: Seq<EventView>) -> Seq<char>
    decreases events.len(),
{
    if events.len() == 0 {
        Seq::empty()
    } else {
        pretty_text(events.drop_last()) + events.last().pretty()
    }
}

impl Default for Trace {
    fn default() -> (r: Self)
        ensures
            r@ == Seq::<EventView>::empty(),
    {
        let r = Trace { events: Vec::new() };
        assert(r@ =~= Seq::<EventView>::empty());
        r
    }
}

impl Trace {
    /// Creates an empty trace.
    pub fn new() -> (r: Self)
        ensures
            r@ == Seq::<EventView>::empty(),
    {
        Self::default()
    }

    /// Appends an event in the order it occurred.
    pub fn record(&mut self, event: TraceEvent)
        ensures
            final(self)@ == old(self)@.push(event@),
    {
        let ghost before = self@;
        let ghost added = event@;
        self.events.push(event);
        assert(self@ =~= before.push(added));
    }

    /// Returns the number of recorded events.
    pub fn len(&self) -> (r: usize)
        ensures
            r == self@.len(),
    {
        self.events.len()
    }

    /// Returns whether no events have been recorded.
    pub fn is_empty(&self) -> (r: bool)
        ensures
            r == (self@.len() == 0),
    {
        self.events.len() == 0
    }

    /// Returns the events in their recorded order.
    pub fn events(&self) -> (r: &[TraceEvent])
        ensures
            events_view(r@) == self@,
    {
        self.events.as_slice()
    }

    /// Serializes events as stable, newline-separated UTF-8 records.
    ///
    /// This is the equality and replay oracle. It has fixed field order and
    /// contains only logical ticks, node IDs, supplied payloads, and seed
    /// metadata; it never includes wall time, host paths, or map iteration.
    pub fn canonical(&self) -> (r: String)
        ensures
            r@ == canonical_text(self@),
    {
        let ghost all = self@;
        let mut canonical: String = String::new();
        let mut i: usize = 0;
        assert(canonical@ =~= canonical_text(all.take(0)));
        while i < self.events.len()
            invariant
                i <= self.events@.len(),
                all == events_view(self.events@),
                canonical@ == canonical_text(all.take(i as int)),
            decreases self.events@.len() - i,
        {
            let event = &self.events[i];
            event.push_canonical(&mut canonical);
            i += 1;
            proof {
                assert(all.take(i as int).drop_last() =~= all.take(i - 1));
                assert(all.take(i as int).last() == event@);
            }
        }
        assert(all.take(i as int) =~= all);
        canonical
    }

    /// Renders the trace for humans. Use [`Trace::canonical`] for comparison.
    pub fn pretty(&self) -> (r: String)
        ensures
            r@ == pretty_text(self@),
    {
        let ghost all = self@;
        let mut out: String = String::new();
        let mut i: usize = 0;
        assert(out@ =~= pretty_text(all.take(0)));
        while i < self.events.len()
            invariant
                i <= self.events@.len(),
                all == events_view(self.events@),
                out@ == pretty_text(all.take(i as int)),
            decreases self.events@.len() - i,
        {
            let event = &self.events[i];
            event.push_pretty(&mut out);
            i += 1;
            proof {
                assert(all.take(i as int).drop_last() =~= all.take(i - 1));
                assert(all.take(i as int).last() == event@);
            }
        }
        assert(all.take(i as int) =~= all);
        out
    }
}

/// Appends one hexadecimal digit.
fn push_hex_digit(out: &mut String, d: u8)
    requires
        d < 16,
    ensures
        final(out)@ == old(out)@.push(hex_digit(d)),
{
    proof {
        reveal_strlit("0");
        reveal_strlit("1");
        reveal_strlit("2");
        reveal_strlit("3");
        reveal_strlit("4");
        reveal_strlit("5");
        reveal_strlit("6");
        reveal_strlit("7");
        reveal_strlit("8");
        reveal_strlit("9");
        reveal_strlit("a");
        reveal_strlit("b");
        reveal_strlit("c");
        reveal_strlit("d");
        reveal_strlit("e");
        reveal_strlit("f");
    }
    let ghost before = out@;
    let text: &str = match d {
        0 => "0",
        1 => "1",
        2 => "2",
        3 => "3",
        4 => "4",
        5 => "5",
        6 => "6",
        7 => "7",
        8 => "8",
        9 => "9",
        10 => "a",
        11 => "b",
        12 => "c",
        13 => "d",
        14 => "e",
        _ => "f",
    };
    push_str(out, text);
    assert(text@ =~= seq![hex_digit(d)]);
    assert(out@ =~= before.push(hex_digit(d)));
}

/// Appends a payload as it stands in a canonical trace.
fn write_payload(output: &mut String, payload: &Option<TracePayload>)
    ensures
        final(output)@ == old(output)@ + payload_text(payload_view(*payload)),
{
    let ghost before = output@;
    match payload {
        None => push_str(output, "-"),
        Some(TracePayload::SimulationStart { seed, nodes }) => {
            push_str(output, "seed:");
            push_u64(output, *seed);
            push_str(output, ",nodes:");
            let ghost head = output@;
            let mut i: usize = 0;
            assert(head + ids_text(nodes@.take(0)) =~= head);
            while i < nodes.len()
                invariant
                    i <= nodes@.len(),
                    output@ == head + ids_text(nodes@.take(i as int)),
                decreases nodes@.len() - i,
            {
                if i > 0 {
                    push_str(output, ",");
                }
                push_u64(output, nodes[i]);
                i += 1;
                proof {
                    assert(nodes@.take(i as int).drop_last() =~= nodes@.take(i - 1));
                    assert(nodes@.take(i as int).last() == nodes@[i - 1]);
                    assert(output@ =~= head + ids_text(nodes@.take(i as int)));
                }
            }
            assert(nodes@.take(i as int) =~= nodes@);
            assert(output@ =~= before + payload_text(payload_view(*payload)));
        },
        Some(TracePayload::Bytes(bytes)) => {
            push_str(output, "hex:");
            let ghost head = output@;
            let mut i: usize = 0;
            assert(head + hex_text(bytes@.take(0)) =~= head);
            while i < bytes.len()
                invariant
                    i <= bytes@.len(),
                    output@ == head + hex_text(bytes@.take(i as int)),
                decreases bytes@.len() - i,
            {
                push_hex_digit(output, bytes[i] / 16);
                push_hex_digit(output, bytes[i] % 16);
                i += 1;
                proof {
                    assert(bytes@.take(i as int).drop_last() =~= bytes@.take(i - 1));
                    assert(bytes@.take(i as int).last() == bytes@[i - 1]);
                    assert(output@ =~= head + hex_text(bytes@.take(i as int)));
                }
            }
            assert(bytes@.take(i as int) =~= bytes@);
            assert(output@ =~= before + payload_text(payload_view(*payload)));
        },
    }
}

} // verus!
