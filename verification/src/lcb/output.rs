//! The lines of the output file: one for each message handed to a
//! broadcast, and one for each delivery.

use crate::lcb::hosts::{Node, NodeView};
use crate::lcb::payload::{OwnerID, Payload, PayloadKind, PayloadView};
use vstd::prelude::*;

verus! {

/// Something to write to the output file.
#[derive(Debug)]
pub enum LogEvent {
    /// A message was handed to a broadcast.
    Dispatch { recipient: Option<Node>, kind: PayloadKind, contents: Vec<u8> },
    /// A payload was delivered.
    Delivery { owner_id: OwnerID, kind: PayloadKind, contents: Vec<u8> },
}

/// An event as mathematical values.
pub enum LogEventView {
    Dispatch { recipient: Option<NodeView>, kind: PayloadKind, contents: Seq<u8> },
    Delivery { owner: u32, kind: PayloadKind, contents: Seq<u8> },
}

impl View for LogEvent {
    type V = LogEventView;

    open spec fn view(&self) -> LogEventView {
        match self {
            LogEvent::Dispatch { recipient, kind, contents } => LogEventView::Dispatch {
                recipient: match recipient {
                    Some(node) => Some(node@),
                    None => None,
                },
                kind: *kind,
                contents: contents@,
            },
            LogEvent::Delivery { owner_id, kind, contents } => LogEventView::Delivery {
                owner: owner_id.0,
                kind: *kind,
                contents: contents@,
            },
        }
    }
}

/// The contents of a list of events.
pub open spec fn event_views(events: Seq<LogEvent>) -> Seq<LogEventView> {
    events.map_values(|e: LogEvent| e@)
}

/// The digit `d` as a byte.
pub open spec fn digit_byte(d: nat) -> u8 {
    (48 + d % 10) as u8
}

/// The decimal digits of `n`, as bytes.
pub open spec fn decimal_bytes(n: nat) -> Seq<u8>
    decreases n,
{
    if n < 10 {
        seq![digit_byte(n)]
    } else {
        decimal_bytes(n / 10).push(digit_byte(n % 10))
    }
}

/// The name of a kind, as bytes.
pub open spec fn kind_bytes(kind: PayloadKind) -> Seq<u8> {
    match kind {
        PayloadKind::Tcp => seq![84u8, 99, 112],
        PayloadKind::Beb => seq![66u8, 101, 98],
        PayloadKind::Rb => seq![82u8, 98],
        PayloadKind::Urb => seq![85u8, 114, 98],
        PayloadKind::Fifob => seq![70u8, 105, 102, 111, 98],
        PayloadKind::Lcb => seq![76u8, 99, 98],
    }
}

/// `b `
pub open spec fn short_dispatch() -> Seq<u8> {
    seq![98u8, 32]
}

/// `d `
pub open spec fn short_delivery() -> Seq<u8> {
    seq![100u8, 32]
}

/// `sent `
pub open spec fn long_dispatch() -> Seq<u8> {
    seq![115u8, 101, 110, 116, 32]
}

/// `delivered `
pub open spec fn long_delivery() -> Seq<u8> {
    seq![100u8, 101, 108, 105, 118, 101, 114, 101, 100, 32]
}

/// ` from OwnerID(`
pub open spec fn from_owner() -> Seq<u8> {
    seq![32u8, 102, 114, 111, 109, 32, 79, 119, 110, 101, 114, 73, 68, 40]
}

/// `): `
pub open spec fn after_owner() -> Seq<u8> {
    seq![41u8, 58, 32]
}

/// `: `
pub open spec fn colon_space() -> Seq<u8> {
    seq![58u8, 32]
}

/// The line of an event, without its line end. The short form is `b` and
/// the contents for a dispatch, and `d`, the owner and the contents for a
/// delivery. The long form names the kind as well.
pub open spec fn event_line(event: LogEventView, task_compatible: bool) -> Seq<u8> {
    match event {
        LogEventView::Dispatch { recipient, kind, contents } => if task_compatible {
            short_dispatch() + contents
        } else {
            long_dispatch() + kind_bytes(kind) + colon_space() + contents
        },
        LogEventView::Delivery { owner, kind, contents } => if task_compatible {
            short_delivery() + decimal_bytes(owner as nat) + seq![32u8] + contents
        } else {
            long_delivery() + kind_bytes(kind) + from_owner() + decimal_bytes(owner as nat)
                + after_owner() + contents
        },
    }
}

/// Puts the bytes of `text` at the end of `out`.
fn push_all(out: &mut Vec<u8>, text: &[u8])
    ensures
        final(out)@ == old(out)@ + text@,
{
    let ghost before = out@;
    let mut i: usize = 0;
    while i < text.len()
        invariant
            i <= text.len(),
            out@ == before + text@.take(i as int),
        decreases text.len() - i,
    {
        out.push(text[i]);
        i = i + 1;
        assert(out@ =~= before + text@.take(i as int));
    }
    assert(text@.take(i as int) =~= text@);
}

/// Puts the decimal digits of `n` at the end of `out`.
pub fn push_decimal(out: &mut Vec<u8>, n: u32)
    ensures
        final(out)@ == old(out)@ + decimal_bytes(n as nat),
    decreases n,
{
    let ghost before = out@;
    if n >= 10 {
        push_decimal(out, n / 10);
    }
    out.push(48 + (n % 10) as u8);
    assert(out@ =~= before + decimal_bytes(n as nat));
}

/// The decimal digits of `n`.
pub fn decimal(n: u32) -> (r: Vec<u8>)
    ensures
        r@ == decimal_bytes(n as nat),
{
    let mut out: Vec<u8> = Vec::new();
    push_decimal(&mut out, n);
    assert(out@ =~= decimal_bytes(n as nat));
    out
}

/// Puts the name of `kind` at the end of `out`.
fn push_kind(out: &mut Vec<u8>, kind: PayloadKind)
    ensures
        final(out)@ == old(out)@ + kind_bytes(kind),
{
    match kind {
        PayloadKind::Tcp => {
            let name: [u8; 3] = [84, 99, 112];
            assert(name@ =~= kind_bytes(kind));
            push_all(out, name.as_slice());
        },
        PayloadKind::Beb => {
            let name: [u8; 3] = [66, 101, 98];
            assert(name@ =~= kind_bytes(kind));
            push_all(out, name.as_slice());
        },
        PayloadKind::Rb => {
            let name: [u8; 2] = [82, 98];
            assert(name@ =~= kind_bytes(kind));
            push_all(out, name.as_slice());
        },
        PayloadKind::Urb => {
            let name: [u8; 3] = [85, 114, 98];
            assert(name@ =~= kind_bytes(kind));
            push_all(out, name.as_slice());
        },
        PayloadKind::Fifob => {
            let name: [u8; 5] = [70, 105, 102, 111, 98];
            assert(name@ =~= kind_bytes(kind));
            push_all(out, name.as_slice());
        },
        PayloadKind::Lcb => {
            let name: [u8; 3] = [76, 99, 98];
            assert(name@ =~= kind_bytes(kind));
            push_all(out, name.as_slice());
        },
    }
}

/// The line of `event`, without its line end.
pub fn render_event(event: &LogEvent, task_compatible: bool) -> (line: Vec<u8>)
    ensures
        line@ == event_line(event@, task_compatible),
{
    let mut line: Vec<u8> = Vec::new();
    match event {
        LogEvent::Dispatch { recipient, kind, contents } => {
            if task_compatible {
                let head: [u8; 2] = [98, 32];
                assert(head@ =~= short_dispatch());
                push_all(&mut line, head.as_slice());
            } else {
                let head: [u8; 5] = [115, 101, 110, 116, 32];
                assert(head@ =~= long_dispatch());
                push_all(&mut line, head.as_slice());
                push_kind(&mut line, *kind);
                let sep: [u8; 2] = [58, 32];
                assert(sep@ =~= colon_space());
                push_all(&mut line, sep.as_slice());
            }
            push_all(&mut line, contents.as_slice());
            assert(line@ =~= event_line(event@, task_compatible));
        },
        LogEvent::Delivery { owner_id, kind, contents } => {
            if task_compatible {
                let head: [u8; 2] = [100, 32];
                assert(head@ =~= short_delivery());
                push_all(&mut line, head.as_slice());
                push_decimal(&mut line, owner_id.0);
                line.push(32);
            } else {
                let head: [u8; 10] = [100, 101, 108, 105, 118, 101, 114, 101, 100, 32];
                assert(head@ =~= long_delivery());
                push_all(&mut line, head.as_slice());
                push_kind(&mut line, *kind);
                let from: [u8; 14] = [32, 102, 114, 111, 109, 32, 79, 119, 110, 101, 114, 73, 68, 40];
                assert(from@ =~= from_owner());
                push_all(&mut line, from.as_slice());
                push_decimal(&mut line, owner_id.0);
                let sep: [u8; 3] = [41, 58, 32];
                assert(sep@ =~= after_owner());
                push_all(&mut line, sep.as_slice());
            }
            push_all(&mut line, contents.as_slice());
            assert(line@ =~= event_line(event@, task_compatible));
        },
    }
    line
}

/// The event that reports the delivery of `p`.
pub open spec fn delivery_view(p: PayloadView) -> LogEventView {
    LogEventView::Delivery { owner: p.owner, kind: p.kind, contents: p.buffer }
}

/// The events that report the deliveries of `delivered`, in their order.
pub open spec fn delivery_views(delivered: Seq<PayloadView>) -> Seq<LogEventView> {
    delivered.map_values(|p: PayloadView| delivery_view(p))
}

/// The event that reports the delivery of `payload`.
pub fn delivery_event(payload: &Payload) -> (event: LogEvent)
    ensures
        event@ == delivery_view(payload@),
{
    LogEvent::Delivery {
        owner_id: payload.owner_id,
        kind: payload.kind,
        contents: payload.buffer.clone(),
    }
}

/// The event that reports that `contents` was handed to a broadcast of
/// `kind`, or to the link for `recipient`.
pub fn dispatch_event(recipient: Option<Node>, kind: PayloadKind, contents: Vec<u8>) -> (event: LogEvent)
    ensures
        event == (LogEvent::Dispatch { recipient, kind, contents }),
{
    LogEvent::Dispatch { recipient, kind, contents }
}

/// Puts the events of the deliveries of `delivered`, in their order, at
/// the end of `events`.
pub fn push_deliveries(events: &mut Vec<LogEvent>, delivered: &Vec<Payload>)
    ensures
        event_views(final(events)@) == event_views(old(events)@) + delivery_views(
            delivered@.map_values(|p: Payload| p@),
        ),
{
    let ghost before = event_views(events@);
    let ghost payloads = delivered@.map_values(|p: Payload| p@);
    let mut i: usize = 0;
    assert(event_views(events@) =~= before + delivery_views(payloads.take(0)));
    while i < delivered.len()
        invariant
            i <= delivered.len(),
            payloads == delivered@.map_values(|p: Payload| p@),
            event_views(events@) == before + delivery_views(payloads.take(i as int)),
        decreases delivered.len() - i,
    {
        let ghost shown = event_views(events@);
        events.push(delivery_event(&delivered[i]));
        assert(event_views(events@) =~= shown.push(delivery_view(payloads[i as int])));
        i = i + 1;
        assert(event_views(events@) =~= before + delivery_views(payloads.take(i as int)));
    }
    assert(payloads.take(i as int) =~= payloads);
}

} // verus!
