//! The decision loop's pure steps.
//!
//! The loop itself lives outside the crate — it owns the timers, the bus
//! client and the queues. On its fast tick it hands the drained messages
//! and commands to [`fast_tick`]; on its slow tick it publishes what
//! [`slow_tick`] returns. These functions say exactly what each tick does.

use crate::ingress::{spec_decode, decode_msg, DecodeError, MqttMsg};
use crate::relay::{command_publication, is_command_publication, Command, Publication};
use crate::state::{
    alarm_matches, seq_views, spec_alarm, spec_apply_all, spec_demand, ControlState, Error,
    ErrorSeverity, Event, SpecEvent,
};
use vstd::prelude::*;

verus! {

/// The events a batch of raw messages decodes to, in arrival order;
/// malformed and ignored messages contribute nothing.
pub open spec fn decoded_events(msgs: Seq<MqttMsg>) -> Seq<SpecEvent>
    decreases msgs.len(),
{
    if msgs.len() == 0 {
        Seq::empty()
    } else {
        let rest = decoded_events(msgs.drop_last());
        match spec_decode(msgs.last().topic@, msgs.last().payload@) {
            Ok(Some(e)) => rest.push(e),
            _ => rest,
        }
    }
}

/// The decode failures a batch of raw messages produces, in order.
pub open spec fn decode_failures(msgs: Seq<MqttMsg>) -> Seq<DecodeError>
    decreases msgs.len(),
{
    if msgs.len() == 0 {
        Seq::empty()
    } else {
        let rest = decode_failures(msgs.drop_last());
        match spec_decode(msgs.last().topic@, msgs.last().payload@) {
            Err(e) => rest.push(e),
            _ => rest,
        }
    }
}

/// Decode a drained batch: the typed events, and the errors of the
/// dropped messages (kept for diagnostics). One malformed message never
/// stops the ones after it from being decoded.
pub fn decode_batch(msgs: &Vec<MqttMsg>) -> (r: (Vec<Event>, Vec<DecodeError>))
    ensures
        seq_views(r.0@) == decoded_events(msgs@),
        r.1@ == decode_failures(msgs@),
        forall|i: int| 0 <= i < r.0@.len() ==> (#[trigger] r.0@[i])@.wf(),
{
    let mut events: Vec<Event> = Vec::new();
    let mut failures: Vec<DecodeError> = Vec::new();
    let n: usize = msgs.len();
    let mut i: usize = 0;
    proof {
        assert(seq_views(events@) =~= decoded_events(msgs@.take(0)));
        assert(failures@ =~= decode_failures(msgs@.take(0)));
    }
    while i < n
        invariant
            n == msgs@.len(),
            i <= n,
            seq_views(events@) == decoded_events(msgs@.take(i as int)),
            failures@ == decode_failures(msgs@.take(i as int)),
            forall|k: int| 0 <= k < events@.len() ==> (#[trigger] events@[k])@.wf(),
        decreases n - i,
    {
        proof {
            assert(msgs@.take(i + 1).drop_last() =~= msgs@.take(i as int));
            assert(msgs@.take(i + 1).last() == msgs@[i as int]);
        }
        match decode_msg(&msgs[i]) {
            Ok(Some(e)) => {
                events.push(e);
                proof {
                    assert(seq_views(events@) =~= seq_views(events@.drop_last()).push(
                        events@.last()@,
                    ));
                }
            },
            Ok(None) => {},
            Err(e) => {
                failures.push(e);
            },
        }
        i = i + 1;
        proof {
            assert(seq_views(events@) =~= decoded_events(msgs@.take(i as int)));
            assert(failures@ =~= decode_failures(msgs@.take(i as int)));
        }
    }
    proof {
        assert(msgs@.take(n as int) =~= msgs@);
    }
    (events, failures)
}

/// One fast tick: decode the drained messages, fold their events into the
/// state in a single reducer pass (which recomputes the alarm and the
/// actuation demand), and turn the drained commands into outbound
/// messages — exactly one per command, in submission order. Commands
/// never touch the state; only bus events do.
pub fn fast_tick(state: &mut ControlState, msgs: &Vec<MqttMsg>, commands: &Vec<Command>) -> (r: (
    Vec<Publication>,
    Vec<DecodeError>,
))
    requires
        old(state).wf(),
        forall|i: int|
            0 <= i < commands@.len() ==> (#[trigger] commands@[i]).target_temperature.wf(),
    ensures
        final(state).wf(),
        final(state).model() == spec_apply_all(old(state).model(), decoded_events(msgs@)),
        alarm_matches(final(state).error, spec_alarm(final(state).model())),
        final(state).actuation_demand == spec_demand(final(state).model()),
        r.0@.len() == commands@.len(),
        forall|i: int|
            0 <= i < commands@.len() ==> is_command_publication(
                #[trigger] r.0@[i],
                commands@[i].name@,
                commands@[i].target_temperature,
            ),
        r.1@ == decode_failures(msgs@),
{
    let decoded = decode_batch(msgs);
    let events = decoded.0;
    let failures = decoded.1;
    state.apply_batch(&events);
    let mut publications: Vec<Publication> = Vec::new();
    let n: usize = commands.len();
    let mut i: usize = 0;
    while i < n
        invariant
            n == commands@.len(),
            i <= n,
            publications@.len() == i,
            forall|k: int|
                0 <= k < commands@.len() ==> (#[trigger] commands@[k]).target_temperature.wf(),
            forall|k: int|
                0 <= k < i ==> is_command_publication(
                    #[trigger] publications@[k],
                    commands@[k].name@,
                    commands@[k].target_temperature,
                ),
        decreases n - i,
    {
        publications.push(command_publication(&commands[i]));
        i = i + 1;
    }
    (publications, failures)
}

/// The payload published on the `alarm` topic: `""` when clear,
/// `"warning"` or `"error"` by the alarm's severity.
pub open spec fn spec_alarm_payload(e: Option<Error>) -> Seq<char> {
    match e {
        None => ""@,
        Some(err) => match err.severity {
            ErrorSeverity::Warning => "warning"@,
            ErrorSeverity::Error => "error"@,
        },
    }
}

/// One slow tick: the externally visible decisions, ready to publish —
/// the current alarm (topic `alarm`, retained) and the current actuation
/// demand (topic `actuator/demand`, `"on"` / `"off"`).
pub fn slow_tick(state: &ControlState) -> (r: Vec<Publication>)
    ensures
        r@.len() == 2,
        r@[0].topic@ == "alarm"@,
        r@[0].retain == true,
        r@[0].payload@ == spec_alarm_payload(state.error),
        r@[1].topic@ == "actuator/demand"@,
        r@[1].retain == false,
        r@[1].payload@ == (if state.actuation_demand {
            "on"@
        } else {
            "off"@
        }),
{
    let alarm_payload = match &state.error {
        None => String::new(),
        Some(err) => match err.severity {
            ErrorSeverity::Warning => String::from_str("warning"),
            ErrorSeverity::Error => String::from_str("error"),
        },
    };
    proof {
        reveal_strlit("");
        assert(""@.len() == 0);
    }
    let demand_payload = if state.actuation_demand {
        String::from_str("on")
    } else {
        String::from_str("off")
    };
    let mut out: Vec<Publication> = Vec::new();
    out.push(
        Publication { topic: String::from_str("alarm"), payload: alarm_payload, retain: true },
    );
    out.push(
        Publication {
            topic: String::from_str("actuator/demand"),
            payload: demand_payload,
            retain: false,
        },
    );
    out
}

/// The last-will message to register with the transport, so that an
/// abrupt death of this process surfaces to observers as an error-level
/// alarm.
pub fn last_will() -> (p: Publication)
    ensures
        p.topic@ == "alarm"@,
        p.payload@ == "error"@,
        p.retain == true,
{
    Publication {
        topic: String::from_str("alarm"),
        payload: String::from_str("error"),
        retain: true,
    }
}

/// The four inbound subscriptions the transport should establish.
pub fn subscription_topics() -> (r: Vec<String>)
    ensures
        r@.len() == 4,
        r@[0]@ == "device/+/status"@,
        r@[1]@ == "device/+/measurement"@,
        r@[2]@ == "device/+/target"@,
        r@[3]@ == "actuator/status"@,
{
    let mut out: Vec<String> = Vec::new();
    out.push(String::from_str("device/+/status"));
    out.push(String::from_str("device/+/measurement"));
    out.push(String::from_str("device/+/target"));
    out.push(String::from_str("actuator/status"));
    out
}

} // verus!

