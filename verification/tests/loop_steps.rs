use thermo_control::history::{DbRequest, DbResponse};
use thermo_control::relay::{command_publication, Command, CommandRelay};
use thermo_control::state::{ControlState, Event, ThermometerStatus};
use thermo_control::temperature::Temperature;
use thermo_control::tick::{fast_tick, last_will, slow_tick, subscription_topics};

fn temp(s: &str) -> Temperature {
    Temperature::parse(s).unwrap()
}

#[test]
fn scenario_submitted_command_is_published_once_and_state_untouched() {
    let mut relay = CommandRelay::new();
    relay.submit("bedroom".to_string(), temp("22.5"));
    let commands = relay.drain();
    assert_eq!(commands.len(), 1);

    let mut state = ControlState::new();
    let (publications, failures) = fast_tick(&mut state, &vec![], &commands);
    assert!(failures.is_empty());
    assert_eq!(publications.len(), 1);
    assert_eq!(publications[0].topic, "device/bedroom/command");
    assert_eq!(publications[0].payload, "22.5");
    assert!(!publications[0].retain);

    // The command does not touch the state: only a bus event does.
    assert!(state.get(&"bedroom".to_string()).is_none());

    let target = vec![Event::Target { name: "bedroom".to_string(), value: temp("22.5") }];
    state.apply_batch(&target);
    let t = state.get(&"bedroom".to_string()).unwrap();
    assert_eq!(t.target_temperature, Some(temp("22.5")));
    assert_eq!(t.status, ThermometerStatus::Disconnected);
}

#[test]
fn relay_keeps_submission_order_and_empties() {
    let mut relay = CommandRelay::new();
    relay.submit("a".to_string(), temp("1.0"));
    relay.submit("b".to_string(), temp("2.0"));
    relay.submit("a".to_string(), temp("3.0"));
    let commands = relay.drain();
    assert_eq!(commands.len(), 3);
    assert_eq!(commands[0].name, "a");
    assert_eq!(commands[0].target_temperature, temp("1.0"));
    assert_eq!(commands[1].name, "b");
    assert_eq!(commands[2].name, "a");
    assert_eq!(commands[2].target_temperature, temp("3.0"));
    assert!(relay.drain().is_empty());
}

#[test]
fn command_publication_encodes_topic_and_payload() {
    let c = Command { name: "kitchen".to_string(), target_temperature: temp("-3.5") };
    let p = command_publication(&c);
    assert_eq!(p.topic, "device/kitchen/command");
    assert_eq!(p.payload, "-3.5");
    assert!(!p.retain);
}

#[test]
fn slow_tick_publishes_alarm_and_demand() {
    let mut state = ControlState::new();
    state.apply_batch(&vec![Event::CentralUnit { connected: true }]);
    let out = slow_tick(&state);
    assert_eq!(out.len(), 2);
    assert_eq!(out[0].topic, "alarm");
    assert_eq!(out[0].payload, "");
    assert!(out[0].retain);
    assert_eq!(out[1].topic, "actuator/demand");
    assert_eq!(out[1].payload, "off");
    assert!(!out[1].retain);
}

#[test]
fn slow_tick_payload_vocabulary() {
    let mut state = ControlState::new();

    // central unit disconnected: error
    state.apply_batch(&vec![]);
    assert_eq!(slow_tick(&state)[0].payload, "error");

    // one of two sensors down: warning
    state.apply_batch(&vec![
        Event::CentralUnit { connected: true },
        Event::Status { name: "a".to_string(), status: ThermometerStatus::Connected },
        Event::Status { name: "b".to_string(), status: ThermometerStatus::Disconnected },
    ]);
    assert_eq!(slow_tick(&state)[0].payload, "warning");

    // demand on
    state.apply_batch(&vec![
        Event::Measurement { name: "a".to_string(), value: temp("18.0") },
        Event::Target { name: "a".to_string(), value: temp("21.0") },
    ]);
    assert_eq!(slow_tick(&state)[1].payload, "on");
}

#[test]
fn last_will_is_a_retained_error() {
    let p = last_will();
    assert_eq!(p.topic, "alarm");
    assert_eq!(p.payload, "error");
    assert!(p.retain);
}

#[test]
fn subscriptions_cover_the_four_topic_shapes() {
    let topics = subscription_topics();
    assert_eq!(
        topics,
        vec![
            "device/+/status".to_string(),
            "device/+/measurement".to_string(),
            "device/+/target".to_string(),
            "actuator/status".to_string(),
        ]
    );
}

#[test]
fn history_messages_carry_their_payloads() {
    let req = DbRequest::ThermometerHistory("bedroom".to_string());
    let DbRequest::ThermometerHistory(name) = req;
    assert_eq!(name, "bedroom");

    let resp = DbResponse::ThermometerHistory(vec![]);
    let DbResponse::ThermometerHistory(rows) = resp;
    assert!(rows.is_empty());
}
