use thermo_control::ingress::{decode_msg, DecodeError, MqttMsg};
use thermo_control::state::{ControlState, Event, ThermometerStatus};
use thermo_control::temperature::Temperature;
use thermo_control::tick::{decode_batch, fast_tick};

fn msg(topic: &str, payload: &[u8]) -> MqttMsg {
    MqttMsg { topic: topic.to_string(), payload: payload.to_vec() }
}

fn temp(s: &str) -> Temperature {
    Temperature::parse(s).unwrap()
}

#[test]
fn decodes_status_messages() {
    match decode_msg(&msg("device/bedroom/status", b"connected")) {
        Ok(Some(Event::Status { name, status })) => {
            assert_eq!(name, "bedroom");
            assert_eq!(status, ThermometerStatus::Connected);
        }
        other => panic!("unexpected: {:?}", other.is_ok()),
    }
    match decode_msg(&msg("device/attic/status", b"disconnected")) {
        Ok(Some(Event::Status { name, status })) => {
            assert_eq!(name, "attic");
            assert_eq!(status, ThermometerStatus::Disconnected);
        }
        _ => panic!("expected a status event"),
    }
}

#[test]
fn decodes_measurement_and_target_messages() {
    match decode_msg(&msg("device/bedroom/measurement", b"21.5")) {
        Ok(Some(Event::Measurement { name, value })) => {
            assert_eq!(name, "bedroom");
            assert_eq!(value, temp("21.5"));
        }
        _ => panic!("expected a measurement event"),
    }
    match decode_msg(&msg("device/bedroom/target", b"-3.25")) {
        Ok(Some(Event::Target { name, value })) => {
            assert_eq!(name, "bedroom");
            assert_eq!(value, temp("-3.25"));
        }
        _ => panic!("expected a target event"),
    }
}

#[test]
fn decodes_central_unit_messages() {
    match decode_msg(&msg("actuator/status", b"connected")) {
        Ok(Some(Event::CentralUnit { connected })) => assert!(connected),
        _ => panic!("expected a central-unit event"),
    }
    match decode_msg(&msg("actuator/status", b"disconnected")) {
        Ok(Some(Event::CentralUnit { connected })) => assert!(!connected),
        _ => panic!("expected a central-unit event"),
    }
}

#[test]
fn ignores_unrecognized_topic_shapes() {
    assert!(matches!(decode_msg(&msg("device/bedroom", b"x")), Ok(None)));
    assert!(matches!(decode_msg(&msg("device/a/b/status", b"connected")), Ok(None)));
    assert!(matches!(decode_msg(&msg("actuator/status/extra", b"connected")), Ok(None)));
    assert!(matches!(decode_msg(&msg("heating", b"on")), Ok(None)));
    assert!(matches!(decode_msg(&msg("", b"")), Ok(None)));
    assert!(matches!(decode_msg(&msg("device/bedroom/setpoint", b"21")), Ok(None)));
}

#[test]
fn device_names_may_carry_any_text() {
    match decode_msg(&msg("device/s\u{e9}jour/target", b"19.5")) {
        Ok(Some(Event::Target { name, value })) => {
            assert_eq!(name, "s\u{e9}jour");
            assert_eq!(value, temp("19.5"));
        }
        _ => panic!("expected a target event"),
    }
}

#[test]
fn trailing_separator_changes_the_topic_shape() {
    assert!(matches!(decode_msg(&msg("device/bedroom/status/", b"connected")), Ok(None)));
    assert!(matches!(decode_msg(&msg("/device/bedroom/status", b"connected")), Ok(None)));
}

#[test]
fn empty_name_segment_is_still_a_device_topic() {
    match decode_msg(&msg("device//status", b"connected")) {
        Ok(Some(Event::Status { name, .. })) => assert_eq!(name, ""),
        _ => panic!("expected a status event"),
    }
}

#[test]
fn malformed_payloads_give_one_error_each() {
    assert_eq!(
        decode_msg(&msg("device/bedroom/measurement", b"abc")).unwrap_err(),
        DecodeError::Number
    );
    assert_eq!(
        decode_msg(&msg("device/bedroom/target", b"1.2.3")).unwrap_err(),
        DecodeError::Number
    );
    assert_eq!(
        decode_msg(&msg("device/bedroom/status", b"Connected")).unwrap_err(),
        DecodeError::Status
    );
    assert_eq!(decode_msg(&msg("actuator/status", b"on")).unwrap_err(), DecodeError::Status);
    assert_eq!(
        decode_msg(&msg("device/bedroom/measurement", &[0xff, 0xfe])).unwrap_err(),
        DecodeError::Utf8
    );
    assert_eq!(
        decode_msg(&msg("device/bedroom/status", &[0xc3, 0x28])).unwrap_err(),
        DecodeError::Utf8
    );
}

#[test]
fn scenario_malformed_message_is_dropped_and_the_batch_continues() {
    // A malformed measurement changes nothing and later messages in the
    // same batch still go through.
    let mut state = ControlState::new();
    let setup = vec![
        msg("actuator/status", b"connected"),
        msg("device/bedroom/measurement", b"20.0"),
    ];
    fast_tick(&mut state, &setup, &vec![]);

    let batch = vec![
        msg("device/bedroom/measurement", b"abc"),
        msg("device/bedroom/target", b"21.0"),
    ];
    let (_, failures) = fast_tick(&mut state, &batch, &vec![]);
    assert_eq!(failures, vec![DecodeError::Number]);

    let t = state.get(&"bedroom".to_string()).unwrap();
    assert_eq!(t.last_measurement, Some(temp("20.0")));
    assert_eq!(t.target_temperature, Some(temp("21.0")));
}

#[test]
fn decode_batch_keeps_event_order_and_reports_failures() {
    let batch = vec![
        msg("device/a/measurement", b"1.0"),
        msg("ignored/topic", b""),
        msg("device/b/status", b"bogus"),
        msg("device/c/target", b"2.0"),
    ];
    let (events, failures) = decode_batch(&batch);
    assert_eq!(events.len(), 2);
    assert!(matches!(&events[0], Event::Measurement { name, .. } if name == "a"));
    assert!(matches!(&events[1], Event::Target { name, .. } if name == "c"));
    assert_eq!(failures, vec![DecodeError::Status]);
}
