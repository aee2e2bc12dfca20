use thermo_control::state::{ControlState, ErrorSeverity, Event, Thermometer, ThermometerStatus};
use thermo_control::temperature::Temperature;

fn temp(s: &str) -> Temperature {
    Temperature::parse(s).unwrap()
}

fn status_event(name: &str, connected: bool) -> Event {
    Event::Status {
        name: name.to_string(),
        status: if connected {
            ThermometerStatus::Connected
        } else {
            ThermometerStatus::Disconnected
        },
    }
}

fn measurement_event(name: &str, value: &str) -> Event {
    Event::Measurement { name: name.to_string(), value: temp(value) }
}

fn target_event(name: &str, value: &str) -> Event {
    Event::Target { name: name.to_string(), value: temp(value) }
}

#[test]
fn scenario_bedroom_all_three_events() {
    // With the central unit connected, a connect + measurement + target
    // sequence yields a fully populated record, demand on, no alarm.
    let mut state = ControlState::new();
    state.apply_batch(&vec![
        Event::CentralUnit { connected: true },
        status_event("bedroom", true),
        measurement_event("bedroom", "18.0"),
        target_event("bedroom", "21.0"),
    ]);

    let t: &Thermometer = state.get(&"bedroom".to_string()).unwrap();
    assert_eq!(t.status, ThermometerStatus::Connected);
    assert_eq!(t.last_measurement, Some(temp("18.0")));
    assert_eq!(t.target_temperature, Some(temp("21.0")));
    assert!(state.actuation_demand);
    assert!(state.error.is_none());
}

#[test]
fn scenario_central_unit_disconnect_beats_everything() {
    // A central-unit disconnect alone forces the error-level alarm, no
    // matter what the thermometers look like.
    let mut state = ControlState::new();
    state.apply_batch(&vec![
        Event::CentralUnit { connected: true },
        status_event("bedroom", true),
        status_event("kitchen", true),
        Event::CentralUnit { connected: false },
    ]);

    let e = state.error.clone().unwrap();
    assert_eq!(e.severity, ErrorSeverity::Error);
    assert_eq!(e.msg, "central unit disconnected");
}

#[test]
fn zero_thermometers_is_no_alarm() {
    // An empty thermometer set does not count as "all disconnected".
    let mut state = ControlState::new();
    state.apply_batch(&vec![Event::CentralUnit { connected: true }]);
    assert!(state.error.is_none());
    assert!(!state.actuation_demand);
}

#[test]
fn initial_pass_reports_central_unit_disconnected() {
    // The central unit starts out unseen, hence disconnected.
    let mut state = ControlState::new();
    state.apply_batch(&vec![]);
    let e = state.error.clone().unwrap();
    assert_eq!(e.severity, ErrorSeverity::Error);
    assert_eq!(e.msg, "central unit disconnected");
}

#[test]
fn all_sensors_disconnected_is_an_error() {
    let mut state = ControlState::new();
    state.apply_batch(&vec![
        Event::CentralUnit { connected: true },
        status_event("bedroom", false),
        status_event("kitchen", false),
    ]);
    let e = state.error.clone().unwrap();
    assert_eq!(e.severity, ErrorSeverity::Error);
    assert_eq!(e.msg, "all sensors disconnected");
}

#[test]
fn some_sensors_disconnected_is_a_warning() {
    let mut state = ControlState::new();
    state.apply_batch(&vec![
        Event::CentralUnit { connected: true },
        status_event("bedroom", true),
        status_event("kitchen", false),
    ]);
    let e = state.error.clone().unwrap();
    assert_eq!(e.severity, ErrorSeverity::Warning);
    assert_eq!(e.msg, "some sensors disconnected");
}

#[test]
fn all_connected_is_no_alarm() {
    let mut state = ControlState::new();
    state.apply_batch(&vec![
        Event::CentralUnit { connected: true },
        status_event("bedroom", true),
        status_event("kitchen", true),
    ]);
    assert!(state.error.is_none());
}

#[test]
fn measurement_alone_never_sets_demand() {
    // A record with only a reading has no setpoint to fall below.
    let mut state = ControlState::new();
    state.apply_batch(&vec![
        Event::CentralUnit { connected: true },
        measurement_event("bedroom", "3.0"),
    ]);
    assert!(!state.actuation_demand);

    // The implicitly created record defaults to disconnected with no
    // setpoint.
    let t = state.get(&"bedroom".to_string()).unwrap();
    assert_eq!(t.status, ThermometerStatus::Disconnected);
    assert_eq!(t.last_measurement, Some(temp("3.0")));
    assert_eq!(t.target_temperature, None);
}

#[test]
fn demand_requires_reading_strictly_below_setpoint() {
    let mut state = ControlState::new();
    state.apply_batch(&vec![
        measurement_event("bedroom", "21.0"),
        target_event("bedroom", "21.0"),
    ]);
    assert!(!state.actuation_demand);

    state.apply_batch(&vec![measurement_event("bedroom", "20.9")]);
    assert!(state.actuation_demand);

    state.apply_batch(&vec![measurement_event("bedroom", "21.1")]);
    assert!(!state.actuation_demand);
}

#[test]
fn fields_update_independently_and_keep_latest_value() {
    let mut state = ControlState::new();
    state.apply_batch(&vec![
        measurement_event("bedroom", "18.0"),
        measurement_event("bedroom", "19.0"),
        status_event("bedroom", true),
        measurement_event("bedroom", "20.0"),
    ]);
    let t = state.get(&"bedroom".to_string()).unwrap();
    assert_eq!(t.status, ThermometerStatus::Connected);
    assert_eq!(t.last_measurement, Some(temp("20.0")));
    assert_eq!(t.target_temperature, None);
}

#[test]
fn tracks_exactly_the_mentioned_names() {
    let mut state = ControlState::new();
    state.apply_batch(&vec![
        status_event("bedroom", true),
        measurement_event("kitchen", "20.0"),
        target_event("attic", "17.5"),
        measurement_event("bedroom", "19.0"),
    ]);
    let names = state.thermometer_names();
    assert_eq!(names, vec!["bedroom".to_string(), "kitchen".to_string(), "attic".to_string()]);
    assert!(state.get(&"cellar".to_string()).is_none());
}

#[test]
fn status_text_round_trip() {
    assert_eq!(ThermometerStatus::Connected.to_string(), "Connected");
    assert_eq!(ThermometerStatus::Disconnected.to_string(), "Disconnected");
    assert_eq!(
        ThermometerStatus::from_text(&"Connected".to_string()),
        Some(ThermometerStatus::Connected)
    );
    assert_eq!(
        ThermometerStatus::from_text(&"Disconnected".to_string()),
        Some(ThermometerStatus::Disconnected)
    );
    assert_eq!(ThermometerStatus::from_text(&"connected".to_string()), None);
}

#[test]
fn thermometer_predicates() {
    let t = Thermometer {
        status: ThermometerStatus::Disconnected,
        last_measurement: Some(temp("18.0")),
        target_temperature: Some(temp("21.0")),
    };
    assert!(t.is_disconnected());
    assert!(t.is_below_target());

    let t2 = Thermometer { target_temperature: None, ..t };
    assert!(!t2.is_below_target());

    let t3 = Thermometer { status: ThermometerStatus::Connected, ..t };
    assert!(!t3.is_disconnected());
}
