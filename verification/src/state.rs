//! Aggregate controller state and the event reducer.
//!
//! A batch of typed events is folded into the single authoritative state:
//! thermometer records are upserted field by field, and the central unit's
//! connectivity is tracked alongside. Two derived decisions — the alarm and
//! the actuation demand — are recomputed from scratch after each batch.

use crate::temperature::{temp_lt, Temperature};
use vstd::prelude::*;

verus! {

broadcast use vstd::string::group_string_axioms;

/// Connectivity of one thermometer.
#[derive(Clone, Copy, PartialEq, Eq, Structural, Debug)]
pub enum ThermometerStatus {
    Connected,
    Disconnected,
}

/// One tracked sensor endpoint. Each field is updated independently: a
/// measurement message never implies a status change, and vice versa.
#[derive(Clone, Copy, PartialEq, Eq, Debug)]
pub struct Thermometer {
    pub status: ThermometerStatus,
    /// Last reported reading, in degrees Celsius.
    pub last_measurement: Option<Temperature>,
    /// Last requested setpoint, in degrees Celsius.
    pub target_temperature: Option<Temperature>,
}

impl Thermometer {
    /// Record for a name first seen through a non-status message.
    pub open spec fn spec_default() -> Thermometer {
        Thermometer {
            status: ThermometerStatus::Disconnected,
            last_measurement: None,
            target_temperature: None,
        }
    }

    pub open spec fn wf(self) -> bool {
        &&& (self.last_measurement matches Some(t) ==> t.wf())
        &&& (self.target_temperature matches Some(t) ==> t.wf())
    }

    /// Both values are present and the reading is strictly below the
    /// setpoint.
    pub open spec fn spec_below_target(self) -> bool {
        &&& self.last_measurement matches Some(m)
        &&& self.target_temperature matches Some(t)
        &&& temp_lt(m, t)
    }

    pub fn is_disconnected(&self) -> (r: bool)
        ensures
            r == (self.status is Disconnected),
    {
        match self.status {
            ThermometerStatus::Connected => false,
            ThermometerStatus::Disconnected => true,
        }
    }

    pub fn is_below_target(&self) -> (r: bool)
        requires
            self.wf(),
        ensures
            r == self.spec_below_target(),
    {
        if let Some(m) = self.last_measurement {
            if let Some(t) = self.target_temperature {
                m.lt(&t)
            } else {
                false
            }
        } else {
            false
        }
    }
}

impl ThermometerStatus {
    /// The text used by the history store: `"Connected"` / `"Disconnected"`.
    pub fn to_string(&self) -> (r: String)
        ensures
            *self is Connected ==> r@ == "Connected"@,
            *self is Disconnected ==> r@ == "Disconnected"@,
    {
        match self {
            ThermometerStatus::Connected => String::from_str("Connected"),
            ThermometerStatus::Disconnected => String::from_str("Disconnected"),
        }
    }

    /// Inverse of [`Self::to_string`]; `None` on any other text.
    pub fn from_text(s: &String) -> (r: Option<ThermometerStatus>)
        ensures
            s@ == "Connected"@ ==> r == Some(ThermometerStatus::Connected),
            s@ == "Disconnected"@ ==> r == Some(ThermometerStatus::Disconnected),
            s@ != "Connected"@ && s@ != "Disconnected"@ ==> r is None,
    {
        proof {
            reveal_strlit("Connected");
            reveal_strlit("Disconnected");
            assert("Connected"@.len() == 9);
            assert("Connected"@ != "Disconnected"@);
        }
        if s.eq(&String::from_str("Connected")) {
            Some(ThermometerStatus::Connected)
        } else if s.eq(&String::from_str("Disconnected")) {
            Some(ThermometerStatus::Disconnected)
        } else {
            None
        }
    }
}

/// Severity of the derived alarm.
#[derive(Clone, Copy, PartialEq, Eq, Structural, Debug)]
pub enum ErrorSeverity {
    Warning,
    Error,
}

/// The derived alarm: the worst current connectivity problem.
#[derive(Clone, Debug)]
pub struct Error {
    pub msg: String,
    pub severity: ErrorSeverity,
}

/// A typed event decoded from one bus message.
#[derive(Clone, Debug)]
pub enum Event {
    Status { name: String, status: ThermometerStatus },
    Measurement { name: String, value: Temperature },
    Target { name: String, value: Temperature },
    CentralUnit { connected: bool },
}

/// Mathematical form of an [`Event`]: names as character sequences.
pub ghost enum SpecEvent {
    Status { name: Seq<char>, status: ThermometerStatus },
    Measurement { name: Seq<char>, value: Temperature },
    Target { name: Seq<char>, value: Temperature },
    CentralUnit { connected: bool },
}

impl View for Event {
    type V = SpecEvent;

    open spec fn view(&self) -> SpecEvent {
        match self {
            Event::Status { name, status } => SpecEvent::Status { name: name@, status: *status },
            Event::Measurement { name, value } => SpecEvent::Measurement {
                name: name@,
                value: *value,
            },
            Event::Target { name, value } => SpecEvent::Target { name: name@, value: *value },
            Event::CentralUnit { connected } => SpecEvent::CentralUnit { connected: *connected },
        }
    }
}

impl SpecEvent {
    pub open spec fn wf(self) -> bool {
        match self {
            SpecEvent::Measurement { value, .. } => value.wf(),
            SpecEvent::Target { value, .. } => value.wf(),
            _ => true,
        }
    }
}

/// Mathematical form of the mutable state: the thermometers as a map from
/// name to record, and the central unit's connectivity.
#[verifier::ext_equal]
pub ghost struct StateModel {
    pub thermometers: Map<Seq<char>, Thermometer>,
    pub central_unit_connected: bool,
}

/// The state the controller starts from: no thermometers, central unit not
/// yet seen (so treated as disconnected).
pub open spec fn init_model() -> StateModel {
    StateModel { thermometers: Map::empty(), central_unit_connected: false }
}

/// The record an upsert starts from: the existing one, or the default.
pub open spec fn upsert_base(m: Map<Seq<char>, Thermometer>, name: Seq<char>) -> Thermometer {
    if m.contains_key(name) {
        m[name]
    } else {
        Thermometer::spec_default()
    }
}

/// One reducer step: how a single event transforms the state model.
pub open spec fn spec_apply(m: StateModel, e: SpecEvent) -> StateModel {
    match e {
        SpecEvent::Status { name, status } => StateModel {
            thermometers: m.thermometers.insert(
                name,
                Thermometer { status, ..upsert_base(m.thermometers, name) },
            ),
            ..m
        },
        SpecEvent::Measurement { name, value } => StateModel {
            thermometers: m.thermometers.insert(
                name,
                Thermometer { last_measurement: Some(value), ..upsert_base(m.thermometers, name) },
            ),
            ..m
        },
        SpecEvent::Target { name, value } => StateModel {
            thermometers: m.thermometers.insert(
                name,
                Thermometer {
                    target_temperature: Some(value),
                    ..upsert_base(m.thermometers, name)
                },
            ),
            ..m
        },
        SpecEvent::CentralUnit { connected } => StateModel { central_unit_connected: connected, ..m },
    }
}

/// The reducer folded over a whole batch, in order.
pub open spec fn spec_apply_all(m: StateModel, evs: Seq<SpecEvent>) -> StateModel
    decreases evs.len(),
{
    if evs.len() == 0 {
        m
    } else {
        spec_apply(spec_apply_all(m, evs.drop_last()), evs.last())
    }
}

/// The views of a batch of events.
pub open spec fn seq_views(evs: Seq<Event>) -> Seq<SpecEvent> {
    evs.map_values(|e: Event| e@)
}

/// There is at least one thermometer.
pub open spec fn has_thermometers(m: StateModel) -> bool {
    m.thermometers.dom() != Set::<Seq<char>>::empty()
}

/// Every thermometer (if any) is disconnected.
pub open spec fn all_disconnected(m: StateModel) -> bool {
    forall|k: Seq<char>|
        #[trigger] m.thermometers.contains_key(k) ==> m.thermometers[k].status is Disconnected
}

/// At least one thermometer is disconnected.
pub open spec fn some_disconnected(m: StateModel) -> bool {
    exists|k: Seq<char>|
        #[trigger] m.thermometers.contains_key(k) && m.thermometers[k].status is Disconnected
}

/// The derived alarm, by priority: a disconnected central unit beats all
/// sensors disconnected, which beats some sensors disconnected, which beats
/// no alarm. An empty thermometer set on its own raises no alarm.
pub open spec fn spec_alarm(m: StateModel) -> Option<(ErrorSeverity, Seq<char>)> {
    if !m.central_unit_connected {
        Some((ErrorSeverity::Error, "central unit disconnected"@))
    } else if has_thermometers(m) && all_disconnected(m) {
        Some((ErrorSeverity::Error, "all sensors disconnected"@))
    } else if some_disconnected(m) {
        Some((ErrorSeverity::Warning, "some sensors disconnected"@))
    } else {
        None
    }
}

/// The stored alarm value agrees with the mathematical one.
pub open spec fn alarm_matches(e: Option<Error>, a: Option<(ErrorSeverity, Seq<char>)>) -> bool {
    match a {
        None => e is None,
        Some(alarm) => e matches Some(err) && err.severity == alarm.0 && err.msg@ == alarm.1,
    }
}

/// The derived actuation demand: some thermometer has both a reading and a
/// setpoint, with the reading strictly below the setpoint.
pub open spec fn spec_demand(m: StateModel) -> bool {
    exists|k: Seq<char>|
        #[trigger] m.thermometers.contains_key(k) && m.thermometers[k].spec_below_target()
}

/// The single authoritative aggregate state: the thermometer table, the
/// central unit's connectivity, and the two derived decisions.
#[derive(Clone, Debug)]
pub struct ControlState {
    pub thermometer_list: Vec<(String, Thermometer)>,
    /// Derived: the current alarm, recomputed every reducer pass.
    pub error: Option<Error>,
    pub central_unit_connected: bool,
    /// Derived: whether heating should currently be driven.
    pub actuation_demand: bool,
}

/// The thermometer table read as a map from name to record.
pub open spec fn entries_map(s: Seq<(String, Thermometer)>) -> Map<Seq<char>, Thermometer>
    decreases s.len(),
{
    if s.len() == 0 {
        Map::empty()
    } else {
        entries_map(s.drop_last()).insert(s.last().0@, s.last().1)
    }
}

/// No two entries share a name.
pub open spec fn unique_names(s: Seq<(String, Thermometer)>) -> bool {
    forall|i: int, j: int| 0 <= i < j < s.len() ==> (#[trigger] s[i]).0@ != (#[trigger] s[j]).0@
}

proof fn lemma_entries_map_contains(s: Seq<(String, Thermometer)>, k: Seq<char>)
    ensures
        entries_map(s).contains_key(k) <==> exists|i: int| 0 <= i < s.len() && (#[trigger] s[i]).0@
            == k,
    decreases s.len(),
{
    if s.len() > 0 {
        lemma_entries_map_contains(s.drop_last(), k);
        if exists|i: int| 0 <= i < s.len() && (#[trigger] s[i]).0@ == k {
            let i = choose|i: int| 0 <= i < s.len() && (#[trigger] s[i]).0@ == k;
            if i < s.len() - 1 {
                assert(s.drop_last()[i].0@ == k);
            }
        }
        if entries_map(s).contains_key(k) && k != s.last().0@ {
            let i = choose|i: int|
                0 <= i < s.drop_last().len() && (#[trigger] s.drop_last()[i]).0@ == k;
            assert(s[i].0@ == k);
        }
    }
}

proof fn lemma_entries_map_value(s: Seq<(String, Thermometer)>, i: int)
    requires
        unique_names(s),
        0 <= i < s.len(),
    ensures
        entries_map(s).contains_key(s[i].0@),
        entries_map(s)[s[i].0@] == s[i].1,
    decreases s.len(),
{
    if i < s.len() - 1 {
        assert(unique_names(s.drop_last()));
        lemma_entries_map_value(s.drop_last(), i);
        assert(s.drop_last()[i] == s[i]);
        assert(s[i].0@ != s.last().0@);
    }
}

proof fn lemma_entries_map_update(s: Seq<(String, Thermometer)>, i: int, t: Thermometer)
    requires
        unique_names(s),
        0 <= i < s.len(),
    ensures
        unique_names(s.update(i, (s[i].0, t))),
        entries_map(s.update(i, (s[i].0, t))) == entries_map(s).insert(s[i].0@, t),
    decreases s.len(),
{
    let s2 = s.update(i, (s[i].0, t));
    assert forall|a: int, b: int| 0 <= a < b < s2.len() implies (#[trigger] s2[a]).0@
        != (#[trigger] s2[b]).0@ by {
        assert(s2[a].0@ == s[a].0@);
        assert(s2[b].0@ == s[b].0@);
    }
    if i == s.len() - 1 {
        assert(s2.drop_last() =~= s.drop_last());
        assert(s2.last() == (s[i].0, t));
        assert(entries_map(s2) =~= entries_map(s).insert(s[i].0@, t));
    } else {
        assert(unique_names(s.drop_last()));
        lemma_entries_map_update(s.drop_last(), i, t);
        assert(s2.drop_last() =~= s.drop_last().update(i, (s[i].0, t)));
        assert(s2.last() == s.last());
        assert(s[i].0@ != s.last().0@);
        assert(entries_map(s2) =~= entries_map(s).insert(s[i].0@, t));
    }
}

impl ControlState {
    pub open spec fn model(self) -> StateModel {
        StateModel {
            thermometers: entries_map(self.thermometer_list@),
            central_unit_connected: self.central_unit_connected,
        }
    }

    pub open spec fn wf(self) -> bool {
        &&& unique_names(self.thermometer_list@)
        &&& forall|i: int|
            0 <= i < self.thermometer_list@.len() ==> (#[trigger] self.thermometer_list@[i]).1.wf()
    }

    /// The state the process starts from: empty, central unit treated as
    /// disconnected, no alarm, no demand.
    pub fn new() -> (r: ControlState)
        ensures
            r.wf(),
            r.model() == init_model(),
            r.error is None,
            r.actuation_demand == false,
            r.thermometer_list@.len() == 0,
    {
        ControlState {
            thermometer_list: Vec::new(),
            error: None,
            central_unit_connected: false,
            actuation_demand: false,
        }
    }

    /// Index of the entry for `name`, if one exists.
    fn find_index(&self, name: &String) -> (r: Option<usize>)
        ensures
            match r {
                Some(i) => i < self.thermometer_list@.len() && self.thermometer_list@[i as int].0@
                    == name@,
                None => forall|k: int|
                    0 <= k < self.thermometer_list@.len() ==> (#[trigger] self.thermometer_list@[k]).0@
                        != name@,
            },
    {
        let n: usize = self.thermometer_list.len();
        let mut i: usize = 0;
        while i < n
            invariant
                n == self.thermometer_list@.len(),
                i <= n,
                forall|k: int| 0 <= k < i ==> (#[trigger] self.thermometer_list@[k]).0@ != name@,
            decreases n - i,
        {
            if self.thermometer_list[i].0.eq(name) {
                return Some(i);
            }
            i = i + 1;
        }
        None
    }

    /// Apply one typed event: upsert the named record (default
    /// `Disconnected`/`None`/`None`) and set the one field the event
    /// carries, or record the central unit's connectivity. Derived fields
    /// are left alone; they are recomputed once per batch.
    pub fn apply_event(&mut self, event: &Event)
        requires
            old(self).wf(),
            event@.wf(),
        ensures
            final(self).wf(),
            final(self).model() == spec_apply(old(self).model(), event@),
            final(self).error == old(self).error,
            final(self).actuation_demand == old(self).actuation_demand,
    {
        match event {
            Event::Status { name, status } => {
                let base = self.upsert(name);
                let i = base.0;
                let mut t = base.1;
                t.status = *status;
                self.set_entry(i, t);
                proof {
                    assert(self.model().thermometers =~= spec_apply(
                        old(self).model(),
                        event@,
                    ).thermometers);
                    assert(self.model() =~= spec_apply(old(self).model(), event@));
                }
            },
            Event::Measurement { name, value } => {
                let base = self.upsert(name);
                let i = base.0;
                let mut t = base.1;
                t.last_measurement = Some(*value);
                self.set_entry(i, t);
                proof {
                    assert(self.model().thermometers =~= spec_apply(
                        old(self).model(),
                        event@,
                    ).thermometers);
                    assert(self.model() =~= spec_apply(old(self).model(), event@));
                }
            },
            Event::Target { name, value } => {
                let base = self.upsert(name);
                let i = base.0;
                let mut t = base.1;
                t.target_temperature = Some(*value);
                self.set_entry(i, t);
                proof {
                    assert(self.model().thermometers =~= spec_apply(
                        old(self).model(),
                        event@,
                    ).thermometers);
                    assert(self.model() =~= spec_apply(old(self).model(), event@));
                }
            },
            Event::CentralUnit { connected } => {
                self.central_unit_connected = *connected;
            },
        }
    }

    /// Ensure an entry for `name` exists (creating the default record if
    /// not) and hand back its index and current record.
    fn upsert(&mut self, name: &String) -> (r: (usize, Thermometer))
        requires
            old(self).wf(),
        ensures
            final(self).wf(),
            final(self).error == old(self).error,
            final(self).central_unit_connected == old(self).central_unit_connected,
            final(self).actuation_demand == old(self).actuation_demand,
            r.0 < final(self).thermometer_list@.len(),
            final(self).thermometer_list@[r.0 as int].0@ == name@,
            r.1 == final(self).thermometer_list@[r.0 as int].1,
            r.1 == upsert_base(old(self).model().thermometers, name@),
            final(self).model().thermometers == old(self).model().thermometers.insert(name@, r.1),
    {
        match self.find_index(name) {
            Some(i) => {
                let t = self.thermometer_list[i].1;
                proof {
                    lemma_entries_map_value(self.thermometer_list@, i as int);
                    lemma_entries_map_update(self.thermometer_list@, i as int, t);
                    assert(self.thermometer_list@.update(i as int, (self.thermometer_list@[i as int].0, t))
                        =~= self.thermometer_list@);
                    assert(self.model().thermometers.insert(name@, t) =~= self.model().thermometers);
                }
                (i, t)
            },
            None => {
                let t = Thermometer {
                    status: ThermometerStatus::Disconnected,
                    last_measurement: None,
                    target_temperature: None,
                };
                let ghost s0 = self.thermometer_list@;
                self.thermometer_list.push((name.clone(), t));
                proof {
                    lemma_entries_map_contains(s0, name@);
                    assert(self.thermometer_list@.drop_last() =~= s0);
                    assert(!entries_map(s0).contains_key(name@));
                    let i = self.thermometer_list@.len() - 1;
                    assert forall|a: int, b: int|
                        0 <= a < b < self.thermometer_list@.len() implies (#[trigger] self.thermometer_list@[a]).0@
                        != (#[trigger] self.thermometer_list@[b]).0@ by {
                        if b < i {
                            assert(s0[a].0@ != s0[b].0@);
                        } else {
                            assert(self.thermometer_list@[b].0@ == name@);
                            assert(s0[a].0@ == self.thermometer_list@[a].0@);
                            lemma_entries_map_contains(s0, s0[a].0@);
                        }
                    }
                }
                (self.thermometer_list.len() - 1, t)
            },
        }
    }

    /// Apply a drained batch of events, in order. Derived fields are left
    /// alone; [`Self::apply_batch`] recomputes them afterwards.
    pub fn apply_events(&mut self, events: &Vec<Event>)
        requires
            old(self).wf(),
            forall|i: int| 0 <= i < events@.len() ==> (#[trigger] events@[i])@.wf(),
        ensures
            final(self).wf(),
            final(self).model() == spec_apply_all(old(self).model(), seq_views(events@)),
            final(self).error == old(self).error,
            final(self).actuation_demand == old(self).actuation_demand,
    {
        let n: usize = events.len();
        let mut i: usize = 0;
        while i < n
            invariant
                self.wf(),
                n == events@.len(),
                i <= n,
                forall|k: int| 0 <= k < events@.len() ==> (#[trigger] events@[k])@.wf(),
                self.model() == spec_apply_all(old(self).model(), seq_views(events@).take(i as int)),
                self.error == old(self).error,
                self.actuation_demand == old(self).actuation_demand,
            decreases n - i,
        {
            self.apply_event(&events[i]);
            i = i + 1;
            proof {
                assert(seq_views(events@).take(i as int).drop_last() =~= seq_views(events@).take(
                    i - 1,
                ));
                assert(seq_views(events@).take(i as int).last() == events@[i - 1]@);
            }
        }
        proof {
            assert(seq_views(events@).take(n as int) =~= seq_views(events@));
        }
    }

    /// One full reducer pass: apply the batch, then recompute the alarm and
    /// the actuation demand exactly once.
    pub fn apply_batch(&mut self, events: &Vec<Event>)
        requires
            old(self).wf(),
            forall|i: int| 0 <= i < events@.len() ==> (#[trigger] events@[i])@.wf(),
        ensures
            final(self).wf(),
            final(self).model() == spec_apply_all(old(self).model(), seq_views(events@)),
            alarm_matches(final(self).error, spec_alarm(final(self).model())),
            final(self).actuation_demand == spec_demand(final(self).model()),
    {
        self.apply_events(events);
        self.update_error();
        self.update_actuation_demand();
    }

    /// Recompute the derived alarm from the current thermometers and
    /// central-unit connectivity.
    pub fn update_error(&mut self)
        requires
            old(self).wf(),
        ensures
            final(self).wf(),
            final(self).thermometer_list == old(self).thermometer_list,
            final(self).central_unit_connected == old(self).central_unit_connected,
            final(self).actuation_demand == old(self).actuation_demand,
            final(self).model() == old(self).model(),
            alarm_matches(final(self).error, spec_alarm(old(self).model())),
    {
        proof {
            if self.thermometer_list@.len() > 0 {
                lemma_entries_map_value(self.thermometer_list@, 0);
                assert(self.model().thermometers.dom().contains(
                    self.thermometer_list@[0].0@,
                ));
            } else {
                assert(self.model().thermometers =~= Map::empty());
                assert(self.model().thermometers.dom() =~= Set::empty());
            }
        }
        let new_error: Option<Error>;
        if !self.central_unit_connected {
            new_error = Some(
                Error {
                    msg: String::from_str("central unit disconnected"),
                    severity: ErrorSeverity::Error,
                },
            );
        } else if self.thermometer_list.len() > 0 && self.all_disconnected_exec() {
            new_error = Some(
                Error {
                    msg: String::from_str("all sensors disconnected"),
                    severity: ErrorSeverity::Error,
                },
            );
        } else if self.any_disconnected_exec() {
            new_error = Some(
                Error {
                    msg: String::from_str("some sensors disconnected"),
                    severity: ErrorSeverity::Warning,
                },
            );
        } else {
            new_error = None;
        }
        self.error = new_error;
    }

    /// Recompute the derived actuation demand from the current
    /// thermometers.
    pub fn update_actuation_demand(&mut self)
        requires
            old(self).wf(),
        ensures
            final(self).wf(),
            final(self).thermometer_list == old(self).thermometer_list,
            final(self).central_unit_connected == old(self).central_unit_connected,
            final(self).error == old(self).error,
            final(self).model() == old(self).model(),
            final(self).actuation_demand == spec_demand(old(self).model()),
    {
        let d = self.demand_exec();
        self.actuation_demand = d;
    }

    fn all_disconnected_exec(&self) -> (r: bool)
        requires
            self.wf(),
        ensures
            r == all_disconnected(self.model()),
    {
        let n: usize = self.thermometer_list.len();
        let mut i: usize = 0;
        while i < n
            invariant
                self.wf(),
                n == self.thermometer_list@.len(),
                i <= n,
                forall|k: int|
                    0 <= k < i ==> (#[trigger] self.thermometer_list@[k]).1.status is Disconnected,
            decreases n - i,
        {
            let t = self.thermometer_list[i].1;
            if !t.is_disconnected() {
                proof {
                    lemma_entries_map_value(self.thermometer_list@, i as int);
                }
                return false;
            }
            i = i + 1;
        }
        proof {
            assert forall|k: Seq<char>|
                #[trigger] self.model().thermometers.contains_key(k) implies self.model().thermometers[k].status is Disconnected by {
                lemma_entries_map_contains(self.thermometer_list@, k);
                let j = choose|j: int|
                    0 <= j < self.thermometer_list@.len() && (#[trigger] self.thermometer_list@[j]).0@
                        == k;
                lemma_entries_map_value(self.thermometer_list@, j);
            }
        }
        true
    }

    fn any_disconnected_exec(&self) -> (r: bool)
        requires
            self.wf(),
        ensures
            r == some_disconnected(self.model()),
    {
        let n: usize = self.thermometer_list.len();
        let mut i: usize = 0;
        while i < n
            invariant
                self.wf(),
                n == self.thermometer_list@.len(),
                i <= n,
                forall|k: int|
                    0 <= k < i ==> !((#[trigger] self.thermometer_list@[k]).1.status
                        is Disconnected),
            decreases n - i,
        {
            let t = self.thermometer_list[i].1;
            if t.is_disconnected() {
                proof {
                    lemma_entries_map_value(self.thermometer_list@, i as int);
                }
                return true;
            }
            i = i + 1;
        }
        proof {
            assert forall|k: Seq<char>|
                #[trigger] self.model().thermometers.contains_key(k) implies !(self.model().thermometers[k].status is Disconnected) by {
                lemma_entries_map_contains(self.thermometer_list@, k);
                let j = choose|j: int|
                    0 <= j < self.thermometer_list@.len() && (#[trigger] self.thermometer_list@[j]).0@
                        == k;
                lemma_entries_map_value(self.thermometer_list@, j);
            }
        }
        false
    }

    fn demand_exec(&self) -> (r: bool)
        requires
            self.wf(),
        ensures
            r == spec_demand(self.model()),
    {
        let n: usize = self.thermometer_list.len();
        let mut i: usize = 0;
        while i < n
            invariant
                self.wf(),
                n == self.thermometer_list@.len(),
                i <= n,
                forall|k: int|
                    0 <= k < i ==> !(#[trigger] self.thermometer_list@[k]).1.spec_below_target(),
            decreases n - i,
        {
            let t = self.thermometer_list[i].1;
            if t.is_below_target() {
                proof {
                    lemma_entries_map_value(self.thermometer_list@, i as int);
                    assert(self.model().thermometers[self.thermometer_list@[i as int].0@]
                        == t);
                    assert(spec_demand(self.model()));
                }
                return true;
            }
            i = i + 1;
        }
        proof {
            assert forall|k: Seq<char>|
                #[trigger] self.model().thermometers.contains_key(k) implies !self.model().thermometers[k].spec_below_target() by {
                lemma_entries_map_contains(self.thermometer_list@, k);
                let j = choose|j: int|
                    0 <= j < self.thermometer_list@.len() && (#[trigger] self.thermometer_list@[j]).0@
                        == k;
                lemma_entries_map_value(self.thermometer_list@, j);
            }
        }
        false
    }

    /// Snapshot accessor: the record for `name`, if one exists.
    pub fn get(&self, name: &String) -> (r: Option<&Thermometer>)
        requires
            self.wf(),
        ensures
            match r {
                Some(t) => self.model().thermometers.contains_key(name@)
                    && self.model().thermometers[name@] == *t,
                None => !self.model().thermometers.contains_key(name@),
            },
    {
        proof {
            lemma_entries_map_contains(self.thermometer_list@, name@);
        }
        match self.find_index(name) {
            Some(i) => {
                proof {
                    lemma_entries_map_value(self.thermometer_list@, i as int);
                }
                Some(&self.thermometer_list[i].1)
            },
            None => None,
        }
    }

    /// Snapshot accessor: the names of all known thermometers, in table
    /// order.
    pub fn thermometer_names(&self) -> (r: Vec<String>)
        ensures
            r@.len() == self.thermometer_list@.len(),
            forall|i: int|
                0 <= i < r@.len() ==> (#[trigger] r@[i])@ == self.thermometer_list@[i].0@,
    {
        let n: usize = self.thermometer_list.len();
        let mut out: Vec<String> = Vec::new();
        let mut i: usize = 0;
        while i < n
            invariant
                n == self.thermometer_list@.len(),
                i <= n,
                out@.len() == i,
                forall|k: int|
                    0 <= k < i ==> (#[trigger] out@[k])@ == self.thermometer_list@[k].0@,
            decreases n - i,
        {
            out.push(self.thermometer_list[i].0.clone());
            i = i + 1;
        }
        out
    }

    /// Overwrite the record at a known index, keeping its name.
    fn set_entry(&mut self, i: usize, t: Thermometer)
        requires
            old(self).wf(),
            i < old(self).thermometer_list@.len(),
            t.wf(),
        ensures
            final(self).wf(),
            final(self).error == old(self).error,
            final(self).central_unit_connected == old(self).central_unit_connected,
            final(self).actuation_demand == old(self).actuation_demand,
            final(self).model().thermometers == old(self).model().thermometers.insert(
                old(self).thermometer_list@[i as int].0@,
                t,
            ),
            final(self).model().central_unit_connected == old(self).model().central_unit_connected,
    {
        proof {
            lemma_entries_map_update(self.thermometer_list@, i as int, t);
        }
        self.thermometer_list[i].1 = t;
        proof {
            assert(final(self).thermometer_list@ =~= old(self).thermometer_list@.update(
                i as int,
                (old(self).thermometer_list@[i as int].0, t),
            ));
        }
    }
}

/// The thermometer names a batch of device events mentions.
pub open spec fn event_names(evs: Seq<SpecEvent>) -> Set<Seq<char>>
    decreases evs.len(),
{
    if evs.len() == 0 {
        Set::empty()
    } else {
        let rest = event_names(evs.drop_last());
        match evs.last() {
            SpecEvent::Status { name, .. } => rest.insert(name),
            SpecEvent::Measurement { name, .. } => rest.insert(name),
            SpecEvent::Target { name, .. } => rest.insert(name),
            SpecEvent::CentralUnit { .. } => rest,
        }
    }
}

/// The last status a batch assigns to `name`, if any.
pub open spec fn last_status(evs: Seq<SpecEvent>, name: Seq<char>) -> Option<ThermometerStatus>
    decreases evs.len(),
{
    if evs.len() == 0 {
        None
    } else {
        match evs.last() {
            SpecEvent::Status { name: n, status } => if n == name {
                Some(status)
            } else {
                last_status(evs.drop_last(), name)
            },
            _ => last_status(evs.drop_last(), name),
        }
    }
}

/// The last measurement a batch assigns to `name`, if any.
pub open spec fn last_measurement(evs: Seq<SpecEvent>, name: Seq<char>) -> Option<Temperature>
    decreases evs.len(),
{
    if evs.len() == 0 {
        None
    } else {
        match evs.last() {
            SpecEvent::Measurement { name: n, value } => if n == name {
                Some(value)
            } else {
                last_measurement(evs.drop_last(), name)
            },
            _ => last_measurement(evs.drop_last(), name),
        }
    }
}

/// The last setpoint a batch assigns to `name`, if any.
pub open spec fn last_target(evs: Seq<SpecEvent>, name: Seq<char>) -> Option<Temperature>
    decreases evs.len(),
{
    if evs.len() == 0 {
        None
    } else {
        match evs.last() {
            SpecEvent::Target { name: n, value } => if n == name {
                Some(value)
            } else {
                last_target(evs.drop_last(), name)
            },
            _ => last_target(evs.drop_last(), name),
        }
    }
}

proof fn lemma_absent_name(evs: Seq<SpecEvent>, name: Seq<char>)
    requires
        !event_names(evs).contains(name),
    ensures
        last_status(evs, name) is None,
        last_measurement(evs, name) is None,
        last_target(evs, name) is None,
    decreases evs.len(),
{
    if evs.len() > 0 {
        lemma_absent_name(evs.drop_last(), name);
    }
}

/// Law: one reducer pass from the empty state tracks exactly the mentioned
/// names, and each record field holds the most recently applied value for
/// that field — the default (`Disconnected`/`None`/`None`) where the batch
/// never set it.
pub proof fn lemma_reducer_tracks_devices(evs: Seq<SpecEvent>)
    requires
        forall|i: int| 0 <= i < evs.len() ==> !((#[trigger] evs[i]) is CentralUnit),
    ensures
        spec_apply_all(init_model(), evs).thermometers.dom() =~= event_names(evs),
        forall|n: Seq<char>| #[trigger]
            event_names(evs).contains(n) ==> {
                let t = spec_apply_all(init_model(), evs).thermometers[n];
                &&& t.status == (match last_status(evs, n) {
                    Some(s) => s,
                    None => ThermometerStatus::Disconnected,
                })
                &&& t.last_measurement == last_measurement(evs, n)
                &&& t.target_temperature == last_target(evs, n)
            },
    decreases evs.len(),
{
    if evs.len() > 0 {
        let prev_evs = evs.drop_last();
        assert(forall|i: int| 0 <= i < prev_evs.len() ==> !((#[trigger] prev_evs[i]) is CentralUnit));
        lemma_reducer_tracks_devices(prev_evs);
        let prev = spec_apply_all(init_model(), prev_evs);
        let m = spec_apply_all(init_model(), evs);
        assert(evs[evs.len() - 1] == evs.last());
        assert(!(evs.last() is CentralUnit));
        assert forall|n: Seq<char>| #[trigger] event_names(evs).contains(n) implies {
            let t = m.thermometers[n];
            &&& t.status == (match last_status(evs, n) {
                Some(s) => s,
                None => ThermometerStatus::Disconnected,
            })
            &&& t.last_measurement == last_measurement(evs, n)
            &&& t.target_temperature == last_target(evs, n)
        } by {
            match evs.last() {
                SpecEvent::Status { name, status } => {
                    if n == name && !prev.thermometers.contains_key(n) {
                        lemma_absent_name(prev_evs, n);
                    }
                },
                SpecEvent::Measurement { name, value } => {
                    if n == name && !prev.thermometers.contains_key(n) {
                        lemma_absent_name(prev_evs, n);
                    }
                },
                SpecEvent::Target { name, value } => {
                    if n == name && !prev.thermometers.contains_key(n) {
                        lemma_absent_name(prev_evs, n);
                    }
                },
                SpecEvent::CentralUnit { .. } => {},
            }
        }
    }
}

/// Law: the alarm rules apply in strict priority order — a disconnected
/// central unit always wins; with it connected, "all sensors disconnected"
/// (on a non-empty set) wins over "some sensors disconnected"; with no
/// sensor disconnected there is no alarm.
pub proof fn lemma_alarm_priority(m: StateModel)
    ensures
        !m.central_unit_connected ==> spec_alarm(m) == Some(
            (ErrorSeverity::Error, "central unit disconnected"@),
        ),
        m.central_unit_connected && has_thermometers(m) && all_disconnected(m) ==> spec_alarm(m) == Some(
            (ErrorSeverity::Error, "all sensors disconnected"@),
        ),
        m.central_unit_connected && !(has_thermometers(m) && all_disconnected(m)) && some_disconnected(m)
            ==> spec_alarm(m) == Some((ErrorSeverity::Warning, "some sensors disconnected"@)),
        m.central_unit_connected && !some_disconnected(m) ==> spec_alarm(m) is None,
{
    if m.central_unit_connected && !some_disconnected(m) && has_thermometers(m) && all_disconnected(m) {
        assert forall|k: Seq<char>| !(#[trigger] m.thermometers.dom().contains(k)) by {
            if m.thermometers.dom().contains(k) {
                assert(m.thermometers.contains_key(k));
                assert(m.thermometers[k].status is Disconnected);
            }
        }
        assert(m.thermometers.dom() =~= Set::empty());
    }
}

/// Law: with the central unit connected and no thermometers at all, there
/// is no alarm — the "all sensors disconnected" rule never fires on an
/// empty set.
pub proof fn lemma_empty_set_no_alarm(m: StateModel)
    requires
        m.central_unit_connected,
        m.thermometers.dom() == Set::<Seq<char>>::empty(),
    ensures
        spec_alarm(m) is None,
{
    if some_disconnected(m) {
        let k = choose|k: Seq<char>| #[trigger]
            m.thermometers.contains_key(k) && m.thermometers[k].status is Disconnected;
        assert(m.thermometers.dom().contains(k));
    }
}

/// Law: a thermometer with no setpoint never contributes to the actuation
/// demand — adding a record that carries only a measurement leaves the
/// demand unchanged.
pub proof fn lemma_no_target_no_demand(m: StateModel, name: Seq<char>, t: Thermometer)
    requires
        !m.thermometers.contains_key(name),
        t.target_temperature is None,
    ensures
        spec_demand(
            StateModel {
                thermometers: m.thermometers.insert(name, t),
                central_unit_connected: m.central_unit_connected,
            },
        ) == spec_demand(m),
{
    let m2 = StateModel {
        thermometers: m.thermometers.insert(name, t),
        central_unit_connected: m.central_unit_connected,
    };
    if spec_demand(m2) {
        let k = choose|k: Seq<char>| #[trigger]
            m2.thermometers.contains_key(k) && m2.thermometers[k].spec_below_target();
        assert(k != name);
        assert(m.thermometers.contains_key(k) && m.thermometers[k].spec_below_target());
    }
    if spec_demand(m) {
        let k = choose|k: Seq<char>| #[trigger]
            m.thermometers.contains_key(k) && m.thermometers[k].spec_below_target();
        assert(k != name);
        assert(m2.thermometers.contains_key(k) && m2.thermometers[k].spec_below_target());
    }
}

} // verus!
