//! Command relay: operator setpoint requests, queued first-in first-out
//! and republished onto the bus exactly once per submission.

use crate::temperature::{temp_str, Temperature};
use vstd::prelude::*;

verus! {

broadcast use vstd::string::group_string_axioms;

/// One operator request: set `name`'s target temperature. Ephemeral — it
/// is consumed by exactly one outbound publication and never stored.
pub struct Command {
    pub name: String,
    pub target_temperature: Temperature,
}

/// One outbound bus message, ready for the transport.
#[derive(Clone, Debug)]
pub struct Publication {
    pub topic: String,
    pub payload: String,
    /// Whether the transport should set the retain flag.
    pub retain: bool,
}

/// `p` is the outbound message for a command: topic
/// `device/<name>/command`, the setpoint as a decimal string, not
/// retained.
pub open spec fn is_command_publication(p: Publication, name: Seq<char>, value: Temperature) -> bool {
    &&& p.topic@ == "device/"@ + name + "/command"@
    &&& p.payload@ == temp_str(value)
    &&& p.retain == false
}

/// Build the outbound message for one command.
pub fn command_publication(c: &Command) -> (p: Publication)
    requires
        c.target_temperature.wf(),
    ensures
        is_command_publication(p, c.name@, c.target_temperature),
{
    let mut topic = String::from_str("device/");
    topic.append(c.name.as_str());
    topic.append("/command");
    let payload = c.target_temperature.to_string();
    Publication { topic, payload, retain: false }
}

/// The pending commands, oldest first.
pub struct CommandRelay {
    queue: Vec<Command>,
}

impl CommandRelay {
    /// The queued commands, in submission order.
    pub closed spec fn pending(self) -> Seq<Command> {
        self.queue@
    }

    pub open spec fn wf(self) -> bool {
        forall|i: int| 0 <= i < self.pending().len() ==> (#[trigger] self.pending()[i]).target_temperature.wf()
    }

    pub fn new() -> (r: CommandRelay)
        ensures
            r.wf(),
            r.pending() == Seq::<Command>::empty(),
    {
        CommandRelay { queue: Vec::new() }
    }

    /// Accept one request; it will be relayed on the next drain, after
    /// everything submitted before it.
    pub fn submit(&mut self, name: String, target_temperature: Temperature)
        requires
            old(self).wf(),
            target_temperature.wf(),
        ensures
            final(self).wf(),
            final(self).pending() == old(self).pending().push(
                (Command { name, target_temperature }),
            ),
    {
        self.queue.push(Command { name, target_temperature });
    }

    /// Hand out every pending command, oldest first, leaving the queue
    /// empty. No deduplication: each submission appears exactly once.
    pub fn drain(&mut self) -> (r: Vec<Command>)
        requires
            old(self).wf(),
        ensures
            final(self).wf(),
            final(self).pending() == Seq::<Command>::empty(),
            r@ == old(self).pending(),
    {
        let mut out: Vec<Command> = Vec::new();
        core::mem::swap(&mut self.queue, &mut out);
        out
    }
}

} // verus!
