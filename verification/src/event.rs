use vstd::prelude::*;

verus! {

/// A single analytics event as handed over by the host application.
///
/// `properties` carries the event's property map as serialized JSON text; the
/// queue never looks inside it, it is only spliced verbatim into the wire
/// body. The host converts its structured property value to text before
/// calling into this library.
pub struct PhEvent {
    pub event: String,
    pub properties: String,
    pub timestamp: Option<String>,
}

/// One batch of events together with the credential used to deliver it.
pub struct BatchPayload {
    pub events: Vec<PhEvent>,
    pub api_key: String,
}

/// Counts reported back to the host for one submitted batch: how many events
/// were delivered immediately and how many were persisted for a later retry.
pub struct BatchResult {
    pub sent: usize,
    pub queued: usize,
}

/// How one delivery attempt ended: a success status, a response with any
/// other status, or no response at all (DNS, connection, timeout). The two
/// failure variants are treated identically by every caller: retry later.
#[derive(PartialEq, Eq, Structural)]
pub enum Outcome {
    Success,
    Rejected(u16),
    Unreachable,
}

/// Classifies one delivery attempt: a response with a success status code is
/// the only success signal, any other response is a rejection, and no
/// response at all is an unreachable endpoint.
pub fn classify_outcome(status: Option<u16>) -> (o: Outcome)
    ensures
        match status {
            Option::Some(s) => if 200 <= s < 300 {
                o == Outcome::Success
            } else {
                o == Outcome::Rejected(s)
            },
            Option::None => o == Outcome::Unreachable,
        },
{
    match status {
        Option::Some(s) => {
            if 200 <= s && s < 300 {
                Outcome::Success
            } else {
                Outcome::Rejected(s)
            }
        },
        Option::None => Outcome::Unreachable,
    }
}

} // verus!
