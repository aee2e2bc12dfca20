//! Message ingress: classifying raw bus messages into typed events.
//!
//! Topics are split on `'/'` and matched against the subscribed shapes;
//! payloads are decoded as UTF-8 text and then as a status token or a
//! decimal literal. A malformed payload on a recognized topic yields a
//! [`DecodeError`] for that one message — never a crash — and a topic of
//! any other shape is silently ignored.

use crate::state::{Event, SpecEvent, ThermometerStatus};
use crate::temperature::{is_decimal_lit, lit_in_range, lit_mantissa, lit_scale, Temperature};
use vstd::prelude::*;
use vstd::utf8::{decode_utf8, valid_utf8};

verus! {

broadcast use vstd::string::group_string_axioms;

/// One raw bus message: a topic and its payload bytes.
#[derive(Clone, Debug)]
pub struct MqttMsg {
    pub topic: String,
    pub payload: Vec<u8>,
}

/// Why one message was dropped. Decoding failures are recoverable: the
/// message is discarded and processing continues.
#[derive(Clone, Copy, PartialEq, Eq, Structural, Debug)]
pub enum DecodeError {
    /// The payload is not valid UTF-8 text.
    Utf8,
    /// The payload is not a plain decimal literal within range.
    Number,
    /// The payload is not `"connected"` or `"disconnected"`.
    Status,
}

/// The segments of `s` split on `'/'`, as `str::split` yields them: an
/// empty input has one empty segment, and a trailing separator a trailing
/// empty segment.
pub open spec fn split_slash(s: Seq<char>) -> Seq<Seq<char>>
    decreases s.len(),
{
    if s.len() == 0 {
        seq![Seq::<char>::empty()]
    } else if s.last() == '/' {
        split_slash(s.drop_last()).push(Seq::empty())
    } else {
        let rest = split_slash(s.drop_last());
        rest.update(rest.len() - 1, rest.last().push(s.last()))
    }
}

proof fn lemma_split_slash_nonempty(s: Seq<char>)
    ensures
        split_slash(s).len() >= 1,
    decreases s.len(),
{
    if s.len() > 0 {
        lemma_split_slash_nonempty(s.drop_last());
    }
}

/// The views of a vector of owned segments.
pub open spec fn seq_strs(v: Seq<String>) -> Seq<Seq<char>> {
    v.map_values(|x: String| x@)
}

/// Split a topic on `'/'`.
fn split_topic(s: &str) -> (r: Vec<String>)
    ensures
        seq_strs(r@) == split_slash(s@),
        r@.len() >= 1,
{
    let len: usize = s.unicode_len();
    let mut out: Vec<String> = Vec::new();
    let mut start: usize = 0;
    let mut i: usize = 0;
    proof {
        assert(seq_strs(out@).push(s@.subrange(0, 0)) =~~= split_slash(s@.take(0)));
    }
    while i < len
        invariant
            start <= i <= len,
            len == s@.len(),
            seq_strs(out@).push(s@.subrange(start as int, i as int)) == split_slash(
                s@.take(i as int),
            ),
        decreases len - i,
    {
        let ghost prev = s@.take(i as int);
        proof {
            assert(s@.take(i + 1).drop_last() =~= prev);
            assert(s@.take(i + 1).last() == s@[i as int]);
            lemma_split_slash_nonempty(prev);
        }
        if s.get_char(i) == '/' {
            let seg = s.substring_char(start, i).to_owned();
            out.push(seg);
            start = i + 1;
            proof {
                assert(seq_strs(out@) =~~= seq_strs(out@.drop_last()).push(seg@));
                assert(seq_strs(out@).push(s@.subrange(start as int, i + 1)) =~~= split_slash(
                    s@.take(i + 1),
                ));
            }
        } else {
            proof {
                assert(s@.subrange(start as int, i + 1) =~= s@.subrange(start as int, i as int).push(
                    s@[i as int],
                ));
                assert(seq_strs(out@).push(s@.subrange(start as int, i + 1)) =~~= split_slash(
                    s@.take(i + 1),
                ));
            }
        }
        i = i + 1;
    }
    let seg = s.substring_char(start, len).to_owned();
    out.push(seg);
    proof {
        assert(s@.take(len as int) =~= s@);
        assert(seq_strs(out@) =~~= seq_strs(out@.drop_last()).push(seg@));
        assert(seq_strs(out@) =~~= split_slash(s@));
    }
    out
}

/// The payload as text, when it is valid UTF-8.
pub open spec fn spec_payload_text(payload: Seq<u8>) -> Option<Seq<char>> {
    if valid_utf8(payload) {
        Some(decode_utf8(payload))
    } else {
        None
    }
}

/// The status vocabulary: exactly `"connected"` / `"disconnected"`,
/// case-sensitive.
pub open spec fn spec_connected_token(text: Seq<char>) -> Option<bool> {
    if text == "connected"@ {
        Some(true)
    } else if text == "disconnected"@ {
        Some(false)
    } else {
        None
    }
}

/// A payload decoded as a temperature value.
pub open spec fn spec_decode_value(payload: Seq<u8>) -> Result<Temperature, DecodeError> {
    match spec_payload_text(payload) {
        None => Err(DecodeError::Utf8),
        Some(text) => if is_decimal_lit(text) && lit_in_range(text) {
            Ok(
                Temperature {
                    mantissa: lit_mantissa(text) as i64,
                    scale: lit_scale(text) as u32,
                },
            )
        } else {
            Err(DecodeError::Number)
        },
    }
}

/// A payload decoded as a status token.
pub open spec fn spec_decode_token(payload: Seq<u8>) -> Result<bool, DecodeError> {
    match spec_payload_text(payload) {
        None => Err(DecodeError::Utf8),
        Some(text) => match spec_connected_token(text) {
            Some(b) => Ok(b),
            None => Err(DecodeError::Status),
        },
    }
}

/// Classification of one raw message: `Ok(Some)` for a decoded event,
/// `Ok(None)` for a topic of no recognized shape, `Err` for a recognized
/// topic whose payload is malformed.
pub open spec fn spec_decode(topic: Seq<char>, payload: Seq<u8>) -> Result<
    Option<SpecEvent>,
    DecodeError,
> {
    let segs = split_slash(topic);
    if segs.len() == 3 && segs[0] == "device"@ {
        if segs[2] == "status"@ {
            match spec_decode_token(payload) {
                Ok(true) => Ok(
                    Some(
                        SpecEvent::Status { name: segs[1], status: ThermometerStatus::Connected },
                    ),
                ),
                Ok(false) => Ok(
                    Some(
                        SpecEvent::Status {
                            name: segs[1],
                            status: ThermometerStatus::Disconnected,
                        },
                    ),
                ),
                Err(e) => Err(e),
            }
        } else if segs[2] == "measurement"@ {
            match spec_decode_value(payload) {
                Ok(v) => Ok(Some(SpecEvent::Measurement { name: segs[1], value: v })),
                Err(e) => Err(e),
            }
        } else if segs[2] == "target"@ {
            match spec_decode_value(payload) {
                Ok(v) => Ok(Some(SpecEvent::Target { name: segs[1], value: v })),
                Err(e) => Err(e),
            }
        } else {
            Ok(None)
        }
    } else if topic == "actuator/status"@ {
        match spec_decode_token(payload) {
            Ok(b) => Ok(Some(SpecEvent::CentralUnit { connected: b })),
            Err(e) => Err(e),
        }
    } else {
        Ok(None)
    }
}

/// The exec result mirrors the mathematical classification.
pub open spec fn decode_result_matches(
    r: Result<Option<Event>, DecodeError>,
    s: Result<Option<SpecEvent>, DecodeError>,
) -> bool {
    match r {
        Ok(Some(e)) => s == Ok::<Option<SpecEvent>, DecodeError>(Some(e@)),
        Ok(None) => s == Ok::<Option<SpecEvent>, DecodeError>(None),
        Err(er) => s == Err::<Option<SpecEvent>, DecodeError>(er),
    }
}

/// Relies on `String::from_utf8` from std: it returns `Ok` exactly when
/// the bytes are valid UTF-8, and then yields their decoding.
#[verifier::external_body]
fn payload_text(payload: &Vec<u8>) -> (r: Option<String>)
    ensures
        r is Some <==> valid_utf8(payload@),
        r matches Some(s) ==> s@ == decode_utf8(payload@),
{
    match String::from_utf8(payload.clone()) {
        Ok(s) => Some(s),
        Err(_) => None,
    }
}

fn status_token(text: &String) -> (r: Option<bool>)
    ensures
        r == spec_connected_token(text@),
{
    proof {
        reveal_strlit("connected");
        reveal_strlit("disconnected");
        assert("connected"@.len() == 9);
        assert("disconnected"@.len() == 12);
    }
    if text.eq(&String::from_str("connected")) {
        Some(true)
    } else if text.eq(&String::from_str("disconnected")) {
        Some(false)
    } else {
        None
    }
}

fn decode_token(payload: &Vec<u8>) -> (r: Result<bool, DecodeError>)
    ensures
        r == spec_decode_token(payload@),
{
    match payload_text(payload) {
        None => Err(DecodeError::Utf8),
        Some(text) => match status_token(&text) {
            Some(b) => Ok(b),
            None => Err(DecodeError::Status),
        },
    }
}

fn decode_value(payload: &Vec<u8>) -> (r: Result<Temperature, DecodeError>)
    ensures
        r == spec_decode_value(payload@),
        r matches Ok(t) ==> t.wf(),
{
    match payload_text(payload) {
        None => Err(DecodeError::Utf8),
        Some(text) => match Temperature::parse(text.as_str()) {
            Some(t) => Ok(t),
            None => Err(DecodeError::Number),
        },
    }
}

/// Classify one raw bus message. `Ok(Some)` carries a typed, well-formed
/// event; `Ok(None)` means the topic's shape is not subscribed and the
/// message is ignored; `Err` reports a malformed payload on a recognized
/// topic.
pub fn decode_msg(msg: &MqttMsg) -> (r: Result<Option<Event>, DecodeError>)
    ensures
        decode_result_matches(r, spec_decode(msg.topic@, msg.payload@)),
        r matches Ok(Some(ev)) ==> ev@.wf(),
{
    proof {
        reveal_strlit("device");
        reveal_strlit("status");
        reveal_strlit("measurement");
        reveal_strlit("target");
        reveal_strlit("actuator/status");
        assert("status"@.len() == 6);
        assert("measurement"@.len() == 11);
        assert("target"@.len() == 6);
    }
    let segs = split_topic(msg.topic.as_str());
    if segs.len() == 3 && segs[0].eq(&String::from_str("device")) {
        proof {
            assert(seq_strs(segs@)[0] == segs@[0]@);
            assert(seq_strs(segs@)[1] == segs@[1]@);
            assert(seq_strs(segs@)[2] == segs@[2]@);
        }
        if segs[2].eq(&String::from_str("status")) {
            match decode_token(&msg.payload) {
                Ok(true) => Ok(
                    Some(
                        Event::Status {
                            name: segs[1].clone(),
                            status: ThermometerStatus::Connected,
                        },
                    ),
                ),
                Ok(false) => Ok(
                    Some(
                        Event::Status {
                            name: segs[1].clone(),
                            status: ThermometerStatus::Disconnected,
                        },
                    ),
                ),
                Err(e) => Err(e),
            }
        } else if segs[2].eq(&String::from_str("measurement")) {
            match decode_value(&msg.payload) {
                Ok(v) => Ok(Some(Event::Measurement { name: segs[1].clone(), value: v })),
                Err(e) => Err(e),
            }
        } else if segs[2].eq(&String::from_str("target")) {
            match decode_value(&msg.payload) {
                Ok(v) => Ok(Some(Event::Target { name: segs[1].clone(), value: v })),
                Err(e) => Err(e),
            }
        } else {
            Ok(None)
        }
    } else if msg.topic.eq(&String::from_str("actuator/status")) {
        match decode_token(&msg.payload) {
            Ok(b) => Ok(Some(Event::CentralUnit { connected: b })),
            Err(e) => Err(e),
        }
    } else {
        Ok(None)
    }
}

} // verus!
