//! Typed inbound events: the closed tagged union the renderer reports user
//! interaction through, decoded at the boundary edge and nowhere deeper.

use vstd::prelude::*;

use crate::BridgeError;

verus! {

/// One user-interaction event for one element id, with its payload fully
/// copied into application-owned values before it is handed on.
///
/// Numeric payloads cross the boundary as raw 32-bit patterns; the bridge
/// carries them through without interpreting them.
#[derive(Debug, PartialEq)]
#[verifier::ext_equal]
pub enum Event {
    TextChanged { id: i32, text: Vec<u8> },
    ComboChanged { id: i32, index: i32 },
    NumericChanged { id: i32, bits: u32 },
    BooleanChanged { id: i32, value: bool },
    MultiNumericChanged { id: i32, values: Vec<u32> },
    Click { id: i32 },
}

/// The mathematical shape of an event.
#[verifier::ext_equal]
pub enum EventModel {
    TextChanged { id: i32, text: Seq<u8> },
    ComboChanged { id: i32, index: i32 },
    NumericChanged { id: i32, bits: u32 },
    BooleanChanged { id: i32, value: bool },
    MultiNumericChanged { id: i32, values: Seq<u32> },
    Click { id: i32 },
}

impl View for Event {
    type V = EventModel;

    open spec fn view(&self) -> EventModel {
        match self {
            Event::TextChanged { id, text } => EventModel::TextChanged { id: *id, text: text@ },
            Event::ComboChanged { id, index } => EventModel::ComboChanged {
                id: *id,
                index: *index,
            },
            Event::NumericChanged { id, bits } => EventModel::NumericChanged {
                id: *id,
                bits: *bits,
            },
            Event::BooleanChanged { id, value } => EventModel::BooleanChanged {
                id: *id,
                value: *value,
            },
            Event::MultiNumericChanged { id, values } => EventModel::MultiNumericChanged {
                id: *id,
                values: values@,
            },
            Event::Click { id } => EventModel::Click { id: *id },
        }
    }
}

/// Build the event for a changed text payload.
///
/// `payload` is the application-owned copy of the renderer's transient
/// buffer; an absent handle is a boundary payload error, which callers
/// treat as "no event", never as a crash.
pub fn text_event(id: i32, payload: Option<Vec<u8>>) -> (r: Result<Event, BridgeError>)
    ensures
        payload matches Some(text) ==> r == Ok::<Event, BridgeError>(
            Event::TextChanged { id, text },
        ),
        payload is None ==> r == Err::<Event, BridgeError>(BridgeError::BoundaryPayload),
{
    match payload {
        Some(text) => Ok(Event::TextChanged { id, text }),
        None => Err(BridgeError::BoundaryPayload),
    }
}

/// Build the event for a multi-numeric payload.
///
/// `values` is the application-owned copy of the renderer's buffer, read
/// only up to the reported count; a count of zero gives an event with an
/// empty payload, not an error. An absent handle is a boundary payload
/// error.
pub fn multi_numeric_event(id: i32, values: Option<Vec<u32>>) -> (r: Result<Event, BridgeError>)
    ensures
        values matches Some(bits) ==> r == Ok::<Event, BridgeError>(
            Event::MultiNumericChanged { id, values: bits },
        ),
        values is None ==> r == Err::<Event, BridgeError>(BridgeError::BoundaryPayload),
{
    match values {
        Some(bits) => Ok(Event::MultiNumericChanged { id, values: bits }),
        None => Err(BridgeError::BoundaryPayload),
    }
}

/// Build the event for a combo selection.
pub fn combo_event(id: i32, index: i32) -> (e: Event)
    ensures
        e == (Event::ComboChanged { id, index }),
{
    Event::ComboChanged { id, index }
}

/// Build the event for a single numeric change, the value as its raw
/// 32-bit pattern.
pub fn numeric_event(id: i32, bits: u32) -> (e: Event)
    ensures
        e == (Event::NumericChanged { id, bits }),
{
    Event::NumericChanged { id, bits }
}

/// Build the event for a boolean change.
pub fn boolean_event(id: i32, value: bool) -> (e: Event)
    ensures
        e == (Event::BooleanChanged { id, value }),
{
    Event::BooleanChanged { id, value }
}

/// Build the event for a click.
pub fn click_event(id: i32) -> (e: Event)
    ensures
        e == (Event::Click { id }),
{
    Event::Click { id }
}

} // verus!
