use xframes_bridge::dispatch::{dispatch, EventLog};
use xframes_bridge::events::{
    boolean_event, click_event, combo_event, multi_numeric_event, numeric_event, text_event,
    Event,
};
use xframes_bridge::BridgeError;

#[test]
fn text_payload_is_copied_before_the_handle_dies() {
    // the renderer-owned buffer, alive only for the duration of the call
    let transient: Vec<u8> = b"Hello, world".to_vec();
    let ev = text_event(1, Some(transient.clone())).unwrap();
    drop(transient); // the handle is gone before dispatch
    let mut log = EventLog::new();
    dispatch(&mut log, ev);
    assert_eq!(log.len(), 1);
    assert_eq!(
        log.get(0),
        &Event::TextChanged { id: 1, text: b"Hello, world".to_vec() }
    );
}

#[test]
fn absent_text_handle_is_a_payload_error_not_a_crash() {
    assert_eq!(text_event(1, None), Err(BridgeError::BoundaryPayload));
    assert_eq!(multi_numeric_event(1, None), Err(BridgeError::BoundaryPayload));
}

#[test]
fn multi_numeric_count_three_arrives_in_order() {
    let raw = vec![1.0f32.to_bits(), 2.0f32.to_bits(), 3.0f32.to_bits()];
    let ev = multi_numeric_event(9, Some(raw)).unwrap();
    let mut log = EventLog::new();
    dispatch(&mut log, ev);
    match log.get(0) {
        Event::MultiNumericChanged { id, values } => {
            assert_eq!(*id, 9);
            assert_eq!(values.len(), 3);
            let seen: Vec<f32> = values.iter().map(|b| f32::from_bits(*b)).collect();
            assert_eq!(seen, vec![1.0f32, 2.0f32, 3.0f32]);
        }
        other => panic!("routed to the wrong channel: {:?}", other),
    }
}

#[test]
fn multi_numeric_count_zero_is_empty_not_an_error() {
    let ev = multi_numeric_event(4, Some(vec![])).unwrap();
    assert_eq!(ev, Event::MultiNumericChanged { id: 4, values: vec![] });
}

#[test]
fn dispatch_routes_each_kind_to_its_own_channel() {
    let mut log = EventLog::new();
    dispatch(&mut log, text_event(1, Some(b"t".to_vec())).unwrap());
    dispatch(&mut log, combo_event(2, 5));
    dispatch(&mut log, numeric_event(3, 1.5f32.to_bits()));
    dispatch(&mut log, boolean_event(4, true));
    dispatch(&mut log, multi_numeric_event(5, Some(vec![7])).unwrap());
    dispatch(&mut log, click_event(6));
    assert_eq!(log.len(), 6);
    assert_eq!(log.get(0), &Event::TextChanged { id: 1, text: b"t".to_vec() });
    assert_eq!(log.get(1), &Event::ComboChanged { id: 2, index: 5 });
    assert_eq!(log.get(2), &Event::NumericChanged { id: 3, bits: 1.5f32.to_bits() });
    assert_eq!(log.get(3), &Event::BooleanChanged { id: 4, value: true });
    assert_eq!(log.get(4), &Event::MultiNumericChanged { id: 5, values: vec![7] });
    assert_eq!(log.get(5), &Event::Click { id: 6 });
}

#[test]
fn unknown_ids_are_passed_through_unfiltered() {
    // the bridge keeps no registry of live event targets
    let mut log = EventLog::new();
    dispatch(&mut log, click_event(-7));
    dispatch(&mut log, click_event(123456));
    assert_eq!(log.get(0), &Event::Click { id: -7 });
    assert_eq!(log.get(1), &Event::Click { id: 123456 });
}
