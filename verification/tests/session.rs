use xframes_bridge::descriptor::ElementDescriptor;
use xframes_bridge::session::{Session, SessionState};
use xframes_bridge::BridgeError;

fn ready_session() -> Session {
    let mut s = Session::new();
    s.begin_start().unwrap();
    s.notify_init().unwrap();
    s
}

#[test]
fn no_submission_is_valid_before_init_fires() {
    let mut s = Session::new();
    let d = ElementDescriptor::node(0, true);
    assert_eq!(s.submit_element(&d), Err(BridgeError::ProtocolViolation));
    assert_eq!(s.submit_children(0, &vec![1]), Err(BridgeError::ProtocolViolation));
    s.begin_start().unwrap();
    assert_eq!(s.submit_element(&d), Err(BridgeError::ProtocolViolation));
    assert_eq!(s.submit_children(0, &vec![1]), Err(BridgeError::ProtocolViolation));
    s.notify_init().unwrap();
    assert!(s.submit_element(&d).is_ok());
}

#[test]
fn init_fires_exactly_once() {
    let mut s = Session::new();
    assert_eq!(s.notify_init(), Err(BridgeError::ProtocolViolation));
    s.begin_start().unwrap();
    assert_eq!(s.notify_init(), Ok(()));
    assert_eq!(s.notify_init(), Err(BridgeError::ProtocolViolation));
    assert_eq!(s.state(), SessionState::Ready);
}

#[test]
fn start_cannot_be_reentered() {
    let mut s = Session::new();
    assert_eq!(s.begin_start(), Ok(()));
    assert_eq!(s.begin_start(), Err(BridgeError::ProtocolViolation));
}

#[test]
fn set_children_replaces_wholesale() {
    let mut s = ready_session();
    for id in [0u32, 1, 2] {
        s.submit_element(&ElementDescriptor::node(id, id == 0)).unwrap();
    }
    assert_eq!(s.submit_children(0, &vec![1, 2]).unwrap(), b"[1,2]".to_vec());
    assert_eq!(s.children_of(0), Some(&vec![1, 2]));
    // resubmitting replaces, never merges
    assert_eq!(s.submit_children(0, &vec![2]).unwrap(), b"[2]".to_vec());
    assert_eq!(s.children_of(0), Some(&vec![2]));
    // order is rendering order and is kept exactly
    assert_eq!(s.submit_children(0, &vec![2, 1]).unwrap(), b"[2,1]".to_vec());
    assert_eq!(s.children_of(0), Some(&vec![2, 1]));
    assert_eq!(s.children_of(1), None);
}

#[test]
fn unsubmitted_ids_are_never_referenced() {
    let mut s = ready_session();
    s.submit_element(&ElementDescriptor::node(0, true)).unwrap();
    // unknown parent
    assert_eq!(s.submit_children(5, &vec![0]), Err(BridgeError::ProtocolViolation));
    // unknown child
    assert_eq!(s.submit_children(0, &vec![1]), Err(BridgeError::ProtocolViolation));
    assert_eq!(s.children_of(0), None);
    assert!(s.is_registered(0));
    assert!(!s.is_registered(1));
}

#[test]
fn encoding_failure_spoils_only_that_submission() {
    let mut s = ready_session();
    let bad = ElementDescriptor::unformatted_text(9, vec![10]);
    assert_eq!(s.submit_element(&bad), Err(BridgeError::Encoding));
    assert!(!s.is_registered(9));
    let good = ElementDescriptor::unformatted_text(9, b"fine".to_vec());
    assert!(s.submit_element(&good).is_ok());
    assert!(s.is_registered(9));
}

#[test]
fn no_boundary_calls_after_shutdown_begins() {
    let mut s = ready_session();
    s.submit_element(&ElementDescriptor::node(0, true)).unwrap();
    s.begin_shutdown().unwrap();
    assert_eq!(
        s.submit_element(&ElementDescriptor::node(1, false)),
        Err(BridgeError::ProtocolViolation)
    );
    assert_eq!(s.submit_children(0, &vec![0]), Err(BridgeError::ProtocolViolation));
    s.terminate().unwrap();
    assert_eq!(s.state(), SessionState::Terminated);
    assert_eq!(s.terminate(), Err(BridgeError::ProtocolViolation));
}

#[test]
fn end_to_end_tree_submission() {
    let mut s = Session::new();
    s.begin_start().unwrap();
    s.notify_init().unwrap();

    let root = s.submit_element(&ElementDescriptor::node(0, true)).unwrap();
    assert_eq!(root, b"{\"id\":0,\"type\":\"node\",\"root\":true}".to_vec());

    let text = s
        .submit_element(&ElementDescriptor::unformatted_text(1, b"Hello, world".to_vec()))
        .unwrap();
    assert_eq!(
        text,
        b"{\"id\":1,\"type\":\"unformatted-text\",\"text\":\"Hello, world\"}".to_vec()
    );

    let children = s.submit_children(0, &vec![1]).unwrap();
    assert_eq!(children, b"[1]".to_vec());

    // observable state: one root with one text child
    assert!(s.is_registered(0));
    assert!(s.is_registered(1));
    assert_eq!(s.children_of(0), Some(&vec![1]));
    assert_eq!(s.children_of(1), None);
}
