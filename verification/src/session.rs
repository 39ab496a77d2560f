//! The session lifecycle controller and the tree topology registry: one
//! explicit handle for the single session, passed to every operation,
//! instead of a hidden global.

use vstd::prelude::*;

use std::collections::HashMap;
use std::collections::HashSet;

use crate::codec::{children_wire, encode_children, encode_descriptor, wire_of};
use crate::descriptor::{DescriptorModel, ElementDescriptor};
use crate::BridgeError;

verus! {

broadcast use vstd::std_specs::hash::group_hash_axioms;

/// The lifecycle states of the single session.
#[derive(Clone, Copy, PartialEq, Eq, Structural, Debug)]
pub enum SessionState {
    /// Before the start call.
    Uninitialized,
    /// The start call was entered; the renderer is bootstrapping.
    Initializing,
    /// The renderer signalled readiness; submissions are accepted.
    Ready,
    /// The hosting process decided to exit; no further boundary calls.
    ShuttingDown,
    /// The session is over for the rest of the process lifetime.
    Terminated,
}

/// The mathematical state of a session: its lifecycle state, the element
/// ids it has submitted, and the topology it has submitted (parent id to
/// ordered child ids).
#[verifier::ext_equal]
pub struct SessionModel {
    pub state: SessionState,
    pub registered: Set<u32>,
    pub topology: Map<u32, Seq<u32>>,
}

/// Whether the ready signal is accepted in this state.
pub open spec fn init_accepted(m: SessionModel) -> bool {
    m.state == SessionState::Initializing
}

/// The session after the accepted ready signal.
pub open spec fn init_step(m: SessionModel) -> SessionModel {
    SessionModel { state: SessionState::Ready, ..m }
}

/// Whether an element submission is accepted: only once the ready signal
/// has fired, and only for content the transport can carry.
pub open spec fn element_accepted(m: SessionModel, d: DescriptorModel) -> bool {
    m.state == SessionState::Ready && d.wf()
}

/// The session after an accepted element submission.
pub open spec fn element_step(m: SessionModel, d: DescriptorModel) -> SessionModel {
    SessionModel { registered: m.registered.insert(d.id), ..m }
}

/// Whether a child-list submission is accepted: only once ready, and only
/// for ids the bridge has itself submitted — it never emits a reference to
/// an id it does not know.
pub open spec fn children_accepted(m: SessionModel, parent: u32, ids: Seq<u32>) -> bool {
    &&& m.state == SessionState::Ready
    &&& m.registered.contains(parent)
    &&& forall|i: int| 0 <= i < ids.len() ==> m.registered.contains(#[trigger] ids[i])
}

/// The session after an accepted child-list submission.
pub open spec fn children_step(m: SessionModel, parent: u32, ids: Seq<u32>) -> SessionModel {
    SessionModel { topology: m.topology.insert(parent, ids), ..m }
}

/// Every id the submitted topology mentions was itself submitted first.
pub open spec fn references_registered(m: SessionModel) -> bool {
    forall|p: u32| #[trigger]
        m.topology.contains_key(p) ==> m.registered.contains(p) && (forall|i: int|
            0 <= i < m.topology[p].len() ==> m.registered.contains(#[trigger] m.topology[p][i]))
}

/// The handle of the single session within one process.
pub struct Session {
    state: SessionState,
    registered: HashSet<u32>,
    topology: HashMap<u32, Vec<u32>>,
}

impl View for Session {
    type V = SessionModel;

    closed spec fn view(&self) -> SessionModel {
        SessionModel {
            state: self.state,
            registered: self.registered@,
            topology: self.topology@.map_values(|v: Vec<u32>| v@),
        }
    }
}

impl Session {
    /// A fresh session, not yet started.
    pub fn new() -> (s: Session)
        ensures
            s@ == (SessionModel {
                state: SessionState::Uninitialized,
                registered: Set::<u32>::empty(),
                topology: Map::<u32, Seq<u32>>::empty(),
            }),
    {
        let s = Session {
            state: SessionState::Uninitialized,
            registered: HashSet::new(),
            topology: HashMap::new(),
        };
        proof {
            assert(s@.topology =~= Map::<u32, Seq<u32>>::empty());
            assert(s@ =~= SessionModel {
                state: SessionState::Uninitialized,
                registered: Set::<u32>::empty(),
                topology: Map::<u32, Seq<u32>>::empty(),
            });
        }
        s
    }

    /// The current lifecycle state.
    pub fn state(&self) -> (st: SessionState)
        ensures
            st == self@.state,
    {
        self.state
    }

    /// Whether an element id has been submitted in this session.
    pub fn is_registered(&self, id: u32) -> (r: bool)
        ensures
            r == self@.registered.contains(id),
    {
        self.registered.contains(&id)
    }

    /// Enter the start call. The caller hands the dispatch table to the
    /// renderer exactly here and blocks inside the boundary for the life of
    /// the session; re-entering start is a protocol violation.
    pub fn begin_start(&mut self) -> (r: Result<(), BridgeError>)
        ensures
            r is Ok <==> old(self)@.state == SessionState::Uninitialized,
            r is Ok ==> final(self)@ == (SessionModel {
                state: SessionState::Initializing,
                ..old(self)@
            }),
            r is Err ==> final(self)@ == old(self)@ && r == Err::<(), BridgeError>(
                BridgeError::ProtocolViolation,
            ),
    {
        match self.state {
            SessionState::Uninitialized => {
                self.state = SessionState::Initializing;
                proof {
                    assert(final(self)@ =~= SessionModel {
                        state: SessionState::Initializing,
                        ..old(self)@
                    });
                }
                Ok(())
            },
            _ => Err(BridgeError::ProtocolViolation),
        }
    }

    /// Record the renderer's one-time ready signal. It is accepted exactly
    /// once, while initializing; any further signal is a protocol
    /// violation and changes nothing.
    pub fn notify_init(&mut self) -> (r: Result<(), BridgeError>)
        ensures
            r is Ok <==> init_accepted(old(self)@),
            r is Ok ==> final(self)@ == init_step(old(self)@),
            r is Err ==> final(self)@ == old(self)@ && r == Err::<(), BridgeError>(
                BridgeError::ProtocolViolation,
            ),
    {
        match self.state {
            SessionState::Initializing => {
                self.state = SessionState::Ready;
                proof {
                    assert(final(self)@ =~= init_step(old(self)@));
                }
                Ok(())
            },
            _ => Err(BridgeError::ProtocolViolation),
        }
    }

    /// Submit one element: on acceptance, the canonical wire document to
    /// hand across the boundary, with the id recorded as registered.
    ///
    /// Rejected whole before the ready signal and after shutdown begins,
    /// and for content the transport cannot carry; a rejected submission
    /// changes nothing and nothing partial is handed out.
    pub fn submit_element(&mut self, d: &ElementDescriptor) -> (r: Result<Vec<u8>, BridgeError>)
        ensures
            r is Ok <==> element_accepted(old(self)@, d@),
            r matches Ok(v) ==> v@ == wire_of(d@) && final(self)@ == element_step(
                old(self)@,
                d@,
            ),
            r is Err ==> final(self)@ == old(self)@ && r == Err::<Vec<u8>, BridgeError>(
                if old(self)@.state != SessionState::Ready {
                    BridgeError::ProtocolViolation
                } else {
                    BridgeError::Encoding
                },
            ),
    {
        if !matches!(self.state, SessionState::Ready) {
            return Err(BridgeError::ProtocolViolation);
        }
        match encode_descriptor(d) {
            Ok(v) => {
                self.registered.insert(d.id);
                proof {
                    assert(final(self)@ =~= element_step(old(self)@, d@));
                }
                Ok(v)
            },
            Err(e) => Err(e),
        }
    }

    /// Submit the ordered child list of one parent: on acceptance, the
    /// canonical wire document, with the registry's list for that parent
    /// replaced wholesale — never merged.
    ///
    /// Rejected whole unless the session is ready and the parent and every
    /// child were submitted before; the bridge never emits a reference to
    /// an id it has not itself submitted.
    pub fn submit_children(&mut self, parent: u32, children: &Vec<u32>) -> (r: Result<
        Vec<u8>,
        BridgeError,
    >)
        ensures
            r is Ok <==> children_accepted(old(self)@, parent, children@),
            r matches Ok(v) ==> v@ == children_wire(children@) && final(self)@ == children_step(
                old(self)@,
                parent,
                children@,
            ),
            r is Err ==> final(self)@ == old(self)@ && r == Err::<Vec<u8>, BridgeError>(
                BridgeError::ProtocolViolation,
            ),
    {
        if !matches!(self.state, SessionState::Ready) {
            return Err(BridgeError::ProtocolViolation);
        }
        if !self.registered.contains(&parent) {
            return Err(BridgeError::ProtocolViolation);
        }
        let mut k: usize = 0;
        while k < children.len()
            invariant
                k <= children.len(),
                forall|i: int| 0 <= i < k ==> self@.registered.contains(#[trigger] children@[i]),
                self@ == old(self)@,
            decreases children.len() - k,
        {
            if !self.registered.contains(&children[k]) {
                return Err(BridgeError::ProtocolViolation);
            }
            k = k + 1;
        }
        let stored = clone_ids(children);
        self.topology.insert(parent, stored);
        proof {
            assert(final(self)@.topology =~= children_step(old(self)@, parent, children@).topology);
            assert(final(self)@ =~= children_step(old(self)@, parent, children@));
        }
        Ok(encode_children(children))
    }

    /// The child list last submitted for `parent`, if any.
    pub fn children_of(&self, parent: u32) -> (r: Option<&Vec<u32>>)
        ensures
            match r {
                Some(v) => self@.topology.contains_key(parent) && v@ == self@.topology[parent],
                None => !self@.topology.contains_key(parent),
            },
    {
        let r = self.topology.get(&parent);
        proof {
            if r is Some {
                assert(self.topology@.contains_key(parent));
                assert(self@.topology[parent] == self.topology@[parent]@);
            }
        }
        r
    }

    /// Begin an orderly shutdown: after this, no submission is accepted,
    /// so no further boundary call is issued.
    pub fn begin_shutdown(&mut self) -> (r: Result<(), BridgeError>)
        ensures
            r is Ok <==> old(self)@.state == SessionState::Ready,
            r is Ok ==> final(self)@ == (SessionModel {
                state: SessionState::ShuttingDown,
                ..old(self)@
            }),
            r is Err ==> final(self)@ == old(self)@ && r == Err::<(), BridgeError>(
                BridgeError::ProtocolViolation,
            ),
    {
        match self.state {
            SessionState::Ready => {
                self.state = SessionState::ShuttingDown;
                proof {
                    assert(final(self)@ =~= SessionModel {
                        state: SessionState::ShuttingDown,
                        ..old(self)@
                    });
                }
                Ok(())
            },
            _ => Err(BridgeError::ProtocolViolation),
        }
    }

    /// The end of the session, at process exit.
    pub fn terminate(&mut self) -> (r: Result<(), BridgeError>)
        ensures
            r is Ok <==> old(self)@.state == SessionState::ShuttingDown,
            r is Ok ==> final(self)@ == (SessionModel {
                state: SessionState::Terminated,
                ..old(self)@
            }),
            r is Err ==> final(self)@ == old(self)@ && r == Err::<(), BridgeError>(
                BridgeError::ProtocolViolation,
            ),
    {
        match self.state {
            SessionState::ShuttingDown => {
                self.state = SessionState::Terminated;
                proof {
                    assert(final(self)@ =~= SessionModel {
                        state: SessionState::Terminated,
                        ..old(self)@
                    });
                }
                Ok(())
            },
            _ => Err(BridgeError::ProtocolViolation),
        }
    }
}

/// Copy a child-id list, value for value.
fn clone_ids(v: &Vec<u32>) -> (r: Vec<u32>)
    ensures
        r@ == v@,
{
    let mut r: Vec<u32> = Vec::new();
    let mut k: usize = 0;
    while k < v.len()
        invariant
            k <= v.len(),
            r@ == v@.take(k as int),
        decreases v.len() - k,
    {
        r.push(v[k]);
        proof {
            assert(v@.take(k as int).push(v@[k as int]) =~= v@.take(k as int + 1));
        }
        k = k + 1;
    }
    proof {
        assert(v@.take(v@.len() as int) =~= v@);
    }
    r
}

// ---------------------------------------------------------------------------
// Laws of the protocol.
// ---------------------------------------------------------------------------

/// Law: the ready signal fires exactly once — once it has been accepted,
/// it is never accepted again (no state reaches `Initializing` twice).
pub proof fn lemma_init_fires_once(m: SessionModel)
    requires
        init_accepted(m),
    ensures
        !init_accepted(init_step(m)),
{
}

/// Law: no element or child-list submission is accepted before the ready
/// signal has fired.
pub proof fn lemma_no_submission_before_init(
    m: SessionModel,
    d: DescriptorModel,
    parent: u32,
    ids: Seq<u32>,
)
    requires
        m.state == SessionState::Uninitialized || m.state == SessionState::Initializing,
    ensures
        !element_accepted(m, d),
        !children_accepted(m, parent, ids),
{
}

/// Law: a child-list submission replaces the registry's list for that
/// parent wholesale, whatever was there before, and leaves every other
/// parent's list untouched.
pub proof fn lemma_set_children_replaces(m: SessionModel, parent: u32, ids: Seq<u32>)
    ensures
        children_step(m, parent, ids).topology.contains_key(parent),
        children_step(m, parent, ids).topology[parent] == ids,
        forall|q: u32|
            q != parent ==> children_step(m, parent, ids).topology.contains_key(q)
                == m.topology.contains_key(q),
        forall|q: u32|
            q != parent && m.topology.contains_key(q) ==> children_step(
                m,
                parent,
                ids,
            ).topology[q] == m.topology[q],
{
}

/// Law: accepted submissions preserve the reference invariant — the
/// submitted topology never mentions an id the bridge did not submit.
pub proof fn lemma_submissions_preserve_references(
    m: SessionModel,
    d: DescriptorModel,
    parent: u32,
    ids: Seq<u32>,
)
    requires
        references_registered(m),
    ensures
        references_registered(element_step(m, d)),
        children_accepted(m, parent, ids) ==> references_registered(
            children_step(m, parent, ids),
        ),
{
    let me = element_step(m, d);
    assert forall|p: u32| #[trigger] me.topology.contains_key(p) implies me.registered.contains(p)
        && (forall|i: int|
        0 <= i < me.topology[p].len() ==> me.registered.contains(
            #[trigger] me.topology[p][i],
        )) by {
        assert(m.topology.contains_key(p));
    }
    if children_accepted(m, parent, ids) {
        let mc = children_step(m, parent, ids);
        assert forall|p: u32| #[trigger] mc.topology.contains_key(p) implies mc.registered.contains(
            p,
        ) && (forall|i: int|
            0 <= i < mc.topology[p].len() ==> mc.registered.contains(
                #[trigger] mc.topology[p][i],
            )) by {
            if p != parent {
                assert(m.topology.contains_key(p));
            }
        }
    }
}

} // verus!
