//! The callback dispatch table: a fixed set of six typed channels, one per
//! event kind, that the renderer drives for the life of the session.

use vstd::prelude::*;

use crate::events::{Event, EventModel};

verus! {

/// The models of a sequence of events.
pub open spec fn models(s: Seq<Event>) -> Seq<EventModel> {
    s.map_values(|e: Event| e@)
}

/// Appending an event appends its model.
pub proof fn lemma_models_push(s: Seq<Event>, e: Event)
    ensures
        models(s.push(e)) == models(s).push(e@),
{
    assert(models(s.push(e)) =~= models(s).push(e@));
}

/// An application-side event sink: the fixed-arity interface behind the
/// dispatch table, one method per event kind.
///
/// `seen` abstracts the sink's state as the sequence of event models it has
/// consumed; each channel appends exactly the one event it was invoked
/// with. A sink must not assume it is invoked only at idle: a channel may
/// fire from within a call the application itself made into the renderer.
pub trait EventSink {
    spec fn seen(&self) -> Seq<EventModel>;

    fn on_text_changed(&mut self, id: i32, text: Vec<u8>)
        ensures
            final(self).seen() == old(self).seen().push(
                EventModel::TextChanged { id, text: text@ },
            ),
    ;

    fn on_combo_changed(&mut self, id: i32, index: i32)
        ensures
            final(self).seen() == old(self).seen().push(EventModel::ComboChanged { id, index }),
    ;

    fn on_numeric_changed(&mut self, id: i32, bits: u32)
        ensures
            final(self).seen() == old(self).seen().push(EventModel::NumericChanged { id, bits }),
    ;

    fn on_boolean_changed(&mut self, id: i32, value: bool)
        ensures
            final(self).seen() == old(self).seen().push(EventModel::BooleanChanged { id, value }),
    ;

    fn on_multi_numeric_changed(&mut self, id: i32, values: Vec<u32>)
        ensures
            final(self).seen() == old(self).seen().push(
                EventModel::MultiNumericChanged { id, values: values@ },
            ),
    ;

    fn on_click(&mut self, id: i32)
        ensures
            final(self).seen() == old(self).seen().push(EventModel::Click { id }),
    ;
}

/// Route one event to the channel declared for its kind — never inferred
/// from the payload's shape — handing id and payload through unchanged.
/// Unknown ids are passed through: the bridge keeps no registry of live
/// event targets, that bookkeeping belongs to the application.
pub fn dispatch<S: EventSink>(sink: &mut S, ev: Event)
    ensures
        final(sink).seen() == old(sink).seen().push(ev@),
{
    match ev {
        Event::TextChanged { id, text } => sink.on_text_changed(id, text),
        Event::ComboChanged { id, index } => sink.on_combo_changed(id, index),
        Event::NumericChanged { id, bits } => sink.on_numeric_changed(id, bits),
        Event::BooleanChanged { id, value } => sink.on_boolean_changed(id, value),
        Event::MultiNumericChanged { id, values } => sink.on_multi_numeric_changed(id, values),
        Event::Click { id } => sink.on_click(id),
    }
}

/// A sink that records every event it is handed, in arrival order.
pub struct EventLog {
    log: Vec<Event>,
}

impl EventLog {
    /// An empty log.
    pub fn new() -> (s: EventLog)
        ensures
            s.seen() == Seq::<EventModel>::empty(),
    {
        let s = EventLog { log: Vec::new() };
        proof {
            assert(s.seen() =~= Seq::<EventModel>::empty());
        }
        s
    }

    /// How many events have been recorded.
    pub fn len(&self) -> (n: usize)
        ensures
            n == self.seen().len(),
    {
        self.log.len()
    }

    /// The `i`-th recorded event, in arrival order.
    pub fn get(&self, i: usize) -> (e: &Event)
        requires
            i < self.seen().len(),
        ensures
            e@ == self.seen()[i as int],
    {
        &self.log[i]
    }
}

impl EventSink for EventLog {
    closed spec fn seen(&self) -> Seq<EventModel> {
        models(self.log@)
    }

    fn on_text_changed(&mut self, id: i32, text: Vec<u8>) {
        let ghost l = self.log@;
        let e = Event::TextChanged { id, text };
        self.log.push(e);
        proof {
            lemma_models_push(l, e);
        }
    }

    fn on_combo_changed(&mut self, id: i32, index: i32) {
        let ghost l = self.log@;
        let e = Event::ComboChanged { id, index };
        self.log.push(e);
        proof {
            lemma_models_push(l, e);
        }
    }

    fn on_numeric_changed(&mut self, id: i32, bits: u32) {
        let ghost l = self.log@;
        let e = Event::NumericChanged { id, bits };
        self.log.push(e);
        proof {
            lemma_models_push(l, e);
        }
    }

    fn on_boolean_changed(&mut self, id: i32, value: bool) {
        let ghost l = self.log@;
        let e = Event::BooleanChanged { id, value };
        self.log.push(e);
        proof {
            lemma_models_push(l, e);
        }
    }

    fn on_multi_numeric_changed(&mut self, id: i32, values: Vec<u32>) {
        let ghost l = self.log@;
        let e = Event::MultiNumericChanged { id, values };
        self.log.push(e);
        proof {
            lemma_models_push(l, e);
        }
    }

    fn on_click(&mut self, id: i32) {
        let ghost l = self.log@;
        let e = Event::Click { id };
        self.log.push(e);
        proof {
            lemma_models_push(l, e);
        }
    }
}

} // verus!
