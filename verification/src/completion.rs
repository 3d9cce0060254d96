//! Lifecycle events of sequences and the sinks that they are routed to.

use crate::abi::FinishReason;
use crate::maps::{ascending, sorted_keys, value_mut};
use crate::platform::SequenceId;
use std::collections::HashMap;
use tokio::sync::mpsc::{UnboundedReceiver, UnboundedSender};
use vstd::prelude::*;

verus! {

broadcast use vstd::std_specs::hash::group_hash_axioms;

/// Identifier of a registered sink.
#[derive(Debug, Clone, Copy, PartialEq, Eq, Hash, Structural)]
pub struct CompletionSinkId(pub u64);

/// What happened to a sequence.
#[derive(Debug)]
pub enum CompletionEvent {
    Token { seq_id: SequenceId, token: u32 },
    Finished { seq_id: SequenceId, finish_reason: FinishReason, total_tokens: usize },
    Error { seq_id: SequenceId, message: String },
}

/// What a [`CompletionEvent`] says.
pub enum EventState {
    Token { seq_id: SequenceId, token: u32 },
    Finished { seq_id: SequenceId, finish_reason: FinishReason, total_tokens: usize },
    Error { seq_id: SequenceId, message: Seq<char> },
}

impl View for CompletionEvent {
    type V = EventState;

    open spec fn view(&self) -> EventState {
        match self {
            CompletionEvent::Token { seq_id, token } => EventState::Token {
                seq_id: *seq_id,
                token: *token,
            },
            CompletionEvent::Finished { seq_id, finish_reason, total_tokens } => {
                EventState::Finished {
                    seq_id: *seq_id,
                    finish_reason: *finish_reason,
                    total_tokens: *total_tokens,
                }
            },
            CompletionEvent::Error { seq_id, message } => EventState::Error {
                seq_id: *seq_id,
                message: message@,
            },
        }
    }
}

impl Clone for CompletionEvent {
    fn clone(&self) -> (r: Self)
        ensures
            r@ == self@,
    {
        match self {
            CompletionEvent::Token { seq_id, token } => CompletionEvent::Token {
                seq_id: *seq_id,
                token: *token,
            },
            CompletionEvent::Finished { seq_id, finish_reason, total_tokens } => {
                CompletionEvent::Finished {
                    seq_id: *seq_id,
                    finish_reason: *finish_reason,
                    total_tokens: *total_tokens,
                }
            },
            CompletionEvent::Error { seq_id, message } => CompletionEvent::Error {
                seq_id: *seq_id,
                message: message.clone(),
            },
        }
    }
}

/// A consumer of events, free of sockets, threads and processes.
///
/// The default of `received` stands for no log in particular: an implementation that is to be
/// proved against the clauses gives its own. That of `target` is right for every sink that
/// hands its events to no channel.
pub trait CompletionSink {
    /// The events that were handed to this sink, oldest first.
    open spec fn received(&self) -> Seq<EventState> {
        arbitrary()
    }

    /// The receivers of the channel that this sink hands its events to.
    open spec fn target(&self) -> Set<UnboundedReceiver<CompletionEvent>> {
        Set::empty()
    }

    fn emit(&mut self, event: CompletionEvent)
        ensures
            final(self).received() == old(self).received().push(event@),
            final(self).target() == old(self).target(),
    ;
}

/// The sending half of an unbounded channel of `tokio`.
#[verifier::external_type_specification]
#[verifier::external_body]
#[verifier::reject_recursive_types(T)]
pub struct ExUnboundedSender<T>(tokio::sync::mpsc::UnboundedSender<T>);

/// The receiving half of an unbounded channel of `tokio`.
#[verifier::external_type_specification]
#[verifier::external_body]
#[verifier::reject_recursive_types(T)]
pub struct ExUnboundedReceiver<T>(tokio::sync::mpsc::UnboundedReceiver<T>);

/// The events that were handed to a channel through this sender, oldest first. A receiver
/// that is still open gets them in this order; one that was closed gets no more of them.
pub uninterp spec fn events_sent(sender: UnboundedSender<CompletionEvent>) -> Seq<EventState>;

/// Whether the two are the halves of one channel, so that what is handed to the sender is
/// what the receiver gets.
pub uninterp spec fn feeds(sender: UnboundedSender<CompletionEvent>, receiver: UnboundedReceiver<CompletionEvent>) -> bool;

/// `tokio::sync::mpsc::unbounded_channel` makes the two halves of one channel, over which
/// nothing was sent.
#[verifier::external_body]
fn new_channel() -> (r: (UnboundedSender<CompletionEvent>, UnboundedReceiver<CompletionEvent>))
    ensures
        events_sent(r.0) == Seq::<EventState>::empty(),
        feeds(r.0, r.1),
{
    tokio::sync::mpsc::unbounded_channel()
}

/// `UnboundedSender::send` hands a value to the channel, which stays the sender's. It returns
/// at once, and gives the value back where the receiver was closed; that value is dropped
/// here.
#[verifier::external_body]
fn send_event(sender: &mut UnboundedSender<CompletionEvent>, event: CompletionEvent)
    ensures
        events_sent(*final(sender)) == events_sent(*old(sender)).push(event@),
        forall|receiver: UnboundedReceiver<CompletionEvent>| #[trigger]
            feeds(*final(sender), receiver) == feeds(*old(sender), receiver),
{
    let _ = sender.send(event);
}

/// A sink that hands its events to a channel.
pub struct ChannelCompletionSink {
    sender: UnboundedSender<CompletionEvent>,
}

impl ChannelCompletionSink {
    /// Whether the receiver is that of the sink's channel.
    pub open spec fn reaches(&self, receiver: UnboundedReceiver<CompletionEvent>) -> bool {
        self.target().contains(receiver)
    }

    pub fn new(sender: UnboundedSender<CompletionEvent>) -> (r: Self)
        ensures
            r.received() == events_sent(sender),
            r.target() == Set::new(|receiver| feeds(sender, receiver)),
    {
        ChannelCompletionSink { sender }
    }

    /// A sink and the receiver of what it is handed.
    pub fn channel() -> (r: (Self, UnboundedReceiver<CompletionEvent>))
        ensures
            r.0.received() == Seq::<EventState>::empty(),
            r.0.reaches(r.1),
    {
        let (sender, receiver) = new_channel();
        (Self::new(sender), receiver)
    }
}

impl CompletionSink for ChannelCompletionSink {
    closed spec fn received(&self) -> Seq<EventState> {
        events_sent(self.sender)
    }

    closed spec fn target(&self) -> Set<UnboundedReceiver<CompletionEvent>> {
        Set::new(|receiver| feeds(self.sender, receiver))
    }

    fn emit(&mut self, event: CompletionEvent) {
        send_event(&mut self.sender, event);
        assert(self.target() =~= old(self).target());
    }
}

/// The registered sinks, by their events and by where these go, and the identifier given out
/// next.
#[verifier::ext_equal]
pub struct RouterState {
    pub received: Map<u64, Seq<EventState>>,
    pub targets: Map<u64, Set<UnboundedReceiver<CompletionEvent>>>,
    pub next_id: u64,
}

impl RouterState {
    /// No sink is registered; `next_id` is given out next.
    pub open spec fn empty(next_id: u64) -> RouterState {
        RouterState { received: Map::empty(), targets: Map::empty(), next_id }
    }

    /// Identifiers in use were given out before.
    pub open spec fn wf(self) -> bool {
        &&& self.received.dom().finite()
        &&& forall|id: u64| #[trigger]
            self.targets.contains_key(id) == self.received.contains_key(id)
        &&& forall|id: u64| #[trigger] self.received.contains_key(id) ==> id < self.next_id
    }

    pub open spec fn register(
        self,
        received: Seq<EventState>,
        target: Set<UnboundedReceiver<CompletionEvent>>,
    ) -> RouterState {
        RouterState {
            received: self.received.insert(self.next_id, received),
            targets: self.targets.insert(self.next_id, target),
            next_id: (self.next_id + 1) as u64,
        }
    }

    pub open spec fn unregister(self, id: u64) -> RouterState {
        RouterState {
            received: self.received.remove(id),
            targets: self.targets.remove(id),
            ..self
        }
    }

    /// The event is handed to the sink, if it is registered.
    pub open spec fn emit(self, id: u64, event: EventState) -> RouterState {
        if self.received.contains_key(id) {
            RouterState {
                received: self.received.insert(id, self.received[id].push(event)),
                ..self
            }
        } else {
            self
        }
    }

    /// The event is handed to the sink that a sequence names, if it names one.
    pub open spec fn emit_to(self, sink: Option<CompletionSinkId>, event: EventState) -> RouterState {
        match sink {
            Some(id) => self.emit(id.0, event),
            None => self,
        }
    }

    /// The event is handed to every sink.
    pub open spec fn broadcast(self, event: EventState) -> RouterState {
        RouterState {
            received: Map::new(
                |id: u64| self.received.contains_key(id),
                |id: u64| self.received[id].push(event),
            ),
            ..self
        }
    }

    /// A new sink gets an identifier that no registered sink has, and no other sink is
    /// touched.
    pub proof fn law_register_is_fresh(
        self,
        received: Seq<EventState>,
        target: Set<UnboundedReceiver<CompletionEvent>>,
        other: u64,
    )
        requires
            self.wf(),
            self.next_id < u64::MAX,
        ensures
            !self.received.contains_key(self.next_id),
            self.register(received, target).wf(),
            self.register(received, target).received[self.next_id] == received,
            self.register(received, target).targets[self.next_id] == target,
            self.received.contains_key(other) ==> {
                &&& self.register(received, target).received.contains_key(other)
                &&& self.register(received, target).received[other] == self.received[other]
                &&& self.register(received, target).targets[other] == self.targets[other]
            },
    {
    }

    /// Where a registered sink's events go does not change with what is handed to it or to
    /// others, so an event for an identifier goes to the channel that was registered under it.
    pub proof fn law_targets_stay(
        self,
        received: Seq<EventState>,
        target: Set<UnboundedReceiver<CompletionEvent>>,
        id: u64,
        event: EventState,
    )
        requires
            self.wf(),
            self.next_id < u64::MAX,
        ensures
            self.emit(id, event).targets == self.targets,
            self.broadcast(event).targets == self.targets,
            ({
                let sink = self.next_id;
                let after = self.register(received, target).emit(sink, event);
                after.received[sink] == received.push(event) && after.targets[sink] == target
            }),
            id != self.next_id ==> self.register(received, target).unregister(
                id,
            ).targets[self.next_id] == target,
    {
    }

    /// An event reaches the sink it is meant for and no other.
    pub proof fn law_emit_reaches_one(self, id: u64, event: EventState, other: u64)
        requires
            other != id,
        ensures
            self.received.contains_key(id) ==> self.emit(id, event).received[id]
                == self.received[id].push(event),
            self.emit(id, event).received.dom() == self.received.dom(),
            self.received.contains_key(other) ==> self.emit(id, event).received[other]
                == self.received[other],
            !self.received.contains_key(id) ==> self.emit(id, event) == self,
    {
        assert(self.emit(id, event).received.dom() =~= self.received.dom());
    }

    /// A broadcast is what handing the event to each sink in turn would be.
    pub proof fn law_broadcast_reaches_all(self, event: EventState, id: u64)
        ensures
            self.broadcast(event).received.contains_key(id) == self.received.contains_key(id),
            self.received.contains_key(id) ==> self.broadcast(event).received[id] == self.emit(
                id,
                event,
            ).received[id],
    {
    }
}

/// Where the events of each sink go.
pub open spec fn targets_of<S: CompletionSink>(sinks: Map<u64, S>) -> Map<
    u64,
    Set<UnboundedReceiver<CompletionEvent>>,
> {
    Map::new(|id: u64| sinks.contains_key(id), |id: u64| sinks[id].target())
}

/// The events of each sink.
pub open spec fn received_by<S: CompletionSink>(sinks: Map<u64, S>) -> Map<u64, Seq<EventState>> {
    Map::new(|id: u64| sinks.contains_key(id), |id: u64| sinks[id].received())
}

/// Hands events to registered sinks.
pub struct CompletionRouter<S: CompletionSink> {
    sinks: HashMap<u64, S>,
    next_id: u64,
}

impl<S: CompletionSink> View for CompletionRouter<S> {
    type V = RouterState;

    closed spec fn view(&self) -> RouterState {
        RouterState {
            received: received_by(self.sinks@),
            targets: targets_of(self.sinks@),
            next_id: self.next_id,
        }
    }
}

impl<S: CompletionSink> Default for CompletionRouter<S> {
    fn default() -> (r: Self)
        ensures
            r@ == RouterState::empty(0),
            r.sinks() == Map::<u64, S>::empty(),
            r@.wf(),
    {
        let r = CompletionRouter { sinks: HashMap::new(), next_id: 0 };
        assert(r@ =~= RouterState::empty(r@.next_id));
        assert(r.sinks() =~= Map::<u64, S>::empty());
        r
    }
}

impl<S: CompletionSink> CompletionRouter<S> {
    /// The registered sinks.
    pub closed spec fn sinks(&self) -> Map<u64, S> {
        self.sinks@
    }

    /// What the router shows is what its sinks show.
    pub proof fn law_view_is_of_sinks(&self)
        ensures
            self@.received == received_by(self.sinks()),
            self@.targets == targets_of(self.sinks()),
    {
    }

    pub fn new() -> (r: Self)
        ensures
            r@ == RouterState::empty(1),
            r.sinks() == Map::<u64, S>::empty(),
            r@.wf(),
    {
        let r = CompletionRouter { sinks: HashMap::new(), next_id: 1 };
        assert(r@ =~= RouterState::empty(r@.next_id));
        assert(r.sinks() =~= Map::<u64, S>::empty());
        r
    }

    pub fn register(&mut self, sink: S) -> (r: CompletionSinkId)
        requires
            old(self)@.next_id < u64::MAX,
        ensures
            r.0 == old(self)@.next_id,
            final(self)@ == old(self)@.register(sink.received(), sink.target()),
            final(self).sinks() == old(self).sinks().insert(r.0, sink),
            old(self)@.wf() ==> final(self)@.wf(),
    {
        let ghost before = self@;
        let id = CompletionSinkId(self.next_id);
        self.next_id = self.next_id + 1;
        self.sinks.insert(id.0, sink);
        assert(self@ =~= before.register(sink.received(), sink.target()));
        id
    }

    pub fn unregister(&mut self, id: CompletionSinkId) -> (r: Option<S>)
        ensures
            final(self)@ == old(self)@.unregister(id.0),
            match r {
                Some(sink) => {
                    &&& old(self)@.received.contains_key(id.0)
                    &&& old(self).sinks().contains_key(id.0)
                    &&& sink == old(self).sinks()[id.0]
                    &&& sink.received() == old(self)@.received[id.0]
                    &&& sink.target() == old(self)@.targets[id.0]
                },
                None => !old(self)@.received.contains_key(id.0) && !old(self).sinks().contains_key(
                    id.0,
                ),
            },
            final(self).sinks() == old(self).sinks().remove(id.0),
            old(self)@.wf() ==> final(self)@.wf(),
    {
        let ghost before = self@;
        let r = self.sinks.remove(&id.0);
        assert(self@ =~= before.unregister(id.0));
        r
    }

    pub fn emit(&mut self, sink_id: CompletionSinkId, event: CompletionEvent)
        ensures
            final(self)@ == old(self)@.emit(sink_id.0, event@),
            final(self).sinks().dom() == old(self).sinks().dom(),
            forall|other: u64|
                other != sink_id.0 && old(self).sinks().contains_key(other)
                    ==> #[trigger] final(self).sinks()[other] == old(self).sinks()[other],
            old(self)@.wf() ==> final(self)@.wf(),
    {
        let ghost before = self@;
        let ghost sinks = self.sinks@;
        match value_mut(&mut self.sinks, sink_id.0) {
            Some(sink) => {
                sink.emit(event);
            },
            None => {},
        }
        assert(self.sinks@.dom() =~= sinks.dom());
        assert(self@ =~= before.emit(sink_id.0, event@));
    }

    pub fn broadcast(&mut self, event: CompletionEvent)
        ensures
            final(self)@ == old(self)@.broadcast(event@),
            final(self).sinks().dom() == old(self).sinks().dom(),
            old(self)@.wf() ==> final(self)@.wf(),
    {
        let ghost before = self@;
        let ids = sorted_keys(&self.sinks);
        let mut i: usize = 0;
        while i < ids.len()
            invariant
                i <= ids@.len(),
                ascending(ids@),
                ids@.to_set() == before.received.dom(),
                self@.next_id == before.next_id,
                self@.targets == before.targets,
                self.sinks().dom() == old(self).sinks().dom(),
                self@.received.dom() == before.received.dom(),
                forall|j: int|
                    #![trigger ids@[j]]
                    0 <= j < ids@.len() ==> self@.received[ids@[j]] == if j < i {
                        before.received[ids@[j]].push(event@)
                    } else {
                        before.received[ids@[j]]
                    },
            decreases ids@.len() - i,
        {
            let ghost here = self@;
            proof {
                assert(ids@.to_set().contains(ids@[i as int]));
                assert(here.received.contains_key(ids@[i as int]));
            }
            self.emit(CompletionSinkId(ids[i]), event.clone());
            assert(self@.received.dom() =~= here.received.dom());
            assert forall|j: int| #![trigger ids@[j]] 0 <= j < ids@.len() implies self@.received[ids@[j]]
                == if j < i + 1 {
                before.received[ids@[j]].push(event@)
            } else {
                before.received[ids@[j]]
            } by {
                if j < i {
                    assert(ids@[j] < ids@[i as int]);
                } else if j > i {
                    assert(ids@[i as int] < ids@[j]);
                }
            }
            i = i + 1;
        }
        let ghost all = before.broadcast(event@);
        assert forall|id: u64| #[trigger] all.received.contains_key(id) implies self@.received[id]
            == all.received[id] by {
            assert(ids@.to_set().contains(id));
            let j = choose|j: int| 0 <= j < ids@.len() && ids@[j] == id;
            assert(ids@[j] == id);
        }
        assert(self@.received =~= all.received);
    }
}

} // verus!
