//! Mailboxes: messages in order, up to a capacity which signals about terminated actors and forced
//! messages bypass.

use vstd::prelude::*;

use crate::ids::ActorId;
use crate::watch::{ActorTerminated, WatcherRegistry};

verus! {

/// What an actor receives.
#[derive(Debug, Clone, Copy, PartialEq, Eq)]
pub enum Incoming<M> {
    /// A message.
    Message(M),
    /// A watched actor has terminated.
    Terminated(ActorId),
}

/// How many messages a mailbox holds at most.
#[derive(Debug, Clone, Copy, PartialEq, Eq, Structural)]
pub enum MailboxCapacity {
    Unbounded,
    Bounded(usize),
}

/// A reservation per queued item which counts.
#[derive(Debug, Clone, Copy, PartialEq, Eq, Structural)]
pub struct Quota {
    pub capacity: MailboxCapacity,
    pub reserved: usize,
}

impl Quota {
    pub open spec fn has_room(self) -> bool {
        match self.capacity {
            MailboxCapacity::Unbounded => true,
            MailboxCapacity::Bounded(capacity) => self.reserved < capacity,
        }
    }

    /// Nothing reserved yet.
    pub fn new(capacity: MailboxCapacity) -> (quota: Self)
        ensures
            quota == (Quota { capacity, reserved: 0 }),
    {
        Quota { capacity, reserved: 0 }
    }

    pub fn can_reserve(&self) -> (r: bool)
        ensures
            r == self.has_room(),
    {
        match self.capacity {
            MailboxCapacity::Unbounded => true,
            MailboxCapacity::Bounded(capacity) => self.reserved < capacity,
        }
    }
}

/// A message which cannot be sent.
#[derive(Debug, Clone, Copy, PartialEq, Eq, Structural)]
pub enum SendError {
    /// The mailbox is full.
    MailboxFull,
    /// The actor has terminated.
    ActorTerminated,
}

/// What a receive finds.
#[derive(Debug, Clone, Copy, PartialEq, Eq)]
pub enum Received<M> {
    /// The oldest item queued.
    Item(Incoming<M>),
    /// Nothing yet, but somebody can still send.
    Waiting,
    /// Nothing, and nobody is left to send.
    Ended,
}

/// The queue of one actor, shared by its receiving half and every handle which sends.
#[derive(Debug)]
pub struct Mailbox<M, H> {
    pub(crate) incoming: Vec<Incoming<M>>,
    pub(crate) quota: Quota,
    pub(crate) receiving: bool,
    pub(crate) handles: usize,
    pub(crate) watcher_registry: WatcherRegistry<H>,
}

/// A [Mailbox] by value.
#[verifier::ext_equal]
pub ghost struct MailboxModel<M, H> {
    pub incoming: Seq<Incoming<M>>,
    pub capacity: MailboxCapacity,
    pub receiving: bool,
    pub handles: nat,
    pub watchers: Option<Seq<(ActorId, H)>>,
}

pub open spec fn is_message<M>() -> spec_fn(Incoming<M>) -> bool {
    |i: Incoming<M>| i is Message
}

/// How many messages are queued; signals do not count.
pub open spec fn messages_in<M>(incoming: Seq<Incoming<M>>) -> nat {
    incoming.filter(is_message()).len()
}

impl<M, H> View for Mailbox<M, H> {
    type V = MailboxModel<M, H>;

    open(crate) spec fn view(&self) -> MailboxModel<M, H> {
        MailboxModel {
            incoming: self.incoming@,
            capacity: self.quota.capacity,
            receiving: self.receiving,
            handles: self.handles as nat,
            watchers: self.watcher_registry@,
        }
    }
}

impl<M, H> MailboxModel<M, H> {
    pub open spec fn has_room(self) -> bool {
        match self.capacity {
            MailboxCapacity::Unbounded => true,
            MailboxCapacity::Bounded(capacity) => messages_in(self.incoming) < capacity,
        }
    }

    /// A terminated actor overrides a full mailbox.
    pub open spec fn sent(self, message: M) -> (MailboxModel<M, H>, Result<(), SendError>) {
        if !self.receiving {
            (self, Err(SendError::ActorTerminated))
        } else if !self.has_room() {
            (self, Err(SendError::MailboxFull))
        } else {
            (
                MailboxModel { incoming: self.incoming.push(Incoming::Message(message)), ..self },
                Ok(()),
            )
        }
    }

    /// A signal bypasses the capacity.
    pub open spec fn signaled(self, actor: ActorId) -> (
        MailboxModel<M, H>,
        Result<(), ActorTerminated>,
    ) {
        if !self.receiving {
            (self, Err(ActorTerminated))
        } else {
            (
                MailboxModel { incoming: self.incoming.push(Incoming::Terminated(actor)), ..self },
                Ok(()),
            )
        }
    }

    /// A forced message bypasses the capacity too, but takes room.
    pub open spec fn forced(self, message: M) -> (MailboxModel<M, H>, Result<(), ActorTerminated>) {
        if !self.receiving {
            (self, Err(ActorTerminated))
        } else {
            (
                MailboxModel { incoming: self.incoming.push(Incoming::Message(message)), ..self },
                Ok(()),
            )
        }
    }

    pub open spec fn received(self) -> (MailboxModel<M, H>, Received<M>) {
        if self.incoming.len() > 0 {
            (
                MailboxModel { incoming: self.incoming.skip(1), ..self },
                Received::Item(self.incoming[0]),
            )
        } else if self.handles > 0 {
            (self, Received::Waiting)
        } else {
            (self, Received::Ended)
        }
    }

    /// No more messages than fit are queued.
    pub open spec fn is_within_capacity(self) -> bool {
        self.capacity matches MailboxCapacity::Bounded(capacity) ==> messages_in(self.incoming)
            <= capacity
    }
}

proof fn lemma_messages_push<M>(incoming: Seq<Incoming<M>>, item: Incoming<M>)
    ensures
        messages_in(incoming.push(item)) == messages_in(incoming) + if item is Message {
            1nat
        } else {
            0nat
        },
        messages_in(incoming) <= incoming.len(),
{
    reveal(Seq::filter);
    assert(incoming.push(item).drop_last() =~= incoming);
    lemma_messages_bound(incoming);
}

proof fn lemma_messages_bound<M>(incoming: Seq<Incoming<M>>)
    ensures
        messages_in(incoming) <= incoming.len(),
    decreases incoming.len(),
{
    reveal(Seq::filter);
    if incoming.len() > 0 {
        lemma_messages_bound(incoming.drop_last());
    }
}

proof fn lemma_messages_pop<M>(incoming: Seq<Incoming<M>>)
    requires
        incoming.len() > 0,
    ensures
        messages_in(incoming) == messages_in(incoming.skip(1)) + if incoming[0] is Message {
            1nat
        } else {
            0nat
        },
    decreases incoming.len(),
{
    let one = seq![incoming[0]];
    assert(incoming =~= one + incoming.skip(1));
    crate::seqs::lemma_filter_add(one, incoming.skip(1), is_message());
    lemma_messages_push(Seq::<Incoming<M>>::empty(), incoming[0]);
    assert(Seq::<Incoming<M>>::empty().push(incoming[0]) =~= one);
    lemma_messages_bound(Seq::<Incoming<M>>::empty());
}

impl<M, H> Mailbox<M, H> {
    pub open(crate) spec fn wf(&self) -> bool {
        &&& self.quota.reserved == messages_in(self.incoming@)
        &&& self.watcher_registry.wf()
    }

    /// An empty mailbox with one handle.
    pub fn new(capacity: MailboxCapacity) -> (mailbox: Self)
        ensures
            mailbox.wf(),
            mailbox@ == (MailboxModel::<M, H> {
                incoming: Seq::empty(),
                capacity,
                receiving: true,
                handles: 1,
                watchers: Some(Seq::empty()),
            }),
    {
        proof {
            lemma_messages_bound(Seq::<Incoming<M>>::empty());
        }
        Mailbox {
            incoming: Vec::new(),
            quota: Quota::new(capacity),
            receiving: true,
            handles: 1,
            watcher_registry: WatcherRegistry::new(),
        }
    }

    /// Who is told once the actor terminates.
    pub fn watcher_registry(&mut self) -> (registry: &mut WatcherRegistry<H>)
        requires
            old(self).wf(),
        ensures
            registry.wf(),
            registry@ == old(self)@.watchers,
            final(self)@ == (MailboxModel { watchers: final(registry)@, ..old(self)@ }),
            final(registry).wf() ==> final(self).wf(),
    {
        &mut self.watcher_registry
    }

    /// Queues a message if there is room. A terminated actor is reported as such even where the
    /// mailbox is full.
    pub fn try_send_message(&mut self, message: M) -> (r: Result<(), SendError>)
        requires
            old(self).wf(),
        ensures
            final(self).wf(),
            final(self)@ == old(self)@.sent(message).0,
            r == old(self)@.sent(message).1,
    {
        if !self.receiving {
            return Err(SendError::ActorTerminated);
        }
        if !self.quota.can_reserve() {
            return Err(SendError::MailboxFull);
        }
        self.push_message(message);
        Ok(())
    }

    fn push_message(&mut self, message: M)
        requires
            old(self).wf(),
        ensures
            final(self).wf(),
            final(self)@ == (MailboxModel {
                incoming: old(self)@.incoming.push(Incoming::Message(message)),
                ..old(self)@
            }),
    {
        proof {
            lemma_messages_push(self.incoming@, Incoming::Message(message));
        }
        self.incoming.push(Incoming::Message(message));
        proof {
            lemma_messages_bound(self.incoming@);
            assert(self.incoming@.len() <= usize::MAX) by {
                assert(self.incoming.len() == self.incoming@.len());
            }
        }
        self.quota.reserved = self.quota.reserved + 1;
    }

    /// Queues a message behind everything queued before it, whatever the capacity: for one which has
    /// been accepted already and must not be refused now.
    pub fn send_forced(&mut self, message: M) -> (r: Result<(), ActorTerminated>)
        requires
            old(self).wf(),
        ensures
            final(self).wf(),
            final(self)@ == old(self)@.forced(message).0,
            r == old(self)@.forced(message).1,
    {
        if !self.receiving {
            return Err(ActorTerminated);
        }
        self.push_message(message);
        Ok(())
    }

    /// Queues a signal that a watched actor has terminated, whatever the capacity.
    pub fn handle_terminated(&mut self, actor: ActorId) -> (r: Result<(), ActorTerminated>)
        requires
            old(self).wf(),
        ensures
            final(self).wf(),
            final(self)@ == old(self)@.signaled(actor).0,
            r == old(self)@.signaled(actor).1,
    {
        if !self.receiving {
            return Err(ActorTerminated);
        }
        proof {
            lemma_messages_push(self.incoming@, Incoming::Terminated(actor));
        }
        self.incoming.push(Incoming::Terminated(actor));
        Ok(())
    }

    /// The oldest item, whose room is free again if it is a message.
    pub fn recv(&mut self) -> (received: Received<M>)
        requires
            old(self).wf(),
        ensures
            final(self).wf(),
            final(self)@ == old(self)@.received().0,
            received == old(self)@.received().1,
    {
        if self.incoming.len() == 0 {
            if self.handles > 0 {
                Received::Waiting
            } else {
                Received::Ended
            }
        } else {
            let ghost before = self.incoming@;
            proof {
                lemma_messages_pop(before);
            }
            let item = self.incoming.remove(0);
            assert(self.incoming@ =~= before.skip(1));
            match &item {
                Incoming::Message(_) => {
                    self.quota.reserved = self.quota.reserved - 1;
                },
                Incoming::Terminated(_) => {},
            }
            Received::Item(item)
        }
    }

    /// One more handle which shares the capacity and the watchers.
    pub fn clone_handle(&mut self)
        requires
            old(self).wf(),
            old(self)@.handles < usize::MAX,
        ensures
            final(self).wf(),
            final(self)@ == (MailboxModel {
                handles: old(self)@.handles + 1,
                ..old(self)@
            }),
    {
        self.handles = self.handles + 1;
    }

    /// One handle less.
    pub fn drop_handle(&mut self)
        requires
            old(self).wf(),
            old(self)@.handles > 0,
        ensures
            final(self).wf(),
            final(self)@ == (MailboxModel {
                handles: (old(self)@.handles - 1) as nat,
                ..old(self)@
            }),
    {
        self.handles = self.handles - 1;
    }

    /// Ends receiving: sends fail as terminated from here on, while watchers can still register.
    /// What was queued is handed out.
    pub fn disconnect(&mut self) -> (queued: Vec<Incoming<M>>)
        requires
            old(self).wf(),
        ensures
            final(self).wf(),
            queued@ == old(self)@.incoming,
            final(self)@ == (MailboxModel {
                incoming: Seq::empty(),
                receiving: false,
                ..old(self)@
            }),
    {
        let mut queued: Vec<Incoming<M>> = Vec::new();
        std::mem::swap(&mut self.incoming, &mut queued);
        proof {
            lemma_messages_bound(Seq::<Incoming<M>>::empty());
        }
        self.quota.reserved = 0;
        self.receiving = false;
        queued
    }
}

/// A mailbox hands out what was sent in the order it was sent: what is received is what was at the
/// front, and everything behind it stays in order.
pub proof fn messages_stay_in_order<M, H>(mailbox: MailboxModel<M, H>, message: M)
    requires
        mailbox.sent(message).1 is Ok,
        mailbox.incoming.len() > 0,
    ensures
        mailbox.sent(message).0.received().1 == mailbox.received().1,
        mailbox.sent(message).0.received().0.incoming == mailbox.received().0.incoming.push(
            Incoming::Message(message),
        ),
{
    assert(mailbox.incoming.push(Incoming::Message(message)).skip(1) =~= mailbox.incoming.skip(
        1,
    ).push(Incoming::Message(message)));
}

/// Receiving a message from a full mailbox makes room for one.
pub proof fn receiving_makes_room<M, H>(mailbox: MailboxModel<M, H>)
    requires
        mailbox.is_within_capacity(),
        mailbox.incoming.len() > 0,
        mailbox.incoming[0] is Message,
    ensures
        mailbox.received().0.has_room(),
{
    lemma_messages_pop(mailbox.incoming);
}

/// A forced message is received after everything which was queued before it, whatever the capacity,
/// and is refused by a terminated actor alone.
pub proof fn a_forced_message_waits_its_turn<M, H>(mailbox: MailboxModel<M, H>, message: M)
    ensures
        mailbox.forced(message).1 is Ok == mailbox.receiving,
        mailbox.receiving ==> mailbox.forced(message).0.incoming == mailbox.incoming.push(
            Incoming::Message(message),
        ),
        mailbox.receiving && mailbox.incoming.len() > 0 ==> mailbox.forced(
            message,
        ).0.received().1 == mailbox.received().1,
        !mailbox.receiving ==> mailbox.forced(message).0 == mailbox,
        mailbox.has_room() ==> mailbox.forced(message).0 == mailbox.sent(message).0,
{
}

/// But for forced messages, no more are ever queued than fit.
pub proof fn the_capacity_holds<M, H>(mailbox: MailboxModel<M, H>, message: M, actor: ActorId)
    requires
        mailbox.is_within_capacity(),
    ensures
        mailbox.sent(message).0.is_within_capacity(),
        mailbox.signaled(actor).0.is_within_capacity(),
        mailbox.received().0.is_within_capacity(),
{
    lemma_messages_push(mailbox.incoming, Incoming::Message(message));
    lemma_messages_push(mailbox.incoming, Incoming::Terminated(actor));
    if mailbox.incoming.len() > 0 {
        lemma_messages_pop(mailbox.incoming);
    }
}

/// Only messages fill a mailbox.
pub proof fn signals_take_no_room<M, H>(mailbox: MailboxModel<M, H>, actor: ActorId)
    ensures
        mailbox.signaled(actor).0.has_room() == mailbox.has_room(),
        mailbox.signaled(actor).1 is Ok == mailbox.receiving,
{
    lemma_messages_push(mailbox.incoming, Incoming::Terminated(actor));
}

/// A signal to a receiving mailbox is queued behind everything queued before it, a message behind
/// that too where it is accepted, and nothing else of the mailbox changes. One which is accepted is
/// one which the receiving mailbox had room for: fewer messages were queued than the capacity.
pub proof fn everything_is_queued_last<M, H>(
    mailbox: MailboxModel<M, H>,
    message: M,
    actor: ActorId,
)
    ensures
        ({
            let queued = Set::new(
                |i: int| 0 <= i < mailbox.incoming.len() && mailbox.incoming[i] is Message,
            );
            let room = mailbox.capacity matches MailboxCapacity::Bounded(capacity) ==> queued.len()
                < capacity;
            let (signaled, told) = mailbox.signaled(actor);
            let (sent, accepted) = mailbox.sent(message);
            let (forced, taken) = mailbox.forced(message);
            let behind = |item: Incoming<M>|
                MailboxModel { incoming: mailbox.incoming.push(item), ..mailbox };
            &&& mailbox.receiving ==> told is Ok && signaled == behind(Incoming::Terminated(actor))
            &&& !mailbox.receiving ==> told is Err && signaled == mailbox
            &&& mailbox.receiving && room ==> accepted is Ok && sent == behind(
                Incoming::Message(message),
            )
            &&& mailbox.receiving && !room ==> accepted == Err::<(), SendError>(
                SendError::MailboxFull,
            ) && sent == mailbox
            &&& !mailbox.receiving ==> accepted == Err::<(), SendError>(
                SendError::ActorTerminated,
            ) && sent == mailbox
            &&& mailbox.receiving ==> taken is Ok && forced == behind(Incoming::Message(message))
            &&& !mailbox.receiving ==> taken is Err && forced == mailbox
        }),
{
    crate::seqs::lemma_filter_counts(mailbox.incoming, is_message::<M>());
    assert(crate::seqs::positions(mailbox.incoming, is_message::<M>()) =~= Set::new(
        |i: int| 0 <= i < mailbox.incoming.len() && mailbox.incoming[i] is Message,
    ));
}

/// What is left after so many receives.
pub open spec fn received_so_often<M, H>(mailbox: MailboxModel<M, H>, n: nat) -> MailboxModel<M, H>
    decreases n,
{
    if n == 0 {
        mailbox
    } else {
        received_so_often(mailbox, (n - 1) as nat).received().0
    }
}

/// Draining a mailbox gives everything queued, oldest first and each item once; then it waits for
/// as long as somebody can still send, and ends once nobody can.
pub proof fn a_mailbox_is_drained_in_order<M, H>(mailbox: MailboxModel<M, H>, n: nat)
    ensures
        n < mailbox.incoming.len() ==> received_so_often(mailbox, n).received().1
            == Received::Item(mailbox.incoming[n as int]),
        n >= mailbox.incoming.len() && mailbox.handles > 0 ==> received_so_often(
            mailbox,
            n,
        ).received().1 == Received::<M>::Waiting,
        n >= mailbox.incoming.len() && mailbox.handles == 0 ==> received_so_often(
            mailbox,
            n,
        ).received().1 == Received::<M>::Ended,
        received_so_often(mailbox, n) == (MailboxModel {
            incoming: mailbox.incoming.skip(
                if n < mailbox.incoming.len() {
                    n as int
                } else {
                    mailbox.incoming.len() as int
                },
            ),
            ..mailbox
        }),
    decreases n,
{
    if n == 0 {
        assert(mailbox.incoming.skip(0) =~= mailbox.incoming);
    } else {
        a_mailbox_is_drained_in_order(mailbox, (n - 1) as nat);
        let before = received_so_often(mailbox, (n - 1) as nat);
        let rest = received_so_often(mailbox, n);
        if n - 1 < mailbox.incoming.len() {
            assert(before.incoming.skip(1) =~= mailbox.incoming.skip(n as int));
        }
        assert(rest.incoming =~= mailbox.incoming.skip(
            if n < mailbox.incoming.len() {
                n as int
            } else {
                mailbox.incoming.len() as int
            },
        ));
    }
}

/// What a call does to a mailbox: a signal is the last item of a mailbox which is received from, and
/// so is a message there is room for or which is forced; anything else leaves the mailbox as it was.
pub proof fn a_call_queues_behind_the_rest<M, H>(
    signaled: &mut Mailbox<M, H>,
    sent: &mut Mailbox<M, H>,
    forced: &mut Mailbox<M, H>,
    actor: ActorId,
    message: M,
    told: Result<(), ActorTerminated>,
    accepted: Result<(), SendError>,
    taken: Result<(), ActorTerminated>,
)
    requires
        call_ensures(Mailbox::<M, H>::handle_terminated, (signaled, actor), told),
        call_ensures(Mailbox::<M, H>::try_send_message, (sent, message), accepted),
        call_ensures(Mailbox::<M, H>::send_forced, (forced, message), taken),
    ensures
        ({
            let before = old(signaled)@;
            if before.receiving {
                &&& told is Ok
                &&& final(signaled)@.incoming == before.incoming + seq![Incoming::Terminated(actor)]
            } else {
                told is Err && final(signaled)@ == before
            }
        }),
        ({
            let before = old(sent)@;
            let queued = Set::new(
                |i: int| 0 <= i < before.incoming.len() && before.incoming[i] is Message,
            );
            let room = before.capacity matches MailboxCapacity::Bounded(capacity) ==> queued.len()
                < capacity;
            if before.receiving && room {
                &&& accepted is Ok
                &&& final(sent)@.incoming == before.incoming + seq![Incoming::Message(message)]
            } else {
                accepted is Err && final(sent)@ == before
            }
        }),
        ({
            let before = old(forced)@;
            if before.receiving {
                &&& taken is Ok
                &&& final(forced)@.incoming == before.incoming + seq![Incoming::Message(message)]
            } else {
                taken is Err && final(forced)@ == before
            }
        }),
{
    everything_is_queued_last(old(signaled)@, message, actor);
    everything_is_queued_last(old(sent)@, message, actor);
    everything_is_queued_last(old(forced)@, message, actor);
    assert(old(signaled)@.incoming.push(Incoming::Terminated(actor)) =~= old(signaled)@.incoming
        + seq![Incoming::Terminated(actor)]);
    assert(old(sent)@.incoming.push(Incoming::Message(message)) =~= old(sent)@.incoming + seq![
        Incoming::Message(message),
    ]);
    assert(old(forced)@.incoming.push(Incoming::Message(message)) =~= old(forced)@.incoming + seq![
        Incoming::Message(message),
    ]);
}

/// What a receive gives: the oldest item, which leaves; with none queued it waits while somebody can
/// still send.
pub proof fn a_receive_takes_the_oldest<M, H>(mailbox: &mut Mailbox<M, H>, received: Received<M>)
    requires
        call_ensures(Mailbox::<M, H>::recv, (mailbox,), received),
    ensures
        ({
            let before = old(mailbox)@;
            if before.incoming.len() > 0 {
                &&& received == Received::Item(before.incoming[0])
                &&& seq![before.incoming[0]] + final(mailbox)@.incoming == before.incoming
            } else {
                &&& received == if before.handles > 0 {
                    Received::<M>::Waiting
                } else {
                    Received::<M>::Ended
                }
                &&& final(mailbox)@ == before
            }
        }),
{
    let before = old(mailbox)@;
    if before.incoming.len() > 0 {
        assert(seq![before.incoming[0]] + before.incoming.skip(1) =~= before.incoming);
    }
}

} // verus!
