//! The life of one actor: initialized, fed from its mailbox, restarted after a failure as its
//! supervision decides, and terminated in an order which makes its terminated signal true.

use vstd::prelude::*;

use crate::ids::{ActorId, NodeId};
use crate::mailbox::{Incoming, Mailbox, MailboxModel, Received};
use crate::supervision::{next_restart, Restart, SupervisionStrategy};
use crate::table::Table;
use crate::watch::{watchers_of, with_watcher, ActorTerminated, Watcher, WatcherRegistry};

verus! {

/// What a panic left behind.
#[derive(Debug, Clone, PartialEq, Eq)]
pub enum PanicPayload {
    /// The message of a literal panic.
    Literal(String),
    /// The message of a formatted one.
    Formatted(String),
    /// Something else.
    Other,
}

impl PanicPayload {
    pub open spec fn text(&self) -> Seq<char> {
        match self {
            PanicPayload::Literal(text) => text@,
            PanicPayload::Formatted(text) => text@,
            PanicPayload::Other => "<non-string panic payload>"@,
        }
    }

    /// The message itself, whichever shape it has; anything else is named as such.
    pub fn to_text(&self) -> (text: String)
        ensures
            text@ == self.text(),
    {
        match self {
            PanicPayload::Literal(text) => text.clone(),
            PanicPayload::Formatted(text) => text.clone(),
            PanicPayload::Other => "<non-string panic payload>".to_owned(),
        }
    }
}

/// How an actor handled what it received.
#[derive(Debug, Clone, Copy, PartialEq, Eq, Structural)]
pub enum Handled {
    Continue,
    Stop,
    /// It returned an error or panicked.
    Failed,
}

/// Where a watched actor lives, which is where a watch on it is ended.
#[derive(Debug)]
pub enum Watched<W> {
    Local(W),
    Remote { node: NodeId, target: ActorId },
}

/// The actors an actor watches. A signal for any other one is dropped.
#[derive(Debug)]
pub struct WatchedActors<W> {
    pub actors: Table<ActorId, Watched<W>>,
}

impl<W> View for WatchedActors<W> {
    type V = Seq<(ActorId, Watched<W>)>;

    open spec fn view(&self) -> Seq<(ActorId, Watched<W>)> {
        self.actors@
    }
}

impl<W> WatchedActors<W> {
    pub open spec fn wf(&self) -> bool {
        self.actors.wf()
    }

    pub open spec fn map(&self) -> Map<ActorId, Watched<W>> {
        self.actors.map()
    }

    pub fn new() -> (watched: Self)
        ensures
            watched.wf(),
            watched.map() == Map::<ActorId, Watched<W>>::empty(),
    {
        WatchedActors { actors: Table::new() }
    }

    /// Watches an actor.
    pub fn watch(&mut self, actor: ActorId, watched: Watched<W>)
        requires
            old(self).wf(),
        ensures
            final(self).wf(),
            final(self).map() == old(self).map().insert(actor, watched),
    {
        self.actors.insert(actor, watched);
    }

    /// Stops watching an actor; what is to be ended, if it was watched.
    pub fn unwatch(&mut self, actor: ActorId) -> (watched: Option<Watched<W>>)
        requires
            old(self).wf(),
        ensures
            final(self).wf(),
            final(self).map() == old(self).map().remove(actor),
            watched is Some == old(self).map().dom().contains(actor),
            watched matches Some(w) ==> w == old(self).map()[actor],
    {
        self.actors.remove(actor)
    }

    /// Whether a terminated signal is for a watched actor, which it is once.
    pub fn take_watched_for(&mut self, actor: ActorId) -> (taken: bool)
        requires
            old(self).wf(),
        ensures
            final(self).wf(),
            final(self).map() == old(self).map().remove(actor),
            taken == old(self).map().dom().contains(actor),
    {
        self.actors.remove(actor).is_some()
    }

    /// Everything watched, which is to be ended.
    pub fn take_watched(&mut self) -> (watched: Vec<(ActorId, Watched<W>)>)
        requires
            old(self).wf(),
        ensures
            final(self).wf(),
            final(self).map() == Map::<ActorId, Watched<W>>::empty(),
            watched@ == old(self)@,
    {
        let mut taken: Table<ActorId, Watched<W>> = Table::new();
        std::mem::swap(&mut self.actors, &mut taken);
        taken.entries
    }
}

/// Watches an actor of this node. If it has terminated already, the signal is queued right away.
pub fn watch_local<M, H, W>(
    own: &mut Mailbox<M, H>,
    watched: &mut WatchedActors<W>,
    registry: &mut WatcherRegistry<H>,
    other: ActorId,
    handle: W,
    watcher: Watcher<H>,
)
    requires
        old(own).wf(),
        old(watched).wf(),
        old(registry).wf(),
    ensures
        final(own).wf(),
        final(watched).wf(),
        final(registry).wf(),
        final(watched).map() == old(watched).map().insert(other, Watched::Local(handle)),
        match old(registry)@ {
            Some(watchers) => {
                &&& final(registry)@ == Some(with_watcher(watchers, watcher))
                &&& final(own)@ == old(own)@
            },
            None => {
                &&& final(registry)@ is None
                &&& final(own)@ == old(own)@.signaled(other).0
            },
        },
{
    let registration = registry.add(watcher);
    watched.watch(other, Watched::Local(handle));
    if registration.is_err() {
        let _ = own.handle_terminated(other);
    }
}

/// What the receiving half of an actor finds.
#[derive(Debug, Clone, Copy, PartialEq, Eq)]
pub enum NextIncoming<M> {
    /// Its parent stops it.
    StoppedByParent,
    Incoming(Incoming<M>),
    /// Nothing yet.
    Waiting,
}

/// The next item for an actor which watches these: signals for actors it does not watch are
/// dropped, and one for a watched actor ends the watch.
pub open spec fn next_item<M, H, W>(
    mailbox: MailboxModel<M, H>,
    watched: Map<ActorId, Watched<W>>,
) -> (MailboxModel<M, H>, Map<ActorId, Watched<W>>, Option<Incoming<M>>)
    decreases mailbox.incoming.len(),
{
    if mailbox.incoming.len() == 0 {
        (mailbox, watched, None)
    } else {
        let rest = MailboxModel { incoming: mailbox.incoming.skip(1), ..mailbox };
        match mailbox.incoming[0] {
            Incoming::Terminated(actor) => if watched.dom().contains(actor) {
                (rest, watched.remove(actor), Some(mailbox.incoming[0]))
            } else {
                next_item(rest, watched)
            },
            Incoming::Message(_) => (rest, watched, Some(mailbox.incoming[0])),
        }
    }
}

/// The next item for an actor, unless its parent stops it, which comes first.
pub fn next_incoming<M, H, W>(
    mailbox: &mut Mailbox<M, H>,
    watched: &mut WatchedActors<W>,
    stopped_by_parent: bool,
) -> (next: NextIncoming<M>)
    requires
        old(mailbox).wf(),
        old(watched).wf(),
        old(mailbox)@.handles > 0,
    ensures
        final(mailbox).wf(),
        final(watched).wf(),
        stopped_by_parent ==> {
            &&& next is StoppedByParent
            &&& *final(mailbox) == *old(mailbox)
            &&& *final(watched) == *old(watched)
        },
        !stopped_by_parent ==> {
            let (after, left, item) = next_item(old(mailbox)@, old(watched).map());
            &&& final(mailbox)@ == after
            &&& final(watched).map() == left
            &&& next == match item {
                Some(incoming) => NextIncoming::Incoming(incoming),
                None => NextIncoming::Waiting,
            }
        },
{
    if stopped_by_parent {
        return NextIncoming::StoppedByParent;
    }
    loop
        invariant
            !stopped_by_parent,
            mailbox.wf(),
            watched.wf(),
            mailbox@.handles > 0,
            next_item(mailbox@, watched.map()) == next_item(old(mailbox)@, old(watched).map()),
        decreases mailbox@.incoming.len(),
    {
        let ghost before = mailbox@;
        let ghost held = watched.map();
        match mailbox.recv() {
            Received::Item(incoming) => match incoming {
                Incoming::Message(message) => {
                    return NextIncoming::Incoming(Incoming::Message(message));
                },
                Incoming::Terminated(actor) => {
                    if watched.take_watched_for(actor) {
                        return NextIncoming::Incoming(Incoming::Terminated(actor));
                    }
                    assert(held.remove(actor) =~= held);
                },
            },
            _ => return NextIncoming::Waiting,
        }
    }
}

/// What the task of an actor does next.
#[derive(Debug, Clone, Copy, PartialEq, Eq, Structural)]
pub enum ActorStep {
    /// Initialize the actor.
    Init,
    /// Receive the next item and handle it.
    Receive,
    /// Stop the children, wait so many nanoseconds, then initialize again.
    RestartAfter(u128),
    /// Terminate.
    Terminate,
}

/// The task of one actor.
#[derive(Debug, Clone, Copy, PartialEq, Eq, Structural)]
pub struct ActorTask {
    pub strategy: SupervisionStrategy,
    /// The consecutive restarts.
    pub restarts: u32,
    /// Since when the actor runs, none if it did not come up.
    pub up_since: Option<u128>,
}

impl ActorTask {
    /// A failure taken. A restart is not begun once the parent is stopping.
    pub open spec fn failed(self, parent_stopping: bool, at: u128) -> (ActorTask, ActorStep) {
        let (restart, restarts) = self.strategy.decision(self.up_since, self.restarts, at);
        (
            ActorTask { restarts, ..self },
            match restart {
                Restart::After(delay) if !parent_stopping => ActorStep::RestartAfter(delay),
                _ => ActorStep::Terminate,
            },
        )
    }

    pub open spec fn initialized(self, up: bool, parent_stopping: bool, at: u128) -> (
        ActorTask,
        ActorStep,
    ) {
        if up {
            (ActorTask { up_since: Some(at), ..self }, ActorStep::Receive)
        } else {
            ActorTask { up_since: None, ..self }.failed(parent_stopping, at)
        }
    }

    pub open spec fn handled(self, handled: Handled, parent_stopping: bool, at: u128) -> (
        ActorTask,
        ActorStep,
    ) {
        match handled {
            Handled::Continue => (self, ActorStep::Receive),
            Handled::Stop => (self, ActorStep::Terminate),
            Handled::Failed => self.failed(parent_stopping, at),
        }
    }

    /// The task of a spawned actor, which is to be initialized.
    pub fn new(strategy: SupervisionStrategy) -> (task: Self)
        ensures
            task == (ActorTask { strategy, restarts: 0, up_since: None }),
    {
        ActorTask { strategy, restarts: 0, up_since: None }
    }

    fn fail(&mut self, parent_stopping: bool, at: u128) -> (step: ActorStep)
        ensures
            (*final(self), step) == old(self).failed(parent_stopping, at),
    {
        let mut restarts: u32 = self.restarts;
        let restart = next_restart(self.strategy, self.up_since, &mut restarts, at);
        self.restarts = restarts;
        match restart {
            Restart::After(delay) => {
                if parent_stopping {
                    ActorStep::Terminate
                } else {
                    ActorStep::RestartAfter(delay)
                }
            },
            _ => ActorStep::Terminate,
        }
    }

    /// Takes the outcome of an initialization.
    pub fn on_initialized(&mut self, up: bool, parent_stopping: bool, at: u128) -> (step: ActorStep)
        ensures
            (*final(self), step) == old(self).initialized(up, parent_stopping, at),
    {
        if up {
            self.up_since = Some(at);
            return ActorStep::Receive;
        }
        self.up_since = None;
        self.fail(parent_stopping, at)
    }

    /// Takes how the actor handled an item.
    pub fn on_handled(&mut self, handled: Handled, parent_stopping: bool, at: u128) -> (step:
        ActorStep)
        ensures
            (*final(self), step) == old(self).handled(handled, parent_stopping, at),
    {
        match handled {
            Handled::Continue => ActorStep::Receive,
            Handled::Stop => ActorStep::Terminate,
            Handled::Failed => self.fail(parent_stopping, at),
        }
    }

    /// Takes the end of a restart's delay, which the parent may have interrupted.
    pub fn on_waited(&self, stopped_by_parent: bool) -> (step: ActorStep)
        ensures
            step == if stopped_by_parent {
                ActorStep::Terminate
            } else {
                ActorStep::Init
            },
    {
        if stopped_by_parent {
            ActorStep::Terminate
        } else {
            ActorStep::Init
        }
    }
}

/// What a terminating actor gives up before its children are stopped.
#[derive(Debug)]
pub struct GivenUp<M, W> {
    /// What was queued and will not be handled.
    pub queued: Vec<Incoming<M>>,
    /// The watches to be ended.
    pub watched: Vec<(ActorId, Watched<W>)>,
}

/// Begins the termination of an actor: it receives nothing anymore and watches nobody. Its watchers
/// can still register, since it has not terminated yet.
pub fn begin_termination<M, H, W>(
    mailbox: &mut Mailbox<M, H>,
    watched: &mut WatchedActors<W>,
) -> (given_up: GivenUp<M, W>)
    requires
        old(mailbox).wf(),
        old(watched).wf(),
    ensures
        final(mailbox).wf(),
        final(watched).wf(),
        final(watched).map() == Map::<ActorId, Watched<W>>::empty(),
        final(mailbox)@ == (MailboxModel {
            incoming: Seq::empty(),
            receiving: false,
            ..old(mailbox)@
        }),
        given_up.queued@ == old(mailbox)@.incoming,
        given_up.watched@ == old(watched)@,
{
    let queued = mailbox.disconnect();
    let watched = watched.take_watched();
    GivenUp { queued, watched }
}

/// Ends the termination of an actor whose children have terminated: who is to be told. Nobody can
/// watch it anymore.
pub fn end_termination<M, H>(mailbox: &mut Mailbox<M, H>) -> (told: Vec<Watcher<H>>)
    requires
        old(mailbox).wf(),
    ensures
        final(mailbox).wf(),
        final(mailbox)@ == (MailboxModel { watchers: None, ..old(mailbox)@ }),
        told@ == match old(mailbox)@.watchers {
            Some(watchers) => watchers_of(watchers),
            None => Seq::empty(),
        },
{
    mailbox.watcher_registry.close()
}

/// Watches a root actor. If it has terminated already, its watcher is to be told at once.
pub fn watch_root<H>(registry: &mut WatcherRegistry<H>, watcher_id: ActorId, handler: H) -> (told:
    bool)
    requires
        old(registry).wf(),
    ensures
        final(registry).wf(),
        told == (old(registry)@ is None),
        old(registry)@ is None ==> final(registry)@ is None,
        old(registry)@ matches Some(watchers) ==> final(registry)@ == Some(
            with_watcher(watchers, Watcher { watcher_id, handler }),
        ),
{
    registry.add(Watcher { watcher_id, handler }).is_err()
}

/// Tells that a root actor has terminated, once.
#[derive(Debug, Clone, Copy, PartialEq, Eq, Structural)]
pub struct RootTerminated {
    pub told: bool,
}

impl RootTerminated {
    pub fn new() -> (root: Self)
        ensures
            !root.told,
    {
        RootTerminated { told: false }
    }

    pub fn handle_terminated(&mut self) -> (r: Result<(), ActorTerminated>)
        ensures
            final(self).told,
            r == if old(self).told {
                Err::<(), ActorTerminated>(ActorTerminated)
            } else {
                Ok::<(), ActorTerminated>(())
            },
    {
        if self.told {
            return Err(ActorTerminated);
        }
        self.told = true;
        Ok(())
    }
}

/// A signal for an actor which is not watched, or not anymore, is never handled, even if it is
/// queued already.
pub proof fn an_unwatched_actor_is_not_signaled<M, H, W>(
    mailbox: MailboxModel<M, H>,
    watched: Map<ActorId, Watched<W>>,
    actor: ActorId,
)
    requires
        !watched.dom().contains(actor),
    ensures
        next_item(mailbox, watched).2 != Some(Incoming::<M>::Terminated(actor)),
    decreases mailbox.incoming.len(),
{
    if mailbox.incoming.len() > 0 {
        let rest = MailboxModel { incoming: mailbox.incoming.skip(1), ..mailbox };
        an_unwatched_actor_is_not_signaled(rest, watched, actor);
    }
}

/// A watched actor's signal is handled once: handling it ends the watch.
pub proof fn a_signal_ends_its_watch<M, H, W>(
    mailbox: MailboxModel<M, H>,
    watched: Map<ActorId, Watched<W>>,
    actor: ActorId,
)
    requires
        next_item(mailbox, watched).2 == Some(Incoming::<M>::Terminated(actor)),
    ensures
        watched.dom().contains(actor),
        !next_item(mailbox, watched).1.dom().contains(actor),
    decreases mailbox.incoming.len(),
{
    if mailbox.incoming.len() > 0 {
        let rest = MailboxModel { incoming: mailbox.incoming.skip(1), ..mailbox };
        match mailbox.incoming[0] {
            Incoming::Terminated(other) => if !watched.dom().contains(other) {
                a_signal_ends_its_watch(rest, watched, actor);
            },
            _ => {},
        }
    }
}

/// Messages are handled in the order they were queued: the next message is the oldest one.
pub proof fn messages_are_handled_in_order<M, H, W>(
    mailbox: MailboxModel<M, H>,
    watched: Map<ActorId, Watched<W>>,
    message: M,
)
    requires
        next_item(mailbox, watched).2 == Some(Incoming::Message(message)),
    ensures
        exists|i: int|
            0 <= i < mailbox.incoming.len() && mailbox.incoming[i] == Incoming::Message(message)
                && (forall|j: int| 0 <= j < i ==> (#[trigger] mailbox.incoming[j]) is Terminated)
                && next_item(mailbox, watched).0.incoming == #[trigger] mailbox.incoming.skip(i + 1),
    decreases mailbox.incoming.len(),
{
    let rest = MailboxModel { incoming: mailbox.incoming.skip(1), ..mailbox };
    match mailbox.incoming[0] {
        Incoming::Message(_) => {
            assert(mailbox.incoming.skip(0int + 1) == rest.incoming);
            assert(mailbox.incoming[0] == Incoming::Message(message));
        },
        Incoming::Terminated(actor) => {
            messages_are_handled_in_order(rest, watched, message);
            let i = choose|i: int|
                0 <= i < rest.incoming.len() && rest.incoming[i] == Incoming::Message(message) && (
                forall|j: int| 0 <= j < i ==> (#[trigger] rest.incoming[j]) is Terminated)
                    && next_item(rest, watched).0.incoming == #[trigger] rest.incoming.skip(i + 1);
            assert(mailbox.incoming[i + 1] == rest.incoming[i]);
            assert forall|j: int| 0 <= j < i + 1 implies (#[trigger] mailbox.incoming[j])
                is Terminated by {
                if j > 0 {
                    assert(mailbox.incoming[j] == rest.incoming[j - 1]);
                }
            }
            assert(mailbox.incoming.skip(i + 1 + 1) =~= rest.incoming.skip(i + 1));
        },
    }
}

/// Everything an actor which watches these handles of what is queued, in order.
pub open spec fn handled_items<M>(incoming: Seq<Incoming<M>>, watched: Set<ActorId>) -> Seq<
    Incoming<M>,
>
    decreases incoming.len(),
{
    if incoming.len() == 0 {
        Seq::empty()
    } else {
        match incoming[0] {
            Incoming::Message(_) => seq![incoming[0]] + handled_items(incoming.skip(1), watched),
            Incoming::Terminated(actor) => if watched.contains(actor) {
                seq![incoming[0]] + handled_items(incoming.skip(1), watched.remove(actor))
            } else {
                handled_items(incoming.skip(1), watched)
            },
        }
    }
}

/// The items an actor is given one by one are the ones it handles of what is queued.
pub proof fn items_are_given_one_by_one<M, H, W>(
    mailbox: MailboxModel<M, H>,
    watched: Map<ActorId, Watched<W>>,
)
    ensures
        handled_items(mailbox.incoming, watched.dom()) == match next_item(mailbox, watched) {
            (after, left, Some(item)) => seq![item] + handled_items(after.incoming, left.dom()),
            (_, _, None) => Seq::empty(),
        },
    decreases mailbox.incoming.len(),
{
    if mailbox.incoming.len() > 0 {
        let rest = MailboxModel { incoming: mailbox.incoming.skip(1), ..mailbox };
        match mailbox.incoming[0] {
            Incoming::Terminated(actor) => if !watched.dom().contains(actor) {
                items_are_given_one_by_one(rest, watched);
            } else {
                assert(watched.remove(actor).dom() =~= watched.dom().remove(actor));
            },
            Incoming::Message(_) => {},
        }
    }
}

/// The signal of a watched actor is handled behind everything which was delivered before it, hence
/// behind every message the terminated actor delivered itself.
pub proof fn a_signal_is_handled_last<M>(
    incoming: Seq<Incoming<M>>,
    watched: Set<ActorId>,
    actor: ActorId,
)
    requires
        watched.contains(actor),
        !incoming.contains(Incoming::Terminated(actor)),
    ensures
        handled_items(incoming.push(Incoming::Terminated(actor)), watched) == handled_items(
            incoming,
            watched,
        ).push(Incoming::Terminated(actor)),
    decreases incoming.len(),
{
    let signal = Incoming::<M>::Terminated(actor);
    let all = incoming.push(signal);
    if incoming.len() == 0 {
        assert(all.skip(1) =~= Seq::empty());
        assert(handled_items(all.skip(1), watched.remove(actor)) =~= Seq::empty());
        assert(handled_items(all, watched) =~= seq![signal]);
    } else {
        let rest = incoming.skip(1);
        assert(all.skip(1) =~= rest.push(signal));
        assert(all[0] == incoming[0]);
        assert forall|i: int| 0 <= i < rest.len() implies rest[i] != signal by {
            assert(incoming[i + 1] == rest[i]);
            assert(incoming.contains(incoming[i + 1]));
        }
        match incoming[0] {
            Incoming::Message(_) => {
                a_signal_is_handled_last(rest, watched, actor);
            },
            Incoming::Terminated(other) => {
                assert(incoming.contains(incoming[0]));
                if watched.contains(other) {
                    a_signal_is_handled_last(rest, watched.remove(other), actor);
                } else {
                    a_signal_is_handled_last(rest, watched, actor);
                }
            },
        }
        assert(handled_items(all, watched) =~= handled_items(incoming, watched).push(signal));
    }
}

/// A terminated actor takes nothing anymore: every message to it fails as such.
pub proof fn a_terminated_actor_takes_nothing<M, H>(mailbox: MailboxModel<M, H>, message: M)
    requires
        !mailbox.receiving,
    ensures
        mailbox.sent(message) == (
            mailbox,
            Err::<(), crate::mailbox::SendError>(crate::mailbox::SendError::ActorTerminated),
        ),
{
}

/// Signaling a receiving mailbox of a watched actor's end has the signal handled behind everything
/// which was queued in it before, hence behind every message of that actor.
pub proof fn a_signal_comes_behind_what_was_delivered<M, H>(
    mailbox: MailboxModel<M, H>,
    watched: Set<ActorId>,
    actor: ActorId,
)
    requires
        mailbox.receiving,
        watched.contains(actor),
        !mailbox.incoming.contains(Incoming::Terminated(actor)),
    ensures
        handled_items(mailbox.signaled(actor).0.incoming, watched) == handled_items(
            mailbox.incoming,
            watched,
        ).push(Incoming::Terminated(actor)),
        mailbox.signaled(actor).0.incoming.drop_last() == mailbox.incoming,
        mailbox.signaled(actor).0.incoming.last() == Incoming::<M>::Terminated(actor),
{
    a_signal_is_handled_last(mailbox.incoming, watched, actor);
    assert(mailbox.signaled(actor).0.incoming.drop_last() =~= mailbox.incoming);
}

/// What is handled of a queue without signals is the queue itself, and every message of a queue is
/// handled, in order: only signals of actors which are not watched are left out.
pub proof fn every_message_is_handled<M>(incoming: Seq<Incoming<M>>, watched: Set<ActorId>)
    ensures
        handled_items(incoming, watched).filter(|i: Incoming<M>| i is Message) == incoming.filter(
            |i: Incoming<M>| i is Message,
        ),
    decreases incoming.len(),
{
    let p = |i: Incoming<M>| i is Message;
    reveal(Seq::filter);
    if incoming.len() > 0 {
        let one = seq![incoming[0]];
        let rest = incoming.skip(1);
        assert(incoming =~= one + rest);
        crate::seqs::lemma_filter_add(one, rest, p);
        match incoming[0] {
            Incoming::Message(_) => {
                every_message_is_handled(rest, watched);
                crate::seqs::lemma_filter_add(one, handled_items(rest, watched), p);
            },
            Incoming::Terminated(actor) => {
                crate::seqs::lemma_filter_none(one, p);
                if watched.contains(actor) {
                    every_message_is_handled(rest, watched.remove(actor));
                    crate::seqs::lemma_filter_add(
                        one,
                        handled_items(rest, watched.remove(actor)),
                        p,
                    );
                } else {
                    every_message_is_handled(rest, watched);
                }
                assert(Seq::<Incoming<M>>::empty() + rest.filter(p) =~= rest.filter(p));
            },
        }
        assert(handled_items(incoming, watched).filter(p) =~= incoming.filter(p));
    } else {
        assert(handled_items(incoming, watched) =~= incoming);
    }
}

/// An actor which came up receives, from then on up; one which did not follows its strategy as one
/// which had never been up. A handler which continues keeps the actor receiving, one which stops
/// ends it, and a failure restarts it after the delay its strategy gives, unless it gives none or
/// the parent is stopping.
pub proof fn an_actor_follows_its_strategy(
    task: ActorTask,
    up: bool,
    handled: Handled,
    parent_stopping: bool,
    at: u128,
)
    ensures
        ({
            let (after, step) = task.initialized(up, parent_stopping, at);
            let decision = task.strategy.decision(None, task.restarts, at);
            &&& after.strategy == task.strategy
            &&& after.up_since == (if up {
                Some(at)
            } else {
                None
            })
            &&& up ==> step is Receive && after.restarts == task.restarts
            &&& !up ==> after.restarts == decision.1
            &&& !up && (parent_stopping || !(decision.0 is After)) ==> step is Terminate
            &&& !up && !parent_stopping && decision.0 is After ==> step == ActorStep::RestartAfter(
                decision.0->After_0,
            )
        }),
        ({
            let (after, step) = task.handled(handled, parent_stopping, at);
            let decision = task.strategy.decision(task.up_since, task.restarts, at);
            &&& after.strategy == task.strategy
            &&& after.up_since == task.up_since
            &&& handled is Continue ==> step is Receive && after.restarts == task.restarts
            &&& handled is Stop ==> step is Terminate && after.restarts == task.restarts
            &&& handled is Failed ==> after.restarts == decision.1
            &&& handled is Failed && (parent_stopping || !(decision.0 is After)) ==> step
                is Terminate
            &&& handled is Failed && !parent_stopping && decision.0 is After ==> step
                == ActorStep::RestartAfter(decision.0->After_0)
        }),
{
}

/// A parent which stops an actor comes first: what is queued then is not handled anymore. Otherwise
/// the actor gets the oldest item which is for it.
pub proof fn a_stop_comes_before_what_is_queued<M, H, W>(
    mailbox: &mut Mailbox<M, H>,
    watched: &mut WatchedActors<W>,
    stopped_by_parent: bool,
    next: NextIncoming<M>,
)
    requires
        call_ensures(next_incoming::<M, H, W>, (mailbox, watched, stopped_by_parent), next),
    ensures
        next is StoppedByParent <==> stopped_by_parent,
        stopped_by_parent ==> final(mailbox)@ == old(mailbox)@ && final(watched).map() == old(
            watched).map(),
        !stopped_by_parent && old(mailbox)@.incoming.len() > 0 && old(mailbox)@.incoming[0] is Message
            ==> next == NextIncoming::Incoming(old(mailbox)@.incoming[0]),
        !stopped_by_parent && old(mailbox)@.incoming.len() > 0 && (old(mailbox)@.incoming[0] matches
            Incoming::Terminated(actor) && old(watched).map().dom().contains(actor)) ==> next
            == NextIncoming::Incoming(old(mailbox)@.incoming[0]),
        !stopped_by_parent && old(mailbox)@.incoming.len() == 0 ==> next is Waiting,
{
}

/// The end of an actor is told to every watcher registered, in order, and to none which comes later.
pub proof fn an_end_is_told_to_every_watcher<M, H>(
    mailbox: &mut Mailbox<M, H>,
    told: Vec<Watcher<H>>,
)
    requires
        call_ensures(end_termination::<M, H>, (mailbox,), told),
    ensures
        final(mailbox)@.watchers is None,
        old(mailbox)@.watchers is None ==> told@.len() == 0,
        old(mailbox)@.watchers matches Some(watchers) ==> told@.len() == watchers.len() && forall|
            i: int,
        |
            0 <= i < watchers.len() ==> #[trigger] told@[i] == (Watcher {
                watcher_id: watchers[i].0,
                handler: watchers[i].1,
            }),
{
}

/// A restart whose wait is over begins anew, unless the parent stopped the actor meanwhile.
pub proof fn a_restart_begins_anew(task: &ActorTask, stopped_by_parent: bool, step: ActorStep)
    requires
        call_ensures(ActorTask::on_waited, (task, stopped_by_parent), step),
    ensures
        step is Terminate <==> stopped_by_parent,
        step is Init <==> !stopped_by_parent,
{
}

/// A watch on an actor which is still there registers its watcher; one on an actor which has ended is
/// answered at once, with the signal behind everything queued. Either way the actor is watched.
pub proof fn a_watch_is_registered_or_answered<M, H, W>(
    own: &mut Mailbox<M, H>,
    watched: &mut WatchedActors<W>,
    registry: &mut WatcherRegistry<H>,
    other: ActorId,
    handle: W,
    watcher: Watcher<H>,
)
    requires
        call_ensures(watch_local::<M, H, W>, (own, watched, registry, other, handle, watcher), ()),
    ensures
        final(watched).map().dom().contains(other),
        old(registry)@ matches Some(watchers) ==> {
            let known = exists|i: int|
                0 <= i < watchers.len() && (#[trigger] watchers[i]).0 == watcher.watcher_id;
            &&& final(own)@ == old(own)@
            &&& known ==> final(registry)@ == Some(watchers)
            &&& !known ==> final(registry)@ == Some(
                watchers + seq![(watcher.watcher_id, watcher.handler)],
            )
        },
        old(registry)@ is None && old(own)@.receiving ==> final(own)@.incoming == old(own)@.incoming
            + seq![Incoming::Terminated(other)],
{
    if let Some(watchers) = old(registry)@ {
        crate::watch::a_watcher_is_registered_once(watchers, watcher);
    } else {
        assert(old(own)@.incoming.push(Incoming::Terminated(other)) =~= old(own)@.incoming + seq![
            Incoming::Terminated(other),
        ]);
    }
}

} // verus!
