use std::cell::RefCell;
use std::rc::Rc;
use std::sync::mpsc;

use tellus::actor::{
    begin_termination, end_termination, next_incoming, watch_root, ActorStep, ActorTask, Handled,
    NextIncoming, PanicPayload, RootTerminated, Watched, WatchedActors,
};
use tellus::backoff::{Backoff, InvalidBackoff};
use tellus::cluster::codec::CodecError;
use tellus::cluster::lanes::LaneError;
use tellus::cluster::sink::RemoteSendError;
use tellus::ids::{ActorId, NodeId};
use tellus::mailbox::{Incoming, Mailbox, MailboxCapacity, Received, SendError};
use tellus::request_response::{ask_outcome, AskError, ReplyTo, Waited};
use tellus::supervision::{next_restart, Restart, RestartPolicy, SupervisionStrategy};
use tellus::watch::{ActorTerminated, Watcher, WatcherRegistry};

const MILLIS: u128 = 1_000_000;
const SECS: u128 = 1_000_000_000;

const MIN: u128 = 250 * MILLIS;
const MAX: u128 = 3 * SECS;

#[test]
fn backoff_doubles_up_to_the_cap() {
    let backoff = Backoff::new(MIN, MAX).expect("the bounds are valid");

    assert_eq!(backoff.duration(0), MIN);
    assert_eq!(backoff.duration(1), MIN * 2);
    assert_eq!(backoff.duration(2), MIN * 4);

    assert_eq!(backoff.duration(64), MAX);
    assert_eq!(backoff.duration(u32::MAX), MAX);
}

#[test]
fn a_zero_minimum_is_rejected() {
    assert!(matches!(Backoff::new(0, MAX), Err(InvalidBackoff::ZeroMin)));
    assert!(matches!(Backoff::new(0, 0), Err(InvalidBackoff::ZeroMin)));
}

#[test]
fn no_reachable_backoff_is_zero() {
    let backoff = Backoff::new(1, MAX).expect("the bounds are valid");

    for step in [0, 1, 5, u32::MAX] {
        assert!(backoff.duration(step) != 0);
    }
}

#[test]
fn a_cap_below_the_minimum_is_rejected() {
    assert!(matches!(
        Backoff::new(MAX, MIN),
        Err(InvalidBackoff::MaxBelowMin { .. })
    ));
    assert!(Backoff::new(MIN, MIN).is_ok());
}

#[test]
fn a_backoff_saturates_rather_than_overflowing() {
    let backoff = Backoff::new(u128::MAX / 2, u128::MAX).expect("the bounds are valid");

    assert_eq!(backoff.duration(1), u128::MAX - 1);
    assert_eq!(backoff.duration(2), u128::MAX);
    assert_eq!(Backoff::new(1, u128::MAX).unwrap().duration(31), 1 << 31);
    assert_eq!(Backoff::new(1, u128::MAX).unwrap().duration(32), 1 << 32);
    assert_eq!(Backoff::new(1, u128::MAX).unwrap().duration(127), 1 << 127);
    assert_eq!(Backoff::new(1, u128::MAX).unwrap().duration(128), u128::MAX);
    assert_eq!(Backoff::default().min(), 250 * MILLIS);
    assert_eq!(Backoff::default().max(), 4 * SECS);
}

#[test]
fn a_wide_step_is_capped_and_no_other() {
    let backoff = Backoff::new(1, 10 * SECS).expect("the bounds are valid");

    assert_eq!(backoff.duration(33), 1 << 33);
    assert_eq!(backoff.duration(34), 10 * SECS);
    assert_eq!(backoff.duration(40), 10 * SECS);
    assert_eq!(backoff.duration(u32::MAX), 10 * SECS);
    for step in 0..64 {
        let doubled = (2 * backoff.duration(step)).min(10 * SECS);
        assert_eq!(backoff.duration(step + 1), doubled);
    }
}

fn watcher(watcher_id: ActorId) -> Watcher<()> {
    Watcher::new(watcher_id, ())
}

#[test]
fn watch_adding_a_watcher_twice_registers_once() {
    let mut registry = WatcherRegistry::new();

    let watcher_id = ActorId::new();
    for _ in 0..3 {
        assert!(registry.add(watcher(watcher_id)).is_ok());
    }

    assert_eq!(registry.close().len(), 1);
}

#[test]
fn removing_a_watcher_deregisters_it() {
    let mut registry = WatcherRegistry::new();

    let watcher_id = ActorId::new();
    assert!(registry.add(watcher(watcher_id)).is_ok());
    registry.remove(watcher_id);

    assert!(registry.close().is_empty());
}

#[test]
fn removing_after_take_is_a_noop() {
    let mut registry = WatcherRegistry::new();

    let watcher_id = ActorId::new();
    assert!(registry.add(watcher(watcher_id)).is_ok());
    assert_eq!(registry.close().len(), 1);

    registry.remove(watcher_id);

    assert!(registry.add(watcher(watcher_id)).is_err());
}

#[test]
fn taking_watchers_closes_registration() {
    let mut registry = WatcherRegistry::new();

    assert!(registry.add(watcher(ActorId::new())).is_ok());
    assert_eq!(registry.close().len(), 1);

    assert!(registry.add(watcher(ActorId::new())).is_err());
}

#[test]
fn unbounded_never_fills() {
    let mut mailbox: Mailbox<(), ()> = Mailbox::new(MailboxCapacity::Unbounded);

    for _ in 0..1_000 {
        assert!(mailbox.try_send_message(()).is_ok());
    }
}

#[test]
fn bounded_rejects_beyond_capacity() {
    let mut mailbox: Mailbox<(), ()> = Mailbox::new(MailboxCapacity::Bounded(1));

    assert!(mailbox.try_send_message(()).is_ok());
    assert!(matches!(
        mailbox.try_send_message(()),
        Err(SendError::MailboxFull)
    ));
}

#[test]
fn terminated_overrides_full() {
    let mut mailbox: Mailbox<(), ()> = Mailbox::new(MailboxCapacity::Bounded(1));

    assert!(mailbox.try_send_message(()).is_ok());
    mailbox.disconnect();

    assert!(matches!(
        mailbox.try_send_message(()),
        Err(SendError::ActorTerminated)
    ));
}

#[test]
fn splitting_disconnects_senders_but_keeps_registration_open() {
    let mut mailbox: Mailbox<(), ()> = Mailbox::new(MailboxCapacity::Bounded(1));
    assert!(mailbox.try_send_message(()).is_ok());

    assert_eq!(mailbox.disconnect().len(), 1);

    assert!(matches!(
        mailbox.try_send_message(()),
        Err(SendError::ActorTerminated)
    ));

    assert!(mailbox.watcher_registry().add(watcher(ActorId::new())).is_ok());
    assert_eq!(mailbox.watcher_registry().close().len(), 1);
}

#[test]
fn receiving_a_message_frees_capacity() {
    let mut mailbox: Mailbox<(), ()> = Mailbox::new(MailboxCapacity::Bounded(1));

    assert!(mailbox.try_send_message(()).is_ok());
    assert!(matches!(mailbox.recv(), Received::Item(_)));
    assert!(mailbox.try_send_message(()).is_ok());
}

#[test]
fn recv_drains_queued_messages_before_ending() {
    let mut mailbox: Mailbox<u32, ()> = Mailbox::new(MailboxCapacity::Unbounded);

    assert!(mailbox.try_send_message(1).is_ok());
    assert!(mailbox.try_send_message(2).is_ok());
    mailbox.drop_handle();

    assert_eq!(mailbox.recv(), Received::Item(Incoming::Message(1)));
    assert_eq!(mailbox.recv(), Received::Item(Incoming::Message(2)));
    assert_eq!(mailbox.recv(), Received::Ended);
}

#[test]
fn recv_ends_only_once_every_handle_is_dropped() {
    let mut mailbox: Mailbox<u32, ()> = Mailbox::new(MailboxCapacity::Unbounded);
    mailbox.clone_handle();
    mailbox.drop_handle();

    assert_eq!(mailbox.recv(), Received::Waiting);

    mailbox.drop_handle();
    assert_eq!(mailbox.recv(), Received::Ended);
}

#[test]
fn clones_share_one_capacity() {
    let mut mailbox: Mailbox<(), ()> = Mailbox::new(MailboxCapacity::Bounded(1));
    mailbox.clone_handle();

    assert!(mailbox.try_send_message(()).is_ok());
    assert!(matches!(
        mailbox.try_send_message(()),
        Err(SendError::MailboxFull)
    ));
}

#[test]
fn clones_share_one_watcher_registry() {
    let mut mailbox: Mailbox<(), ()> = Mailbox::new(MailboxCapacity::Unbounded);
    mailbox.clone_handle();

    assert!(mailbox.watcher_registry().add(watcher(ActorId::new())).is_ok());

    mailbox.disconnect();
    assert_eq!(mailbox.watcher_registry().close().len(), 1);
}

#[test]
fn terminated_with_spare_capacity() {
    let capacity = 2;
    let mut mailbox: Mailbox<(), ()> = Mailbox::new(MailboxCapacity::Bounded(capacity));

    mailbox.disconnect();

    for _ in 0..2 * capacity {
        assert!(matches!(
            mailbox.try_send_message(()),
            Err(SendError::ActorTerminated)
        ));
    }
}

#[test]
fn terminated_signals_ignore_capacity() {
    let mut mailbox: Mailbox<(), ()> = Mailbox::new(MailboxCapacity::Bounded(1));

    assert!(mailbox.try_send_message(()).is_ok());
    assert!(mailbox.handle_terminated(ActorId::new()).is_ok());

    assert!(matches!(
        mailbox.recv(),
        Received::Item(Incoming::Message(_))
    ));
    assert!(matches!(
        mailbox.recv(),
        Received::Item(Incoming::Terminated(_))
    ));

    assert!(mailbox.try_send_message(()).is_ok());
    assert!(matches!(
        mailbox.try_send_message(()),
        Err(SendError::MailboxFull)
    ));
}

#[test]
fn watching_ignores_capacity() {
    let mut mailbox: Mailbox<(), ()> = Mailbox::new(MailboxCapacity::Bounded(1));

    assert!(mailbox.try_send_message(()).is_ok());

    assert!(mailbox.watcher_registry().add(watcher(ActorId::new())).is_ok());
}

#[test]
fn watcher_sends_terminated_into_watching_mailbox() {
    let mut mailbox: Mailbox<(), ()> = Mailbox::new(MailboxCapacity::Unbounded);

    let actor_id = ActorId::new();
    assert!(mailbox.handle_terminated(actor_id).is_ok());
    assert_eq!(
        mailbox.recv(),
        Received::Item(Incoming::Terminated(actor_id))
    );

    mailbox.disconnect();
    assert_eq!(mailbox.handle_terminated(actor_id), Err(ActorTerminated));
}

#[test]
fn panic_payload_displays_both_string_shapes() {
    assert_eq!(PanicPayload::Literal("boom".to_string()).to_text(), "boom");
    assert_eq!(
        PanicPayload::Formatted("boom".to_string()).to_text(),
        "boom"
    );
    assert_eq!(PanicPayload::Other.to_text(), "<non-string panic payload>");
}

const RESTART_MAX: u128 = SECS;
const NO_RESET: u128 = 3600 * SECS;

fn restart(max_restarts: u32, reset_after: u128) -> SupervisionStrategy {
    SupervisionStrategy::Restart(RestartPolicy {
        max_restarts,
        backoff: Backoff::new(MIN, RESTART_MAX).expect("the bounds are valid"),
        reset_after,
    })
}

#[test]
fn stop_never_restarts() {
    let mut restarts = 0;

    assert_eq!(
        next_restart(SupervisionStrategy::Stop, None, &mut restarts, 0),
        Restart::NotConfigured
    );
    assert_eq!(restarts, 0);
}

#[test]
fn the_delay_doubles_and_advances_the_count() {
    let strategy = restart(u32::MAX, 0);
    let mut restarts = 0;

    for expected in [MIN, MIN * 2, MIN * 4, RESTART_MAX, RESTART_MAX] {
        assert_eq!(
            next_restart(strategy, None, &mut restarts, 0),
            Restart::After(expected)
        );
    }
    assert_eq!(restarts, 5);
}

#[test]
fn exceeding_the_limit_stops() {
    let strategy = restart(2, 0);
    let mut restarts = 0;

    assert_eq!(
        next_restart(strategy, None, &mut restarts, 0),
        Restart::After(MIN)
    );
    assert_eq!(
        next_restart(strategy, None, &mut restarts, 0),
        Restart::After(MIN * 2)
    );
    assert_eq!(
        next_restart(strategy, None, &mut restarts, 0),
        Restart::LimitExceeded
    );
}

#[test]
fn running_long_enough_resets_the_count() {
    let strategy = restart(1, 0);
    let mut restarts = 7;

    assert_eq!(
        next_restart(strategy, Some(5), &mut restarts, 5),
        Restart::After(MIN)
    );
    assert_eq!(restarts, 1);
}

#[test]
fn running_briefly_keeps_the_count() {
    let strategy = restart(1, NO_RESET);
    let mut restarts = 1;

    assert_eq!(
        next_restart(strategy, Some(5), &mut restarts, 5),
        Restart::LimitExceeded
    );
    assert_eq!(restarts, 1);
}

#[test]
fn a_backoff_elapses_uninterrupted() {
    let task = ActorTask::new(restart(1, NO_RESET));

    assert_eq!(task.on_waited(false), ActorStep::Init);
}

#[test]
fn a_parent_stop_beats_the_backoff() {
    let task = ActorTask::new(restart(1, NO_RESET));

    assert_eq!(task.on_waited(true), ActorStep::Terminate);
}

#[test]
fn an_actor_runs_fails_restarts_and_gives_up() {
    let mut task = ActorTask::new(restart(1, NO_RESET));

    assert_eq!(task.on_initialized(true, false, 10), ActorStep::Receive);
    assert_eq!(
        task.on_handled(Handled::Continue, false, 20),
        ActorStep::Receive
    );
    assert_eq!(
        task.on_handled(Handled::Failed, false, 30),
        ActorStep::RestartAfter(MIN)
    );
    assert_eq!(task.on_waited(false), ActorStep::Init);
    assert_eq!(task.on_initialized(false, false, 40), ActorStep::Terminate);

    let mut stopping = ActorTask::new(restart(1, NO_RESET));
    assert_eq!(stopping.on_initialized(true, false, 10), ActorStep::Receive);
    assert_eq!(
        stopping.on_handled(Handled::Failed, true, 20),
        ActorStep::Terminate
    );
    assert_eq!(
        stopping.on_handled(Handled::Stop, false, 20),
        ActorStep::Terminate
    );
}

#[test]
fn signals_for_unwatched_actors_are_dropped() {
    let mut mailbox: Mailbox<u32, ()> = Mailbox::new(MailboxCapacity::Unbounded);
    let mut watched: WatchedActors<()> = WatchedActors::new();
    let (known, unknown) = (ActorId::new(), ActorId::new());
    watched.watch(known, Watched::Local(()));

    assert!(mailbox.handle_terminated(unknown).is_ok());
    assert!(mailbox.handle_terminated(known).is_ok());
    assert!(mailbox.handle_terminated(known).is_ok());
    assert!(mailbox.try_send_message(7).is_ok());

    assert_eq!(
        next_incoming(&mut mailbox, &mut watched, true),
        NextIncoming::StoppedByParent
    );
    assert_eq!(
        next_incoming(&mut mailbox, &mut watched, false),
        NextIncoming::Incoming(Incoming::Terminated(known))
    );
    assert_eq!(
        next_incoming(&mut mailbox, &mut watched, false),
        NextIncoming::Incoming(Incoming::Message(7))
    );
    assert_eq!(
        next_incoming(&mut mailbox, &mut watched, false),
        NextIncoming::Waiting
    );
    assert!(watched.unwatch(known).is_none());
}

#[test]
fn a_terminating_actor_tells_its_watchers_last() {
    let mut mailbox: Mailbox<u32, ()> = Mailbox::new(MailboxCapacity::Unbounded);
    let mut watched: WatchedActors<()> = WatchedActors::new();
    let other = ActorId::new();
    watched.watch(other, Watched::Local(()));
    assert!(mailbox.try_send_message(1).is_ok());

    let given_up = begin_termination(&mut mailbox, &mut watched);
    assert_eq!(given_up.queued, vec![Incoming::Message(1)]);
    assert_eq!(given_up.watched.len(), 1);
    assert!(mailbox.try_send_message(2).is_err());

    let late = ActorId::new();
    assert!(!watch_root(mailbox.watcher_registry(), late, ()));
    let told = end_termination(&mut mailbox);
    assert_eq!(told.len(), 1);
    assert_eq!(told[0].watcher_id(), late);
    assert!(watch_root(mailbox.watcher_registry(), late, ()));

    let mut root = RootTerminated::new();
    assert!(root.handle_terminated().is_ok());
    assert!(root.handle_terminated().is_err());
}

#[test]
fn reply_invokes_the_sink_with_the_reply() {
    let (reply_tx, reply_rx) = mpsc::channel();
    let reply_to = ReplyTo::new(move |reply: i32| reply_tx.send(reply).expect("reply is received"));

    assert!(reply_to.reply(42));

    assert_eq!(reply_rx.recv(), Ok(42));
}

#[test]
fn reply_after_take_is_a_dead_letter() {
    let received = Rc::new(RefCell::new(Vec::new()));
    let sink = received.clone();
    let mut reply_to = ReplyTo::new(move |reply: i32| sink.borrow_mut().push(reply));

    let send_reply = reply_to.take_send_reply();
    assert!(send_reply.is_some());
    assert!(reply_to.take_send_reply().is_none());

    assert!(!reply_to.reply(42));

    assert!(received.borrow().is_empty());
}

#[test]
fn a_reply_names_its_recipient() {
    let recipient = ActorId::new();
    let reply_to = ReplyTo::new(|_: u8| ());
    assert_eq!(reply_to.recipient(), None);
    assert_eq!(
        reply_to.with_recipient(Some(recipient)).recipient(),
        Some(recipient)
    );
}

#[test]
fn asks_fail_by_what_failed() {
    assert_eq!(
        AskError::from_send(SendError::MailboxFull),
        AskError::MailboxFull
    );
    assert_eq!(
        AskError::from_send(SendError::ActorTerminated),
        AskError::ActorTerminated
    );
    assert_eq!(ask_outcome(Waited::Replied(1), 5), Ok(1));
    assert_eq!(
        ask_outcome::<u8>(Waited::Dropped, 5),
        Err(AskError::NoReply)
    );
    assert_eq!(
        ask_outcome::<u8>(Waited::Elapsed, 5),
        Err(AskError::Timeout(5))
    );

    let peer = NodeId::new(tellus::addr::SocketAddr::v4(127, 0, 0, 1, 1));
    assert_eq!(
        RemoteSendError::Lane(LaneError::OutboundQueueFull(peer)).into_ask_error(),
        AskError::MailboxFull
    );
    assert_eq!(
        RemoteSendError::Lane(LaneError::NodeUnreachable(peer)).into_ask_error(),
        AskError::ActorTerminated
    );
    assert_eq!(
        RemoteSendError::EndpointNotStarted.into_ask_error(),
        AskError::EndpointNotStarted
    );
    assert_eq!(
        RemoteSendError::FrameTooLarge { len: 3, max: 2 }.into_ask_error(),
        AskError::TooLarge { len: 3, max: 2 }
    );
    assert_eq!(
        RemoteSendError::Codec(CodecError::encoding("no")).into_ask_error(),
        AskError::NotEncodable(CodecError::Encode("no".to_string()))
    );
}

#[test]
fn a_forced_message_waits_its_turn() {
    let mut mailbox: Mailbox<u32, ()> = Mailbox::new(MailboxCapacity::Bounded(1));
    assert_eq!(mailbox.try_send_message(1), Ok(()));
    assert_eq!(mailbox.try_send_message(2), Err(SendError::MailboxFull));
    let actor = ActorId::new();
    assert!(mailbox.handle_terminated(actor).is_ok());
    assert!(mailbox.send_forced(3).is_ok());
    assert!(mailbox.send_forced(4).is_ok());

    assert_eq!(mailbox.recv(), Received::Item(Incoming::Message(1)));
    assert_eq!(mailbox.recv(), Received::Item(Incoming::Terminated(actor)));
    assert_eq!(mailbox.try_send_message(5), Err(SendError::MailboxFull));
    assert_eq!(mailbox.recv(), Received::Item(Incoming::Message(3)));
    assert_eq!(mailbox.recv(), Received::Item(Incoming::Message(4)));
    assert_eq!(mailbox.recv(), Received::Waiting);
    assert_eq!(mailbox.try_send_message(6), Ok(()));

    mailbox.disconnect();
    assert!(mailbox.send_forced(7).is_err());
    assert_eq!(mailbox.recv(), Received::Waiting);
}

#[test]
fn debug_skips_the_sink() {
    struct NotDebug;

    let reply_to = ReplyTo::new(|_: NotDebug| ());

    assert!(reply_to.to_text().starts_with("ReplyTo"));
}
