//! Death watch across nodes. A watch on a remote actor is asserted to its node, which answers with a
//! terminated signal; a dead node's signals are synthesized here.

use vstd::prelude::*;

use crate::cluster::endpoint::{Endpoint, EndpointModel};
use crate::cluster::failure::{FailureDetector, FailureDetectorFactory};
use crate::cluster::frame::{Frame, FrameModel};
use crate::cluster::watch::{RegisteredWatch, WatchKey, WireWatchKey, WireWatchModel};
use crate::ids::{ActorId, NodeId};
use crate::table::{has_key, value_of, without};
use crate::watch::{ActorTerminated, Watcher};

verus! {

pub open spec fn terminated_frames(target: ActorId, watchers: Seq<ActorId>) -> Seq<FrameModel> {
    watchers.map_values(|watcher: ActorId| FrameModel::Terminated { target, watcher })
}

/// One terminated signal per watcher, each to ride its own stream.
pub fn frames_of_termination(target: ActorId, watchers: &Vec<ActorId>) -> (frames: Vec<Frame>)
    ensures
        frames.deep_view() == terminated_frames(target, watchers@),
{
    let mut frames: Vec<Frame> = Vec::new();
    let mut i: usize = 0;
    assert(frames.deep_view() =~= terminated_frames(target, watchers@.take(0)));
    while i < watchers.len()
        invariant
            i <= watchers@.len(),
            frames.deep_view() == terminated_frames(target, watchers@.take(i as int)),
        decreases watchers@.len() - i,
    {
        let ghost before = frames.deep_view();
        frames.push(Frame::Terminated { target, watcher: watchers[i] });
        i = i + 1;
        assert(frames.deep_view() =~= before.push(terminated_frames(target, watchers@)[i - 1]));
        assert(terminated_frames(target, watchers@.take(i as int)) =~= terminated_frames(
            target,
            watchers@.take(i - 1),
        ).push(terminated_frames(target, watchers@)[i - 1]));
    }
    assert(watchers@.take(i as int) =~= watchers@);
    frames
}

impl<H, S, R, D: FailureDetector> EndpointModel<H, S, R, D> {
    /// One watcher told of one termination.
    pub open spec fn signaled(self, target: ActorId, watcher: Watcher<H>) -> EndpointModel<H, S, R, D> {
        EndpointModel { signals: self.signals.push((target, watcher)), ..self }
    }

    /// A watcher taken and told, if it is registered.
    pub open spec fn fired(self, peer: NodeId, target: ActorId, watcher: ActorId) -> EndpointModel<
        H,
        S,
        R,
        D,
    > {
        let key = WatchKey { peer, target, watcher };
        let taken = EndpointModel { watchers: without(self.watchers, key), ..self };
        match value_of(self.watchers, key) {
            Some(handler) => taken.signaled(target, Watcher { watcher_id: watcher, handler }),
            None => taken,
        }
    }

    /// A watch on a remote actor registered and asserted; one which cannot be asserted, since its
    /// node is dead or unreachable, is told at once.
    pub open spec fn watching(self, peer: NodeId, target: ActorId, watcher: Watcher<H>) -> EndpointModel<
        H,
        S,
        R,
        D,
    > {
        let key = WatchKey { peer, target, watcher: watcher.watcher_id };
        if self.membership.is_down(peer) {
            self.signaled(target, watcher)
        } else if has_key(self.watchers, key) {
            self
        } else {
            let added = EndpointModel {
                watchers: self.watchers.push((key, watcher.handler)),
                ..self
            };
            let (sent, r) = added.sent(
                peer,
                FrameModel::Watch { target, watcher: watcher.watcher_id },
            );
            if r is Ok {
                sent
            } else {
                sent.fired(peer, target, watcher.watcher_id)
            }
        }
    }

    /// The wire watch taken and its watchers answered that the target has terminated.
    pub open spec fn answered(self, peer: NodeId, target: ActorId) -> EndpointModel<H, S, R, D> {
        let key = WireWatchKey { peer, target };
        let taken = EndpointModel { wire_watches: self.wire_watches.remove(key), ..self };
        if self.wire_watches.dom().contains(key) {
            taken.sent_each(peer, terminated_frames(target, self.wire_watches[key].watchers))
        } else {
            taken
        }
    }

    /// The answers to the watchers of the wire watch are all taken.
    pub open spec fn answers(self, peer: NodeId, target: ActorId) -> bool {
        let key = WireWatchKey { peer, target };
        self.wire_watches.dom().contains(key) ==> self.outbound.takes_each(
            self.membership,
            self.is_downed(),
            peer,
            terminated_frames(target, self.wire_watches[key].watchers),
        )
    }
}

impl<H, S, R, D: FailureDetector, F: FailureDetectorFactory<D>> Endpoint<H, S, R, D, F> {
    /// Takes a watcher and tells it, if it is registered.
    pub fn on_terminated(&mut self, peer: NodeId, target: ActorId, watcher: ActorId)
        requires
            old(self).wf(),
        ensures
            final(self).wf(),
            final(self)@ == old(self)@.fired(peer, target, watcher),
    {
        let ghost before = self@;
        match self.watchers.take_watcher(peer, target, watcher) {
            Some(watcher) => {
                self.signals.push((target, watcher));
            },
            None => {},
        }
        assert(self@ =~= before.fired(peer, target, watcher));
    }

    /// Watches a remote actor.
    pub fn watch_remote(&mut self, peer: NodeId, target: ActorId, watcher: Watcher<H>)
        requires
            old(self).wf(),
        ensures
            final(self).wf(),
            final(self)@ == old(self)@.watching(peer, target, watcher),
    {
        if self.membership.is_down(peer) {
            self.signals.push((target, watcher));
            return ;
        }
        let watcher_id = watcher.watcher_id();
        let due = self.watchers.add(peer, target, watcher);
        if due && self.send(peer, Frame::Watch { target, watcher: watcher_id }).is_err() {
            self.on_terminated(peer, target, watcher_id);
        }
    }

    /// Ends a watch on a remote actor; its node is told if the watch was there.
    pub fn unwatch_remote(&mut self, peer: NodeId, target: ActorId, watcher: ActorId)
        requires
            old(self).wf(),
        ensures
            final(self).wf(),
            ({
                let key = WatchKey { peer, target, watcher };
                let removed = EndpointModel {
                    watchers: without(old(self)@.watchers, key),
                    ..old(self)@
                };
                final(self)@ == if has_key(old(self)@.watchers, key) {
                    removed.sent(peer, FrameModel::Unwatch { target, watcher }).0
                } else {
                    removed
                }
            }),
    {
        if self.watchers.remove(peer, target, watcher) {
            let _ = self.send(peer, Frame::Unwatch { target, watcher });
        }
    }

    /// Records a remote watcher of a local actor. If it is the first from its node, one local watcher
    /// is to be registered for all of them, which [Endpoint::finish_watch] is told of.
    pub fn on_watch(&mut self, peer: NodeId, target: ActorId, watcher: ActorId) -> (due: bool)
        requires
            old(self).wf(),
        ensures
            final(self).wf(),
            ({
                let key = WireWatchKey { peer, target };
                let held = old(self)@.wire_watches;
                &&& due == !held.dom().contains(key)
                &&& final(self)@ == (EndpointModel {
                    wire_watches: held.insert(
                        key,
                        if due {
                            WireWatchModel { wire_watcher_id: None, watchers: seq![watcher] }
                        } else {
                            held[key].with(watcher)
                        },
                    ),
                    ..old(self)@
                })
            }),
    {
        self.wire_watches.add(peer, target, watcher)
    }

    /// Ends what [Endpoint::on_watch] began: the local watcher is confirmed, or, if the target is
    /// unknown or has terminated, every remote watcher is answered right away.
    pub fn finish_watch(&mut self, peer: NodeId, target: ActorId, registered: Option<ActorId>)
        requires
            old(self).wf(),
        ensures
            final(self).wf(),
            ({
                let key = WireWatchKey { peer, target };
                let held = old(self)@.wire_watches;
                final(self)@ == match registered {
                    Some(id) if held.dom().contains(key) => EndpointModel {
                        wire_watches: held.insert(
                            key,
                            WireWatchModel { wire_watcher_id: Some(id), ..held[key] },
                        ),
                        ..old(self)@
                    },
                    Some(_) => old(self)@,
                    None => old(self)@.answered(peer, target),
                }
            }),
    {
        match registered {
            Some(wire_watcher_id) => self.wire_watches.confirm(peer, target, wire_watcher_id),
            None => {
                let _ = self.handle_wire_terminated(peer, target);
            },
        }
    }

    /// Forgets a remote watcher of a local actor; with the last one from its node the local watcher
    /// is to be deregistered.
    pub fn on_unwatch(&mut self, peer: NodeId, target: ActorId, watcher: ActorId)
        requires
            old(self).wf(),
        ensures
            final(self).wf(),
            ({
                let key = WireWatchKey { peer, target };
                let held = old(self)@.wire_watches;
                let left = held[key].without(watcher);
                final(self)@ == if !held.dom().contains(key) {
                    old(self)@
                } else if left.watchers.len() > 0 {
                    EndpointModel { wire_watches: held.insert(key, left), ..old(self)@ }
                } else {
                    EndpointModel {
                        wire_watches: held.remove(key),
                        released: match held[key].wire_watcher_id {
                            Some(wire_watcher_id) => old(self)@.released.insert(
                                RegisteredWatch { target, wire_watcher_id },
                            ),
                            None => old(self)@.released,
                        },
                        ..old(self)@
                    }
                }
            }),
    {
        let ghost before = self.released@;
        match self.wire_watches.remove(peer, target, watcher) {
            Some(wire_watcher_id) => {
                let released = RegisteredWatch { target, wire_watcher_id };
                self.released.push(released);
                proof {
                    broadcast use vstd::seq_lib::group_seq_properties;

                    assert(self.released@.to_set() =~= before.to_set().insert(released)) by {
                        assert forall|r: RegisteredWatch| #[trigger]
                            self.released@.contains(r) == (before.contains(r) || r == released) by {
                            if before.contains(r) {
                                let i = choose|i: int| 0 <= i < before.len() && before[i] == r;
                                assert(self.released@[i] == r);
                            }
                            assert(self.released@[before.len() as int] == released);
                        }
                    }
                }
            },
            None => {},
        }
    }

    /// Answers every remote watcher of a terminated local actor on one node. Fails if any of them
    /// was left unanswered.
    pub fn handle_wire_terminated(&mut self, peer: NodeId, target: ActorId) -> (r: Result<
        (),
        ActorTerminated,
    >)
        requires
            old(self).wf(),
        ensures
            final(self).wf(),
            final(self)@ == old(self)@.answered(peer, target),
            r == if old(self)@.answers(peer, target) {
                Ok::<(), ActorTerminated>(())
            } else {
                Err::<(), ActorTerminated>(ActorTerminated)
            },
    {
        match self.wire_watches.take(peer, target) {
            Some(watch) => {
                let frames = frames_of_termination(target, &watch.watchers);
                if self.send_each(peer, frames) {
                    Ok(())
                } else {
                    Err(ActorTerminated)
                }
            },
            None => Ok(()),
        }
    }
}

/// A watch on an actor of a dead node is told at once and leaves nothing behind.
pub proof fn watching_a_dead_node_is_answered_at_once<H, S, R, D: FailureDetector>(
    endpoint: EndpointModel<H, S, R, D>,
    peer: NodeId,
    target: ActorId,
    watcher: Watcher<H>,
)
    requires
        endpoint.membership.is_down(peer),
    ensures
        endpoint.watching(peer, target, watcher) == (EndpointModel {
            signals: endpoint.signals.push((target, watcher)),
            ..endpoint
        }),
{
}

/// No watch is lost: after a watch either its watcher is registered or it has been told.
pub proof fn a_watcher_is_registered_or_told<H, S, R, D: FailureDetector>(
    endpoint: EndpointModel<H, S, R, D>,
    peer: NodeId,
    target: ActorId,
    watcher: Watcher<H>,
)
    requires
        crate::table::distinct(endpoint.watchers),
    ensures
        ({
            let after = endpoint.watching(peer, target, watcher);
            ||| has_key(
                after.watchers,
                WatchKey { peer, target, watcher: watcher.watcher_id },
            )
            ||| after.signals.contains((target, watcher))
        }),
{
    let key = WatchKey { peer, target, watcher: watcher.watcher_id };
    let after = endpoint.watching(peer, target, watcher);
    if endpoint.membership.is_down(peer) {
        assert(after.signals[endpoint.signals.len() as int] == (target, watcher));
    } else if !has_key(endpoint.watchers, key) {
        let pushed = endpoint.watchers.push((key, watcher.handler));
        crate::table::lemma_put(endpoint.watchers, key, watcher.handler);
        assert(crate::table::put(endpoint.watchers, key, watcher.handler) == pushed);
        assert(pushed[endpoint.watchers.len() as int].0 == key);
        assert(has_key(pushed, key));
        assert(value_of(pushed, key) == Some(watcher.handler));
        let fired = Watcher { watcher_id: watcher.watcher_id, handler: watcher.handler };
        assert(fired == watcher);
        if !has_key(after.watchers, key) {
            assert(after.signals[endpoint.signals.len() as int] == (target, watcher));
        }
    }
}

/// The end of an actor which a peer watches is reported to each of its watchers there, once and in
/// order, and the watch goes with it.
pub proof fn an_end_is_reported_to_each_watcher<H, S, R, D: FailureDetector>(
    endpoint: EndpointModel<H, S, R, D>,
    peer: NodeId,
    target: ActorId,
)
    ensures
        ({
            let key = WireWatchKey { peer, target };
            let watchers = endpoint.wire_watches[key].watchers;
            let frames = Seq::new(
                watchers.len(),
                |i: int| FrameModel::Terminated { target, watcher: watchers[i] },
            );
            let after = endpoint.answered(peer, target);
            &&& after.wire_watches == endpoint.wire_watches.remove(key)
            &&& endpoint.wire_watches.dom().contains(key) ==> after.outbound
                == endpoint.outbound.sent_each(
                endpoint.membership,
                endpoint.is_downed(),
                peer,
                frames,
            )
            &&& !endpoint.wire_watches.dom().contains(key) ==> after.outbound == endpoint.outbound
            &&& after == (EndpointModel {
                wire_watches: after.wire_watches,
                outbound: after.outbound,
                ..endpoint
            })
        }),
{
    let key = WireWatchKey { peer, target };
    let watchers = endpoint.wire_watches[key].watchers;
    let frames = Seq::new(
        watchers.len(),
        |i: int| FrameModel::Terminated { target, watcher: watchers[i] },
    );
    assert(terminated_frames(target, watchers) =~= frames);
}

/// A watch on a live node is sent to it once, whatever its watcher asks later, and stays as it is
/// until it is told.
pub proof fn a_watch_is_asserted_once<H, S, R, D: FailureDetector>(
    endpoint: EndpointModel<H, S, R, D>,
    peer: NodeId,
    target: ActorId,
    watcher: Watcher<H>,
)
    requires
        !endpoint.membership.is_down(peer),
    ensures
        ({
            let key = WatchKey { peer, target, watcher: watcher.watcher_id };
            let after = endpoint.watching(peer, target, watcher);
            let (outbound, r) = endpoint.outbound.sent(
                endpoint.membership,
                endpoint.is_downed(),
                peer,
                FrameModel::Watch { target, watcher: watcher.watcher_id },
            );
            &&& has_key(endpoint.watchers, key) ==> after == endpoint
            &&& !has_key(endpoint.watchers, key) ==> after.outbound == outbound
            &&& !has_key(endpoint.watchers, key) && r is Ok ==> after.watchers
                == endpoint.watchers.push((key, watcher.handler)) && after.signals
                == endpoint.signals
        }),
{
}

} // verus!
