//! Sending frames to other nodes: which lane takes a frame, which is refused, and how a batch fans
//! out.

use vstd::prelude::*;

use crate::addr::SocketAddr;
use crate::cluster::addrs::AddrSet;
use crate::cluster::frame::{Frame, FrameModel};
use crate::cluster::lanes::{LaneError, Lanes, LanesModel};
use crate::cluster::membership::{self, gossip_frames, members_per_frame, Membership,
    MembershipModel, WireMember};
use crate::cluster::reachability::{self, reachability_frames, statements_per_frame,
    WireReachability};
use crate::ids::NodeId;

verus! {

/// Which lanes a batch is sent on.
#[derive(Debug, Clone, Copy, PartialEq, Eq, Structural)]
pub enum Towards {
    /// The connected ones.
    Connected,
    /// All but the disconnected ones, so a lane is opened where there is none.
    NotDisconnected,
    /// All of them.
    Every,
}

impl Towards {
    pub open spec fn takes(self, connected: Option<bool>) -> bool {
        match self {
            Towards::Connected => connected == Some(true),
            Towards::NotDisconnected => connected != Some(false),
            Towards::Every => true,
        }
    }

    pub fn includes(self, connected: Option<bool>) -> (r: bool)
        ensures
            r == self.takes(connected),
    {
        match self {
            Towards::Connected => match connected {
                Some(connected) => connected,
                None => false,
            },
            Towards::NotDisconnected => match connected {
                Some(connected) => connected,
                None => true,
            },
            Towards::Every => true,
        }
    }
}

/// The lanes, the addresses which answered without speaking this protocol, and how many terminated
/// signals are still to be dropped to provoke their loss.
#[derive(Debug)]
pub struct Outbound {
    pub lanes: Lanes,
    pub refused: AddrSet,
    pub dropped_terminated: u64,
}

/// An [Outbound] by value.
#[verifier::ext_equal]
pub ghost struct OutboundModel {
    pub lanes: LanesModel,
    pub refused: Set<SocketAddr>,
    pub dropped_terminated: u64,
}

impl View for Outbound {
    type V = OutboundModel;

    open spec fn view(&self) -> OutboundModel {
        OutboundModel {
            lanes: self.lanes@,
            refused: self.refused@,
            dropped_terminated: self.dropped_terminated,
        }
    }
}

impl OutboundModel {
    /// The frame queued, unless this node is downed, the peer is dead or refused and has no lane, or
    /// its lane does not take it.
    pub open spec fn sent(
        self,
        members: MembershipModel,
        downed: bool,
        peer: NodeId,
        frame: FrameModel,
    ) -> (OutboundModel, Result<(), LaneError>) {
        if downed {
            (self, Err(LaneError::NodeUnreachable(peer)))
        } else if frame is Terminated && self.dropped_terminated > 0 {
            (
                OutboundModel {
                    dropped_terminated: (self.dropped_terminated - 1) as u64,
                    ..self
                },
                Ok(()),
            )
        } else {
            let (lanes, r) = self.lanes.routed(
                peer,
                frame,
                !members.is_down(peer) && !self.refused.contains(peer.addr),
            );
            (OutboundModel { lanes, ..self }, r)
        }
    }

    /// The frames sent in order, each whether or not the one before it was taken.
    pub open spec fn sent_each(
        self,
        members: MembershipModel,
        downed: bool,
        peer: NodeId,
        frames: Seq<FrameModel>,
    ) -> OutboundModel
        decreases frames.len(),
    {
        if frames.len() == 0 {
            self
        } else {
            self.sent_each(members, downed, peer, frames.drop_last()).sent(
                members,
                downed,
                peer,
                frames.last(),
            ).0
        }
    }

    /// Each of the frames so sent is taken.
    pub open spec fn takes_each(
        self,
        members: MembershipModel,
        downed: bool,
        peer: NodeId,
        frames: Seq<FrameModel>,
    ) -> bool
        decreases frames.len(),
    {
        frames.len() == 0 || (self.takes_each(members, downed, peer, frames.drop_last())
            && self.sent_each(members, downed, peer, frames.drop_last()).sent(
            members,
            downed,
            peer,
            frames.last(),
        ).1 is Ok)
    }

    /// The frames sent in order up to the first which is not taken.
    pub open spec fn sent_until(
        self,
        members: MembershipModel,
        downed: bool,
        peer: NodeId,
        frames: Seq<FrameModel>,
    ) -> (OutboundModel, bool)
        decreases frames.len(),
    {
        if frames.len() == 0 {
            (self, true)
        } else {
            let (out, ok) = self.sent_until(members, downed, peer, frames.drop_last());
            if ok {
                let (out, r) = out.sent(members, downed, peer, frames.last());
                (out, r is Ok)
            } else {
                (out, false)
            }
        }
    }

    /// The batch sent to each peer whose lane is among the wanted ones; a frame not taken ends the
    /// batch for its peer alone, unless every frame is to be tried.
    pub open spec fn fanned_out(
        self,
        members: MembershipModel,
        downed: bool,
        peers: Seq<NodeId>,
        frames: Seq<FrameModel>,
        towards: Towards,
    ) -> OutboundModel
        decreases peers.len(),
    {
        if peers.len() == 0 {
            self
        } else {
            let out = self.fanned_out(members, downed, peers.drop_last(), frames, towards);
            let peer = peers.last();
            if !towards.takes(out.lanes.connected(peer.addr)) {
                out
            } else if towards is Every {
                out.sent_each(members, downed, peer, frames)
            } else {
                out.sent_until(members, downed, peer, frames).0
            }
        }
    }
}

pub fn copy_all<T: Copy>(items: &Vec<T>) -> (copy: Vec<T>)
    ensures
        copy@ == items@,
{
    let mut copy: Vec<T> = Vec::new();
    let mut i: usize = 0;
    while i < items.len()
        invariant
            i <= items@.len(),
            copy@ == items@.take(i as int),
        decreases items@.len() - i,
    {
        copy.push(items[i]);
        i = i + 1;
        assert(items@.take(i as int) =~= items@.take(i - 1).push(items@[i - 1]));
    }
    assert(items@.take(i as int) =~= items@);
    copy
}

impl Outbound {
    pub open spec fn wf(&self) -> bool {
        self.lanes.wf() && self.refused.wf()
    }

    pub fn new(capacity: usize, data_streams: usize) -> (outbound: Self)
        ensures
            outbound.wf(),
            outbound@ == (OutboundModel {
                lanes: LanesModel {
                    lanes: Map::empty(),
                    next_generation: 0,
                    capacity: capacity as nat,
                    data_streams: data_streams as nat,
                    dials: Seq::empty(),
                },
                refused: Set::empty(),
                dropped_terminated: 0,
            }),
    {
        Outbound {
            lanes: Lanes::new(capacity, data_streams),
            refused: AddrSet::new(),
            dropped_terminated: 0,
        }
    }

    /// Queues a frame for the peer. System frames bypass the capacity; frames of one key share a
    /// queue, hence arrive in order.
    pub fn send(&mut self, members: &Membership, downed: bool, peer: NodeId, frame: Frame) -> (r:
        Result<(), LaneError>)
        requires
            old(self).wf(),
            members.wf(),
        ensures
            final(self).wf(),
            final(self)@ == old(self)@.sent(members@, downed, peer, frame.deep_view()).0,
            r == old(self)@.sent(members@, downed, peer, frame.deep_view()).1,
    {
        if downed {
            return Err(LaneError::NodeUnreachable(peer));
        }
        let drops = match &frame {
            Frame::Terminated { .. } => self.dropped_terminated > 0,
            _ => false,
        };
        if drops {
            self.dropped_terminated = self.dropped_terminated - 1;
            return Ok(());
        }
        let reachable = !members.is_down(peer) && !self.refused.contains(peer.addr);
        self.lanes.route(peer, frame, reachable)
    }

    /// Sends the frames in order, whatever becomes of each; whether all were taken.
    pub fn send_each(&mut self, members: &Membership, downed: bool, peer: NodeId, frames: Vec<Frame>) -> (
        taken: bool)
        requires
            old(self).wf(),
            members.wf(),
        ensures
            final(self).wf(),
            final(self)@ == old(self)@.sent_each(members@, downed, peer, frames.deep_view()),
            taken == old(self)@.takes_each(members@, downed, peer, frames.deep_view()),
    {
        let ghost all = frames.deep_view();
        let mut rest = frames;
        let mut taken = true;
        let ghost mut i: int = 0;
        assert(all.take(0) =~= Seq::empty());
        assert(rest.deep_view() =~= all.skip(0));
        while rest.len() > 0
            invariant
                self.wf(),
                members.wf(),
                0 <= i <= all.len(),
                rest.deep_view() == all.skip(i),
                self@ == old(self)@.sent_each(members@, downed, peer, all.take(i)),
                taken == old(self)@.takes_each(members@, downed, peer, all.take(i)),
            decreases rest@.len(),
        {
            let ghost before = rest.deep_view();
            assert(before.len() == rest@.len());
            let frame = rest.remove(0);
            proof {
                assert(frame.deep_view() == before[0]);
                assert(before[0] == all[i]);
                assert(rest.deep_view() =~= before.remove(0));
                assert(before.remove(0) =~= all.skip(i + 1));
                assert(all.take(i + 1).drop_last() =~= all.take(i));
                assert(all.take(i + 1).last() == all[i]);
                i = i + 1;
            }
            if self.send(members, downed, peer, frame).is_err() {
                taken = false;
            }
        }
        assert(rest.deep_view().len() == 0);
        assert(all.take(i) =~= all);
        taken
    }

    /// Sends the frames in order up to the first which is not taken; whether all were.
    pub fn send_until(
        &mut self,
        members: &Membership,
        downed: bool,
        peer: NodeId,
        frames: Vec<Frame>,
    ) -> (sent: bool)
        requires
            old(self).wf(),
            members.wf(),
        ensures
            final(self).wf(),
            final(self)@ == old(self)@.sent_until(members@, downed, peer, frames.deep_view()).0,
            sent == old(self)@.sent_until(members@, downed, peer, frames.deep_view()).1,
    {
        let ghost all = frames.deep_view();
        let mut rest = frames;
        let mut sent = true;
        let ghost mut i: int = 0;
        assert(all.take(0) =~= Seq::empty());
        assert(rest.deep_view() =~= all.skip(0));
        while rest.len() > 0
            invariant
                self.wf(),
                members.wf(),
                0 <= i <= all.len(),
                rest.deep_view() == all.skip(i),
                (self@, sent) == old(self)@.sent_until(members@, downed, peer, all.take(i)),
            decreases rest@.len(),
        {
            let ghost before = rest.deep_view();
            assert(before.len() == rest@.len());
            let frame = rest.remove(0);
            proof {
                assert(frame.deep_view() == before[0]);
                assert(before[0] == all[i]);
                assert(rest.deep_view() =~= before.remove(0));
                assert(before.remove(0) =~= all.skip(i + 1));
                assert(all.take(i + 1).drop_last() =~= all.take(i));
                assert(all.take(i + 1).last() == all[i]);
                i = i + 1;
            }
            if sent {
                sent = self.send(members, downed, peer, frame).is_ok();
            }
        }
        assert(rest.deep_view().len() == 0);
        assert(all.take(i) =~= all);
        sent
    }

    /// Sends one batch to a peer, as [OutboundModel::fanned_out] says for one of many.
    fn send_batch(
        &mut self,
        members: &Membership,
        downed: bool,
        peer: NodeId,
        frames: Vec<Frame>,
        towards: Towards,
    )
        requires
            old(self).wf(),
            members.wf(),
        ensures
            final(self).wf(),
            final(self)@ == if !towards.takes(old(self)@.lanes.connected(peer.addr)) {
                old(self)@
            } else if towards is Every {
                old(self)@.sent_each(members@, downed, peer, frames.deep_view())
            } else {
                old(self)@.sent_until(members@, downed, peer, frames.deep_view()).0
            },
    {
        if !towards.includes(self.lanes.connected(peer.addr)) {
            return ;
        }
        match towards {
            Towards::Every => {
                let _ = self.send_each(members, downed, peer, frames);
            },
            _ => {
                let _ = self.send_until(members, downed, peer, frames);
            },
        }
    }

    /// Gossips the listed members to the peers.
    pub fn fan_out_members(
        &mut self,
        members: &Membership,
        downed: bool,
        peers: &Vec<NodeId>,
        listed: &Vec<WireMember>,
        max_frame_size: usize,
        towards: Towards,
    )
        requires
            old(self).wf(),
            members.wf(),
        ensures
            final(self).wf(),
            final(self)@ == old(self)@.fanned_out(
                members@,
                downed,
                peers@,
                gossip_frames(listed@, members_per_frame(max_frame_size)),
                towards,
            ),
    {
        let ghost frames = gossip_frames(listed@, members_per_frame(max_frame_size));
        let mut i: usize = 0;
        assert(peers@.take(0) =~= Seq::empty());
        while i < peers.len()
            invariant
                self.wf(),
                members.wf(),
                i <= peers@.len(),
                frames == gossip_frames(listed@, members_per_frame(max_frame_size)),
                self@ == old(self)@.fanned_out(
                    members@,
                    downed,
                    peers@.take(i as int),
                    frames,
                    towards,
                ),
            decreases peers@.len() - i,
        {
            proof {
                assert(peers@.take(i + 1).drop_last() =~= peers@.take(i as int));
                assert(peers@.take(i + 1).last() == peers@[i as int]);
            }
            let batch = membership::snapshot_frames(copy_all(listed), max_frame_size);
            self.send_batch(members, downed, peers[i], batch, towards);
            i = i + 1;
        }
        assert(peers@.take(i as int) =~= peers@);
    }

    /// Sends the statements to the peers.
    pub fn fan_out_statements(
        &mut self,
        members: &Membership,
        downed: bool,
        peers: &Vec<NodeId>,
        records: &Vec<WireReachability>,
        max_frame_size: usize,
        towards: Towards,
    )
        requires
            old(self).wf(),
            members.wf(),
        ensures
            final(self).wf(),
            final(self)@ == old(self)@.fanned_out(
                members@,
                downed,
                peers@,
                reachability_frames(records@, statements_per_frame(max_frame_size)),
                towards,
            ),
    {
        let ghost frames = reachability_frames(records@, statements_per_frame(max_frame_size));
        let mut i: usize = 0;
        assert(peers@.take(0) =~= Seq::empty());
        while i < peers.len()
            invariant
                self.wf(),
                members.wf(),
                i <= peers@.len(),
                frames == reachability_frames(records@, statements_per_frame(max_frame_size)),
                self@ == old(self)@.fanned_out(
                    members@,
                    downed,
                    peers@.take(i as int),
                    frames,
                    towards,
                ),
            decreases peers@.len() - i,
        {
            proof {
                assert(peers@.take(i + 1).drop_last() =~= peers@.take(i as int));
                assert(peers@.take(i + 1).last() == peers@[i as int]);
            }
            let batch = reachability::snapshot_frames(copy_all(records), max_frame_size);
            self.send_batch(members, downed, peers[i], batch, towards);
            i = i + 1;
        }
        assert(peers@.take(i as int) =~= peers@);
    }
}

/// A downed node sends nothing, whatever it is asked to send.
pub proof fn a_downed_node_is_silent(
    out: OutboundModel,
    members: MembershipModel,
    peers: Seq<NodeId>,
    frames: Seq<FrameModel>,
    towards: Towards,
)
    ensures
        out.fanned_out(members, true, peers, frames, towards) == out,
    decreases peers.len(),
{
    if peers.len() > 0 {
        a_downed_node_is_silent(out, members, peers.drop_last(), frames, towards);
        lemma_silent(out, members, peers.last(), frames);
    }
}

proof fn lemma_silent(
    out: OutboundModel,
    members: MembershipModel,
    peer: NodeId,
    frames: Seq<FrameModel>,
)
    ensures
        out.sent_each(members, true, peer, frames) == out,
        out.sent_until(members, true, peer, frames).0 == out,
    decreases frames.len(),
{
    if frames.len() > 0 {
        lemma_silent(out, members, peer, frames.drop_last());
    }
}

/// What waits on the control stream towards an address.
pub open spec fn control_towards(out: OutboundModel, addr: SocketAddr) -> Seq<FrameModel> {
    if out.lanes.lanes.dom().contains(addr) {
        out.lanes.lanes[addr].control
    } else {
        Seq::empty()
    }
}

/// Frames can be queued for the peer: a lane towards it is open, or can be opened.
pub open spec fn is_open_towards(
    out: OutboundModel,
    members: MembershipModel,
    peer: NodeId,
) -> bool {
    if out.lanes.lanes.dom().contains(peer.addr) {
        let lane = out.lanes.lanes[peer.addr];
        !lane.closed && (lane.peer is None || lane.peer == Some(peer))
    } else {
        !members.is_down(peer) && !out.refused.contains(peer.addr)
    }
}

/// A frame is sent unless this node is downed, its peer is dead or at an address known not to speak
/// the protocol, or the lane refuses it.
pub proof fn a_frame_is_sent_to_the_living(
    out: OutboundModel,
    members: MembershipModel,
    downed: bool,
    peer: NodeId,
    frame: FrameModel,
)
    requires
        out.dropped_terminated == 0 || !(frame is Terminated),
    ensures
        ({
            let (after, r) = out.sent(members, downed, peer, frame);
            let alive = !members.is_down(peer) && !out.refused.contains(peer.addr);
            &&& downed ==> after == out && r == Err::<(), LaneError>(
                LaneError::NodeUnreachable(peer),
            )
            &&& !downed ==> after.lanes == out.lanes.routed(peer, frame, alive).0 && r
                == out.lanes.routed(peer, frame, alive).1
            &&& after.refused == out.refused && after.dropped_terminated == out.dropped_terminated
        }),
{
}

proof fn lemma_sent_elsewhere(
    out: OutboundModel,
    members: MembershipModel,
    downed: bool,
    peer: NodeId,
    frames: Seq<FrameModel>,
    addr: SocketAddr,
)
    requires
        addr != peer.addr,
    ensures
        forall|frame: FrameModel|
            ({
                let after = (#[trigger] out.sent(members, downed, peer, frame)).0;
                &&& after.lanes.lanes.dom().contains(addr) == out.lanes.lanes.dom().contains(addr)
                &&& after.lanes.lanes[addr] == out.lanes.lanes[addr]
                &&& after.refused == out.refused
            }),
        ({
            let after = out.sent_each(members, downed, peer, frames);
            &&& after.lanes.lanes.dom().contains(addr) == out.lanes.lanes.dom().contains(addr)
            &&& after.lanes.lanes[addr] == out.lanes.lanes[addr]
            &&& after.refused == out.refused
        }),
        ({
            let after = out.sent_until(members, downed, peer, frames).0;
            &&& after.lanes.lanes.dom().contains(addr) == out.lanes.lanes.dom().contains(addr)
            &&& after.lanes.lanes[addr] == out.lanes.lanes[addr]
            &&& after.refused == out.refused
        }),
    decreases frames.len(),
{
    if frames.len() > 0 {
        let fewer = frames.drop_last();
        lemma_sent_elsewhere(out, members, downed, peer, fewer, addr);
        lemma_sent_elsewhere(
            out.sent_each(members, downed, peer, fewer),
            members,
            downed,
            peer,
            Seq::empty(),
            addr,
        );
        lemma_sent_elsewhere(
            out.sent_until(members, downed, peer, fewer).0,
            members,
            downed,
            peer,
            Seq::empty(),
            addr,
        );
    }
}

proof fn lemma_sent_control(
    out: OutboundModel,
    members: MembershipModel,
    peer: NodeId,
    frames: Seq<FrameModel>,
)
    requires
        is_open_towards(out, members, peer),
        forall|i: int|
            0 <= i < frames.len() ==> (#[trigger] frames[i]).key() is None && !frames[i].counted()
                && !(frames[i] is Terminated),
    ensures
        ({
            let after = out.sent_each(members, false, peer, frames);
            &&& out.sent_until(members, false, peer, frames) == (after, true)
            &&& control_towards(after, peer.addr) == control_towards(out, peer.addr) + frames
            &&& is_open_towards(after, members, peer)
        }),
    decreases frames.len(),
{
    if frames.len() > 0 {
        let fewer = frames.drop_last();
        let last = frames.last();
        assert forall|i: int| 0 <= i < fewer.len() implies (#[trigger] fewer[i]).key() is None
            && !fewer[i].counted() && !(fewer[i] is Terminated) by {
            assert(fewer[i] == frames[i]);
        }
        lemma_sent_control(out, members, peer, fewer);
        let before = out.sent_each(members, false, peer, fewer);
        assert(last == frames[frames.len() - 1]);
        let (after, r) = before.sent(members, false, peer, last);
        let queued = control_towards(before, peer.addr);
        assert(control_towards(after, peer.addr) =~= queued.push(last));
        assert(r is Ok);
        assert(control_towards(out, peer.addr) + frames =~= (control_towards(out, peer.addr)
            + fewer).push(last));
    } else {
        assert(control_towards(out, peer.addr) + frames =~= control_towards(out, peer.addr));
    }
}

/// A batch of control frames is queued, whole and in order, for every peer its direction takes and
/// which can be reached, whatever the others do. A peer its direction leaves out gets none of it.
pub proof fn a_batch_reaches_every_peer(
    out: OutboundModel,
    members: MembershipModel,
    peers: Seq<NodeId>,
    frames: Seq<FrameModel>,
    towards: Towards,
    to: int,
)
    requires
        0 <= to < peers.len(),
        forall|i: int| 0 <= i < peers.len() && i != to ==> (#[trigger] peers[i]).addr
            != peers[to].addr,
        is_open_towards(out, members, peers[to]),
        forall|i: int|
            0 <= i < frames.len() ==> !((#[trigger] frames[i]) is Message || frames[i] is Terminated
                || frames[i] is Reply || frames[i] is ReplyDropped),
    ensures
        ({
            let addr = peers[to].addr;
            let after = out.fanned_out(members, false, peers, frames, towards);
            let known = out.lanes.lanes.dom().contains(addr);
            let taken = match towards {
                Towards::Connected => known && out.lanes.lanes[addr].connected,
                Towards::NotDisconnected => !known || out.lanes.lanes[addr].connected,
                Towards::Every => true,
            };
            &&& taken ==> control_towards(after, addr) == control_towards(out, addr) + frames
            &&& !taken ==> control_towards(after, addr) == control_towards(out, addr)
        }),
    decreases peers.len(),
{
    let addr = peers[to].addr;
    let fewer = peers.drop_last();
    let last = peers.last();
    let before = out.fanned_out(members, false, fewer, frames, towards);
    if to < fewer.len() {
        assert forall|i: int| 0 <= i < fewer.len() && i != to implies (#[trigger] fewer[i]).addr
            != fewer[to].addr by {
            assert(fewer[i] == peers[i]);
        }
        a_batch_reaches_every_peer(out, members, fewer, frames, towards, to);
        assert(last == peers[peers.len() - 1]);
        lemma_sent_elsewhere(before, members, false, last, frames, addr);
    } else {
        lemma_fanned_elsewhere(out, members, fewer, frames, towards, addr);
        lemma_sent_control(before, members, last, frames);
    }
}

proof fn lemma_fanned_elsewhere(
    out: OutboundModel,
    members: MembershipModel,
    peers: Seq<NodeId>,
    frames: Seq<FrameModel>,
    towards: Towards,
    addr: SocketAddr,
)
    requires
        forall|i: int| 0 <= i < peers.len() ==> (#[trigger] peers[i]).addr != addr,
    ensures
        ({
            let after = out.fanned_out(members, false, peers, frames, towards);
            &&& after.lanes.lanes.dom().contains(addr) == out.lanes.lanes.dom().contains(addr)
            &&& after.lanes.lanes[addr] == out.lanes.lanes[addr]
            &&& after.refused == out.refused
        }),
    decreases peers.len(),
{
    if peers.len() > 0 {
        let fewer = peers.drop_last();
        assert forall|i: int| 0 <= i < fewer.len() implies (#[trigger] fewer[i]).addr != addr by {
            assert(fewer[i] == peers[i]);
        }
        lemma_fanned_elsewhere(out, members, fewer, frames, towards, addr);
        let before = out.fanned_out(members, false, fewer, frames, towards);
        assert(peers.last() == peers[peers.len() - 1]);
        lemma_sent_elsewhere(before, members, false, peers.last(), frames, addr);
    }
}

} // verus!
