//! The outbound queues towards other nodes, one lane per address: a control queue and data queues
//! which frames are spread over by the actor they are delivered to, sharing one capacity.

use vstd::prelude::*;

use crate::addr::SocketAddr;
use crate::cluster::frame::{Frame, FrameModel, StreamKey};
use crate::ids::{ActorId, Nonce, NodeId};
use crate::seqs::lemma_filter_add;
use crate::table::{as_map, lemma_put, lemma_without, put, without, Table};

verus! {

/// A task and the lane it was started for must agree, so a stale task cannot close a newer lane.
#[derive(Debug, Clone, Copy, PartialEq, Eq, Structural)]
pub struct Generation(pub u64);

/// A frame which cannot be queued.
#[derive(Debug, Clone, Copy, PartialEq, Eq, Structural)]
pub enum LaneError {
    /// The node is dead, refused, or another incarnation than the one the lane is bound to.
    NodeUnreachable(NodeId),
    /// The outbound queue towards the node is full.
    OutboundQueueFull(NodeId),
}

/// A lane opened and to be dialed.
#[derive(Debug, Clone, Copy, PartialEq, Eq, Structural)]
pub struct DialRequest {
    pub addr: SocketAddr,
    pub lane_id: Generation,
}

/// The queues of one lane. Until it is bound to the incarnation which answered, it takes frames for
/// any incarnation at its address.
#[derive(Debug)]
pub struct Lane {
    pub id: Generation,
    pub peer: Option<NodeId>,
    pub connected: bool,
    /// The writers are gone.
    pub closed: bool,
    /// How many queued frames count against the capacity.
    pub counted: usize,
    pub control: Vec<Frame>,
    pub data: Vec<Vec<Frame>>,
}

#[verifier::ext_equal]
pub ghost struct LaneModel {
    pub id: Generation,
    pub peer: Option<NodeId>,
    pub connected: bool,
    pub closed: bool,
    pub counted: nat,
    pub control: Seq<FrameModel>,
    pub data: Seq<Seq<FrameModel>>,
}

impl View for Lane {
    type V = LaneModel;

    open spec fn view(&self) -> LaneModel {
        LaneModel {
            id: self.id,
            peer: self.peer,
            connected: self.connected,
            closed: self.closed,
            counted: self.counted as nat,
            control: self.control.deep_view(),
            data: self.data.deep_view(),
        }
    }
}

/// The number which spreads a key over the streams.
pub open spec fn key_value(key: StreamKey) -> u64 {
    match key {
        StreamKey::Actor(actor) => actor.0 as u64,
        StreamKey::Nonce(nonce) => nonce.0,
    }
}

/// The stream of the key. The mapping only has to agree with itself: nothing about it travels.
pub open spec fn spec_stream_index(key: StreamKey, streams: usize) -> usize {
    (key_value(key) as usize) % streams
}

/// The stream of the key among so many.
pub fn stream_index(key: StreamKey, streams: usize) -> (index: usize)
    requires
        streams > 0,
    ensures
        index == spec_stream_index(key, streams),
        index < streams,
{
    let value: u64 = match key {
        StreamKey::Actor(actor) => #[verifier::truncate] (actor.0 as u64),
        StreamKey::Nonce(nonce) => nonce.0,
    };
    let value: usize = #[verifier::truncate] (value as usize);
    value % streams
}

pub open spec fn is_counted() -> spec_fn(FrameModel) -> bool {
    |f: FrameModel| f.counted()
}

/// How many frames of a queue count against the capacity.
pub open spec fn counted_in(frames: Seq<FrameModel>) -> nat {
    frames.filter(is_counted()).len()
}

/// How many frames of these queues count against the capacity.
pub open spec fn counted_over(queues: Seq<Seq<FrameModel>>) -> nat
    decreases queues.len(),
{
    if queues.len() == 0 {
        0
    } else {
        counted_over(queues.drop_last()) + counted_in(queues.last())
    }
}

proof fn lemma_counted_push(frames: Seq<FrameModel>, frame: FrameModel)
    ensures
        counted_in(frames.push(frame)) == counted_in(frames) + if frame.counted() {
            1nat
        } else {
            0nat
        },
{
    reveal(Seq::filter);
    assert(frames.push(frame).drop_last() =~= frames);
}

proof fn lemma_counted_pop(frames: Seq<FrameModel>)
    requires
        frames.len() > 0,
    ensures
        counted_in(frames) == counted_in(frames.skip(1)) + if frames[0].counted() {
            1nat
        } else {
            0nat
        },
{
    let one = seq![frames[0]];
    assert(frames =~= one + frames.skip(1));
    lemma_filter_add(one, frames.skip(1), is_counted());
    lemma_counted_push(Seq::empty(), frames[0]);
    assert(Seq::<FrameModel>::empty().push(frames[0]) =~= one);
    reveal(Seq::filter);
}

proof fn lemma_over_update(queues: Seq<Seq<FrameModel>>, i: int, queue: Seq<FrameModel>)
    requires
        0 <= i < queues.len(),
    ensures
        counted_over(queues.update(i, queue)) + counted_in(queues[i]) == counted_over(queues)
            + counted_in(queue),
    decreases queues.len(),
{
    let rest = queues.drop_last();
    if i == queues.len() - 1 {
        assert(queues.update(i, queue).drop_last() =~= rest);
    } else {
        lemma_over_update(rest, i, queue);
        assert(queues.update(i, queue).drop_last() =~= rest.update(i, queue));
    }
}

proof fn lemma_over_empty(queues: Seq<Seq<FrameModel>>)
    requires
        forall|i: int| 0 <= i < queues.len() ==> (#[trigger] queues[i]).len() == 0,
    ensures
        counted_over(queues) == 0,
    decreases queues.len(),
{
    if queues.len() > 0 {
        assert forall|i: int| 0 <= i < queues.drop_last().len() implies (
        #[trigger] queues.drop_last()[i]).len() == 0 by {
            assert(queues[i].len() == 0);
        }
        lemma_over_empty(queues.drop_last());
        reveal(Seq::filter);
        assert(queues.last().len() == 0);
    }
}

impl LaneModel {
    /// How many frames wait which count against the capacity.
    pub open spec fn waiting(self) -> nat {
        counted_in(self.control) + counted_over(self.data)
    }

    /// A fresh lane which nothing is bound to yet.
    pub open spec fn opened(id: Generation, streams: nat) -> LaneModel {
        LaneModel {
            id,
            peer: None,
            connected: false,
            closed: false,
            counted: 0,
            control: Seq::empty(),
            data: Seq::new(streams, |i: int| Seq::empty()),
        }
    }

    /// Frames of one key share one queue, hence keep their order; without data queues, and for
    /// frames without a key, it is the control queue.
    pub open spec fn queue_of(self, frame: FrameModel) -> Option<int> {
        match frame.key() {
            Some(key) => if self.data.len() > 0 {
                Some(spec_stream_index(key, self.data.len() as usize) as int)
            } else {
                None
            },
            None => None,
        }
    }

    pub open spec fn pushed(self, frame: FrameModel) -> LaneModel {
        let counted = if frame.counted() {
            self.counted + 1
        } else {
            self.counted
        };
        match self.queue_of(frame) {
            Some(i) => LaneModel {
                counted,
                data: self.data.update(i, self.data[i].push(frame)),
                ..self
            },
            None => LaneModel { counted, control: self.control.push(frame), ..self },
        }
    }

    /// A closed lane overrides a full one; system frames bypass the capacity.
    pub open spec fn queued(self, frame: FrameModel, capacity: nat, peer: NodeId) -> Result<
        LaneModel,
        LaneError,
    > {
        if self.closed {
            Err(LaneError::NodeUnreachable(peer))
        } else if frame.counted() && self.counted >= capacity {
            Err(LaneError::OutboundQueueFull(peer))
        } else {
            Ok(self.pushed(frame))
        }
    }

    pub open spec fn accepts(self, peer: NodeId) -> bool {
        self.peer matches Some(bound) ==> bound == peer
    }

    pub open spec fn is_drained(self) -> bool {
        &&& self.control.len() == 0
        &&& forall|i: int| 0 <= i < self.data.len() ==> (#[trigger] self.data[i]).len() == 0
    }

    pub open spec fn wf(self, capacity: nat, streams: nat) -> bool {
        &&& self.data.len() == streams
        &&& self.counted == self.waiting()
        &&& self.counted <= capacity
    }
}

impl Lane {
    /// Whether nothing is queued. The control queue counts too: a departure rides it.
    pub fn drained(&self) -> (r: bool)
        ensures
            r == self@.is_drained(),
    {
        if self.control.len() > 0 {
            assert(self@.control.len() == self.control@.len());
            return false;
        }
        let mut i: usize = 0;
        while i < self.data.len()
            invariant
                i <= self.data@.len(),
                forall|j: int| 0 <= j < i ==> (#[trigger] self@.data[j]).len() == 0,
            decreases self.data@.len() - i,
        {
            assert(self@.data[i as int].len() == self.data@[i as int]@.len());
            if self.data[i].len() > 0 {
                return false;
            }
            i = i + 1;
        }
        assert(self@.control.len() == self.control@.len());
        true
    }

    /// Queues a frame if there is room.
    pub fn queue(&mut self, frame: Frame, capacity: usize, peer: NodeId) -> (r: Result<
        (),
        LaneError,
    >)
        requires
            old(self)@.counted <= capacity,
        ensures
            match old(self)@.queued(frame.deep_view(), capacity as nat, peer) {
                Ok(lane) => r == Ok::<(), LaneError>(()) && final(self)@ == lane,
                Err(e) => r == Err::<(), LaneError>(e) && *final(self) == *old(self),
            },
            final(self)@.counted <= capacity,
            final(self)@.data.len() == old(self)@.data.len(),
            old(self)@.counted == old(self)@.waiting() ==> final(self)@.counted == final(
                self)@.waiting(),
    {
        if self.closed {
            return Err(LaneError::NodeUnreachable(peer));
        }
        let counts = frame.is_counted();
        if counts && self.counted >= capacity {
            return Err(LaneError::OutboundQueueFull(peer));
        }
        let ghost before = self@;
        let ghost model = frame.deep_view();
        let key = frame.stream_key();
        if counts {
            self.counted = self.counted + 1;
        }
        assert(self@.data.len() == self.data@.len());
        match key {
            Some(key) if self.data.len() > 0 => {
                let index: usize = stream_index(key, self.data.len());
                let ghost queues = self.data@;
                let mut queue: Vec<Frame> = Vec::new();
                self.data.set_and_swap(index, &mut queue);
                let ghost held = queue.deep_view();
                queue.push(frame);
                self.data.set(index, queue);
                proof {
                    assert(queue.deep_view() =~= held.push(model));
                    assert(self@.data =~= before.data.update(
                        index as int,
                        before.data[index as int].push(model),
                    ));
                    lemma_over_update(before.data, index as int, held.push(model));
                    lemma_counted_push(held, model);
                }
            },
            _ => {
                self.control.push(frame);
                proof {
                    assert(self@.control =~= before.control.push(model));
                    lemma_counted_push(before.control, model);
                }
            },
        }
        Ok(())
    }
}

/// The lanes by address, and the dials owed for those opened.
#[derive(Debug)]
pub struct Lanes {
    pub(crate) lanes: Table<SocketAddr, Lane>,
    pub(crate) next_generation: u64,
    pub(crate) capacity: usize,
    pub(crate) data_streams: usize,
    pub(crate) dials: Vec<DialRequest>,
}

/// The [Lanes] by value.
#[verifier::ext_equal]
pub ghost struct LanesModel {
    pub lanes: Map<SocketAddr, LaneModel>,
    pub next_generation: u64,
    pub capacity: nat,
    pub data_streams: nat,
    pub dials: Seq<DialRequest>,
}

pub open spec fn lane_models(entries: Seq<(SocketAddr, Lane)>) -> Map<SocketAddr, LaneModel> {
    as_map(entries).map_values(|lane: Lane| lane@)
}

impl View for Lanes {
    type V = LanesModel;

    open(crate) spec fn view(&self) -> LanesModel {
        LanesModel {
            lanes: lane_models(self.lanes@),
            next_generation: self.next_generation,
            capacity: self.capacity as nat,
            data_streams: self.data_streams as nat,
            dials: self.dials@,
        }
    }
}

impl LanesModel {
    pub open spec fn wf(self) -> bool {
        forall|addr: SocketAddr| #[trigger]
            self.lanes.dom().contains(addr) ==> self.lanes[addr].wf(
                self.capacity,
                self.data_streams,
            )
    }

    pub open spec fn with_lane(self, addr: SocketAddr, lane: LaneModel) -> LanesModel {
        LanesModel { lanes: self.lanes.insert(addr, lane), ..self }
    }

    pub open spec fn without_lane(self, addr: SocketAddr) -> LanesModel {
        LanesModel { lanes: self.lanes.remove(addr), ..self }
    }

    pub open spec fn has_lane(self, addr: SocketAddr, lane_id: Generation) -> bool {
        self.lanes.dom().contains(addr) && self.lanes[addr].id == lane_id
    }

    /// A fresh lane under a generation of its own, and the dial it owes.
    pub open spec fn with_opened(self, addr: SocketAddr) -> LanesModel {
        let id = Generation(self.next_generation);
        LanesModel {
            lanes: self.lanes.insert(addr, LaneModel::opened(id, self.data_streams)),
            next_generation: if self.next_generation == u64::MAX {
                0
            } else {
                (self.next_generation + 1) as u64
            },
            dials: self.dials.push(DialRequest { addr, lane_id: id }),
            ..self
        }
    }

    pub open spec fn queued(self, peer: NodeId, frame: FrameModel) -> (
        LanesModel,
        Result<(), LaneError>,
    ) {
        match self.lanes[peer.addr].queued(frame, self.capacity, peer) {
            Ok(lane) => (self.with_lane(peer.addr, lane), Ok(())),
            Err(e) => (self, Err(e)),
        }
    }

    /// The frame queued on the lane of the peer's address, which is opened if the peer can be
    /// reached. A bound lane refuses any incarnation but its own.
    pub open spec fn routed(self, peer: NodeId, frame: FrameModel, reachable: bool) -> (
        LanesModel,
        Result<(), LaneError>,
    ) {
        if self.lanes.dom().contains(peer.addr) {
            if self.lanes[peer.addr].accepts(peer) {
                self.queued(peer, frame)
            } else {
                (self, Err(LaneError::NodeUnreachable(peer)))
            }
        } else if reachable {
            self.with_opened(peer.addr).queued(peer, frame)
        } else {
            (self, Err(LaneError::NodeUnreachable(peer)))
        }
    }

    /// The lane bound to the peer which answered, or removed if that incarnation is dead, so a
    /// successor opens a fresh one.
    pub open spec fn bound(
        self,
        addr: SocketAddr,
        lane_id: Generation,
        peer: NodeId,
        down: bool,
    ) -> LanesModel {
        if !self.has_lane(addr, lane_id) {
            self
        } else if down {
            self.without_lane(addr)
        } else {
            self.with_lane(
                addr,
                LaneModel { peer: Some(peer), connected: true, ..self.lanes[addr] },
            )
        }
    }

    pub open spec fn disconnected(self, addr: SocketAddr, lane_id: Generation) -> LanesModel {
        if self.has_lane(addr, lane_id) {
            self.with_lane(addr, LaneModel { connected: false, ..self.lanes[addr] })
        } else {
            self
        }
    }

    pub open spec fn connected(self, addr: SocketAddr) -> Option<bool> {
        if self.lanes.dom().contains(addr) {
            Some(self.lanes[addr].connected)
        } else {
            None
        }
    }

    /// The lane is bound to an incarnation the fence covers. An unbound lane is still dialing and
    /// may already serve the successor.
    pub open spec fn is_fenced(self, fence: NodeId) -> bool {
        self.lanes.dom().contains(fence.addr) && (self.lanes[fence.addr].peer matches Some(peer)
            && fence.fences(peer))
    }

    pub open spec fn drained(self) -> bool {
        forall|addr: SocketAddr| #[trigger]
            self.lanes.dom().contains(addr) ==> self.lanes[addr].is_drained()
    }
}

proof fn lemma_lanes_put(entries: Seq<(SocketAddr, Lane)>, addr: SocketAddr, lane: Lane)
    requires
        crate::table::distinct(entries),
    ensures
        lane_models(put(entries, addr, lane)) == lane_models(entries).insert(addr, lane@),
{
    lemma_put(entries, addr, lane);
    assert(lane_models(put(entries, addr, lane)) =~= lane_models(entries).insert(addr, lane@));
}

proof fn lemma_lanes_without(entries: Seq<(SocketAddr, Lane)>, addr: SocketAddr)
    requires
        crate::table::distinct(entries),
    ensures
        lane_models(without(entries, addr)) == lane_models(entries).remove(addr),
{
    lemma_without(entries, addr);
    assert(lane_models(without(entries, addr)) =~= lane_models(entries).remove(addr));
}

impl Lanes {
    pub open(crate) spec fn wf(&self) -> bool {
        &&& self.lanes.wf()
        &&& self@.wf()
    }

    pub fn new(capacity: usize, data_streams: usize) -> (lanes: Self)
        ensures
            lanes.wf(),
            lanes@ == (LanesModel {
                lanes: Map::empty(),
                next_generation: 0,
                capacity: capacity as nat,
                data_streams: data_streams as nat,
                dials: Seq::empty(),
            }),
    {
        let lanes = Lanes {
            lanes: Table::new(),
            next_generation: 0,
            capacity,
            data_streams,
            dials: Vec::new(),
        };
        assert(lanes@.lanes =~= Map::empty());
        lanes
    }

    /// Takes the lane out, to be changed and put back.
    fn take(&mut self, addr: SocketAddr) -> (lane: Option<Lane>)
        requires
            old(self).lanes.wf(),
        ensures
            final(self).lanes.wf(),
            final(self)@ == old(self)@.without_lane(addr),
            lane is Some == old(self)@.lanes.dom().contains(addr),
            lane matches Some(l) ==> l@ == old(self)@.lanes[addr],
    {
        proof {
            lemma_lanes_without(self.lanes@, addr);
        }
        self.lanes.remove(addr)
    }

    fn put_back(&mut self, addr: SocketAddr, lane: Lane)
        requires
            old(self).lanes.wf(),
        ensures
            final(self).lanes.wf(),
            final(self)@ == old(self)@.with_lane(addr, lane@),
    {
        proof {
            lemma_lanes_put(self.lanes@, addr, lane);
        }
        self.lanes.insert(addr, lane);
    }

    /// The lane of the address.
    pub fn lane(&self, addr: SocketAddr) -> (lane: Option<&Lane>)
        requires
            self.wf(),
        ensures
            lane is Some == self@.lanes.dom().contains(addr),
            lane matches Some(l) ==> l@ == self@.lanes[addr],
    {
        self.lanes.get(addr)
    }

    fn queue(&mut self, peer: NodeId, frame: Frame) -> (r: Result<(), LaneError>)
        requires
            old(self).wf(),
            old(self)@.lanes.dom().contains(peer.addr),
        ensures
            final(self).wf(),
            final(self)@ == old(self)@.queued(peer, frame.deep_view()).0,
            r == old(self)@.queued(peer, frame.deep_view()).1,
    {
        let ghost before = self@;
        match self.take(peer.addr) {
            Some(mut lane) => {
                let ghost held = lane@;
                assert(held.wf(before.capacity, before.data_streams));
                let r = lane.queue(frame, self.capacity, peer);
                self.put_back(peer.addr, lane);
                proof {
                    assert(self@ =~= before.with_lane(peer.addr, lane@));
                    if r is Err {
                        assert(self@ =~= before);
                    }
                }
                r
            },
            None => Ok(()),
        }
    }

    fn open(&mut self, addr: SocketAddr)
        requires
            old(self).wf(),
        ensures
            final(self).wf(),
            final(self)@ == old(self)@.with_opened(addr),
    {
        let ghost before = self@;
        let id = Generation(self.next_generation);
        self.next_generation = if self.next_generation == u64::MAX {
            0
        } else {
            self.next_generation + 1
        };
        let mut data: Vec<Vec<Frame>> = Vec::new();
        let mut i: usize = 0;
        while i < self.data_streams
            invariant
                i <= self.data_streams,
                data@.len() == i,
                forall|j: int| 0 <= j < i ==> (#[trigger] data@[j])@.len() == 0,
            decreases self.data_streams - i,
        {
            data.push(Vec::new());
            i = i + 1;
        }
        let lane = Lane {
            id,
            peer: None,
            connected: false,
            closed: false,
            counted: 0,
            control: Vec::new(),
            data,
        };
        proof {
            let expected = LaneModel::opened(id, self.data_streams as nat);
            assert(lane@.control =~= expected.control);
            assert forall|j: int| 0 <= j < lane@.data.len() implies lane@.data[j]
                == expected.data[j] by {
                assert(data@[j]@.len() == 0);
                assert(lane@.data[j] =~= expected.data[j]);
            }
            assert(lane@.data =~= expected.data);
            assert(lane@ =~= expected);
            lemma_over_empty(expected.data);
            reveal(Seq::filter);
        }
        self.dials.push(DialRequest { addr, lane_id: id });
        self.put_back(addr, lane);
        assert(self@ =~= before.with_opened(addr));
    }

    /// Queues a frame for the peer, on a lane opened for it if need be and if it can be reached.
    pub fn route(&mut self, peer: NodeId, frame: Frame, reachable: bool) -> (r: Result<
        (),
        LaneError,
    >)
        requires
            old(self).wf(),
        ensures
            final(self).wf(),
            final(self)@ == old(self)@.routed(peer, frame.deep_view(), reachable).0,
            r == old(self)@.routed(peer, frame.deep_view(), reachable).1,
    {
        let accepts = match self.lane(peer.addr) {
            Some(lane) => match lane.peer {
                Some(bound) => Some(bound == peer),
                None => Some(true),
            },
            None => None,
        };
        match accepts {
            Some(true) => self.queue(peer, frame),
            Some(false) => Err(LaneError::NodeUnreachable(peer)),
            None => {
                if !reachable {
                    return Err(LaneError::NodeUnreachable(peer));
                }
                self.open(peer.addr);
                self.queue(peer, frame)
            },
        }
    }

    /// Binds a lane to the incarnation which answered, or removes it if that one is dead.
    pub fn bind(&mut self, addr: SocketAddr, lane_id: Generation, peer: NodeId, down: bool)
        requires
            old(self).wf(),
        ensures
            final(self).wf(),
            final(self)@ == old(self)@.bound(addr, lane_id, peer, down),
    {
        let ghost before = self@;
        if !self.is_open(addr, lane_id) {
            return ;
        }
        if let Some(mut lane) = self.take(addr) {
            if !down {
                let ghost held = lane@;
                assert(held.wf(before.capacity, before.data_streams));
                lane.peer = Some(peer);
                lane.connected = true;
                self.put_back(addr, lane);
                assert(self@ =~= before.with_lane(addr, lane@));
            }
        }
    }

    /// Marks a lane as disconnected; its queues keep what they hold.
    pub fn mark_disconnected(&mut self, addr: SocketAddr, lane_id: Generation)
        requires
            old(self).wf(),
        ensures
            final(self).wf(),
            final(self)@ == old(self)@.disconnected(addr, lane_id),
    {
        let ghost before = self@;
        if !self.is_open(addr, lane_id) {
            return ;
        }
        if let Some(mut lane) = self.take(addr) {
            let ghost held = lane@;
            assert(held.wf(before.capacity, before.data_streams));
            lane.connected = false;
            self.put_back(addr, lane);
            assert(self@ =~= before.with_lane(addr, lane@));
        }
    }

    /// How many lanes there are.
    pub fn len(&self) -> (len: usize)
        requires
            self.wf(),
        ensures
            len == self@.lanes.dom().len(),
    {
        proof {
            crate::table::lemma_map_len(self.lanes@);
            assert(self@.lanes.dom() =~= as_map(self.lanes@).dom());
        }
        self.lanes.len()
    }

    /// The connections to be dialed.
    pub fn dials(&self) -> (dials: &[DialRequest])
        ensures
            dials@ == self@.dials,
    {
        self.dials.as_slice()
    }

    /// How many data streams a lane has beside its control stream.
    pub fn data_streams(&self) -> (data_streams: usize)
        ensures
            data_streams == self@.data_streams,
    {
        self.data_streams
    }

    /// Whether the lane of the address is connected, none if there is no lane.
    pub fn connected(&self, addr: SocketAddr) -> (connected: Option<bool>)
        requires
            self.wf(),
        ensures
            connected == self@.connected(addr),
    {
        match self.lane(addr) {
            Some(lane) => Some(lane.connected),
            None => None,
        }
    }

    /// Whether the generation's lane is still the one of its address.
    pub fn is_open(&self, addr: SocketAddr, lane_id: Generation) -> (r: bool)
        requires
            self.wf(),
        ensures
            r == self@.has_lane(addr, lane_id),
    {
        match self.lane(addr) {
            Some(lane) => lane.id == lane_id,
            None => false,
        }
    }

    /// Removes the generation's lane if it is still the one of its address, and hands it out with
    /// what is left in its queues.
    pub fn remove(&mut self, addr: SocketAddr, lane_id: Generation) -> (removed: Option<Lane>)
        requires
            old(self).wf(),
        ensures
            final(self).wf(),
            removed is Some == old(self)@.has_lane(addr, lane_id),
            removed matches Some(lane) ==> lane@ == old(self)@.lanes[addr] && final(self)@ == old(
                self)@.without_lane(addr),
            removed is None ==> final(self)@ == old(self)@,
    {
        if self.is_open(addr, lane_id) {
            self.take(addr)
        } else {
            None
        }
    }

    /// Removes the lane bound to an incarnation the fence covers, and hands it out.
    pub fn remove_fenced(&mut self, fence: NodeId) -> (removed: Option<Lane>)
        requires
            old(self).wf(),
        ensures
            final(self).wf(),
            removed is Some == old(self)@.is_fenced(fence),
            removed matches Some(lane) ==> lane@ == old(self)@.lanes[fence.addr] && final(self)@
                == old(self)@.without_lane(fence.addr),
            removed is None ==> final(self)@ == old(self)@,
    {
        let fenced = match self.lane(fence.addr) {
            Some(lane) => match lane.peer {
                Some(peer) => fence.covers(peer),
                None => false,
            },
            None => false,
        };
        if fenced {
            self.take(fence.addr)
        } else {
            None
        }
    }

    /// Whether every lane is drained, a still dialing one included.
    pub fn all_drained(&self) -> (r: bool)
        requires
            self.wf(),
        ensures
            r == self@.drained(),
    {
        let mut i: usize = 0;
        while i < self.lanes.entries.len()
            invariant
                self.wf(),
                i <= self.lanes@.len(),
                forall|j: int| 0 <= j < i ==> (#[trigger] self.lanes@[j]).1@.is_drained(),
            decreases self.lanes@.len() - i,
        {
            if !self.lanes.entries[i].1.drained() {
                proof {
                    crate::table::lemma_entry_in_map(self.lanes@, i as int);
                    let addr = self.lanes@[i as int].0;
                    assert(self@.lanes.dom().contains(addr));
                }
                return false;
            }
            i = i + 1;
        }
        proof {
            assert forall|addr: SocketAddr| #[trigger]
                self@.lanes.dom().contains(addr) implies self@.lanes[addr].is_drained() by {
                let j = crate::table::lemma_map_in_entries(self.lanes@, addr);
                assert(self.lanes@[j].1@.is_drained());
            }
        }
        true
    }

    /// The next frame for one writer of the lane, which frees its room: none names the control
    /// queue, an index a data queue.
    pub fn dequeue(&mut self, addr: SocketAddr, lane_id: Generation, stream: Option<usize>) -> (frame:
        Option<Frame>)
        requires
            old(self).wf(),
        ensures
            final(self).wf(),
            ({
                let lane = old(self)@.lanes[addr];
                match next_frame(lane, stream) {
                    Some(next) if old(self)@.has_lane(addr, lane_id) => {
                        &&& frame matches Some(f) && f.deep_view() == next
                        &&& final(self)@ == old(self)@.with_lane(
                            addr,
                            without_next(lane, stream),
                        )
                    },
                    _ => frame is None && final(self)@ == old(self)@,
                }
            }),
    {
        let ghost before = self@;
        if !self.is_open(addr, lane_id) {
            return None;
        }
        match self.take(addr) {
            Some(mut lane) => {
                let ghost held = lane@;
                assert(held.wf(before.capacity, before.data_streams));
                let frame = lane.take_next(stream);
                self.put_back(addr, lane);
                proof {
                    if frame is None {
                        assert(self@ =~= before);
                    } else {
                        assert(self@ =~= before.with_lane(addr, without_next(held, stream)));
                    }
                }
                frame
            },
            None => None,
        }
    }
}

/// The frame at the front of the queue.
pub open spec fn next_frame(lane: LaneModel, stream: Option<usize>) -> Option<FrameModel> {
    match stream {
        None => if lane.control.len() > 0 {
            Some(lane.control[0])
        } else {
            None
        },
        Some(i) => if i < lane.data.len() && lane.data[i as int].len() > 0 {
            Some(lane.data[i as int][0])
        } else {
            None
        },
    }
}

/// The lane without the frame at the front of the queue.
pub open spec fn without_next(lane: LaneModel, stream: Option<usize>) -> LaneModel {
    let frame = next_frame(lane, stream)->0;
    let counted = if frame.counted() {
        (lane.counted - 1) as nat
    } else {
        lane.counted
    };
    match stream {
        None => LaneModel { counted, control: lane.control.skip(1), ..lane },
        Some(i) => LaneModel {
            counted,
            data: lane.data.update(i as int, lane.data[i as int].skip(1)),
            ..lane
        },
    }
}

impl Lane {
    fn take_next(&mut self, stream: Option<usize>) -> (frame: Option<Frame>)
        requires
            old(self)@.counted == old(self)@.waiting(),
        ensures
            match next_frame(old(self)@, stream) {
                Some(next) => {
                    &&& frame matches Some(f) && f.deep_view() == next
                    &&& final(self)@ == without_next(old(self)@, stream)
                },
                None => frame is None && *final(self) == *old(self),
            },
            final(self)@.counted <= old(self)@.counted,
            final(self)@.data.len() == old(self)@.data.len(),
            final(self)@.counted == final(self)@.waiting(),
    {
        let ghost before = self@;
        assert(self@.control.len() == self.control@.len());
        assert(self@.data.len() == self.data@.len());
        match stream {
            None => {
                if self.control.len() == 0 {
                    return None;
                }
                let frame = self.control.remove(0);
                proof {
                    assert(frame.deep_view() == before.control[0]);
                    lemma_counted_pop(before.control);
                }
                if frame.is_counted() {
                    self.counted = self.counted - 1;
                }
                assert(self@.control =~= before.control.skip(1));
                Some(frame)
            },
            Some(i) => {
                if i >= self.data.len() {
                    return None;
                }
                assert(self@.data[i as int].len() == self.data@[i as int]@.len());
                if self.data[i].len() == 0 {
                    return None;
                }
                let mut queue: Vec<Frame> = Vec::new();
                self.data.set_and_swap(i, &mut queue);
                let ghost held = queue.deep_view();
                let frame = queue.remove(0);
                assert(frame.deep_view() == held[0]);
                self.data.set(i, queue);
                proof {
                    assert(held == before.data[i as int]);
                    assert(queue.deep_view() =~= held.skip(1));
                    assert(self@.data =~= before.data.update(i as int, held.skip(1)));
                    lemma_over_update(before.data, i as int, held.skip(1));
                    lemma_counted_pop(held);
                }
                if frame.is_counted() {
                    self.counted = self.counted - 1;
                }
                Some(frame)
            },
        }
    }
}

/// Frames of one key ride one queue, so one queued later is behind those queued before.
pub proof fn frames_of_one_key_keep_their_order(lane: LaneModel, a: FrameModel, b: FrameModel)
    requires
        a.key() == b.key(),
    ensures
        lane.queue_of(a) == lane.queue_of(b),
        lane.pushed(a).queue_of(b) == lane.queue_of(b),
{
}

/// A lane is first in, first out: whatever is queued behind it, the frame at the front of a queue
/// leaves first, and what was queued later stays behind the others.
pub proof fn frames_leave_in_the_order_they_came(
    lane: LaneModel,
    stream: Option<usize>,
    frame: FrameModel,
    capacity: nat,
    streams: nat,
)
    requires
        lane.wf(capacity, streams),
        streams <= usize::MAX,
        next_frame(lane, stream) is Some,
    ensures
        next_frame(lane.pushed(frame), stream) == next_frame(lane, stream),
        without_next(lane.pushed(frame), stream) == without_next(lane, stream).pushed(frame),
{
    let next = next_frame(lane, stream)->0;
    let queue = lane.queue_of(frame);
    if let Some(j) = queue {
        assert(0 <= j < lane.data.len()) by {
            let n = lane.data.len() as usize;
            assert(spec_stream_index(frame.key()->0, n) < n) by (nonlinear_arith)
                requires
                    n > 0,
                    spec_stream_index(frame.key()->0, n) == (key_value(frame.key()->0) as usize) % n,
            ;
        }
    }
    match stream {
        None => {
            lemma_counted_pop(lane.control);
            assert(lane.control.push(frame).skip(1) =~= lane.control.skip(1).push(frame));
        },
        Some(i) => {
            let held = lane.data[i as int];
            lemma_counted_pop(held);
            lemma_over_update(lane.data, i as int, held.skip(1));
            assert(held.push(frame).skip(1) =~= held.skip(1).push(frame));
        },
    }
    assert(without_next(lane.pushed(frame), stream).data =~= without_next(lane, stream).pushed(
        frame,
    ).data);
    assert(without_next(lane.pushed(frame), stream).control =~= without_next(lane, stream).pushed(
        frame,
    ).control);
}

/// A lane bound to one incarnation takes no frame for another.
pub proof fn a_bound_lane_serves_one_incarnation(
    lanes: LanesModel,
    peer: NodeId,
    bound: NodeId,
    frame: FrameModel,
    reachable: bool,
)
    requires
        lanes.lanes.dom().contains(peer.addr),
        lanes.lanes[peer.addr].peer == Some(bound),
        bound != peer,
    ensures
        lanes.routed(peer, frame, reachable) == (
            lanes,
            Err::<(), LaneError>(LaneError::NodeUnreachable(peer)),
        ),
{
}

/// The capacity covers a whole peer: no more frames which count wait for it, however many streams
/// carry them.
pub proof fn the_capacity_bounds_what_waits(lanes: LanesModel, addr: SocketAddr)
    requires
        lanes.wf(),
        lanes.lanes.dom().contains(addr),
    ensures
        lanes.lanes[addr].waiting() <= lanes.capacity,
{
}

/// Frames which do not count are never refused for want of room, and take none.
pub proof fn system_frames_take_no_room(
    lane: LaneModel,
    frame: FrameModel,
    capacity: nat,
    peer: NodeId,
)
    requires
        !frame.counted(),
        !lane.closed,
    ensures
        lane.queued(frame, capacity, peer) == Ok::<LaneModel, LaneError>(lane.pushed(frame)),
        lane.pushed(frame).counted == lane.counted,
{
}

/// What a full lane refuses, it takes once a frame which counts has left.
pub proof fn a_dequeued_message_frees_its_slot(
    lane: LaneModel,
    stream: Option<usize>,
    frame: FrameModel,
    capacity: nat,
    streams: nat,
    peer: NodeId,
)
    requires
        lane.wf(capacity, streams),
        !lane.closed,
        next_frame(lane, stream) matches Some(next) && next.counted(),
    ensures
        without_next(lane, stream).queued(frame, capacity, peer) is Ok,
{
    match stream {
        None => lemma_counted_pop(lane.control),
        Some(i) => {
            let held = lane.data[i as int];
            lemma_counted_pop(held);
            lemma_over_update(lane.data, i as int, held.skip(1));
        },
    }
}

/// What a stream is chosen by: the actor or the nonce a frame is for, by its value.
pub proof fn streams_are_told_by_value(actor: ActorId, nonce: Nonce, streams: usize)
    requires
        streams > 0,
    ensures
        spec_stream_index(StreamKey::Actor(actor), streams) == (actor.0 as u64) as usize % streams,
        spec_stream_index(StreamKey::Nonce(nonce), streams) == nonce.0 as usize % streams,
{
}

/// A frame for a peer is queued behind what waits for it, or refused with nothing queued. It is
/// refused where the lane serves another incarnation or is closed, where there is neither a lane nor
/// a peer to reach, and, if it is a message or a reply, where the capacity is taken. A missing lane
/// is opened and dialed. Frames for an actor or an ask ride its stream, all others the control
/// stream; no other lane is touched.
pub proof fn a_frame_is_queued_or_refused(
    lanes: LanesModel,
    peer: NodeId,
    frame: FrameModel,
    reachable: bool,
    other: SocketAddr,
)
    requires
        lanes.wf(),
        lanes.data_streams <= usize::MAX,
    ensures
        ({
            let (after, r) = lanes.routed(peer, frame, reachable);
            let known = lanes.lanes.dom().contains(peer.addr);
            let lane = lanes.lanes[peer.addr];
            let now = after.lanes[peer.addr];
            let counts = frame is Message || frame is Reply;
            let streamed = (counts || frame is Terminated || frame is ReplyDropped)
                && lanes.data_streams > 0;
            let unreachable = if known {
                lane.closed || (lane.peer is Some && lane.peer != Some(peer))
            } else {
                !reachable
            };
            let full = counts && lanes.capacity <= (if known {
                lane.counted
            } else {
                0
            });
            &&& unreachable ==> r == Err::<(), LaneError>(LaneError::NodeUnreachable(peer))
            &&& !unreachable && full ==> r == Err::<(), LaneError>(
                LaneError::OutboundQueueFull(peer),
            )
            &&& r is Ok <==> !unreachable && !full
            &&& r is Err && (known || unreachable) ==> after == lanes
            &&& other != peer.addr ==> {
                &&& after.lanes.dom().contains(other) == lanes.lanes.dom().contains(other)
                &&& after.lanes[other] == lanes.lanes[other]
            }
            &&& r is Ok ==> {
                &&& after.lanes.dom().contains(peer.addr)
                &&& now.data.len() == lanes.data_streams
                &&& after.capacity == lanes.capacity && after.data_streams == lanes.data_streams
            }
            &&& r is Ok && known ==> {
                &&& after.dials == lanes.dials && after.next_generation == lanes.next_generation
                &&& now.id == lane.id && now.peer == lane.peer && now.connected == lane.connected
                    && !now.closed
                &&& now.counted == lane.counted + (if counts {
                    1int
                } else {
                    0int
                })
                &&& !streamed ==> now.control == lane.control + seq![frame] && now.data == lane.data
                &&& streamed ==> now.control == lane.control && exists|i: int|
                    #![trigger now.data[i]]
                    0 <= i < lane.data.len() && now.data[i] == lane.data[i] + seq![frame] && forall|
                        j: int,
                    |
                        0 <= j < lane.data.len() && j != i ==> #[trigger] now.data[j]
                            == lane.data[j]
            }
            &&& r is Ok && !known ==> {
                &&& after.dials == lanes.dials + seq![
                    DialRequest { addr: peer.addr, lane_id: Generation(lanes.next_generation) },
                ]
                &&& now.id == Generation(lanes.next_generation) && now.peer is None
                    && !now.connected && !now.closed
                &&& !streamed ==> now.control == seq![frame]
                &&& streamed ==> now.control.len() == 0 && exists|i: int|
                    #![trigger now.data[i]]
                    0 <= i < now.data.len() && now.data[i] == seq![frame] && forall|j: int|
                        0 <= j < now.data.len() && j != i ==> (#[trigger] now.data[j]).len() == 0
            }
        }),
{
    let known = lanes.lanes.dom().contains(peer.addr);
    let opened = if known {
        lanes.lanes[peer.addr]
    } else {
        LaneModel::opened(Generation(lanes.next_generation), lanes.data_streams)
    };
    let now = opened.pushed(frame);
    if known {
        assert(lanes.lanes[peer.addr].wf(lanes.capacity, lanes.data_streams));
    }
    assert(opened.control.push(frame) =~= opened.control + seq![frame]);
    if let Some(j) = opened.queue_of(frame) {
        assert(0 <= j < opened.data.len()) by {
            let n = opened.data.len() as usize;
            assert(spec_stream_index(frame.key()->0, n) < n) by (nonlinear_arith)
                requires
                    n > 0,
                    spec_stream_index(frame.key()->0, n) == (key_value(frame.key()->0) as usize) % n,
            ;
        }
        assert(opened.data[j].push(frame) =~= opened.data[j] + seq![frame]);
        assert(now.data[j] == opened.data[j] + seq![frame]);
        assert(Seq::<FrameModel>::empty() + seq![frame] =~= seq![frame]);
    } else {
        assert(Seq::<FrameModel>::empty() + seq![frame] =~= seq![frame]);
    }
    assert(lanes.dials.push(
        DialRequest { addr: peer.addr, lane_id: Generation(lanes.next_generation) },
    ) =~= lanes.dials + seq![
        DialRequest { addr: peer.addr, lane_id: Generation(lanes.next_generation) },
    ]);
}

/// A writer takes the frame at the front of its stream and leaves all others in their order; only a
/// message or a reply gives back a place.
pub proof fn a_frame_leaves_from_the_front(
    lane: LaneModel,
    stream: Option<usize>,
    capacity: nat,
    streams: nat,
)
    requires
        lane.wf(capacity, streams),
        stream matches Some(i) ==> i < streams,
    ensures
        ({
            let queue = match stream {
                None => lane.control,
                Some(i) => lane.data[i as int],
            };
            let after = without_next(lane, stream);
            let left = match stream {
                None => after.control,
                Some(i) => after.data[i as int],
            };
            &&& next_frame(lane, stream) is None <==> queue.len() == 0
            &&& next_frame(lane, stream) matches Some(frame) ==> {
                &&& queue == seq![frame] + left
                &&& after.counted == lane.counted - (if frame is Message || frame is Reply {
                    1int
                } else {
                    0int
                })
                &&& stream is Some ==> after.control == lane.control
                &&& after.data.len() == lane.data.len()
                &&& forall|j: int|
                    0 <= j < lane.data.len() && (stream matches Some(i) ==> i != j)
                        ==> #[trigger] after.data[j] == lane.data[j]
                &&& after.id == lane.id && after.peer == lane.peer && after.connected
                    == lane.connected && after.closed == lane.closed
            }
        }),
{
    match stream {
        None => {
            if lane.control.len() > 0 {
                lemma_counted_pop(lane.control);
                assert(lane.control =~= seq![lane.control[0]] + lane.control.skip(1));
            }
        },
        Some(i) => {
            let held = lane.data[i as int];
            if held.len() > 0 {
                lemma_counted_pop(held);
                lemma_over_update(lane.data, i as int, held.skip(1));
                assert(held =~= seq![held[0]] + held.skip(1));
            }
        },
    }
}

/// A connection binds the lane it was dialed for to the incarnation it met, with what waits in it; it
/// takes the lane away where that incarnation is dead, and a lane opened since is left alone. A lost
/// connection is marked, and nothing else.
pub proof fn a_connection_binds_its_lane(
    lanes: LanesModel,
    addr: SocketAddr,
    lane_id: Generation,
    peer: NodeId,
    down: bool,
)
    ensures
        ({
            let bound = lanes.bound(addr, lane_id, peer, down);
            let lost = lanes.disconnected(addr, lane_id);
            let current = lanes.lanes.dom().contains(addr) && lanes.lanes[addr].id == lane_id;
            let lane = lanes.lanes[addr];
            &&& !current ==> bound == lanes && lost == lanes
            &&& current && down ==> bound.lanes == lanes.lanes.remove(addr)
            &&& current && !down ==> bound.lanes == lanes.lanes.insert(
                addr,
                LaneModel {
                    id: lane.id,
                    peer: Some(peer),
                    connected: true,
                    closed: lane.closed,
                    counted: lane.counted,
                    control: lane.control,
                    data: lane.data,
                },
            )
            &&& current ==> lost.lanes == lanes.lanes.insert(
                addr,
                LaneModel {
                    id: lane.id,
                    peer: lane.peer,
                    connected: false,
                    closed: lane.closed,
                    counted: lane.counted,
                    control: lane.control,
                    data: lane.data,
                },
            )
            &&& bound.dials == lanes.dials && lost.dials == lanes.dials
            &&& bound.next_generation == lanes.next_generation && lost.next_generation
                == lanes.next_generation
            &&& lanes.connected(addr) == (if lanes.lanes.dom().contains(addr) {
                Some(lane.connected)
            } else {
                None
            })
        }),
{
}

/// The lanes are drained once nothing waits on any stream of any of them.
pub proof fn drained_lanes_hold_nothing(lanes: LanesModel)
    ensures
        lanes.drained() <==> forall|addr: SocketAddr| #[trigger]
            lanes.lanes.dom().contains(addr) ==> lanes.lanes[addr].control.len() == 0 && forall|
                i: int,
            |
                0 <= i < lanes.lanes[addr].data.len() ==> (#[trigger] lanes.lanes[addr].data[i]).len()
                    == 0,
{
}

} // verus!
