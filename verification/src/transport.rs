//! Transport layer: registers per-peer endpoints, queues outbound packets
//! for retransmission until they are acknowledged, and detects idle
//! endpoints. Commands arrive as [`TransportCmd`] values, each answered by
//! a [`TransportRsp`]; inbound activity is surfaced as [`TransportNotice`]
//! values.
//!
//! Time is carried as a millisecond counter supplied by the caller, so the
//! whole layer is a function of its inputs.

use vstd::prelude::*;

use crate::codec::{encode_packet, spec_encode_packet};
use crate::net::Packet;
use crate::UDP_MTU_SIZE;

verus! {

/// A remote peer's address identity, as assigned by the I/O layer.
#[derive(PartialEq, Eq, Structural, Clone, Copy, Debug)]
pub struct Endpoint(pub u64);

/// Transmit settings for one outbound packet of a `SendPackets` command.
#[derive(PartialEq, Eq, Structural, Clone, Copy, Debug)]
pub struct PacketSettings {
    /// Transmit id, unique among the packets in flight to one endpoint.
    pub tid: usize,
    /// Milliseconds between retransmissions of this packet.
    pub retry_interval: u64,
}

/// Commands the session layer sends down to manage endpoints and their
/// packets.
pub enum TransportCmd {
    NewEndpoint { endpoint: Endpoint, timeout: u64 },
    SendPackets { endpoint: Endpoint, packet_infos: Vec<PacketSettings>, packets: Vec<Packet> },
    DropEndpoint { endpoint: Endpoint },
    DropPacket { endpoint: Endpoint, tid: usize },
    CancelTransmitQueue { endpoint: Endpoint },
}

/// Failure detail scoped to one endpoint or transmit id; never affects
/// other endpoints' state.
#[derive(PartialEq, Eq, Structural, Clone, Copy, Debug)]
pub enum EndpointDataError {
    EndpointNotFound { endpoint: Endpoint },
    EndpointExists { endpoint: Endpoint, entry_found: Endpoint },
    TransmitIDNotFound { endpoint: Endpoint, tid: usize },
    PacketRemovalFailure { endpoint: Endpoint, tid: usize, index: usize },
    EndpointDropFailed { endpoint: Endpoint },
}

/// Response to one [`TransportCmd`].
#[derive(PartialEq, Eq, Structural, Clone, Copy, Debug)]
pub enum TransportRsp {
    Accepted,
    BufferFull,
    ExceedsMtu { tid: usize },
    EndpointError { error: EndpointDataError },
    SendPacketsLengthMismatch,
}

/// Asynchronous notice from the transport layer to its caller.
pub enum TransportNotice {
    /// An inbound packet arrived from this endpoint (registered or not,
    /// so that a first-contact `Connect` can reach the session layer).
    PacketDelivery { endpoint: Endpoint, packet: Packet },
    /// No packet has been received from this endpoint within its
    /// configured timeout. Fired once per idle period; reception of a
    /// packet re-arms it.
    EndpointTimeout { endpoint: Endpoint },
}

/// One queued outbound packet, retransmitted every `retry_interval`
/// milliseconds until acknowledged, dropped, or cancelled.
pub struct TransmitEntry {
    pub tid: usize,
    pub packet: Packet,
    pub retry_interval: u64,
    /// When this entry was last handed to the send path.
    pub last_send: u64,
}

/// Transport-layer bookkeeping for one registered endpoint.
pub struct EndpointEntry {
    pub endpoint: Endpoint,
    /// Idle timeout in milliseconds.
    pub timeout: u64,
    /// When a packet was last received from this endpoint (registration
    /// time before any packet arrives).
    pub last_receive: u64,
    /// Whether the timeout notice for the current idle period has fired.
    pub timeout_notified: bool,
    pub queue: Vec<TransmitEntry>,
}

/// The whole transport layer: every registered endpoint with its transmit
/// queue, and the per-endpoint queue capacity.
pub struct TransportState {
    pub endpoints: Vec<EndpointEntry>,
    /// Most packets one endpoint's queue can hold; exceeding it fails a
    /// whole `SendPackets` call with `BufferFull`.
    pub capacity: usize,
}

/// No two entries share a transmit id.
pub open spec fn tids_distinct(q: Seq<TransmitEntry>) -> bool {
    forall|a: int, b: int| 0 <= a < b < q.len() ==> q[a].tid != q[b].tid
}

/// Some entry carries this transmit id.
pub open spec fn queue_has_tid(q: Seq<TransmitEntry>, tid: usize) -> bool {
    exists|k: int| 0 <= k < q.len() && q[k].tid == tid
}

/// What a `SendPackets` caller owes: the batch's transmit ids are
/// distinct and none is already in flight to the endpoint, preserving
/// the rule that an (endpoint, tid) pair identifies at most one queued
/// packet.
pub open spec fn send_requires(pre: TransportState, endpoint: Endpoint, infos: Seq<PacketSettings>) -> bool {
    &&& forall|a: int, b: int| 0 <= a < b < infos.len() ==> infos[a].tid != infos[b].tid
    &&& pre.registered(endpoint) ==> forall|k: int|
        0 <= k < infos.len() ==> !queue_has_tid(
            pre.endpoints@[pre.index_of(endpoint)].queue@,
            (#[trigger] infos[k]).tid,
        )
}

/// Exactly what `NewEndpoint` does and answers.
pub open spec fn new_endpoint_effect(
    pre: TransportState,
    post: TransportState,
    endpoint: Endpoint,
    timeout: u64,
    now: u64,
    r: TransportRsp,
) -> bool {
    &&& (post.capacity == pre.capacity)
    &&& (
            pre.registered(endpoint) ==> r == (TransportRsp::EndpointError {
                error: EndpointDataError::EndpointExists { endpoint, entry_found: endpoint },
            }) && post == pre
    )
    &&& (
            !pre.registered(endpoint) ==> {
                &&& r == TransportRsp::Accepted
                &&& post.endpoints@.len() == pre.endpoints@.len() + 1
                &&& post.endpoints@.subrange(0, pre.endpoints@.len() as int) == pre.endpoints@
                &&& post.endpoints@.last().endpoint == endpoint
                &&& post.endpoints@.last().timeout == timeout
                &&& post.endpoints@.last().last_receive == now
                &&& post.endpoints@.last().timeout_notified == false
                &&& post.endpoints@.last().queue@.len() == 0
            }
    )
}

/// Exactly what `DropEndpoint` does and answers.
pub open spec fn drop_endpoint_effect(
    pre: TransportState,
    post: TransportState,
    endpoint: Endpoint,
    r: TransportRsp,
) -> bool {
    &&& (post.capacity == pre.capacity)
    &&& (
            !pre.registered(endpoint) ==> r == (TransportRsp::EndpointError {
                error: EndpointDataError::EndpointNotFound { endpoint },
            }) && post == pre
    )
    &&& (pre.registered(endpoint) ==> r == TransportRsp::Accepted && post.endpoints@ == pre.endpoints@.remove(pre.index_of(endpoint)))
}

/// Exactly what `CancelTransmitQueue` does and answers.
pub open spec fn cancel_transmit_queue_effect(
    pre: TransportState,
    post: TransportState,
    endpoint: Endpoint,
    r: TransportRsp,
) -> bool {
    &&& (post.capacity == pre.capacity)
    &&& (
            !pre.registered(endpoint) ==> r == (TransportRsp::EndpointError {
                error: EndpointDataError::EndpointNotFound { endpoint },
            }) && post == pre
    )
    &&& (
            pre.registered(endpoint) ==> {
                let i = pre.index_of(endpoint);
                &&& r == TransportRsp::Accepted
                &&& post.endpoints@.len() == pre.endpoints@.len()
                &&& forall|j: int|
                    0 <= j < pre.endpoints@.len() && j != i ==> post.endpoints@[j]
                        == pre.endpoints@[j]
                &&& post.endpoints@[i].endpoint == pre.endpoints@[i].endpoint
                &&& post.endpoints@[i].timeout == pre.endpoints@[i].timeout
                &&& post.endpoints@[i].last_receive == pre.endpoints@[i].last_receive
                &&& post.endpoints@[i].timeout_notified == pre.endpoints@[i].timeout_notified
                &&& post.endpoints@[i].queue@.len() == 0
            }
    )
}

/// Exactly what `DropPacket` does and answers.
pub open spec fn drop_packet_effect(
    pre: TransportState,
    post: TransportState,
    endpoint: Endpoint,
    tid: usize,
    r: TransportRsp,
) -> bool {
    &&& (post.capacity == pre.capacity)
    &&& (
            !pre.registered(endpoint) ==> r == (TransportRsp::EndpointError {
                error: EndpointDataError::EndpointNotFound { endpoint },
            }) && post == pre
    )
    &&& (
            pre.registered(endpoint) ==> {
                let i = pre.index_of(endpoint);
                let q = pre.endpoints@[i].queue@;
                if queue_has_tid(q, tid) {
                    &&& r == TransportRsp::Accepted
                    &&& post.endpoints@.len() == pre.endpoints@.len()
                    &&& forall|j: int|
                        0 <= j < pre.endpoints@.len() && j != i ==> post.endpoints@[j]
                            == pre.endpoints@[j]
                    &&& post.endpoints@[i].endpoint == pre.endpoints@[i].endpoint
                    &&& post.endpoints@[i].timeout == pre.endpoints@[i].timeout
                    &&& post.endpoints@[i].last_receive == pre.endpoints@[i].last_receive
                    &&& post.endpoints@[i].timeout_notified == pre.endpoints@[i].timeout_notified
                    &&& exists|k: int|
                        0 <= k < q.len() && q[k].tid == tid && post.endpoints@[i].queue@
                            == q.remove(k)
                } else {
                    r == (TransportRsp::EndpointError {
                        error: EndpointDataError::TransmitIDNotFound { endpoint, tid },
                    }) && post == pre
                }
            }
    )
}

/// Exactly what `SendPackets` does and answers.
pub open spec fn send_packets_effect(
    pre: TransportState,
    post: TransportState,
    endpoint: Endpoint,
    infos: Seq<PacketSettings>,
    pkts: Seq<Packet>,
    now: u64,
    r: TransportRsp,
) -> bool {
    &&& (post.capacity == pre.capacity)
    &&& (
            if infos.len() != pkts.len() {
                r == TransportRsp::SendPacketsLengthMismatch && post == pre
            } else if !pre.registered(endpoint) {
                r == (TransportRsp::EndpointError {
                    error: EndpointDataError::EndpointNotFound { endpoint },
                }) && post == pre
            } else if exists|k: int| 0 <= k < pkts.len() && oversized(#[trigger] pkts[k]) {
                &&& post == pre
                &&& exists|k: int|
                    0 <= k < pkts.len() && oversized(#[trigger] pkts[k]) && (forall|m: int|
                        0 <= m < k ==> !oversized(#[trigger] pkts[m])) && r == (
                    TransportRsp::ExceedsMtu { tid: infos[k].tid })
            } else if pre.endpoints@[pre.index_of(endpoint)].queue@.len()
                + pkts.len() > pre.capacity {
                r == TransportRsp::BufferFull && post == pre
            } else {
                let i = pre.index_of(endpoint);
                &&& r == TransportRsp::Accepted
                &&& post.endpoints@.len() == pre.endpoints@.len()
                &&& forall|j: int|
                    0 <= j < pre.endpoints@.len() && j != i ==> post.endpoints@[j]
                        == pre.endpoints@[j]
                &&& post.endpoints@[i].endpoint == pre.endpoints@[i].endpoint
                &&& post.endpoints@[i].timeout == pre.endpoints@[i].timeout
                &&& post.endpoints@[i].last_receive == pre.endpoints@[i].last_receive
                &&& post.endpoints@[i].timeout_notified == pre.endpoints@[i].timeout_notified
                &&& enqueued_entries(
                    pre.endpoints@[i].queue@,
                    post.endpoints@[i].queue@,
                    infos,
                    pkts,
                    now,
                )
            }
    )
}

impl TransportState {
    /// The endpoint is currently registered.
    pub open spec fn registered(self, ep: Endpoint) -> bool {
        exists|i: int| 0 <= i < self.endpoints@.len() && self.endpoints@[i].endpoint == ep
    }

    /// Index of a registered endpoint; meaningful only when registered,
    /// and then unique by well-formedness.
    pub open spec fn index_of(self, ep: Endpoint) -> int {
        choose|i: int| 0 <= i < self.endpoints@.len() && self.endpoints@[i].endpoint == ep
    }

    /// Structural invariant: endpoints are distinct, transmit ids are
    /// unique per endpoint, and no queue exceeds the capacity.
    pub open spec fn wf(self) -> bool {
        &&& forall|i: int, j: int|
            #![trigger self.endpoints@[i], self.endpoints@[j]]
            0 <= i < j < self.endpoints@.len() ==> self.endpoints@[i].endpoint
                != self.endpoints@[j].endpoint
        &&& forall|i: int|
            0 <= i < self.endpoints@.len() ==> tids_distinct(
                (#[trigger] self.endpoints@[i]).queue@,
            )
        &&& forall|i: int|
            0 <= i < self.endpoints@.len() ==> (#[trigger] self.endpoints@[i]).queue@.len()
                <= self.capacity
    }

    /// A transport layer with no endpoints and the given per-endpoint
    /// queue capacity.
    pub fn new(capacity: usize) -> (r: TransportState)
        ensures
            r.wf(),
            r.endpoints@.len() == 0,
            r.capacity == capacity,
    {
        TransportState { endpoints: Vec::new(), capacity }
    }

    /// Index of the entry for `ep`, when one exists.
    fn find_endpoint(&self, ep: Endpoint) -> (r: Option<usize>)
        requires
            self.wf(),
        ensures
            match r {
                Option::Some(i) => self.registered(ep) && i == self.index_of(ep) && i
                    < self.endpoints@.len() && self.endpoints@[i as int].endpoint == ep,
                Option::None => !self.registered(ep),
            },
    {
        let mut i: usize = 0;
        while i < self.endpoints.len()
            invariant
                self.wf(),
                i <= self.endpoints@.len(),
                forall|k: int| 0 <= k < i ==> self.endpoints@[k].endpoint != ep,
            decreases self.endpoints@.len() - i,
        {
            if self.endpoints[i].endpoint == ep {
                proof {
                    assert(self.registered(ep));
                    let j = self.index_of(ep);
                    assert(0 <= j < self.endpoints@.len() && self.endpoints@[j].endpoint == ep);
                    if (i as int) < j {
                        assert(self.endpoints@[i as int].endpoint != self.endpoints@[j].endpoint);
                    } else if j < i as int {
                        assert(self.endpoints@[j].endpoint != self.endpoints@[i as int].endpoint);
                    }
                }
                return Some(i);
            }
            i = i + 1;
        }
        None
    }

    /// Registers a new endpoint with the given idle timeout.
    ///
    /// Fails with `EndpointExists` exactly when the endpoint is already
    /// registered, and then changes nothing.
    pub fn new_endpoint(&mut self, endpoint: Endpoint, timeout: u64, now: u64) -> (r:
        TransportRsp)
        requires
            old(self).wf(),
        ensures
            final(self).wf(),
            new_endpoint_effect(*old(self), *final(self), endpoint, timeout, now, r),
    {
        match self.find_endpoint(endpoint) {
            Option::Some(_) => TransportRsp::EndpointError {
                error: EndpointDataError::EndpointExists { endpoint, entry_found: endpoint },
            },
            Option::None => {
                self.endpoints.push(
                    EndpointEntry {
                        endpoint,
                        timeout,
                        last_receive: now,
                        timeout_notified: false,
                        queue: Vec::new(),
                    },
                );
                proof {
                    assert(final(self).endpoints@.subrange(0, old(self).endpoints@.len() as int)
                        =~= old(self).endpoints@);
                }
                TransportRsp::Accepted
            },
        }
    }

    /// Removes an endpoint and everything queued for it.
    ///
    /// Fails with `EndpointNotFound` exactly when the endpoint is absent,
    /// and then changes nothing.
    pub fn drop_endpoint(&mut self, endpoint: Endpoint) -> (r: TransportRsp)
        requires
            old(self).wf(),
        ensures
            final(self).wf(),
            drop_endpoint_effect(*old(self), *final(self), endpoint, r),
    {
        match self.find_endpoint(endpoint) {
            Option::None => TransportRsp::EndpointError {
                error: EndpointDataError::EndpointNotFound { endpoint },
            },
            Option::Some(i) => {
                self.endpoints.remove(i);
                TransportRsp::Accepted
            },
        }
    }

    /// Clears everything queued for an endpoint without removing the
    /// endpoint itself.
    ///
    /// Fails with `EndpointNotFound` exactly when the endpoint is absent.
    pub fn cancel_transmit_queue(&mut self, endpoint: Endpoint) -> (r: TransportRsp)
        requires
            old(self).wf(),
        ensures
            final(self).wf(),
            cancel_transmit_queue_effect(*old(self), *final(self), endpoint, r),
    {
        match self.find_endpoint(endpoint) {
            Option::None => TransportRsp::EndpointError {
                error: EndpointDataError::EndpointNotFound { endpoint },
            },
            Option::Some(i) => {
                let entry = &mut self.endpoints[i];
                entry.queue.clear();
                TransportRsp::Accepted
            },
        }
    }

    /// Removes exactly one queued packet by transmit id.
    ///
    /// Fails with `EndpointNotFound` when the endpoint is absent and with
    /// `TransmitIDNotFound` exactly when no queued entry carries `tid`;
    /// either failure changes nothing. Internal bookkeeping is verified
    /// consistent, so the `PacketRemovalFailure` answer is never needed.
    pub fn drop_packet(&mut self, endpoint: Endpoint, tid: usize) -> (r: TransportRsp)
        requires
            old(self).wf(),
        ensures
            final(self).wf(),
            drop_packet_effect(*old(self), *final(self), endpoint, tid, r),
    {
        match self.find_endpoint(endpoint) {
            Option::None => TransportRsp::EndpointError {
                error: EndpointDataError::EndpointNotFound { endpoint },
            },
            Option::Some(i) => {
                let ghost q = self.endpoints@[i as int].queue@;
                match find_tid(&self.endpoints[i].queue, tid) {
                    Option::None => TransportRsp::EndpointError {
                        error: EndpointDataError::TransmitIDNotFound { endpoint, tid },
                    },
                    Option::Some(k) => {
                        let entry = &mut self.endpoints[i];
                        entry.queue.remove(k);
                        proof {
                            lemma_tids_distinct_remove(q, k as int);
                        }
                        TransportRsp::Accepted
                    },
                }
            },
        }
    }
}

/// The packet's wire encoding does not fit in one datagram.
pub open spec fn oversized(p: Packet) -> bool {
    spec_encode_packet(p).len() > UDP_MTU_SIZE
}

/// The queue `postq` is `preq` with one entry appended per packet of the
/// call, in call order, all stamped with the send time `now`.
pub open spec fn enqueued_entries(
    preq: Seq<TransmitEntry>,
    postq: Seq<TransmitEntry>,
    infos: Seq<PacketSettings>,
    pkts: Seq<Packet>,
    now: u64,
) -> bool {
    &&& postq.len() == preq.len() + pkts.len()
    &&& postq.subrange(0, preq.len() as int) == preq
    &&& forall|j: int|
        preq.len() <= j < postq.len() ==> {
            let e = #[trigger] postq[j];
            &&& e.tid == infos[j - preq.len()].tid
            &&& e.packet == pkts[j - preq.len()]
            &&& e.retry_interval == infos[j - preq.len()].retry_interval
            &&& e.last_send == now
        }
}

impl TransportState {
    /// Validates and enqueues a batch of outbound packets for one
    /// endpoint, all or nothing.
    ///
    /// The call fails with `SendPacketsLengthMismatch` when the settings
    /// and packet arrays differ in length, with `EndpointNotFound` when
    /// the endpoint is absent, with `ExceedsMtu` (naming the first
    /// offending transmit id) when any encoded packet is larger than one
    /// datagram, and with `BufferFull` when the queue cannot take the
    /// whole batch; every failure leaves the state unchanged. On
    /// `Accepted` the batch is appended to the endpoint's queue in call
    /// order.
    pub fn send_packets(
        &mut self,
        endpoint: Endpoint,
        packet_infos: Vec<PacketSettings>,
        packets: Vec<Packet>,
        now: u64,
    ) -> (r: TransportRsp)
        requires
            old(self).wf(),
            send_requires(*old(self), endpoint, packet_infos@),
        ensures
            final(self).wf(),
            send_packets_effect(
                *old(self),
                *final(self),
                endpoint,
                packet_infos@,
                packets@,
                now,
                r,
            ),
    {
        if packet_infos.len() != packets.len() {
            return TransportRsp::SendPacketsLengthMismatch;
        }
        let idx = match self.find_endpoint(endpoint) {
            Option::None => {
                return TransportRsp::EndpointError {
                    error: EndpointDataError::EndpointNotFound { endpoint },
                };
            },
            Option::Some(i) => i,
        };
        let mut k: usize = 0;
        while k < packets.len()
            invariant
                *self == *old(self),
                old(self).wf(),
                old(self).registered(endpoint),
                k <= packets@.len(),
                packet_infos@.len() == packets@.len(),
                forall|m: int| 0 <= m < k ==> !oversized(#[trigger] packets@[m]),
            decreases packets@.len() - k,
        {
            let bytes = encode_packet(&packets[k]);
            if bytes.len() > UDP_MTU_SIZE {
                proof {
                    assert(oversized(packets@[k as int]));
                }
                return TransportRsp::ExceedsMtu { tid: packet_infos[k].tid };
            }
            k = k + 1;
        }
        let qlen = self.endpoints[idx].queue.len();
        proof {
            assert(qlen <= self.capacity);
        }
        if self.capacity - qlen < packets.len() {
            return TransportRsp::BufferFull;
        }
        let ghost pre = *self;
        let ghost orig_infos = packet_infos@;
        let ghost orig_pkts = packets@;
        let ghost preq = self.endpoints@[idx as int].queue@;
        let mut packets = packets;
        let mut packet_infos = packet_infos;
        let total = packets.len();
        let mut done: usize = 0;
        proof {
            assert(forall|m: int| 0 <= m < orig_pkts.len() ==> !oversized(#[trigger] orig_pkts[m]));
            assert(orig_infos.take(0) =~= Seq::<PacketSettings>::empty());
            assert(orig_pkts.take(0) =~= Seq::<Packet>::empty());
            assert(self.endpoints@[idx as int].queue@.subrange(0, preq.len() as int) =~= preq);
            assert(packets@ =~= orig_pkts.skip(0));
            assert(packet_infos@ =~= orig_infos.skip(0));
        }
        while done < total
            invariant
                pre.wf(),
                *old(self) == pre,
                done <= total,
                idx < pre.endpoints@.len(),
                pre.endpoints@[idx as int].endpoint == endpoint,
                idx == pre.index_of(endpoint),
                preq == pre.endpoints@[idx as int].queue@,
                orig_infos.len() == total,
                orig_pkts.len() == total,
                preq.len() + total <= pre.capacity,
                forall|a: int, b: int|
                    0 <= a < b < orig_infos.len() ==> orig_infos[a].tid != orig_infos[b].tid,
                forall|m: int|
                    0 <= m < orig_infos.len() ==> !queue_has_tid(
                        preq,
                        (#[trigger] orig_infos[m]).tid,
                    ),
                packets@ == orig_pkts.skip(done as int),
                packet_infos@ == orig_infos.skip(done as int),
                self.capacity == pre.capacity,
                self.endpoints@.len() == pre.endpoints@.len(),
                forall|j: int|
                    0 <= j < pre.endpoints@.len() && j != idx ==> self.endpoints@[j]
                        == pre.endpoints@[j],
                self.endpoints@[idx as int].endpoint == pre.endpoints@[idx as int].endpoint,
                self.endpoints@[idx as int].timeout == pre.endpoints@[idx as int].timeout,
                self.endpoints@[idx as int].last_receive == pre.endpoints@[
                    idx as int
                ].last_receive,
                self.endpoints@[idx as int].timeout_notified == pre.endpoints@[
                    idx as int
                ].timeout_notified,
                enqueued_entries(
                    preq,
                    self.endpoints@[idx as int].queue@,
                    orig_infos.take(done as int),
                    orig_pkts.take(done as int),
                    now,
                ),
                tids_distinct(self.endpoints@[idx as int].queue@),
            decreases total - done,
        {
            let p = packets.remove(0);
            let info = packet_infos.remove(0);
            proof {
                assert(orig_pkts.skip(done as int).remove(0) =~= orig_pkts.skip(done as int + 1));
                assert(orig_infos.skip(done as int).remove(0) =~= orig_infos.skip(done as int + 1));
                assert(p == orig_pkts[done as int]);
                assert(info == orig_infos[done as int]);
            }
            let ghost q_before = self.endpoints@[idx as int].queue@;
            let entry = &mut self.endpoints[idx];
            entry.queue.push(
                TransmitEntry {
                    tid: info.tid,
                    packet: p,
                    retry_interval: info.retry_interval,
                    last_send: now,
                },
            );
            proof {
                let q_after = self.endpoints@[idx as int].queue@;
                assert(q_after.subrange(0, preq.len() as int) =~= q_before.subrange(
                    0,
                    preq.len() as int,
                ));
                assert forall|a: int, b: int|
                    0 <= a < b < q_after.len() implies q_after[a].tid != q_after[b].tid by {
                    if b < q_after.len() - 1 {
                        assert(q_after[a] == q_before[a] && q_after[b] == q_before[b]);
                    } else {
                        assert(q_after[b].tid == orig_infos[done as int].tid);
                        if a < preq.len() {
                            assert(q_after[a] == preq[a]);
                            assert(!queue_has_tid(preq, orig_infos[done as int].tid));
                        } else {
                            assert(q_after[a].tid == orig_infos[a - preq.len()].tid);
                        }
                    }
                }
                assert(orig_infos.take(done as int + 1).drop_last() =~= orig_infos.take(
                    done as int,
                ));
                assert(orig_pkts.take(done as int + 1).drop_last() =~= orig_pkts.take(
                    done as int,
                ));
            }
            done = done + 1;
        }
        proof {
            assert(orig_infos.take(total as int) =~= orig_infos);
            assert(orig_pkts.take(total as int) =~= orig_pkts);
            assert forall|a: int, b: int|
                #![trigger self.endpoints@[a], self.endpoints@[b]]
                0 <= a < b < self.endpoints@.len() implies self.endpoints@[a].endpoint
                != self.endpoints@[b].endpoint by {
                assert(self.endpoints@[a].endpoint == pre.endpoints@[a].endpoint);
                assert(self.endpoints@[b].endpoint == pre.endpoints@[b].endpoint);
            }
            assert forall|a: int|
                0 <= a < self.endpoints@.len() implies tids_distinct(
                (#[trigger] self.endpoints@[a]).queue@,
            ) && self.endpoints@[a].queue@.len() <= self.capacity by {
                if a != idx as int {
                    assert(self.endpoints@[a] == pre.endpoints@[a]);
                }
            }
        }
        TransportRsp::Accepted
    }
}

/// The inbound packet acknowledges the queued one: a request's
/// `response_ack` acknowledges the queued response with that sequence
/// number, and a response's `request_ack` the queued request.
pub open spec fn ack_matches(inbound: Packet, queued: Packet) -> bool {
    ||| {
        &&& inbound matches Packet::Request { response_ack: Option::Some(n), .. }
        &&& queued matches Packet::Response { sequence, .. } && sequence == n
    }
    ||| {
        &&& inbound matches Packet::Response { request_ack: Option::Some(n), .. }
        &&& queued matches Packet::Request { sequence, .. } && sequence == n
    }
}

/// The queue with every entry acknowledged by `inbound` removed.
pub open spec fn without_acked(q: Seq<TransmitEntry>, inbound: Packet) -> Seq<TransmitEntry>
    decreases q.len(),
{
    if q.len() == 0 {
        Seq::empty()
    } else if ack_matches(inbound, q[0].packet) {
        without_acked(q.drop_first(), inbound)
    } else {
        seq![q[0]] + without_acked(q.drop_first(), inbound)
    }
}

proof fn lemma_without_acked_push(q: Seq<TransmitEntry>, x: TransmitEntry, inbound: Packet)
    ensures
        without_acked(q.push(x), inbound) == without_acked(q, inbound) + if ack_matches(
            inbound,
            x.packet,
        ) {
            Seq::<TransmitEntry>::empty()
        } else {
            seq![x]
        },
    decreases q.len(),
{
    let tail = if ack_matches(inbound, x.packet) {
        Seq::<TransmitEntry>::empty()
    } else {
        seq![x]
    };
    if q.len() == 0 {
        assert(q.push(x).drop_first() =~= Seq::<TransmitEntry>::empty());
        assert(without_acked(q.push(x).drop_first(), inbound) == Seq::<TransmitEntry>::empty());
        assert(q.push(x)[0] == x);
        assert(without_acked(q.push(x), inbound) =~= without_acked(q, inbound) + tail);
    } else {
        assert(q.push(x).drop_first() =~= q.drop_first().push(x));
        lemma_without_acked_push(q.drop_first(), x, inbound);
        assert(q.push(x)[0] == q[0]);
        assert(without_acked(q.push(x), inbound) =~= without_acked(q, inbound) + tail);
    }
}

/// Removing acknowledged entries keeps the remaining transmit ids
/// distinct; in fact the result selects a subsequence.
proof fn lemma_without_acked_distinct(q: Seq<TransmitEntry>, inbound: Packet)
    requires
        tids_distinct(q),
    ensures
        tids_distinct(without_acked(q, inbound)),
        without_acked(q, inbound).len() <= q.len(),
        forall|k: int|
            0 <= k < without_acked(q, inbound).len() ==> queue_has_tid(
                q,
                (#[trigger] without_acked(q, inbound)[k]).tid,
            ),
    decreases q.len(),
{
    if q.len() == 0 {
    } else {
        assert(tids_distinct(q.drop_first())) by {
            assert(forall|a: int, b: int|
                0 <= a < b < q.drop_first().len() ==> q.drop_first()[a] == q[a + 1]
                    && q.drop_first()[b] == q[b + 1]);
        }
        lemma_without_acked_distinct(q.drop_first(), inbound);
        let w = without_acked(q, inbound);
        let wt = without_acked(q.drop_first(), inbound);
        assert forall|k: int| 0 <= k < w.len() implies queue_has_tid(q, (#[trigger] w[k]).tid) by {
            if ack_matches(inbound, q[0].packet) {
                assert(w[k] == wt[k]);
                let m = choose|m: int|
                    0 <= m < q.drop_first().len() && q.drop_first()[m].tid == wt[k].tid;
                assert(q[m + 1].tid == w[k].tid);
            } else {
                if k == 0 {
                    assert(w[0] == q[0]);
                } else {
                    assert(w[k] == wt[k - 1]);
                    let m = choose|m: int|
                        0 <= m < q.drop_first().len() && q.drop_first()[m].tid == wt[k - 1].tid;
                    assert(q[m + 1].tid == w[k].tid);
                }
            }
        }
        assert forall|a: int, b: int| 0 <= a < b < w.len() implies w[a].tid != w[b].tid by {
            if ack_matches(inbound, q[0].packet) {
                assert(w[a] == wt[a] && w[b] == wt[b]);
            } else {
                if a == 0 {
                    assert(w[0] == q[0]);
                    assert(w[b] == wt[b - 1]);
                    let m = choose|m: int|
                        0 <= m < q.drop_first().len() && q.drop_first()[m].tid == wt[b - 1].tid;
                    assert(q[m + 1].tid == w[b].tid);
                    assert(q[0].tid != q[m + 1].tid);
                } else {
                    assert(w[a] == wt[a - 1] && w[b] == wt[b - 1]);
                }
            }
        }
    }
}

impl TransportState {
    /// Takes note of one delivered inbound packet: refreshes the
    /// endpoint's idle clock, re-arms its timeout notice, and drops every
    /// queued entry the packet acknowledges. The packet is surfaced as a
    /// `PacketDelivery` notice even when the endpoint is not registered,
    /// so that a first-contact `Connect` reaches the session layer.
    pub fn packet_delivery(&mut self, endpoint: Endpoint, packet: Packet, now: u64) -> (notice:
        TransportNotice)
        requires
            old(self).wf(),
        ensures
            final(self).wf(),
            final(self).capacity == old(self).capacity,
            notice matches TransportNotice::PacketDelivery { endpoint: e, packet: p } && e
                == endpoint && p == packet,
            !old(self).registered(endpoint) ==> *final(self) == *old(self),
            old(self).registered(endpoint) ==> {
                let i = old(self).index_of(endpoint);
                &&& final(self).endpoints@.len() == old(self).endpoints@.len()
                &&& forall|j: int|
                    0 <= j < old(self).endpoints@.len() && j != i ==> final(self).endpoints@[j]
                        == old(self).endpoints@[j]
                &&& final(self).endpoints@[i].endpoint == old(self).endpoints@[i].endpoint
                &&& final(self).endpoints@[i].timeout == old(self).endpoints@[i].timeout
                &&& final(self).endpoints@[i].last_receive == now
                &&& final(self).endpoints@[i].timeout_notified == false
                &&& final(self).endpoints@[i].queue@ == without_acked(
                    old(self).endpoints@[i].queue@,
                    packet,
                )
            },
    {
        match self.find_endpoint(endpoint) {
            Option::None => {},
            Option::Some(i) => {
                let ghost q = self.endpoints@[i as int].queue@;
                let ghost e0 = self.endpoints@[i as int];
                let entry = &mut self.endpoints[i];
                entry.last_receive = now;
                entry.timeout_notified = false;
                let mut j: usize = 0;
                let ghost mut consumed: int = 0;
                proof {
                    assert(q.take(0) =~= Seq::<TransmitEntry>::empty());
                    assert(entry.queue@ =~= without_acked(q.take(0), packet) + q.skip(0));
                }
                while j < entry.queue.len()
                    invariant
                        0 <= consumed <= q.len(),
                        entry.endpoint == e0.endpoint,
                        entry.timeout == e0.timeout,
                        entry.last_receive == now,
                        entry.timeout_notified == false,
                        j == without_acked(q.take(consumed), packet).len(),
                        entry.queue@ == without_acked(q.take(consumed), packet) + q.skip(consumed),
                        j <= entry.queue@.len(),
                    decreases q.len() - consumed,
                {
                    proof {
                        assert(entry.queue@[j as int] == q[consumed]);
                        assert(q.take(consumed + 1).drop_last() =~= q.take(consumed));
                        assert(q.take(consumed + 1) =~= q.take(consumed).push(q[consumed]));
                        lemma_without_acked_push(q.take(consumed), q[consumed], packet);
                    }
                    let acked = match (&packet, &entry.queue[j].packet) {
                        (
                            Packet::Request { response_ack: Option::Some(n), .. },
                            Packet::Response { sequence, .. },
                        ) => *sequence == *n,
                        (
                            Packet::Response { request_ack: Option::Some(n), .. },
                            Packet::Request { sequence, .. },
                        ) => *sequence == *n,
                        _ => false,
                    };
                    proof {
                        assert(acked == ack_matches(packet, q[consumed].packet));
                    }
                    if acked {
                        entry.queue.remove(j);
                        proof {
                            assert(entry.queue@ =~= without_acked(q.take(consumed + 1), packet)
                                + q.skip(consumed + 1));
                        }
                    } else {
                        j = j + 1;
                        proof {
                            assert(entry.queue@ =~= without_acked(q.take(consumed + 1), packet)
                                + q.skip(consumed + 1));
                        }
                    }
                    proof {
                        consumed = consumed + 1;
                    }
                }
                proof {
                    assert(q.take(consumed) =~= q);
                    assert(q.skip(consumed) =~= Seq::<TransmitEntry>::empty());
                    assert(entry.queue@ =~= without_acked(q, packet));
                }
            },
        }
        proof {
            if old(self).registered(endpoint) {
                let i = old(self).index_of(endpoint);
                lemma_without_acked_distinct(old(self).endpoints@[i].queue@, packet);
            }
            assert forall|a: int, b: int|
                #![trigger self.endpoints@[a], self.endpoints@[b]]
                0 <= a < b < self.endpoints@.len() implies self.endpoints@[a].endpoint
                != self.endpoints@[b].endpoint by {
                assert(self.endpoints@[a].endpoint == old(self).endpoints@[a].endpoint);
                assert(self.endpoints@[b].endpoint == old(self).endpoints@[b].endpoint);
            }
            assert forall|a: int|
                0 <= a < self.endpoints@.len() implies tids_distinct(
                (#[trigger] self.endpoints@[a]).queue@,
            ) && self.endpoints@[a].queue@.len() <= self.capacity by {
                if old(self).registered(endpoint) {
                    let i = old(self).index_of(endpoint);
                    if a != i {
                        assert(self.endpoints@[a] == old(self).endpoints@[a]);
                    }
                } else {
                    assert(self.endpoints@[a] == old(self).endpoints@[a]);
                }
            }
        }
        TransportNotice::PacketDelivery { endpoint, packet }
    }

    /// Reports every endpoint whose idle timeout has newly expired, as
    /// `EndpointTimeout` notices, and marks each so the notice fires
    /// exactly once per idle period. The caller decides whether to drop
    /// the endpoint.
    pub fn check_timeouts(&mut self, now: u64) -> (out: Vec<TransportNotice>)
        requires
            old(self).wf(),
        ensures
            final(self).wf(),
            final(self).capacity == old(self).capacity,
            out@.len() == timeout_notices(old(self).endpoints@, now).len(),
            forall|k: int|
                0 <= k < out@.len() ==> out@[k] == (TransportNotice::EndpointTimeout {
                    endpoint: timeout_notices(old(self).endpoints@, now)[k],
                }),
            final(self).endpoints@.len() == old(self).endpoints@.len(),
            forall|i: int|
                0 <= i < old(self).endpoints@.len() ==> {
                    let pre = old(self).endpoints@[i];
                    let post = #[trigger] final(self).endpoints@[i];
                    &&& post.endpoint == pre.endpoint
                    &&& post.timeout == pre.timeout
                    &&& post.last_receive == pre.last_receive
                    &&& post.queue == pre.queue
                    &&& post.timeout_notified == (pre.timeout_notified || due_timeout(pre, now))
                },
    {
        let ghost orig = self.endpoints@;
        let mut out: Vec<TransportNotice> = Vec::new();
        let mut i: usize = 0;
        proof {
            assert(orig.take(0) =~= Seq::<EndpointEntry>::empty());
        }
        while i < self.endpoints.len()
            invariant
                old(self).wf(),
                orig == old(self).endpoints@,
                self.capacity == old(self).capacity,
                i <= orig.len(),
                self.endpoints@.len() == orig.len(),
                out@.len() == timeout_notices(orig.take(i as int), now).len(),
                forall|k: int|
                    0 <= k < out@.len() ==> out@[k] == (TransportNotice::EndpointTimeout {
                        endpoint: timeout_notices(orig.take(i as int), now)[k],
                    }),
                forall|j: int| i <= j < orig.len() ==> self.endpoints@[j] == orig[j],
                forall|j: int|
                    0 <= j < i ==> {
                        let pre = orig[j];
                        let post = #[trigger] self.endpoints@[j];
                        &&& post.endpoint == pre.endpoint
                        &&& post.timeout == pre.timeout
                        &&& post.last_receive == pre.last_receive
                        &&& post.queue == pre.queue
                        &&& post.timeout_notified == (pre.timeout_notified || due_timeout(
                            pre,
                            now,
                        ))
                    },
            decreases orig.len() - i,
        {
            proof {
                assert(orig.take(i as int + 1).drop_last() =~= orig.take(i as int));
                assert(orig.take(i as int + 1) =~= orig.take(i as int).push(orig[i as int]));
                lemma_timeout_notices_push(orig.take(i as int), orig[i as int], now);
            }
            let due = if self.endpoints[i].timeout_notified {
                false
            } else {
                match self.endpoints[i].last_receive.checked_add(self.endpoints[i].timeout) {
                    Option::Some(deadline) => deadline <= now,
                    Option::None => false,
                }
            };
            proof {
                assert(due == due_timeout(orig[i as int], now));
            }
            if due {
                let ep = self.endpoints[i].endpoint;
                let entry = &mut self.endpoints[i];
                entry.timeout_notified = true;
                out.push(TransportNotice::EndpointTimeout { endpoint: ep });
            }
            i = i + 1;
        }
        proof {
            assert(orig.take(orig.len() as int) =~= orig);
            assert forall|a: int, b: int|
                #![trigger self.endpoints@[a], self.endpoints@[b]]
                0 <= a < b < self.endpoints@.len() implies self.endpoints@[a].endpoint
                != self.endpoints@[b].endpoint by {
                assert(self.endpoints@[a].endpoint == orig[a].endpoint);
                assert(self.endpoints@[b].endpoint == orig[b].endpoint);
            }
            assert forall|a: int|
                0 <= a < self.endpoints@.len() implies tids_distinct(
                (#[trigger] self.endpoints@[a]).queue@,
            ) && self.endpoints@[a].queue@.len() <= self.capacity by {
                assert(self.endpoints@[a].queue == orig[a].queue);
            }
        }
        out
    }
}

/// The endpoint's idle timeout has expired and has not yet been reported.
pub open spec fn due_timeout(e: EndpointEntry, now: u64) -> bool {
    !e.timeout_notified && e.last_receive + e.timeout <= now
}

/// The endpoints, in order, whose idle timeout newly expired at `now`.
pub open spec fn timeout_notices(eps: Seq<EndpointEntry>, now: u64) -> Seq<Endpoint>
    decreases eps.len(),
{
    if eps.len() == 0 {
        Seq::empty()
    } else {
        (if due_timeout(eps[0], now) {
            seq![eps[0].endpoint]
        } else {
            Seq::empty()
        }) + timeout_notices(eps.drop_first(), now)
    }
}

proof fn lemma_timeout_notices_push(eps: Seq<EndpointEntry>, x: EndpointEntry, now: u64)
    ensures
        timeout_notices(eps.push(x), now) == timeout_notices(eps, now) + if due_timeout(x, now) {
            seq![x.endpoint]
        } else {
            Seq::<Endpoint>::empty()
        },
    decreases eps.len(),
{
    let tail = if due_timeout(x, now) {
        seq![x.endpoint]
    } else {
        Seq::<Endpoint>::empty()
    };
    if eps.len() == 0 {
        assert(eps.push(x).drop_first() =~= Seq::<EndpointEntry>::empty());
        assert(timeout_notices(eps.push(x).drop_first(), now) == Seq::<Endpoint>::empty());
        assert(eps.push(x)[0] == x);
        assert(timeout_notices(eps.push(x), now) =~= timeout_notices(eps, now) + tail);
    } else {
        assert(eps.push(x).drop_first() =~= eps.drop_first().push(x));
        lemma_timeout_notices_push(eps.drop_first(), x, now);
        assert(eps.push(x)[0] == eps[0]);
        assert(timeout_notices(eps.push(x), now) =~= timeout_notices(eps, now) + tail);
    }
}

/// The entry's retry interval has elapsed since it was last sent.
pub open spec fn due_retry(e: TransmitEntry, now: u64) -> bool {
    e.last_send + e.retry_interval <= now
}

/// The retransmissions one queue owes at `now`: the endpoint paired with
/// each due entry's wire bytes, in queue order.
pub open spec fn due_in_queue(ep: Endpoint, q: Seq<TransmitEntry>, now: u64) -> Seq<
    (Endpoint, Seq<u8>),
>
    decreases q.len(),
{
    if q.len() == 0 {
        Seq::empty()
    } else {
        (if due_retry(q[0], now) {
            seq![(ep, spec_encode_packet(q[0].packet))]
        } else {
            Seq::empty()
        }) + due_in_queue(ep, q.drop_first(), now)
    }
}

/// The retransmissions the whole layer owes at `now`, endpoint by
/// endpoint in registration order.
pub open spec fn due_list(eps: Seq<EndpointEntry>, now: u64) -> Seq<(Endpoint, Seq<u8>)>
    decreases eps.len(),
{
    if eps.len() == 0 {
        Seq::empty()
    } else {
        due_in_queue(eps[0].endpoint, eps[0].queue@, now) + due_list(eps.drop_first(), now)
    }
}

proof fn lemma_due_in_queue_push(ep: Endpoint, q: Seq<TransmitEntry>, x: TransmitEntry, now: u64)
    ensures
        due_in_queue(ep, q.push(x), now) == due_in_queue(ep, q, now) + if due_retry(x, now) {
            seq![(ep, spec_encode_packet(x.packet))]
        } else {
            Seq::<(Endpoint, Seq<u8>)>::empty()
        },
    decreases q.len(),
{
    let tail = if due_retry(x, now) {
        seq![(ep, spec_encode_packet(x.packet))]
    } else {
        Seq::<(Endpoint, Seq<u8>)>::empty()
    };
    if q.len() == 0 {
        assert(q.push(x).drop_first() =~= Seq::<TransmitEntry>::empty());
        assert(due_in_queue(ep, q.push(x).drop_first(), now) == Seq::<(Endpoint, Seq<u8>)>::empty());
        assert(q.push(x)[0] == x);
        assert(due_in_queue(ep, q.push(x), now) =~= due_in_queue(ep, q, now) + tail);
    } else {
        assert(q.push(x).drop_first() =~= q.drop_first().push(x));
        lemma_due_in_queue_push(ep, q.drop_first(), x, now);
        assert(q.push(x)[0] == q[0]);
        assert(due_in_queue(ep, q.push(x), now) =~= due_in_queue(ep, q, now) + tail);
    }
}

proof fn lemma_due_list_push(eps: Seq<EndpointEntry>, x: EndpointEntry, now: u64)
    ensures
        due_list(eps.push(x), now) == due_list(eps, now) + due_in_queue(x.endpoint, x.queue@, now),
    decreases eps.len(),
{
    if eps.len() == 0 {
        assert(eps.push(x).drop_first() =~= Seq::<EndpointEntry>::empty());
        assert(due_list(eps.push(x).drop_first(), now) == Seq::<(Endpoint, Seq<u8>)>::empty());
        assert(eps.push(x)[0] == x);
        assert(due_list(eps.push(x), now) =~= due_list(eps, now) + due_in_queue(
            x.endpoint,
            x.queue@,
            now,
        ));
    } else {
        assert(eps.push(x).drop_first() =~= eps.drop_first().push(x));
        lemma_due_list_push(eps.drop_first(), x, now);
        assert(eps.push(x)[0] == eps[0]);
        assert(due_list(eps.push(x), now) =~= due_list(eps, now) + due_in_queue(
            x.endpoint,
            x.queue@,
            now,
        ));
    }
}

/// Entries with pairwise-equal transmit ids stay distinct.
proof fn lemma_tids_distinct_same_tids(q1: Seq<TransmitEntry>, q2: Seq<TransmitEntry>)
    requires
        q1.len() == q2.len(),
        forall|j: int| 0 <= j < q1.len() ==> q1[j].tid == (#[trigger] q2[j]).tid,
        tids_distinct(q1),
    ensures
        tids_distinct(q2),
{
}

/// Stamps one queue's due entries with the send time `now` and appends
/// the owed (endpoint, wire bytes) pairs to `out`.
fn retransmit_queue(ep: Endpoint, q: &mut Vec<TransmitEntry>, now: u64, out: &mut Vec<
    (Endpoint, Vec<u8>),
>)
    ensures
        final(q)@.len() == old(q)@.len(),
        forall|j: int|
            0 <= j < old(q)@.len() ==> {
                let pre = old(q)@[j];
                let post = #[trigger] final(q)@[j];
                &&& post.tid == pre.tid
                &&& post.packet == pre.packet
                &&& post.retry_interval == pre.retry_interval
                &&& post.last_send == if due_retry(pre, now) {
                    now
                } else {
                    pre.last_send
                }
            },
        final(out)@.len() == old(out)@.len() + due_in_queue(ep, old(q)@, now).len(),
        final(out)@.subrange(0, old(out)@.len() as int) == old(out)@,
        forall|k: int|
            old(out)@.len() <= k < final(out)@.len() ==> {
                let d = due_in_queue(ep, old(q)@, now)[k - old(out)@.len()];
                &&& (#[trigger] final(out)@[k]).0 == d.0
                &&& final(out)@[k].1@ == d.1
            },
{
    let ghost orig = q@;
    let ghost out0 = out@;
    let mut j: usize = 0;
    proof {
        assert(orig.take(0) =~= Seq::<TransmitEntry>::empty());
        assert(out@.subrange(0, out0.len() as int) =~= out0);
    }
    while j < q.len()
        invariant
            j <= orig.len(),
            q@.len() == orig.len(),
            forall|m: int| j <= m < orig.len() ==> q@[m] == orig[m],
            forall|m: int|
                0 <= m < j ==> {
                    let pre = orig[m];
                    let post = #[trigger] q@[m];
                    &&& post.tid == pre.tid
                    &&& post.packet == pre.packet
                    &&& post.retry_interval == pre.retry_interval
                    &&& post.last_send == if due_retry(pre, now) {
                        now
                    } else {
                        pre.last_send
                    }
                },
            out@.len() == out0.len() + due_in_queue(ep, orig.take(j as int), now).len(),
            out@.subrange(0, out0.len() as int) == out0,
            forall|k: int|
                out0.len() <= k < out@.len() ==> {
                    let d = due_in_queue(ep, orig.take(j as int), now)[k - out0.len()];
                    &&& (#[trigger] out@[k]).0 == d.0
                    &&& out@[k].1@ == d.1
                },
        decreases orig.len() - j,
    {
        proof {
            assert(orig.take(j as int + 1) =~= orig.take(j as int).push(orig[j as int]));
            lemma_due_in_queue_push(ep, orig.take(j as int), orig[j as int], now);
        }
        let due = match q[j].last_send.checked_add(q[j].retry_interval) {
            Option::Some(deadline) => deadline <= now,
            Option::None => false,
        };
        proof {
            assert(due == due_retry(orig[j as int], now));
        }
        if due {
            let bytes = encode_packet(&q[j].packet);
            out.push((ep, bytes));
            q[j].last_send = now;
            proof {
                assert(out@.subrange(0, out0.len() as int) =~= out0);
            }
        }
        j = j + 1;
    }
    proof {
        assert(orig.take(orig.len() as int) =~= orig);
    }
}

impl TransportState {
    /// Collects every retransmission owed at `now` — each queued entry
    /// whose retry interval has elapsed — as (endpoint, wire bytes)
    /// pairs, and stamps those entries as sent at `now`. Entries stay
    /// queued until acknowledged, dropped, or cancelled.
    pub fn due_retransmits(&mut self, now: u64) -> (out: Vec<(Endpoint, Vec<u8>)>)
        requires
            old(self).wf(),
        ensures
            final(self).wf(),
            final(self).capacity == old(self).capacity,
            out@.len() == due_list(old(self).endpoints@, now).len(),
            forall|k: int|
                0 <= k < out@.len() ==> {
                    let d = due_list(old(self).endpoints@, now)[k];
                    &&& (#[trigger] out@[k]).0 == d.0
                    &&& out@[k].1@ == d.1
                },
            final(self).endpoints@.len() == old(self).endpoints@.len(),
            forall|i: int|
                0 <= i < old(self).endpoints@.len() ==> {
                    let pre = old(self).endpoints@[i];
                    let post = #[trigger] final(self).endpoints@[i];
                    &&& post.endpoint == pre.endpoint
                    &&& post.timeout == pre.timeout
                    &&& post.last_receive == pre.last_receive
                    &&& post.timeout_notified == pre.timeout_notified
                    &&& post.queue@.len() == pre.queue@.len()
                    &&& forall|j: int|
                        0 <= j < pre.queue@.len() ==> {
                            let epre = pre.queue@[j];
                            let epost = #[trigger] post.queue@[j];
                            &&& epost.tid == epre.tid
                            &&& epost.packet == epre.packet
                            &&& epost.retry_interval == epre.retry_interval
                            &&& epost.last_send == if due_retry(epre, now) {
                                now
                            } else {
                                epre.last_send
                            }
                        }
                },
    {
        let ghost orig = self.endpoints@;
        let mut out: Vec<(Endpoint, Vec<u8>)> = Vec::new();
        let mut i: usize = 0;
        proof {
            assert(orig.take(0) =~= Seq::<EndpointEntry>::empty());
        }
        while i < self.endpoints.len()
            invariant
                orig == old(self).endpoints@,
                self.capacity == old(self).capacity,
                i <= orig.len(),
                self.endpoints@.len() == orig.len(),
                forall|j: int| i <= j < orig.len() ==> self.endpoints@[j] == orig[j],
                forall|j: int|
                    0 <= j < i ==> {
                        let pre = orig[j];
                        let post = #[trigger] self.endpoints@[j];
                        &&& post.endpoint == pre.endpoint
                        &&& post.timeout == pre.timeout
                        &&& post.last_receive == pre.last_receive
                        &&& post.timeout_notified == pre.timeout_notified
                        &&& post.queue@.len() == pre.queue@.len()
                        &&& forall|m: int|
                            0 <= m < pre.queue@.len() ==> {
                                let epre = pre.queue@[m];
                                let epost = #[trigger] post.queue@[m];
                                &&& epost.tid == epre.tid
                                &&& epost.packet == epre.packet
                                &&& epost.retry_interval == epre.retry_interval
                                &&& epost.last_send == if due_retry(epre, now) {
                                    now
                                } else {
                                    epre.last_send
                                }
                            }
                    },
                out@.len() == due_list(orig.take(i as int), now).len(),
                forall|k: int|
                    0 <= k < out@.len() ==> {
                        let d = due_list(orig.take(i as int), now)[k];
                        &&& (#[trigger] out@[k]).0 == d.0
                        &&& out@[k].1@ == d.1
                    },
            decreases orig.len() - i,
        {
            proof {
                assert(orig.take(i as int + 1) =~= orig.take(i as int).push(orig[i as int]));
                lemma_due_list_push(orig.take(i as int), orig[i as int], now);
            }
            let ep = self.endpoints[i].endpoint;
            let ghost out_before = out@;
            let entry = &mut self.endpoints[i];
            retransmit_queue(ep, &mut entry.queue, now, &mut out);
            proof {
                assert forall|k: int| 0 <= k < out@.len() implies {
                    let d = due_list(orig.take(i as int + 1), now)[k];
                    &&& (#[trigger] out@[k]).0 == d.0
                    &&& out@[k].1@ == d.1
                } by {
                    if k < out_before.len() {
                        assert(out@[k] == out@.subrange(0, out_before.len() as int)[k]);
                        assert(out@[k] == out_before[k]);
                    }
                }
            }
            i = i + 1;
        }
        proof {
            assert(orig.take(orig.len() as int) =~= orig);
            assert forall|a: int, b: int|
                #![trigger self.endpoints@[a], self.endpoints@[b]]
                0 <= a < b < self.endpoints@.len() implies self.endpoints@[a].endpoint
                != self.endpoints@[b].endpoint by {
                assert(self.endpoints@[a].endpoint == orig[a].endpoint);
                assert(self.endpoints@[b].endpoint == orig[b].endpoint);
            }
            assert forall|a: int|
                0 <= a < self.endpoints@.len() implies tids_distinct(
                (#[trigger] self.endpoints@[a]).queue@,
            ) && self.endpoints@[a].queue@.len() <= self.capacity by {
                lemma_tids_distinct_same_tids(orig[a].queue@, self.endpoints@[a].queue@);
            }
        }
        out
    }
}

/// Index of the entry carrying `tid`, when one exists.
fn find_tid(q: &Vec<TransmitEntry>, tid: usize) -> (r: Option<usize>)
    ensures
        match r {
            Option::Some(k) => k < q@.len() && q@[k as int].tid == tid,
            Option::None => !queue_has_tid(q@, tid),
        },
{
    let mut k: usize = 0;
    while k < q.len()
        invariant
            k <= q@.len(),
            forall|m: int| 0 <= m < k ==> q@[m].tid != tid,
        decreases q@.len() - k,
    {
        if q[k].tid == tid {
            return Some(k);
        }
        k = k + 1;
    }
    None
}

/// Removing one entry keeps the remaining transmit ids distinct.
proof fn lemma_tids_distinct_remove(q: Seq<TransmitEntry>, k: int)
    requires
        0 <= k < q.len(),
        tids_distinct(q),
    ensures
        tids_distinct(q.remove(k)),
{
    let qr = q.remove(k);
    assert forall|a: int, b: int| 0 <= a < b < qr.len() implies qr[a].tid != qr[b].tid by {
        if a < k {
            assert(qr[a] == q[a]);
        } else {
            assert(qr[a] == q[a + 1]);
        }
        if b < k {
            assert(qr[b] == q[b]);
        } else {
            assert(qr[b] == q[b + 1]);
        }
    }
}

impl TransportState {
    /// Answers one transport command by performing its operation. Each
    /// command's exact behaviour is the matching effect predicate.
    pub fn process_cmd(&mut self, cmd: TransportCmd, now: u64) -> (r: TransportRsp)
        requires
            old(self).wf(),
            cmd matches TransportCmd::SendPackets { endpoint, packet_infos, .. } ==> send_requires(
                *old(self),
                endpoint,
                packet_infos@,
            ),
        ensures
            final(self).wf(),
            match cmd {
                TransportCmd::NewEndpoint { endpoint, timeout } => new_endpoint_effect(
                    *old(self),
                    *final(self),
                    endpoint,
                    timeout,
                    now,
                    r,
                ),
                TransportCmd::SendPackets { endpoint, packet_infos, packets } => send_packets_effect(
                    *old(self),
                    *final(self),
                    endpoint,
                    packet_infos@,
                    packets@,
                    now,
                    r,
                ),
                TransportCmd::DropEndpoint { endpoint } => drop_endpoint_effect(
                    *old(self),
                    *final(self),
                    endpoint,
                    r,
                ),
                TransportCmd::DropPacket { endpoint, tid } => drop_packet_effect(
                    *old(self),
                    *final(self),
                    endpoint,
                    tid,
                    r,
                ),
                TransportCmd::CancelTransmitQueue { endpoint } => cancel_transmit_queue_effect(
                    *old(self),
                    *final(self),
                    endpoint,
                    r,
                ),
            },
    {
        match cmd {
            TransportCmd::NewEndpoint { endpoint, timeout } => self.new_endpoint(
                endpoint,
                timeout,
                now,
            ),
            TransportCmd::SendPackets { endpoint, packet_infos, packets } => self.send_packets(
                endpoint,
                packet_infos,
                packets,
                now,
            ),
            TransportCmd::DropEndpoint { endpoint } => self.drop_endpoint(endpoint),
            TransportCmd::DropPacket { endpoint, tid } => self.drop_packet(endpoint, tid),
            TransportCmd::CancelTransmitQueue { endpoint } => self.cancel_transmit_queue(endpoint),
        }
    }
}

} // verus!
