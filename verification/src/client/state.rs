//! The state that a client keeps of its connection, and how each packet
//! that goes out or comes in changes it.

use super::{notification_of, packet_of, Notification, NotificationView};
use crate::codec::{
    ConnAck, ConnectReturnCode, Packet, PacketView, PubAck, PubComp, PubRec, PubRel, Publish,
    PublishView, QoS, Subscribe, Unsubscribe,
};
use std::collections::VecDeque;
use vstd::prelude::*;

verus! {

/// State of the connection
#[derive(Debug, Clone, Copy, PartialEq, Eq, Structural)]
pub enum MqttConnectionStatus {
    Handshake,
    Connected,
    Disconnected,
}

/// Why the state machine refused a packet.
#[derive(Debug, Clone, Copy, PartialEq, Eq, Structural)]
pub enum StateError {
    /// Broker's error reply to client's connect packet
    Connect(ConnectReturnCode),
    /// Invalid state for a given operation
    InvalidState,
    /// Received a packet (ack) which isn't asked for
    Unsolicited,
    /// Last pingreq isn't acked
    AwaitPingResp,
    /// Received a wrong packet while waiting for another packet
    WrongPacket,
}

/// State of the mqtt connection.
#[derive(Debug)]
pub struct MqttState {
    /// Connection status
    pub connection_status: MqttConnectionStatus,
    /// Status of last ping
    pub await_pingresp: bool,
    /// When the last packet came in, on the caller's clock
    pub last_incoming: u64,
    /// When the last packet went out, on the caller's clock
    pub last_outgoing: u64,
    /// Packet id of the last outgoing packet
    pub last_pkid: u16,
    /// Outgoing QoS 1, 2 publishes which aren't acked yet
    pub outgoing_pub: VecDeque<Publish>,
    /// Packet ids of released QoS 2 publishes
    pub outgoing_rel: VecDeque<u16>,
    /// Packet ids on incoming QoS 2 publishes
    pub incoming_pub: VecDeque<u16>,
}

/// The publishes of a queue as values, in their order.
pub open spec fn publish_views(q: Seq<Publish>) -> Seq<PublishView> {
    Seq::new(q.len(), |i: int| q[i]@)
}

/// The packets of a list as values, in their order.
pub open spec fn packet_views(packets: Seq<Packet>) -> Seq<PacketView> {
    Seq::new(packets.len(), |i: int| packets[i]@)
}

/// The state of a connection as a value.
#[verifier::ext_equal]
pub struct StateView {
    pub connection_status: MqttConnectionStatus,
    pub await_pingresp: bool,
    pub last_incoming: u64,
    pub last_outgoing: u64,
    pub last_pkid: u16,
    pub outgoing_pub: Seq<PublishView>,
    pub outgoing_rel: Seq<u16>,
    pub incoming_pub: Seq<u16>,
}

impl View for MqttState {
    type V = StateView;

    open spec fn view(&self) -> StateView {
        StateView {
            connection_status: self.connection_status,
            await_pingresp: self.await_pingresp,
            last_incoming: self.last_incoming,
            last_outgoing: self.last_outgoing,
            last_pkid: self.last_pkid,
            outgoing_pub: publish_views(self.outgoing_pub@),
            outgoing_rel: self.outgoing_rel@,
            incoming_pub: self.incoming_pub@,
        }
    }
}

/// What the state machine asks for in answer to a packet: something to
/// tell the user, something to write to the broker, both or neither.
#[verifier::ext_equal]
pub struct Reaction {
    pub notification: Option<NotificationView>,
    pub reply: Option<PacketView>,
}

/// The packet id that follows `last`: one more, and 1 after 65535.
pub open spec fn pkid_after(last: u16) -> u16 {
    if last == 65_535 {
        1
    } else {
        (last + 1) as u16
    }
}

/// The first place at which `id` stands in `ids`, or the length of `ids`
/// where it stands nowhere.
pub open spec fn first_index(ids: Seq<u16>, id: u16) -> int
    decreases ids.len(),
{
    if ids.len() == 0 {
        0
    } else if ids[0] == id {
        0
    } else {
        1 + first_index(ids.skip(1), id)
    }
}

/// The packet ids of a queue of publishes, in their order.
pub open spec fn pkids(q: Seq<PublishView>) -> Seq<u16> {
    Seq::new(q.len(), |i: int| q[i].pkid)
}

/// `first_index` is the first index: no earlier place holds `id`, and the
/// place itself holds it unless it is the length.
pub proof fn lemma_first_index(ids: Seq<u16>, id: u16)
    ensures
        0 <= first_index(ids, id) <= ids.len(),
        forall|j: int| 0 <= j < first_index(ids, id) ==> ids[j] != id,
        first_index(ids, id) < ids.len() ==> ids[first_index(ids, id)] == id,
    decreases ids.len(),
{
    if ids.len() > 0 && ids[0] != id {
        let rest = ids.skip(1);
        lemma_first_index(rest, id);
        assert forall|j: int| 0 <= j < first_index(ids, id) implies ids[j] != id by {
            if j > 0 {
                assert(rest[j - 1] == ids[j]);
            }
        }
    }
}

/// An index that no earlier occurrence of `id` precedes, and that holds
/// `id` or is the length, is `first_index`.
pub proof fn lemma_first_index_is(ids: Seq<u16>, id: u16, i: int)
    requires
        0 <= i <= ids.len(),
        forall|j: int| 0 <= j < i ==> ids[j] != id,
        i < ids.len() ==> ids[i] == id,
    ensures
        first_index(ids, id) == i,
{
    lemma_first_index(ids, id);
    let k = first_index(ids, id);
    if k < i {
        assert(ids[k] == id);
    } else if k > i {
        assert(ids[i] != id);
    }
}

impl StateView {
    /// The state of a client that has not connected yet.
    pub open spec fn fresh() -> StateView {
        StateView {
            connection_status: MqttConnectionStatus::Disconnected,
            await_pingresp: false,
            last_incoming: 0,
            last_outgoing: 0,
            last_pkid: 0,
            outgoing_pub: Seq::empty(),
            outgoing_rel: Seq::empty(),
            incoming_pub: Seq::empty(),
        }
    }

    /// The same state with another time of the last incoming packet.
    pub open spec fn seen_at(self, now: u64) -> StateView {
        StateView { last_incoming: now, ..self }
    }

    /// The same state with another time of the last outgoing packet.
    pub open spec fn sent_at(self, now: u64) -> StateView {
        StateView { last_outgoing: now, ..self }
    }

    /// A ping goes out: refused while the last one is unanswered, and
    /// awaited from now on otherwise.
    pub open spec fn ping(self) -> Result<(StateView, Reaction), StateError> {
        if self.await_pingresp {
            Err(StateError::AwaitPingResp)
        } else {
            Ok(
                (
                    StateView { await_pingresp: true, ..self },
                    Reaction { notification: None, reply: Some(PacketView::PingReq) },
                ),
            )
        }
    }

    /// A publish goes out. At quality of service 0 it passes as it is;
    /// above, it gets the next packet id and a copy of it is kept until it
    /// is acknowledged.
    pub open spec fn outgoing_publish(self, publish: PublishView) -> (StateView, Reaction) {
        if publish.qos == QoS::AtMostOnce {
            (self, Reaction { notification: None, reply: Some(PacketView::Publish(publish)) })
        } else {
            let pkid = pkid_after(self.last_pkid);
            let publish = PublishView { pkid, ..publish };
            (
                StateView {
                    last_pkid: pkid,
                    outgoing_pub: self.outgoing_pub.push(publish),
                    ..self
                },
                Reaction { notification: None, reply: Some(PacketView::Publish(publish)) },
            )
        }
    }

    /// What a request of the user does: a publish, a subscribe, an
    /// unsubscribe, a disconnect or a keep alive ping goes out, and the
    /// time is noted; any other packet is refused.
    pub open spec fn outgoing(self, packet: PacketView, now: u64) -> Result<
        (StateView, Reaction),
        StateError,
    > {
        match packet {
            PacketView::Publish(publish) => {
                let (next, reaction) = self.outgoing_publish(publish);
                Ok((next.sent_at(now), reaction))
            },
            PacketView::PingReq => match self.ping() {
                Ok((next, reaction)) => Ok((next.sent_at(now), reaction)),
                Err(e) => Err(e),
            },
            PacketView::Subscribe(subscribe) => {
                let pkid = pkid_after(self.last_pkid);
                Ok(
                    (
                        StateView { last_pkid: pkid, ..self }.sent_at(now),
                        Reaction {
                            notification: None,
                            reply: Some(
                                PacketView::Subscribe(
                                    crate::codec::SubscribeView { pkid, ..subscribe },
                                ),
                            ),
                        },
                    ),
                )
            },
            PacketView::Unsubscribe(unsubscribe) => {
                let pkid = pkid_after(self.last_pkid);
                Ok(
                    (
                        StateView { last_pkid: pkid, ..self }.sent_at(now),
                        Reaction {
                            notification: None,
                            reply: Some(
                                PacketView::Unsubscribe(
                                    crate::codec::UnsubscribeView { pkid, ..unsubscribe },
                                ),
                            ),
                        },
                    ),
                )
            },
            PacketView::Disconnect => Ok(
                (
                    self.sent_at(now),
                    Reaction { notification: None, reply: Some(PacketView::Disconnect) },
                ),
            ),
            _ => Err(StateError::WrongPacket),
        }
    }

    /// An acknowledgement of a publish at quality of service 1 comes in:
    /// the first publish in flight with that packet id is done.
    pub open spec fn incoming_puback(self, pkid: u16) -> Result<(StateView, Reaction), StateError> {
        let at = first_index(pkids(self.outgoing_pub), pkid);
        if at < self.outgoing_pub.len() {
            Ok(
                (
                    StateView { outgoing_pub: self.outgoing_pub.remove(at), ..self },
                    Reaction { notification: Some(NotificationView::Puback(pkid)), reply: None },
                ),
            )
        } else {
            Err(StateError::Unsolicited)
        }
    }

    /// A receipt of a publish at quality of service 2 comes in: the first
    /// publish in flight with that packet id leaves, its id waits for the
    /// completion, and a release goes out.
    pub open spec fn incoming_pubrec(self, pkid: u16) -> Result<(StateView, Reaction), StateError> {
        let at = first_index(pkids(self.outgoing_pub), pkid);
        if at < self.outgoing_pub.len() {
            Ok(
                (
                    StateView {
                        outgoing_pub: self.outgoing_pub.remove(at),
                        outgoing_rel: self.outgoing_rel.push(pkid),
                        ..self
                    },
                    Reaction {
                        notification: Some(NotificationView::Pubrec(pkid)),
                        reply: Some(PacketView::PubRel(PubRel { pkid })),
                    },
                ),
            )
        } else {
            Err(StateError::Unsolicited)
        }
    }

    /// A release comes in: the id stops waiting among the incoming
    /// publishes, and a completion goes out.
    pub open spec fn incoming_pubrel(self, pkid: u16) -> Result<(StateView, Reaction), StateError> {
        let at = first_index(self.incoming_pub, pkid);
        if at < self.incoming_pub.len() {
            Ok(
                (
                    StateView { incoming_pub: self.incoming_pub.remove(at), ..self },
                    Reaction {
                        notification: None,
                        reply: Some(PacketView::PubComp(PubComp { pkid })),
                    },
                ),
            )
        } else {
            Err(StateError::Unsolicited)
        }
    }

    /// A completion comes in: the id stops waiting among the released
    /// publishes.
    pub open spec fn incoming_pubcomp(self, pkid: u16) -> Result<(StateView, Reaction), StateError> {
        let at = first_index(self.outgoing_rel, pkid);
        if at < self.outgoing_rel.len() {
            Ok(
                (
                    StateView { outgoing_rel: self.outgoing_rel.remove(at), ..self },
                    Reaction { notification: Some(NotificationView::Pubcomp(pkid)), reply: None },
                ),
            )
        } else {
            Err(StateError::Unsolicited)
        }
    }

    /// A publish comes in: the user is told of it, and above quality of
    /// service 0 it is answered. At quality of service 2 its id is
    /// remembered, once, until the release.
    pub open spec fn incoming_publish(self, publish: PublishView) -> (StateView, Reaction) {
        let notification = Some(NotificationView::Publish(publish));
        match publish.qos {
            QoS::AtMostOnce => (self, Reaction { notification, reply: None }),
            QoS::AtLeastOnce => (
                self,
                Reaction {
                    notification,
                    reply: Some(PacketView::PubAck(PubAck { pkid: publish.pkid })),
                },
            ),
            QoS::ExactlyOnce => (
                StateView {
                    incoming_pub: if self.incoming_pub.contains(publish.pkid) {
                        self.incoming_pub
                    } else {
                        self.incoming_pub.push(publish.pkid)
                    },
                    ..self
                },
                Reaction {
                    notification,
                    reply: Some(PacketView::PubRec(PubRec { pkid: publish.pkid })),
                },
            ),
        }
    }

    /// What a packet from the network side does. A ping request on this
    /// side is the one that the network timeout injects; it goes out like
    /// any ping. Every other packet came from the broker and the time is
    /// noted, also where the packet is refused; kinds that a broker does
    /// not send are ignored.
    pub open spec fn incoming(self, packet: PacketView, now: u64) -> Result<
        (StateView, Reaction),
        StateError,
    > {
        match packet {
            PacketView::PingReq => match self.ping() {
                Ok((next, reaction)) => Ok((next.sent_at(now), reaction)),
                Err(e) => Err(e),
            },
            PacketView::PingResp => Ok(
                (
                    StateView { await_pingresp: false, ..self }.seen_at(now),
                    Reaction { notification: None, reply: None },
                ),
            ),
            PacketView::Publish(publish) => {
                let (next, reaction) = self.incoming_publish(publish);
                Ok((next.seen_at(now), reaction))
            },
            PacketView::SubAck(ack) => Ok(
                (
                    self.seen_at(now),
                    Reaction { notification: Some(NotificationView::Suback(ack)), reply: None },
                ),
            ),
            PacketView::UnsubAck(ack) => Ok(
                (
                    self.seen_at(now),
                    Reaction {
                        notification: Some(NotificationView::Unsuback(ack.pkid)),
                        reply: None,
                    },
                ),
            ),
            PacketView::PubAck(ack) => match self.incoming_puback(ack.pkid) {
                Ok((next, reaction)) => Ok((next.seen_at(now), reaction)),
                Err(e) => Err(e),
            },
            PacketView::PubRec(ack) => match self.incoming_pubrec(ack.pkid) {
                Ok((next, reaction)) => Ok((next.seen_at(now), reaction)),
                Err(e) => Err(e),
            },
            PacketView::PubRel(ack) => match self.incoming_pubrel(ack.pkid) {
                Ok((next, reaction)) => Ok((next.seen_at(now), reaction)),
                Err(e) => Err(e),
            },
            PacketView::PubComp(ack) => match self.incoming_pubcomp(ack.pkid) {
                Ok((next, reaction)) => Ok((next.seen_at(now), reaction)),
                Err(e) => Err(e),
            },
            _ => Ok((self.seen_at(now), Reaction { notification: None, reply: None })),
        }
    }

    /// The state in which a refused packet leaves the connection: as it
    /// was, but for the time of the last incoming packet where the packet
    /// came from the broker.
    pub open spec fn refused(self, packet: PacketView, now: u64) -> StateView {
        if packet is PingReq {
            self
        } else {
            self.seen_at(now)
        }
    }

    /// What the broker's answer to the connect does: only an acceptance
    /// during the handshake connects.
    pub open spec fn incoming_connack(self, packet: PacketView) -> (
        StateView,
        Result<(), StateError>,
    ) {
        let disconnected = StateView {
            connection_status: MqttConnectionStatus::Disconnected,
            ..self
        };
        match packet {
            PacketView::ConnAck(connack) => if connack.code == ConnectReturnCode::Accepted {
                if self.connection_status == MqttConnectionStatus::Handshake {
                    (
                        StateView { connection_status: MqttConnectionStatus::Connected, ..self },
                        Ok(()),
                    )
                } else {
                    (disconnected, Err(StateError::InvalidState))
                }
            } else {
                (disconnected, Err(StateError::Connect(connack.code)))
            },
            _ => (disconnected, Err(StateError::WrongPacket)),
        }
    }

    /// The publishes that go out again after a reconnection: those in
    /// flight, in their order, each marked as a duplicate.
    pub open spec fn resends(self) -> Seq<PacketView> {
        Seq::new(
            self.outgoing_pub.len(),
            |i: int| PacketView::Publish(PublishView { dup: true, ..self.outgoing_pub[i] }),
        )
    }
}

/// An id stands in a queue exactly where `first_index` stays under the
/// queue's length.
pub proof fn lemma_first_index_contains(ids: Seq<u16>, id: u16)
    ensures
        ids.contains(id) <==> first_index(ids, id) < ids.len(),
{
    lemma_first_index(ids, id);
    if ids.contains(id) {
        let i = choose|i: int| 0 <= i < ids.len() && ids[i] == id;
        if first_index(ids, id) >= ids.len() {
            assert(ids[i] != id);
        }
    } else if first_index(ids, id) < ids.len() {
        assert(ids[first_index(ids, id)] == id);
    }
}

/// The first place at which `pkid` stands in a queue of ids.
fn position(ids: &VecDeque<u16>, pkid: u16) -> (at: usize)
    ensures
        at == first_index(ids@, pkid),
        at <= ids@.len(),
{
    let mut i: usize = 0;
    while i < ids.len()
        invariant
            i <= ids@.len(),
            forall|j: int| 0 <= j < i ==> ids@[j] != pkid,
        decreases ids@.len() - i,
    {
        if ids[i] == pkid {
            proof {
                lemma_first_index_is(ids@, pkid, i as int);
            }
            return i;
        }
        i += 1;
    }
    proof {
        lemma_first_index_is(ids@, pkid, i as int);
    }
    i
}

impl MqttState {
    /// Creates new mqtt state. Same state should be used during a
    /// connection for persistent sessions while new state should
    /// instantiated for clean sessions
    pub fn new() -> (state: MqttState)
        ensures
            state@ == StateView::fresh(),
    {
        let state = MqttState {
            connection_status: MqttConnectionStatus::Disconnected,
            await_pingresp: false,
            last_incoming: 0,
            last_outgoing: 0,
            last_pkid: 0,
            outgoing_pub: VecDeque::new(),
            outgoing_rel: VecDeque::new(),
            incoming_pub: VecDeque::new(),
        };
        assert(state@ =~= StateView::fresh());
        state
    }

    /// How many publishes are in flight.
    pub fn inflight(&self) -> (n: usize)
        ensures
            n == self@.outgoing_pub.len(),
    {
        self.outgoing_pub.len()
    }

    /// The connect went out: the handshake has begun.
    pub fn handle_outgoing_connect(&mut self) -> (r: Result<(), StateError>)
        ensures
            r == Ok::<(), StateError>(()),
            final(self)@ == (StateView {
                connection_status: MqttConnectionStatus::Handshake,
                ..old(self)@
            }),
    {
        self.connection_status = MqttConnectionStatus::Handshake;
        Ok(())
    }

    /// The broker's answer to the connect came in.
    pub fn handle_incoming_connack(&mut self, packet: Packet) -> (r: Result<(), StateError>)
        ensures
            final(self)@ == old(self)@.incoming_connack(packet@).0,
            r == old(self)@.incoming_connack(packet@).1,
    {
        let connack = match packet {
            Packet::ConnAck(connack) => connack,
            _ => {
                self.connection_status = MqttConnectionStatus::Disconnected;
                return Err(StateError::WrongPacket);
            },
        };
        match connack.code {
            ConnectReturnCode::Accepted => {
                if self.connection_status == MqttConnectionStatus::Handshake {
                    self.connection_status = MqttConnectionStatus::Connected;
                    Ok(())
                } else {
                    self.connection_status = MqttConnectionStatus::Disconnected;
                    Err(StateError::InvalidState)
                }
            },
            code => {
                self.connection_status = MqttConnectionStatus::Disconnected;
                Err(StateError::Connect(code))
            },
        }
    }

    /// Takes the next packet id: one more than the last, and 1 after
    /// 65535.
    fn next_pkid(&mut self) -> (pkid: u16)
        ensures
            pkid == pkid_after(old(self).last_pkid),
            pkid != 0,
            final(self)@ == (StateView { last_pkid: pkid, ..old(self)@ }),
    {
        let mut pkid = self.last_pkid;
        if pkid == 65_535 {
            pkid = 0;
        }
        self.last_pkid = pkid + 1;
        self.last_pkid
    }

    /// Handles a ping that is about to go out.
    fn handle_outgoing_ping(&mut self) -> (r: Result<Packet, StateError>)
        ensures
            match old(self)@.ping() {
                Ok((next, reaction)) => r is Ok && final(self)@ == next && Some(r->Ok_0@)
                    == reaction.reply,
                Err(e) => r is Err && r->Err_0 == e && final(self)@ == old(self)@,
            },
    {
        // raise error if last ping didn't receive ack
        if self.await_pingresp {
            return Err(StateError::AwaitPingResp);
        }
        self.await_pingresp = true;
        Ok(Packet::PingReq)
    }

    /// Adds next packet identifier to QoS 1 and 2 publish packets and
    /// saves a copy of them until they are acknowledged.
    fn handle_outgoing_publish(&mut self, publish: Publish) -> (packet: Packet)
        ensures
            final(self)@ == old(self)@.outgoing_publish(publish@).0,
            Some(packet@) == old(self)@.outgoing_publish(publish@).1.reply,
    {
        let mut publish = publish;
        match publish.qos {
            QoS::AtMostOnce => {},
            QoS::AtLeastOnce | QoS::ExactlyOnce => {
                let ghost before = publish_views(self.outgoing_pub@);
                let pkid = self.next_pkid();
                publish.pkid = pkid;
                self.outgoing_pub.push_back(publish.clone());
                assert(publish_views(self.outgoing_pub@) =~= before.push(publish@));
            },
        }
        Packet::Publish(publish)
    }

    /// The first place in flight of a publish with packet id `pkid`.
    fn position_in_flight(&self, pkid: u16) -> (at: usize)
        ensures
            at == first_index(pkids(self@.outgoing_pub), pkid),
            at <= self.outgoing_pub@.len(),
    {
        let ghost ids = pkids(self@.outgoing_pub);
        let mut i: usize = 0;
        while i < self.outgoing_pub.len()
            invariant
                i <= self.outgoing_pub@.len(),
                ids == pkids(self@.outgoing_pub),
                forall|j: int| 0 <= j < i ==> ids[j] != pkid,
            decreases self.outgoing_pub@.len() - i,
        {
            if self.outgoing_pub[i].pkid == pkid {
                proof {
                    lemma_first_index_is(ids, pkid, i as int);
                }
                return i;
            }
            i += 1;
        }
        proof {
            lemma_first_index_is(ids, pkid, i as int);
        }
        i
    }

    /// Takes the first publish with packet id `pkid` out of flight, if
    /// there is one, and says whether there was.
    fn release_in_flight(&mut self, pkid: u16) -> (found: bool)
        ensures
            found == (first_index(pkids(old(self)@.outgoing_pub), pkid) < old(
                self,
            )@.outgoing_pub.len()),
            found ==> final(self)@ == (StateView {
                outgoing_pub: old(self)@.outgoing_pub.remove(
                    first_index(pkids(old(self)@.outgoing_pub), pkid),
                ),
                ..old(self)@
            }),
            !found ==> final(self)@ == old(self)@,
    {
        let at = self.position_in_flight(pkid);
        if at < self.outgoing_pub.len() {
            let ghost before = self.outgoing_pub@;
            let _ = self.outgoing_pub.remove(at);
            assert(publish_views(self.outgoing_pub@) =~= publish_views(before).remove(at as int));
            true
        } else {
            false
        }
    }

    /// Results in a publish notification in all the QoS cases. Replys with
    /// an ack in case of QoS1 and a receipt in case of QoS 2.
    fn handle_incoming_publish(&mut self, publish: Publish) -> (r: (
        Option<Notification>,
        Option<Packet>,
    ))
        ensures
            final(self)@ == old(self)@.incoming_publish(publish@).0,
            notification_of(r.0) == old(self)@.incoming_publish(publish@).1.notification,
            packet_of(r.1) == old(self)@.incoming_publish(publish@).1.reply,
    {
        let pkid = publish.pkid;
        match publish.qos {
            QoS::AtMostOnce => (Some(Notification::Publish(publish)), None),
            QoS::AtLeastOnce => (
                Some(Notification::Publish(publish)),
                Some(Packet::PubAck(PubAck { pkid })),
            ),
            QoS::ExactlyOnce => {
                proof {
                    lemma_first_index_contains(self.incoming_pub@, pkid);
                }
                if position(&self.incoming_pub, pkid) == self.incoming_pub.len() {
                    self.incoming_pub.push_back(pkid);
                }
                (Some(Notification::Publish(publish)), Some(Packet::PubRec(PubRec { pkid })))
            },
        }
    }

    /// Handles a packet that the user asks to send, at time `now` on the
    /// caller's clock, and returns the packet to write. Where the packet
    /// is refused the state stays as it was.
    pub fn handle_request(&mut self, packet: Packet, now: u64) -> (r: Result<
        (Option<Notification>, Option<Packet>),
        StateError,
    >)
        ensures
            match old(self)@.outgoing(packet@, now) {
                Ok((next, reaction)) => r is Ok && final(self)@ == next && notification_of(
                    r->Ok_0.0,
                ) == reaction.notification && packet_of(r->Ok_0.1) == reaction.reply,
                Err(e) => r is Err && r->Err_0 == e && final(self)@ == old(self)@,
            },
    {
        let out = match packet {
            Packet::Publish(publish) => self.handle_outgoing_publish(publish),
            Packet::PingReq => match self.handle_outgoing_ping() {
                Ok(ping) => ping,
                Err(e) => {
                    return Err(e);
                },
            },
            Packet::Subscribe(subscribe) => {
                let mut subscribe = subscribe;
                subscribe.pkid = self.next_pkid();
                Packet::Subscribe(subscribe)
            },
            Packet::Unsubscribe(unsubscribe) => {
                let mut unsubscribe = unsubscribe;
                unsubscribe.pkid = self.next_pkid();
                Packet::Unsubscribe(unsubscribe)
            },
            Packet::Disconnect => Packet::Disconnect,
            _ => {
                return Err(StateError::WrongPacket);
            },
        };
        self.last_outgoing = now;
        Ok((None, Some(out)))
    }

    /// Handles a packet from the network side at time `now` on the
    /// caller's clock, and returns what to tell the user and what to write
    /// back.
    pub fn handle_packet(&mut self, packet: Packet, now: u64) -> (r: Result<
        (Option<Notification>, Option<Packet>),
        StateError,
    >)
        ensures
            match old(self)@.incoming(packet@, now) {
                Ok((next, reaction)) => r is Ok && final(self)@ == next && notification_of(
                    r->Ok_0.0,
                ) == reaction.notification && packet_of(r->Ok_0.1) == reaction.reply,
                Err(e) => r is Err && r->Err_0 == e && final(self)@ == old(self)@.refused(
                    packet@,
                    now,
                ),
            },
    {
        let out = match packet {
            Packet::PingReq => {
                return match self.handle_outgoing_ping() {
                    Ok(ping) => {
                        self.last_outgoing = now;
                        Ok((None, Some(ping)))
                    },
                    Err(e) => Err(e),
                };
            },
            Packet::PingResp => {
                self.await_pingresp = false;
                Ok((None, None))
            },
            Packet::Publish(publish) => Ok(self.handle_incoming_publish(publish)),
            Packet::SubAck(ack) => Ok((Some(Notification::Suback(ack)), None)),
            Packet::UnsubAck(ack) => Ok((Some(Notification::Unsuback(ack.pkid)), None)),
            Packet::PubAck(ack) => {
                if self.release_in_flight(ack.pkid) {
                    Ok((Some(Notification::Puback(ack.pkid)), None))
                } else {
                    Err(StateError::Unsolicited)
                }
            },
            Packet::PubRec(ack) => {
                if self.release_in_flight(ack.pkid) {
                    self.outgoing_rel.push_back(ack.pkid);
                    Ok(
                        (
                            Some(Notification::Pubrec(ack.pkid)),
                            Some(Packet::PubRel(PubRel { pkid: ack.pkid })),
                        ),
                    )
                } else {
                    Err(StateError::Unsolicited)
                }
            },
            Packet::PubRel(ack) => {
                let at = position(&self.incoming_pub, ack.pkid);
                if at < self.incoming_pub.len() {
                    let _ = self.incoming_pub.remove(at);
                    Ok((None, Some(Packet::PubComp(PubComp { pkid: ack.pkid }))))
                } else {
                    Err(StateError::Unsolicited)
                }
            },
            Packet::PubComp(ack) => {
                let at = position(&self.outgoing_rel, ack.pkid);
                if at < self.outgoing_rel.len() {
                    let _ = self.outgoing_rel.remove(at);
                    Ok((Some(Notification::Pubcomp(ack.pkid)), None))
                } else {
                    Err(StateError::Unsolicited)
                }
            },
            _ => Ok((None, None)),
        };
        self.last_incoming = now;
        out
    }

    /// The packets to write first after a reconnection that keeps the
    /// session: every publish in flight, oldest first, marked as a
    /// duplicate. The state stays as it is.
    pub fn resend(&self) -> (packets: Vec<Packet>)
        ensures
            packets@.len() == self@.outgoing_pub.len(),
            forall|i: int| 0 <= i < packets@.len() ==> (#[trigger] packets@[i])@ == self@.resends()[i],
    {
        let mut packets: Vec<Packet> = Vec::new();
        let mut i: usize = 0;
        while i < self.outgoing_pub.len()
            invariant
                i <= self.outgoing_pub@.len(),
                packets@.len() == i,
                forall|j: int| 0 <= j < i ==> (#[trigger] packets@[j])@ == self@.resends()[j],
            decreases self.outgoing_pub@.len() - i,
        {
            let mut publish = self.outgoing_pub[i].clone();
            publish.dup = true;
            packets.push(Packet::Publish(publish));
            i += 1;
        }
        packets
    }
}

/// Whether a packet acknowledges a publish with packet id `pkid`: only an
/// acknowledgement or a receipt with that id does.
pub open spec fn acknowledges(packet: PacketView, pkid: u16) -> bool {
    match packet {
        PacketView::PubAck(ack) => ack.pkid == pkid,
        PacketView::PubRec(ack) => ack.pkid == pkid,
        _ => false,
    }
}

/// A publish above quality of service 0 is in flight as soon as it has
/// gone out: it stands last in the queue, under the packet id that it went
/// out with, behind everything that was in flight before.
pub proof fn lemma_sent_is_in_flight(s: StateView, publish: PublishView, now: u64)
    requires
        publish.qos != QoS::AtMostOnce,
    ensures
        s.outgoing(PacketView::Publish(publish), now) matches Ok((next, reaction))
            && next.outgoing_pub == s.outgoing_pub.push(
            PublishView { pkid: pkid_after(s.last_pkid), ..publish },
        ) && reaction.reply == Some(PacketView::Publish(next.outgoing_pub.last())),
{
}

/// A publish stays in flight until it is acknowledged: whatever else comes
/// in or goes out, the queue still holds it, and the publishes around it
/// keep their order.
pub proof fn lemma_in_flight_until_acknowledged(
    s: StateView,
    packet: PacketView,
    now: u64,
    i: int,
)
    requires
        0 <= i < s.outgoing_pub.len(),
        !acknowledges(packet, s.outgoing_pub[i].pkid),
    ensures
        s.incoming(packet, now) matches Ok((next, _)) ==> exists|k: int|
            0 <= k <= i && k < next.outgoing_pub.len() && next.outgoing_pub[k]
                == s.outgoing_pub[i],
        s.outgoing(packet, now) matches Ok((next, _)) ==> next.outgoing_pub.len() > i
            && next.outgoing_pub[i] == s.outgoing_pub[i],
{
    let ids = pkids(s.outgoing_pub);
    assert(ids[i] == s.outgoing_pub[i].pkid);
    match packet {
        PacketView::PubAck(ack) => {
            let at = first_index(ids, ack.pkid);
            if at < s.outgoing_pub.len() {
                lemma_removal_keeps_others(s.outgoing_pub, ack.pkid, i);
                let left = s.outgoing_pub.remove(at);
                let k = choose|k: int| 0 <= k <= i && k < left.len() && left[k] == s.outgoing_pub[i];
                let next = s.incoming(packet, now)->Ok_0.0;
                assert(next.outgoing_pub[k] == s.outgoing_pub[i]);
            }
        },
        PacketView::PubRec(ack) => {
            let at = first_index(ids, ack.pkid);
            if at < s.outgoing_pub.len() {
                lemma_removal_keeps_others(s.outgoing_pub, ack.pkid, i);
                let left = s.outgoing_pub.remove(at);
                let k = choose|k: int| 0 <= k <= i && k < left.len() && left[k] == s.outgoing_pub[i];
                let next = s.incoming(packet, now)->Ok_0.0;
                assert(next.outgoing_pub[k] == s.outgoing_pub[i]);
            }
        },
        _ => {
            if let Ok((next, _)) = s.incoming(packet, now) {
                assert(next.outgoing_pub[i] == s.outgoing_pub[i]);
            }
        },
    }
}

/// Taking the first publish with one packet id out of a queue leaves a
/// publish with another packet id in it, at its place or one place
/// earlier.
pub proof fn lemma_removal_keeps_others(q: Seq<PublishView>, pkid: u16, i: int)
    requires
        0 <= i < q.len(),
        q[i].pkid != pkid,
        first_index(pkids(q), pkid) < q.len(),
    ensures
        exists|k: int|
            0 <= k <= i && k < q.remove(first_index(pkids(q), pkid)).len() && q.remove(
                first_index(pkids(q), pkid),
            )[k] == q[i],
{
    let ids = pkids(q);
    let at = first_index(ids, pkid);
    lemma_first_index(ids, pkid);
    assert(ids[at] == pkid);
    assert(ids[i] == q[i].pkid);
    let left = q.remove(at);
    if at < i {
        assert(left[i - 1] == q[i]);
    } else {
        assert(left[i] == q[i]);
    }
}

/// The acknowledgement of a publish at quality of service 1 ends its
/// flight: the first publish with that packet id leaves the queue, the
/// others stay in their order, and the user is told.
pub proof fn lemma_acknowledged_leaves(s: StateView, now: u64, i: int)
    requires
        0 <= i < s.outgoing_pub.len(),
        forall|j: int| 0 <= j < i ==> s.outgoing_pub[j].pkid != s.outgoing_pub[i].pkid,
    ensures
        s.incoming(PacketView::PubAck(PubAck { pkid: s.outgoing_pub[i].pkid }), now) matches Ok(
            (next, reaction),
        ) && next.outgoing_pub == s.outgoing_pub.remove(i) && reaction.notification == Some(
            NotificationView::Puback(s.outgoing_pub[i].pkid),
        ),
{
    lemma_first_index_is(pkids(s.outgoing_pub), s.outgoing_pub[i].pkid, i);
}

/// After a reconnection the publishes in flight go out again in the order
/// in which they first went out, each marked as a duplicate and otherwise
/// unchanged.
pub proof fn lemma_resends_in_order(s: StateView, i: int)
    requires
        0 <= i < s.outgoing_pub.len(),
    ensures
        s.resends().len() == s.outgoing_pub.len(),
        s.resends()[i] == PacketView::Publish(PublishView { dup: true, ..s.outgoing_pub[i] }),
{
}

/// A publish sent at quality of service 2 goes through its exchange once
/// and in order. While its packet id is in flight once and not yet
/// released, a completion is refused; the receipt is answered with the
/// release and moves the id from the queue in flight to the released ids; a
/// second receipt is refused; the completion takes the id off the released
/// ids; and after that neither a receipt nor a completion for the id is
/// accepted.
pub proof fn lemma_outgoing_exactly_once(s: StateView, i: int, now: u64)
    requires
        0 <= i < s.outgoing_pub.len(),
        forall|j: int|
            0 <= j < s.outgoing_pub.len() && j != i ==> s.outgoing_pub[j].pkid
                != s.outgoing_pub[i].pkid,
        !s.outgoing_rel.contains(s.outgoing_pub[i].pkid),
    ensures
        ({
            let pkid = s.outgoing_pub[i].pkid;
            let receipt = PacketView::PubRec(PubRec { pkid });
            let completion = PacketView::PubComp(PubComp { pkid });
            &&& s.incoming(completion, now) == Err::<(StateView, Reaction), StateError>(
                StateError::Unsolicited,
            )
            &&& s.incoming(receipt, now) matches Ok((released, reaction))
            &&& reaction.reply == Some(PacketView::PubRel(PubRel { pkid }))
            &&& released.outgoing_pub == s.outgoing_pub.remove(i)
            &&& released.outgoing_rel == s.outgoing_rel.push(pkid)
            &&& released.incoming(receipt, now) == Err::<(StateView, Reaction), StateError>(
                StateError::Unsolicited,
            )
            &&& released.incoming(completion, now) matches Ok((done, reaction))
            &&& reaction.reply is None
            &&& done.outgoing_pub == released.outgoing_pub
            &&& done.outgoing_rel == s.outgoing_rel
            &&& done.incoming(receipt, now) == Err::<(StateView, Reaction), StateError>(
                StateError::Unsolicited,
            )
            &&& done.incoming(completion, now) == Err::<(StateView, Reaction), StateError>(
                StateError::Unsolicited,
            )
        }),
{
    let pkid = s.outgoing_pub[i].pkid;
    let ids = pkids(s.outgoing_pub);
    lemma_first_index_contains(s.outgoing_rel, pkid);
    lemma_first_index_is(ids, pkid, i);
    let left = s.outgoing_pub.remove(i);
    let left_ids = pkids(left);
    assert forall|j: int| 0 <= j < left_ids.len() implies left_ids[j] != pkid by {
        if j < i {
            assert(left[j] == s.outgoing_pub[j]);
        } else {
            assert(left[j] == s.outgoing_pub[j + 1]);
        }
    }
    lemma_first_index_is(left_ids, pkid, left_ids.len() as int);
    let released = s.outgoing_rel.push(pkid);
    lemma_first_index_is(released, pkid, s.outgoing_rel.len() as int);
    assert(released.remove(s.outgoing_rel.len() as int) =~= s.outgoing_rel);
}

/// A publish received at quality of service 2 goes through its exchange
/// once and in order. While its packet id is not waiting, a release is
/// refused; the publish is answered with a receipt and makes the id wait;
/// the same publish again is answered again but the id waits only once;
/// the release is answered with the completion and ends the wait; and a
/// second release is refused.
pub proof fn lemma_incoming_exactly_once(s: StateView, publish: PublishView, now: u64)
    requires
        publish.qos == QoS::ExactlyOnce,
        !s.incoming_pub.contains(publish.pkid),
    ensures
        ({
            let pkid = publish.pkid;
            let release = PacketView::PubRel(PubRel { pkid });
            &&& s.incoming(release, now) == Err::<(StateView, Reaction), StateError>(
                StateError::Unsolicited,
            )
            &&& s.incoming(PacketView::Publish(publish), now) matches Ok((waiting, reaction))
            &&& reaction.reply == Some(PacketView::PubRec(PubRec { pkid }))
            &&& reaction.notification == Some(NotificationView::Publish(publish))
            &&& waiting.incoming_pub == s.incoming_pub.push(pkid)
            &&& waiting.incoming(PacketView::Publish(publish), now) matches Ok((again, reaction))
            &&& reaction.reply == Some(PacketView::PubRec(PubRec { pkid }))
            &&& again.incoming_pub == waiting.incoming_pub
            &&& waiting.incoming(release, now) matches Ok((done, reaction))
            &&& reaction.reply == Some(PacketView::PubComp(PubComp { pkid }))
            &&& done.incoming_pub == s.incoming_pub
            &&& done.incoming(release, now) == Err::<(StateView, Reaction), StateError>(
                StateError::Unsolicited,
            )
        }),
{
    let pkid = publish.pkid;
    lemma_first_index_contains(s.incoming_pub, pkid);
    let waiting = s.incoming_pub.push(pkid);
    assert(waiting[s.incoming_pub.len() as int] == pkid);
    assert(waiting.contains(pkid));
    assert forall|j: int| 0 <= j < s.incoming_pub.len() implies waiting[j] != pkid by {
        assert(s.incoming_pub[j] == waiting[j]);
        if waiting[j] == pkid {
            assert(s.incoming_pub.contains(pkid));
        }
    }
    lemma_first_index_is(waiting, pkid, s.incoming_pub.len() as int);
    assert(waiting.remove(s.incoming_pub.len() as int) =~= s.incoming_pub);
}

} // verus!
