//! The client side of a connection: what the user asks for, what the user
//! is told, and the state machine in between.

pub mod eventloop;
pub mod options;
pub mod state;

use crate::codec::{Packet, PacketView, Publish, PublishView, SubAck, SubAckView, Subscribe, SubscribeView, Unsubscribe, UnsubscribeView};
use state::StateError;
use vstd::prelude::*;

verus! {

/// Critical errors during eventloop polling
#[derive(Debug, Clone, Copy, PartialEq, Eq, Structural)]
pub enum EventLoopError {
    /// The state machine refused a packet.
    MqttState(StateError),
    /// A step of the handshake, or the keep alive, timed out.
    Timeout,
    /// A packet could not be read or written.
    Rumq(crate::codec::Error),
    /// The transport failed.
    Network,
    /// The user called the loop off.
    Cancelled,
}

/// Requests by the client to mqtt event loop. Request are
/// handle one by one
#[derive(Debug)]
pub enum Request {
    Publish(Publish),
    Subscribe(Subscribe),
    Unsubscribe(Unsubscribe),
    Disconnect,
}

/// A request as a value.
pub enum RequestView {
    Publish(PublishView),
    Subscribe(SubscribeView),
    Unsubscribe(UnsubscribeView),
    Disconnect,
}

impl View for Request {
    type V = RequestView;

    open spec fn view(&self) -> RequestView {
        match self {
            Request::Publish(p) => RequestView::Publish(p@),
            Request::Subscribe(p) => RequestView::Subscribe(p@),
            Request::Unsubscribe(p) => RequestView::Unsubscribe(p@),
            Request::Disconnect => RequestView::Disconnect,
        }
    }
}

impl RequestView {
    /// The packet that carries the request.
    pub open spec fn packet(self) -> PacketView {
        match self {
            RequestView::Publish(p) => PacketView::Publish(p),
            RequestView::Subscribe(p) => PacketView::Subscribe(p),
            RequestView::Unsubscribe(p) => PacketView::Unsubscribe(p),
            RequestView::Disconnect => PacketView::Disconnect,
        }
    }
}

impl From<Request> for Packet {
    fn from(item: Request) -> (packet: Self) {
        match item {
            Request::Publish(publish) => Packet::Publish(publish),
            Request::Disconnect => Packet::Disconnect,
            Request::Subscribe(subscribe) => Packet::Subscribe(subscribe),
            Request::Unsubscribe(unsubscribe) => Packet::Unsubscribe(unsubscribe),
        }
    }
}

impl vstd::std_specs::convert::FromSpecImpl<Request> for Packet {
    open spec fn obeys_from_spec() -> bool {
        true
    }

    open spec fn from_spec(item: Request) -> Packet {
        match item {
            Request::Publish(publish) => Packet::Publish(publish),
            Request::Disconnect => Packet::Disconnect,
            Request::Subscribe(subscribe) => Packet::Subscribe(subscribe),
            Request::Unsubscribe(unsubscribe) => Packet::Unsubscribe(unsubscribe),
        }
    }
}

/// The packet that a request turns into carries the request.
pub proof fn lemma_request_packet(item: Request)
    ensures
        <Packet as vstd::std_specs::convert::FromSpec<Request>>::from_spec(item)@
            == item@.packet(),
{
}

/// Includes incoming packets from the network and other interesting events
/// happening in the eventloop
#[derive(Debug)]
pub enum Notification {
    /// Incoming publish from the broker
    Publish(Publish),
    /// Incoming puback from the broker
    Puback(u16),
    /// Incoming pubrec from the broker
    Pubrec(u16),
    /// Incoming pubcomp from the broker
    Pubcomp(u16),
    /// Incoming suback from the broker
    Suback(SubAck),
    /// Incoming unsuback from the broker
    Unsuback(u16),
    /// Eventloop error
    StreamEnd(EventLoopError),
}

/// A notification as a value.
pub enum NotificationView {
    Publish(PublishView),
    Puback(u16),
    Pubrec(u16),
    Pubcomp(u16),
    Suback(SubAckView),
    Unsuback(u16),
    StreamEnd(EventLoopError),
}

impl View for Notification {
    type V = NotificationView;

    open spec fn view(&self) -> NotificationView {
        match self {
            Notification::Publish(p) => NotificationView::Publish(p@),
            Notification::Puback(pkid) => NotificationView::Puback(*pkid),
            Notification::Pubrec(pkid) => NotificationView::Pubrec(*pkid),
            Notification::Pubcomp(pkid) => NotificationView::Pubcomp(*pkid),
            Notification::Suback(ack) => NotificationView::Suback(ack@),
            Notification::Unsuback(pkid) => NotificationView::Unsuback(*pkid),
            Notification::StreamEnd(e) => NotificationView::StreamEnd(*e),
        }
    }
}

/// An optional notification as a value.
pub open spec fn notification_of(n: Option<Notification>) -> Option<NotificationView> {
    match n {
        Some(n) => Some(n@),
        None => None,
    }
}

/// An optional packet as a value.
pub open spec fn packet_of(p: Option<Packet>) -> Option<PacketView> {
    match p {
        Some(p) => Some(p@),
        None => None,
    }
}

} // verus!
