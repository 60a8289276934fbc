//! The decisions of the event loop of one connection.
//!
//! The loop itself waits: for the transport, for the user's requests and
//! for the clock. Nothing here waits. Each function takes what a wait has
//! brought, together with the time on the caller's clock in milliseconds,
//! and says what the loop does next.

use super::options::{MqttOptions, OptionsView};
use super::state::{MqttConnectionStatus, MqttState, Reaction, StateError, StateView};
use super::{
    notification_of, packet_of, EventLoopError, Notification, NotificationView, Request,
    RequestView,
};
use crate::codec::{Connect, ConnectView, Packet, PacketView};
use vstd::prelude::*;

verus! {

/// How long each step of the handshake may take, in milliseconds: opening
/// the transport, writing the connect, and reading its acknowledgement.
pub const HANDSHAKE_TIMEOUT: u64 = 5_000;

/// Returns an object which encompasses state of the connection.
///
/// The state outlives every connection that the loop makes with it, so
/// that what is in flight when one ends is still there for the next.
#[derive(Debug)]
pub struct MqttEventLoop {
    pub options: MqttOptions,
    pub state: MqttState,
}

/// Creates the event loop of a client that has not connected yet.
pub fn eventloop(options: MqttOptions) -> (eventloop: MqttEventLoop)
    ensures
        eventloop.options == options,
        eventloop.state@ == StateView::fresh(),
{
    let state = MqttState::new();
    let eventloop = MqttEventLoop { options, state };
    eventloop
}

/// `later` milliseconds after `now`, or the end of time where that lies
/// beyond it.
pub open spec fn after(now: u64, later: u64) -> u64 {
    if now + later > u64::MAX {
        u64::MAX
    } else {
        (now + later) as u64
    }
}

/// What a wait for the transport brought.
#[derive(Debug)]
pub enum Read {
    /// A packet came in.
    Packet(Packet),
    /// The transport failed or was closed.
    Failed,
    /// Nothing yet.
    Pending,
}

/// What a wait for the user's requests brought.
#[derive(Debug)]
pub enum Pulled {
    /// The user asks for something.
    Request(Request),
    /// The user will ask for nothing more.
    Closed,
    /// Nothing yet.
    Pending,
}

/// What a stream hands to the loop.
#[derive(Debug)]
pub enum Polled {
    /// The next packet.
    Yield(Packet),
    /// Nothing yet.
    Pending,
    /// The stream is over.
    End,
}

/// A stream's item as a value: a packet, nothing yet, or the end.
pub enum PolledView {
    Yield(PacketView),
    Pending,
    End,
}

impl View for Polled {
    type V = PolledView;

    open spec fn view(&self) -> PolledView {
        match self {
            Polled::Yield(p) => PolledView::Yield(p@),
            Polled::Pending => PolledView::Pending,
            Polled::End => PolledView::End,
        }
    }
}

/// Network stream. Generates pingreq when there is no incoming packet for
/// keepalive + 1 time to find halfopen connections to the broker.
///
/// The second more than the keep alive lets the ping of an idle request
/// side go first, so that its answer arrives before this side's time is
/// up.
#[derive(Debug, Clone, Copy, PartialEq, Eq, Structural)]
pub struct NetworkStream {
    /// How long the stream waits for a packet, in milliseconds.
    pub timeout: u64,
    /// When the current wait is over.
    pub deadline: u64,
    /// Whether the transport has failed.
    pub ended: bool,
}

/// The network side of a connection made at `now` with `keep_alive`
/// seconds of keep alive.
pub fn network_stream(keep_alive: u16, now: u64) -> (stream: NetworkStream)
    ensures
        stream == (NetworkStream {
            timeout: ((keep_alive + 1) * 1000) as u64,
            deadline: after(now, ((keep_alive + 1) * 1000) as u64),
            ended: false,
        }),
{
    let timeout = (keep_alive as u64 + 1) * 1000;
    NetworkStream { timeout, deadline: now.saturating_add(timeout), ended: false }
}

impl NetworkStream {
    /// What the stream does with what a wait brought, as a value: the next
    /// state and the item.
    pub open spec fn spec_poll(self, read: Option<PacketView>, failed: bool, now: u64) -> (
        NetworkStream,
        PolledView,
    ) {
        if self.ended {
            (self, PolledView::End)
        } else if failed {
            (NetworkStream { ended: true, ..self }, PolledView::End)
        } else {
            match read {
                Some(packet) => (
                    NetworkStream { deadline: after(now, self.timeout), ..self },
                    PolledView::Yield(packet),
                ),
                None => if now >= self.deadline {
                    (
                        NetworkStream { deadline: after(now, self.timeout), ..self },
                        PolledView::Yield(PacketView::PingReq),
                    )
                } else {
                    (self, PolledView::Pending)
                },
            }
        }
    }

    /// Takes what a wait for the transport brought at `now`. A packet is
    /// handed on and a new wait begins. A failure ends the stream. With
    /// nothing read, a ping request is handed on once the wait is over,
    /// and a new wait begins.
    pub fn poll(&mut self, read: Read, now: u64) -> (polled: Polled)
        ensures
            (*final(self), polled@) == old(self).spec_poll(
                match read {
                    Read::Packet(p) => Some(p@),
                    _ => None,
                },
                read is Failed,
                now,
            ),
    {
        if self.ended {
            return Polled::End;
        }
        match read {
            Read::Packet(packet) => {
                self.deadline = now.saturating_add(self.timeout);
                Polled::Yield(packet)
            },
            Read::Failed => {
                self.ended = true;
                Polled::End
            },
            Read::Pending => {
                if now >= self.deadline {
                    self.deadline = now.saturating_add(self.timeout);
                    Polled::Yield(Packet::PingReq)
                } else {
                    Polled::Pending
                }
            },
        }
    }
}

/// Request stream. Converts requests from user into outgoing network
/// packet. If there is no request for keep alive time, generates Pingreq
/// to prevent broker from disconnecting the client.
#[derive(Debug, Clone, Copy, PartialEq, Eq, Structural)]
pub struct RequestStream {
    /// How long the stream waits for a request, in milliseconds.
    pub timeout: u64,
    /// The least delay between two requests, in milliseconds.
    pub throttle: u64,
    /// When the current wait is over.
    pub deadline: u64,
    /// From when on the next request may be taken.
    pub open_at: u64,
    /// Whether the user has closed the requests.
    pub ended: bool,
}

/// The request side of a connection made at `now` with `keep_alive`
/// seconds of keep alive and `throttle` milliseconds between requests.
pub fn request_stream(keep_alive: u16, throttle: u64, now: u64) -> (stream: RequestStream)
    ensures
        stream == (RequestStream {
            timeout: (keep_alive * 1000) as u64,
            throttle,
            deadline: after(now, (keep_alive * 1000) as u64),
            open_at: now,
            ended: false,
        }),
{
    let timeout = keep_alive as u64 * 1000;
    RequestStream {
        timeout,
        throttle,
        deadline: now.saturating_add(timeout),
        open_at: now,
        ended: false,
    }
}

impl RequestStream {
    /// Whether the stream takes a request at `now`: the last one lies at
    /// least the throttle back.
    pub fn is_open(&self, now: u64) -> (open: bool)
        ensures
            open == (!self.ended && now >= self.open_at),
    {
        !self.ended && now >= self.open_at
    }

    /// What the stream does with what a wait brought, as a value: the next
    /// state and the item.
    pub open spec fn spec_poll(self, request: Option<RequestView>, closed: bool, now: u64) -> (
        RequestStream,
        PolledView,
    ) {
        if self.ended {
            (self, PolledView::End)
        } else if closed {
            (RequestStream { ended: true, ..self }, PolledView::End)
        } else {
            match request {
                Some(request) => (
                    RequestStream {
                        deadline: after(now, self.timeout),
                        open_at: after(now, self.throttle),
                        ..self
                    },
                    PolledView::Yield(request.packet()),
                ),
                None => if now >= self.deadline {
                    (
                        RequestStream { deadline: after(now, self.timeout), ..self },
                        PolledView::Yield(PacketView::PingReq),
                    )
                } else {
                    (self, PolledView::Pending)
                },
            }
        }
    }

    /// Takes what a wait for the user's requests brought at `now`. A
    /// request is handed on as its packet, the throttle closes the stream
    /// for a while, and a new wait begins. The end of the requests ends
    /// the stream. With no request, a ping request is handed on once the
    /// wait is over, and a new wait begins.
    pub fn poll(&mut self, pulled: Pulled, now: u64) -> (polled: Polled)
        ensures
            (*final(self), polled@) == old(self).spec_poll(
                match pulled {
                    Pulled::Request(r) => Some(r@),
                    _ => None,
                },
                pulled is Closed,
                now,
            ),
    {
        if self.ended {
            return Polled::End;
        }
        match pulled {
            Pulled::Request(request) => {
                self.deadline = now.saturating_add(self.timeout);
                self.open_at = now.saturating_add(self.throttle);
                proof {
                    super::lemma_request_packet(request);
                }
                Polled::Yield(Packet::from(request))
            },
            Pulled::Closed => {
                self.ended = true;
                Polled::End
            },
            Pulled::Pending => {
                if now >= self.deadline {
                    self.deadline = now.saturating_add(self.timeout);
                    Polled::Yield(Packet::PingReq)
                } else {
                    Polled::Pending
                }
            },
        }
    }
}

/// Which of the two streams handed the loop an item, and the item.
#[derive(Debug)]
pub enum Selected {
    /// The network stream did.
    Network(Packet),
    /// The request stream did.
    Requests(Packet),
    /// One of the streams is over.
    Ended,
    /// The user called the loop off.
    Cancelled,
}

/// What the loop does in one turn.
#[derive(Debug)]
pub struct Turn {
    /// The packet to write to the transport, if any.
    pub outgoing: Option<Packet>,
    /// What to tell the user, once the packet is written.
    pub notification: Option<Notification>,
    /// Whether the loop is over after this turn.
    pub done: bool,
}

/// A turn as a value.
#[verifier::ext_equal]
pub struct TurnView {
    pub outgoing: Option<PacketView>,
    pub notification: Option<NotificationView>,
    pub done: bool,
}

impl View for Turn {
    type V = TurnView;

    open spec fn view(&self) -> TurnView {
        TurnView {
            outgoing: packet_of(self.outgoing),
            notification: notification_of(self.notification),
            done: self.done,
        }
    }
}

/// The turn that follows from the state machine's answer: its reaction
/// goes on, its refusal ends the loop with a last notification.
pub open spec fn turn_of(answer: Result<(StateView, Reaction), StateError>) -> TurnView {
    match answer {
        Ok((_, reaction)) => TurnView {
            outgoing: reaction.reply,
            notification: reaction.notification,
            done: false,
        },
        Err(e) => TurnView {
            outgoing: None,
            notification: Some(NotificationView::StreamEnd(EventLoopError::MqttState(e))),
            done: true,
        },
    }
}

impl TurnView {
    /// The turn that ends the loop without a word.
    pub open spec fn over() -> TurnView {
        TurnView { outgoing: None, notification: None, done: true }
    }

    /// The turn that ends the loop because the user called it off.
    pub open spec fn called_off() -> TurnView {
        TurnView {
            outgoing: None,
            notification: Some(NotificationView::StreamEnd(EventLoopError::Cancelled)),
            done: true,
        }
    }

    /// The turn after its packet was handed to the transport: as it was
    /// where the write went through, and the end of the loop with a last
    /// notification in place of its own where the write failed.
    pub open spec fn after_write(self, written: bool) -> TurnView {
        if written {
            TurnView { outgoing: None, ..self }
        } else {
            TurnView {
                outgoing: None,
                notification: Some(NotificationView::StreamEnd(EventLoopError::Network)),
                done: true,
            }
        }
    }
}

impl Turn {
    /// Says how the write of the turn's packet went and returns what is
    /// left of the turn.
    pub fn after_write(self, written: bool) -> (turn: Turn)
        ensures
            turn@ == self@.after_write(written),
    {
        if written {
            Turn { outgoing: None, notification: self.notification, done: self.done }
        } else {
            Turn {
                outgoing: None,
                notification: Some(Notification::StreamEnd(EventLoopError::Network)),
                done: true,
            }
        }
    }
}

/// The connect packet of a client with these options.
pub open spec fn connect_of(options: OptionsView) -> ConnectView {
    ConnectView {
        keep_alive: options.keep_alive,
        client_id: options.client_id,
        clean_session: options.clean_session,
        last_will: None,
        username: match options.credentials {
            Some((username, _)) => Some(username),
            None => None,
        },
        password: match options.credentials {
            Some((_, password)) => Some(password),
            None => None,
        },
    }
}

/// The earlier of two times.
pub open spec fn earlier(a: u64, b: u64) -> u64 {
    if a <= b {
        a
    } else {
        b
    }
}

/// Until when the loop sleeps at `now` where nothing comes in and nothing
/// is asked for: until the first of the two streams' waits is over, and no
/// longer than until the throttle lets the next request through, where
/// requests are admitted and the throttle is what holds them back.
pub open spec fn wake_time(
    network: NetworkStream,
    requests: RequestStream,
    admits: bool,
    now: u64,
) -> u64 {
    let wait = earlier(network.deadline, requests.deadline);
    if admits && !requests.ended && now < requests.open_at {
        earlier(wait, requests.open_at)
    } else {
        wait
    }
}

/// The transport that a connection is made over.
#[derive(Debug, Clone, Copy, PartialEq, Eq, Structural)]
pub enum Transport {
    Tcp,
    Tls,
}

impl MqttEventLoop {
    /// The transport to open: TLS where a certificate authority is
    /// configured, plain TCP otherwise.
    pub fn network_connect(&self) -> (transport: Transport)
        ensures
            transport == (if self.options@.ca is Some {
                Transport::Tls
            } else {
                Transport::Tcp
            }),
    {
        if self.options.has_ca() {
            Transport::Tls
        } else {
            Transport::Tcp
        }
    }

    /// Begins the handshake and returns the connect packet to write: the
    /// client's id, keep alive and session choice, and its credentials if
    /// it has any. The broker's answer then goes to
    /// `handle_incoming_connack` of the state.
    pub fn mqtt_connect(&mut self) -> (connect: Connect)
        ensures
            connect@ == connect_of(old(self).options@),
            final(self).options == old(self).options,
            final(self).state@ == (StateView {
                connection_status: MqttConnectionStatus::Handshake,
                ..old(self).state@
            }),
    {
        let _ = self.state.handle_outgoing_connect();
        let id = self.options.client_id();
        let keep_alive = self.options.keep_alive();
        let clean_session = self.options.clean_session();

        let mut connect = Connect::new(id);
        connect.keep_alive = keep_alive;
        connect.clean_session = clean_session;

        if let Some((username, password)) = self.options.credentials() {
            connect.username = Some(username);
            connect.password = Some(password);
        }
        connect
    }

    /// The packets to write first on a new connection. With a session
    /// that is kept, every publish in flight goes out again, oldest
    /// first, marked as a duplicate, and the state stays as it is. With a
    /// clean session nothing goes out again and the state starts afresh.
    pub fn resume(&mut self) -> (packets: Vec<Packet>)
        ensures
            final(self).options == old(self).options,
            old(self).options@.clean_session ==> packets@.len() == 0 && final(self).state@
                == StateView::fresh(),
            !old(self).options@.clean_session ==> final(self).state@ == old(self).state@
                && packets@.len() == old(self).state@.outgoing_pub.len() && forall|i: int|
                0 <= i < packets@.len() ==> (#[trigger] packets@[i])@ == old(
                    self,
                ).state@.resends()[i],
    {
        if self.options.clean_session() {
            self.state = MqttState::new();
            Vec::new()
        } else {
            self.state.resend()
        }
    }

    /// Whether the loop takes requests from the user: it does while fewer
    /// publishes are in flight than the options allow.
    pub fn admits_requests(&self) -> (admits: bool)
        ensures
            admits == (self.state@.outgoing_pub.len() < self.options@.inflight),
    {
        self.state.inflight() < self.options.inflight()
    }

    /// Whether the loop takes a request from the user at `now`: requests
    /// are admitted and the request stream is open.
    pub fn takes_requests(&self, requests: &RequestStream, now: u64) -> (takes: bool)
        ensures
            takes == (self.state@.outgoing_pub.len() < self.options@.inflight && !requests.ended
                && now >= requests.open_at),
    {
        self.admits_requests() && requests.is_open(now)
    }

    /// Until when the loop sleeps at `now` where nothing comes in and
    /// nothing is asked for.
    pub fn wake_at(&self, network: &NetworkStream, requests: &RequestStream, now: u64) -> (at:
        u64)
        ensures
            at == wake_time(
                *network,
                *requests,
                self.state@.outgoing_pub.len() < self.options@.inflight,
                now,
            ),
    {
        let wait = if network.deadline <= requests.deadline {
            network.deadline
        } else {
            requests.deadline
        };
        if self.admits_requests() && !requests.ended && now < requests.open_at
            && requests.open_at < wait {
            requests.open_at
        } else {
            wait
        }
    }

    /// One turn of the loop at `now`. A packet from the network stream
    /// goes to the state machine as incoming, one from the request stream
    /// as outgoing; what the state machine answers is the turn. Where it
    /// refuses the packet, or a stream is over, the loop is over.
    pub fn stream(&mut self, selected: Selected, now: u64) -> (turn: Turn)
        ensures
            final(self).options == old(self).options,
            match selected {
                Selected::Network(packet) => {
                    let answer = old(self).state@.incoming(packet@, now);
                    &&& turn@ == turn_of(answer)
                    &&& final(self).state@ == match answer {
                        Ok((next, _)) => next,
                        Err(_) => old(self).state@.refused(packet@, now),
                    }
                },
                Selected::Requests(packet) => {
                    let answer = old(self).state@.outgoing(packet@, now);
                    &&& turn@ == turn_of(answer)
                    &&& final(self).state@ == match answer {
                        Ok((next, _)) => next,
                        Err(_) => old(self).state@,
                    }
                },
                Selected::Ended => turn@ == TurnView::over() && final(self).state@ == old(
                    self,
                ).state@,
                Selected::Cancelled => turn@ == TurnView::called_off() && final(self).state@
                    == old(self).state@,
            },
    {
        let o = match selected {
            Selected::Network(packet) => self.state.handle_packet(packet, now),
            Selected::Requests(packet) => self.state.handle_request(packet, now),
            Selected::Ended => {
                return Turn { outgoing: None, notification: None, done: true };
            },
            Selected::Cancelled => {
                return Turn {
                    outgoing: None,
                    notification: Some(Notification::StreamEnd(EventLoopError::Cancelled)),
                    done: true,
                };
            },
        };
        match o {
            Ok((notification, outpacket)) => Turn { outgoing: outpacket, notification, done: false },
            Err(e) => Turn {
                outgoing: None,
                notification: Some(Notification::StreamEnd(EventLoopError::MqttState(e))),
                done: true,
            },
        }
    }
}

/// An idle request side pings when the keep alive is over and not before:
/// with no request, the stream made at `start` hands on nothing before
/// `keep_alive` seconds have passed, and a ping request from then on.
pub proof fn lemma_idle_requests_ping_on_time(
    keep_alive: u16,
    throttle: u64,
    start: u64,
    now: u64,
)
    requires
        start + keep_alive * 1000 <= u64::MAX,
    ensures
        ({
            let stream = RequestStream {
                timeout: (keep_alive * 1000) as u64,
                throttle,
                deadline: after(start, (keep_alive * 1000) as u64),
                open_at: start,
                ended: false,
            };
            let polled = stream.spec_poll(None, false, now).1;
            &&& now < start + keep_alive * 1000 ==> polled == PolledView::Pending
            &&& now >= start + keep_alive * 1000 ==> polled == PolledView::Yield(PacketView::PingReq)
        }),
{
}

/// A silent transport is pinged one second after the keep alive is over
/// and not before: with nothing read, the stream made at `start` hands on
/// nothing before `keep_alive + 1` seconds have passed, and a ping
/// request from then on, whatever goes out meanwhile.
pub proof fn lemma_silent_network_pings_on_time(keep_alive: u16, start: u64, now: u64)
    requires
        start + (keep_alive + 1) * 1000 <= u64::MAX,
    ensures
        ({
            let stream = NetworkStream {
                timeout: ((keep_alive + 1) * 1000) as u64,
                deadline: after(start, ((keep_alive + 1) * 1000) as u64),
                ended: false,
            };
            let polled = stream.spec_poll(None, false, now).1;
            &&& now < start + (keep_alive + 1) * 1000 ==> polled == PolledView::Pending
            &&& now >= start + (keep_alive + 1) * 1000 ==> polled == PolledView::Yield(
                PacketView::PingReq,
            )
        }),
{
}

/// On a link that is idle both ways the request side pings first: of two
/// streams made at the same time for the same keep alive, the request
/// side's wait is over one second before the network side's, which leaves
/// the broker's answer that second to arrive in.
pub proof fn lemma_request_side_pings_first(keep_alive: u16, start: u64)
    requires
        start + (keep_alive + 1) * 1000 <= u64::MAX,
    ensures
        after(start, (keep_alive * 1000) as u64) + 1000 == after(
            start,
            ((keep_alive + 1) * 1000) as u64,
        ),
{
}

} // verus!
