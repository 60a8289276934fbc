//! The packet that opens a connection.

use super::header::{frame, take_body, write_remaining_length, FixedHeader};
use super::primitives::{
    lemma_bytes_round_trip, lemma_string_round_trip, lemma_u16_round_trip, read_mqtt_bytes,
    read_mqtt_string, read_u16, read_u8, take_bytes, take_string, take_u16, take_u8, wire_bytes,
    wire_string, wire_u16, write_mqtt_string, MAX_FIELD_LEN,
};
use super::{qos, qos_num, qos_of, qos_to_u8, Error, QoS};
use crate::buffer::{bytes_as_slice, bytes_contents, bytes_mut_contents, put_u16, put_u8};
use bytes::{Bytes, BytesMut};
use vstd::prelude::*;
use vstd::utf8::encode_utf8;

verus! {

/// LastWill that broker forwards on behalf of the client
#[derive(Debug, PartialEq)]
pub struct LastWill {
    pub topic: String,
    pub message: String,
    pub qos: QoS,
    pub retain: bool,
}

/// Connection packet initiated by the client
#[derive(Debug, PartialEq)]
pub struct Connect {
    /// Mqtt keep alive time
    pub keep_alive: u16,
    /// Client Id
    pub client_id: String,
    /// Clean session. Asks the broker to clear previous state
    pub clean_session: bool,
    /// Will that broker needs to publish when the client disconnects
    pub last_will: Option<LastWill>,
    /// Username of the client
    pub username: Option<String>,
    /// Password of the client
    pub password: Option<String>,
}

/// A last will as a value.
pub struct LastWillView {
    pub topic: Seq<char>,
    pub message: Seq<char>,
    pub qos: QoS,
    pub retain: bool,
}

/// A connect as a value.
pub struct ConnectView {
    pub keep_alive: u16,
    pub client_id: Seq<char>,
    pub clean_session: bool,
    pub last_will: Option<LastWillView>,
    pub username: Option<Seq<char>>,
    pub password: Option<Seq<char>>,
}

impl View for LastWill {
    type V = LastWillView;

    open spec fn view(&self) -> LastWillView {
        LastWillView {
            topic: self.topic@,
            message: self.message@,
            qos: self.qos,
            retain: self.retain,
        }
    }
}

/// An optional string as a value.
pub open spec fn text_of(s: Option<String>) -> Option<Seq<char>> {
    match s {
        Some(text) => Some(text@),
        None => None,
    }
}

/// An optional last will as a value.
pub open spec fn will_of(w: Option<LastWill>) -> Option<LastWillView> {
    match w {
        Some(will) => Some(will@),
        None => None,
    }
}

impl View for Connect {
    type V = ConnectView;

    open spec fn view(&self) -> ConnectView {
        ConnectView {
            keep_alive: self.keep_alive,
            client_id: self.client_id@,
            clean_session: self.clean_session,
            last_will: will_of(self.last_will),
            username: text_of(self.username),
            password: text_of(self.password),
        }
    }
}

/// A copy of an optional string.
fn clone_text(text: &Option<String>) -> (copy: Option<String>)
    ensures
        text_of(copy) == text_of(*text),
{
    match text {
        Some(text) => Some(text.clone()),
        None => None,
    }
}

impl Clone for LastWill {
    fn clone(&self) -> (r: Self)
        ensures
            r@ == self@,
    {
        LastWill {
            topic: self.topic.clone(),
            message: self.message.clone(),
            qos: self.qos,
            retain: self.retain,
        }
    }
}

impl Clone for Connect {
    fn clone(&self) -> (r: Self)
        ensures
            r@ == self@,
    {
        Connect {
            keep_alive: self.keep_alive,
            client_id: self.client_id.clone(),
            clean_session: self.clean_session,
            last_will: match &self.last_will {
                Some(will) => Some(will.clone()),
                None => None,
            },
            username: clone_text(&self.username),
            password: clone_text(&self.password),
        }
    }
}

/// The protocol name that every connect starts with: `MQTT`.
pub open spec fn protocol_name() -> Seq<u8> {
    seq![0x4Du8, 0x51u8, 0x54u8, 0x54u8]
}

/// Whether a string fits behind a two-byte length.
pub open spec fn text_fits(text: Seq<char>) -> bool {
    encode_utf8(text).len() <= MAX_FIELD_LEN
}

/// The string that follows where a flag announces one.
pub open spec fn take_optional_string(present: bool, s: Seq<u8>) -> Result<
    (Option<Seq<char>>, Seq<u8>),
    Error,
> {
    if present {
        match take_string(s) {
            Err(e) => Err(e),
            Ok((text, rest)) => Ok((Some(text), rest)),
        }
    } else {
        Ok((None, s))
    }
}

/// The bytes of a string that is there, none for one that is not.
pub open spec fn wire_optional_string(text: Option<Seq<char>>) -> Seq<u8> {
    match text {
        Some(text) => wire_string(text),
        None => Seq::empty(),
    }
}

/// The last will that follows where the connect flags announce one: its
/// topic and its message, with quality of service and retain flag taken
/// from the flags.
pub open spec fn take_will(flags: u8, s: Seq<u8>) -> Result<(Option<LastWillView>, Seq<u8>), Error> {
    if (flags / 4) % 2 == 1 {
        match take_string(s) {
            Err(e) => Err(e),
            Ok((topic, rest)) => match take_string(rest) {
                Err(e) => Err(e),
                Ok((message, rest)) => match qos_of((flags / 8) % 4) {
                    None => Err(Error::InvalidQoS((flags / 8) % 4)),
                    Some(qos) => Ok(
                        (
                            Some(
                                LastWillView { topic, message, qos, retain: (flags / 32) % 2 == 1 },
                            ),
                            rest,
                        ),
                    ),
                },
            },
        }
    } else {
        Ok((None, s))
    }
}

/// The bytes of a last will that is there, none for one that is not.
pub open spec fn wire_will(will: Option<LastWillView>) -> Seq<u8> {
    match will {
        Some(will) => wire_string(will.topic) + wire_string(will.message),
        None => Seq::empty(),
    }
}

impl ConnectView {
    /// The connect flags: user name, password, will retain, will quality
    /// of service, will and clean session, from the highest bit down.
    pub open spec fn flags(self) -> u8 {
        ((if self.username is Some { 128int } else { 0 }) + (if self.password is Some {
            64int
        } else {
            0
        }) + (match self.last_will {
            Some(will) => 4 + 8 * qos_num(will.qos) + (if will.retain { 32int } else { 0 }),
            None => 0,
        }) + (if self.clean_session { 2int } else { 0 })) as u8
    }

    /// The body: protocol name and level, flags, keep alive, client id,
    /// then what the flags announce.
    pub open spec fn wire_body(self) -> Seq<u8> {
        wire_bytes(protocol_name()) + (seq![4u8, self.flags()] + (wire_u16(self.keep_alive)
            + self.wire_payload()))
    }

    /// What follows the keep alive: the client id, then the last will, the
    /// user name and the password, as far as there are any.
    pub open spec fn wire_payload(self) -> Seq<u8> {
        wire_string(self.client_id) + (wire_will(self.last_will) + (wire_optional_string(
            self.username,
        ) + wire_optional_string(self.password)))
    }

    /// The frame of the connect.
    pub open spec fn wire(self) -> Seq<u8> {
        frame(0x10, self.wire_body())
    }

    /// Whether the connect can be written: each of its strings fits a
    /// length prefix.
    pub open spec fn encodable(self) -> bool {
        &&& text_fits(self.client_id)
        &&& (self.last_will matches Some(will) ==> text_fits(will.topic) && text_fits(
            will.message,
        ))
        &&& (self.username matches Some(text) ==> text_fits(text))
        &&& (self.password matches Some(text) ==> text_fits(text))
    }
}

impl Connect {
    /// What the body of a connect says.
    pub open spec fn parse_body(body: Seq<u8>) -> Result<ConnectView, Error> {
        match take_bytes(body) {
            Err(e) => Err(e),
            Ok((name, rest)) => if name != protocol_name() {
                Err(Error::InvalidProtocol)
            } else {
                match take_u8(rest) {
                    Err(e) => Err(e),
                    Ok((level, rest)) => if level != 4 {
                        Err(Error::InvalidProtocolLevel(level))
                    } else {
                        match take_u8(rest) {
                            Err(e) => Err(e),
                            Ok((flags, rest)) => match take_u16(rest) {
                                Err(e) => Err(e),
                                Ok((keep_alive, rest)) => Self::parse_payload(
                                    flags,
                                    keep_alive,
                                    rest,
                                ),
                            },
                        }
                    },
                }
            },
        }
    }

    /// What follows the keep alive: the client id, then the last will, the
    /// user name and the password, as far as the flags announce them.
    #[verifier::opaque]
    pub open spec fn parse_payload(flags: u8, keep_alive: u16, s: Seq<u8>) -> Result<
        ConnectView,
        Error,
    > {
        match take_string(s) {
            Err(e) => Err(e),
            Ok((client_id, rest)) => match take_will(flags, rest) {
                Err(e) => Err(e),
                Ok((last_will, rest)) => match take_optional_string(flags >= 128, rest) {
                    Err(e) => Err(e),
                    Ok((username, rest)) => match take_optional_string(
                        (flags / 64) % 2 == 1,
                        rest,
                    ) {
                        Err(e) => Err(e),
                        Ok((password, _)) => Ok(
                            ConnectView {
                                keep_alive,
                                client_id,
                                clean_session: (flags / 2) % 2 == 1,
                                last_will,
                                username,
                                password,
                            },
                        ),
                    },
                },
            },
        }
    }

    /// A connect for `id`: ten seconds of keep alive, a clean session, and
    /// neither last will nor credentials.
    pub fn new(id: String) -> (r: Connect)
        ensures
            r@ == (ConnectView {
                keep_alive: 10,
                client_id: id@,
                clean_session: true,
                last_will: None,
                username: None,
                password: None,
            }),
    {
        Connect {
            keep_alive: 10,
            client_id: id,
            clean_session: true,
            last_will: None,
            username: None,
            password: None,
        }
    }

    /// Reads a connect out of its frame.
    pub fn assemble(fixed_header: FixedHeader, bytes: Bytes) -> (r: Result<Self, Error>)
        requires
            fixed_header.wf(),
            fixed_header.spec_frame_length() <= bytes_contents(bytes).len(),
        ensures
            match Self::parse_body(fixed_header.body(bytes_contents(bytes))) {
                Ok(v) => r is Ok && r->Ok_0@ == v,
                Err(e) => r is Err && r->Err_0 == e,
            },
    {
        let mut stream = take_body(&fixed_header, bytes);
        let name = match read_mqtt_bytes(&mut stream) {
            Ok(name) => name,
            Err(e) => {
                return Err(e);
            },
        };
        let spelled = bytes_as_slice(&name);
        if !(spelled.len() == 4 && spelled[0] == 0x4D && spelled[1] == 0x51 && spelled[2] == 0x54
            && spelled[3] == 0x54) {
            assert(spelled@ != protocol_name());
            return Err(Error::InvalidProtocol);
        }
        assert(spelled@ =~= protocol_name());
        let protocol_level = match read_u8(&mut stream) {
            Ok(level) => level,
            Err(e) => {
                return Err(e);
            },
        };
        if protocol_level != 4 {
            return Err(Error::InvalidProtocolLevel(protocol_level));
        }
        let connect_flags = match read_u8(&mut stream) {
            Ok(flags) => flags,
            Err(e) => {
                return Err(e);
            },
        };
        let keep_alive = match read_u16(&mut stream) {
            Ok(keep_alive) => keep_alive,
            Err(e) => {
                return Err(e);
            },
        };
        Self::read_payload(connect_flags, keep_alive, stream)
    }

    /// Reads what follows the keep alive out of the rest of the body.
    fn read_payload(connect_flags: u8, keep_alive: u16, rest: Bytes) -> (r: Result<Self, Error>)
        ensures
            match Self::parse_payload(connect_flags, keep_alive, bytes_contents(rest)) {
                Ok(v) => r is Ok && r->Ok_0@ == v,
                Err(e) => r is Err && r->Err_0 == e,
            },
    {
        reveal(Connect::parse_payload);
        let mut stream = rest;
        let client_id = match read_mqtt_string(&mut stream) {
            Ok(client_id) => client_id,
            Err(e) => {
                return Err(e);
            },
        };
        let last_will = match Self::read_will(connect_flags, &mut stream) {
            Ok(last_will) => last_will,
            Err(e) => {
                return Err(e);
            },
        };
        assert((connect_flags & 0b1000_0000 != 0) == (connect_flags >= 128)) by (bit_vector);
        assert((connect_flags & 0b0100_0000 != 0) == ((connect_flags / 64) % 2 == 1))
            by (bit_vector);
        assert((connect_flags & 0b10 != 0) == ((connect_flags / 2) % 2 == 1)) by (bit_vector);
        let username = match read_optional_string(connect_flags & 0b1000_0000 != 0, &mut stream) {
            Ok(username) => username,
            Err(e) => {
                return Err(e);
            },
        };
        let password = match read_optional_string(connect_flags & 0b0100_0000 != 0, &mut stream) {
            Ok(password) => password,
            Err(e) => {
                return Err(e);
            },
        };
        let clean_session = (connect_flags & 0b10) != 0;
        Ok(Connect { keep_alive, client_id, clean_session, last_will, username, password })
    }

    /// Reads the last will where the connect flags announce one.
    fn read_will(connect_flags: u8, stream: &mut Bytes) -> (r: Result<Option<LastWill>, Error>)
        ensures
            match take_will(connect_flags, bytes_contents(*old(stream))) {
                Ok((will, rest)) => r is Ok && will_of(r->Ok_0) == will && bytes_contents(
                    *final(stream),
                ) == rest,
                Err(e) => r is Err && r->Err_0 == e,
            },
    {
        assert((connect_flags & 0b100 != 0) == ((connect_flags / 4) % 2 == 1)) by (bit_vector);
        assert((connect_flags & 0b11000) >> 3 == (connect_flags / 8) % 4) by (bit_vector);
        assert((connect_flags & 0b0010_0000 != 0) == ((connect_flags / 32) % 2 == 1))
            by (bit_vector);
        if connect_flags & 0b100 != 0 {
            let will_topic = match read_mqtt_string(stream) {
                Ok(topic) => topic,
                Err(e) => {
                    return Err(e);
                },
            };
            let will_message = match read_mqtt_string(stream) {
                Ok(message) => message,
                Err(e) => {
                    return Err(e);
                },
            };
            let will_qos = match qos((connect_flags & 0b11000) >> 3) {
                Ok(will_qos) => will_qos,
                Err(e) => {
                    return Err(e);
                },
            };
            Ok(
                Some(
                    LastWill {
                        topic: will_topic,
                        message: will_message,
                        qos: will_qos,
                        retain: (connect_flags & 0b0010_0000) != 0,
                    },
                ),
            )
        } else {
            Ok(None)
        }
    }

    /// The connect flags of this packet.
    fn connect_flags(&self) -> (flags: u8)
        ensures
            flags == self@.flags(),
    {
        let mut connect_flags: u8 = 0;
        if self.clean_session {
            connect_flags = connect_flags + 2;
        }
        match &self.last_will {
            Some(will) => {
                connect_flags = connect_flags + 4 + 8 * qos_to_u8(will.qos) + (if will.retain {
                    32
                } else {
                    0
                });
            },
            None => {},
        }
        if self.username.is_some() {
            connect_flags = connect_flags + 128;
        }
        if self.password.is_some() {
            connect_flags = connect_flags + 64;
        }
        connect_flags
    }

    /// The length of what follows the keep alive, if every string in it
    /// fits its length prefix.
    fn payload_len(&self) -> (len: Option<usize>)
        ensures
            len is Some <==> self@.encodable(),
            len matches Some(n) ==> n == self@.wire_payload().len() && n <= 5 * (2
                + MAX_FIELD_LEN),
    {
        let id_len = self.client_id.as_str().as_bytes().len();
        if id_len > MAX_FIELD_LEN {
            return None;
        }
        let will_len = match &self.last_will {
            Some(will) => {
                let topic_len = will.topic.as_str().as_bytes().len();
                let message_len = will.message.as_str().as_bytes().len();
                if topic_len > MAX_FIELD_LEN || message_len > MAX_FIELD_LEN {
                    return None;
                }
                4 + topic_len + message_len
            },
            None => 0,
        };
        let username_len = match optional_len(&self.username) {
            Some(n) => n,
            None => {
                return None;
            },
        };
        let password_len = match optional_len(&self.password) {
            Some(n) => n,
            None => {
                return None;
            },
        };
        Some(2 + id_len + will_len + username_len + password_len)
    }

    /// Appends the connect's frame and returns its length. A connect with
    /// a string too long for its length prefix is refused and nothing is
    /// written.
    pub fn write(&self, stream: &mut BytesMut) -> (r: Result<usize, Error>)
        requires
            self@.encodable() ==> bytes_mut_contents(*old(stream)).len() + self@.wire().len()
                <= isize::MAX,
        ensures
            match r {
                Ok(n) => self@.encodable() && n == self@.wire().len() && bytes_mut_contents(
                    *final(stream),
                ) == bytes_mut_contents(*old(stream)) + self@.wire(),
                Err(e) => !self@.encodable() && e == Error::PayloadTooLong && bytes_mut_contents(
                    *final(stream),
                ) == bytes_mut_contents(*old(stream)),
            },
    {
        let payload_len = match self.payload_len() {
            Some(n) => n,
            None => {
                return Err(Error::PayloadTooLong);
            },
        };
        // protocol name and level, flags, keep alive
        let len: usize = 2 + 4 + 1 + 1 + 2 + payload_len;
        let connect_flags = self.connect_flags();
        let ghost start = bytes_mut_contents(*stream);
        let ghost payload = self@.wire_payload();
        proof {
            assert(self@.wire_body().len() == len);
            super::header::lemma_pow128_4();
            super::header::lemma_varint_round_trip(len as int, Seq::empty(), 4);
        }
        put_u8(stream, 0x10);
        let count = write_remaining_length(stream, len);
        let ghost framed = bytes_mut_contents(*stream);
        write_variable_header(stream, connect_flags, self.keep_alive);
        let ghost head = bytes_mut_contents(*stream);
        self.write_payload(stream);
        proof {
            assert(framed == start.push(0x10u8) + super::header::wire_varint(len as int));
            assert(head == framed + (wire_bytes(protocol_name()) + (seq![4u8, self@.flags()]
                + wire_u16(self.keep_alive))));
            assert(bytes_mut_contents(*stream) == head + payload);
            assert(bytes_mut_contents(*stream) =~= start + self@.wire());
        }
        Ok(1 + count + len)
    }

    /// Appends what follows the keep alive.
    fn write_payload(&self, stream: &mut BytesMut)
        requires
            self@.encodable(),
            bytes_mut_contents(*old(stream)).len() + self@.wire_payload().len() <= isize::MAX,
        ensures
            bytes_mut_contents(*final(stream)) == bytes_mut_contents(*old(stream))
                + self@.wire_payload(),
    {
        write_mqtt_string(stream, self.client_id.as_str());
        write_will(stream, &self.last_will);
        write_optional_string(stream, &self.username);
        write_optional_string(stream, &self.password);
        assert(bytes_mut_contents(*stream) =~= bytes_mut_contents(*old(stream))
            + self@.wire_payload());
    }
}

/// Appends the start of a connect's body: protocol name and level, the
/// connect flags and the keep alive.
fn write_variable_header(stream: &mut BytesMut, connect_flags: u8, keep_alive: u16)
    requires
        bytes_mut_contents(*old(stream)).len() + 10 <= isize::MAX,
    ensures
        bytes_mut_contents(*final(stream)) == bytes_mut_contents(*old(stream)) + (wire_bytes(
            protocol_name(),
        ) + (seq![4u8, connect_flags] + wire_u16(keep_alive))),
{
    put_u16(stream, 4);
    put_u8(stream, 0x4D);
    put_u8(stream, 0x51);
    put_u8(stream, 0x54);
    put_u8(stream, 0x54);
    put_u8(stream, 4);
    put_u8(stream, connect_flags);
    put_u16(stream, keep_alive);
    assert(bytes_mut_contents(*stream) =~= bytes_mut_contents(*old(stream)) + (wire_bytes(
        protocol_name(),
    ) + (seq![4u8, connect_flags] + wire_u16(keep_alive))));
}

/// The length of an optional string behind its length prefix, if the
/// string fits one; 0 for a string that is not there.
fn optional_len(text: &Option<String>) -> (len: Option<usize>)
    ensures
        len is Some <==> (text_of(*text) matches Some(t) ==> text_fits(t)),
        len matches Some(n) ==> n == wire_optional_string(text_of(*text)).len(),
{
    match text {
        Some(text) => {
            let text_len = text.as_str().as_bytes().len();
            if text_len > MAX_FIELD_LEN {
                None
            } else {
                Some(2 + text_len)
            }
        },
        None => Some(0),
    }
}

/// Appends a string that is there, nothing for one that is not.
fn write_optional_string(stream: &mut BytesMut, text: &Option<String>)
    requires
        text_of(*text) matches Some(t) ==> text_fits(t),
        bytes_mut_contents(*old(stream)).len() + wire_optional_string(text_of(*text)).len()
            <= isize::MAX,
    ensures
        bytes_mut_contents(*final(stream)) == bytes_mut_contents(*old(stream))
            + wire_optional_string(text_of(*text)),
{
    match text {
        Some(text) => {
            write_mqtt_string(stream, text.as_str());
        },
        None => {
            assert(bytes_mut_contents(*stream) + Seq::<u8>::empty() =~= bytes_mut_contents(
                *stream,
            ));
        },
    }
}

/// Appends a last will that is there, nothing for one that is not.
fn write_will(stream: &mut BytesMut, will: &Option<LastWill>)
    requires
        will_of(*will) matches Some(w) ==> text_fits(w.topic) && text_fits(w.message),
        bytes_mut_contents(*old(stream)).len() + wire_will(will_of(*will)).len() <= isize::MAX,
    ensures
        bytes_mut_contents(*final(stream)) == bytes_mut_contents(*old(stream)) + wire_will(
            will_of(*will),
        ),
{
    match will {
        Some(will) => {
            write_mqtt_string(stream, will.topic.as_str());
            write_mqtt_string(stream, will.message.as_str());
            assert(bytes_mut_contents(*stream) =~= bytes_mut_contents(*old(stream)) + (
            wire_string(will.topic@) + wire_string(will.message@)));
        },
        None => {
            assert(bytes_mut_contents(*stream) + Seq::<u8>::empty() =~= bytes_mut_contents(
                *stream,
            ));
        },
    }
}

/// Reads a string where `present` says that one follows.
fn read_optional_string(present: bool, stream: &mut Bytes) -> (r: Result<Option<String>, Error>)
    ensures
        match take_optional_string(present, bytes_contents(*old(stream))) {
            Ok((text, rest)) => r is Ok && text_of(r->Ok_0) == text && bytes_contents(
                *final(stream),
            ) == rest,
            Err(e) => r is Err && r->Err_0 == e,
        },
{
    if present {
        match read_mqtt_string(stream) {
            Ok(text) => Ok(Some(text)),
            Err(e) => Err(e),
        }
    } else {
        Ok(None)
    }
}

/// The connect flags say which optional fields a connect has.
pub proof fn lemma_flags_decode(p: ConnectView)
    ensures
        (p.flags() >= 128) == (p.username is Some),
        ((p.flags() / 64) % 2 == 1) == (p.password is Some),
        ((p.flags() / 4) % 2 == 1) == (p.last_will is Some),
        ((p.flags() / 2) % 2 == 1) == p.clean_session,
        p.last_will matches Some(will) ==> qos_of((p.flags() / 8) % 4) == Some(will.qos) && ((
        p.flags() / 32) % 2 == 1) == will.retain,
{
}

/// A last will is read back as written, given flags that announce it.
pub proof fn lemma_will_round_trip(will: Option<LastWillView>, flags: u8, tail: Seq<u8>)
    requires
        ((flags / 4) % 2 == 1) == (will is Some),
        will matches Some(w) ==> text_fits(w.topic) && text_fits(w.message) && qos_of(
            (flags / 8) % 4,
        ) == Some(w.qos) && ((flags / 32) % 2 == 1) == w.retain,
    ensures
        take_will(flags, wire_will(will) + tail) == Ok::<(Option<LastWillView>, Seq<u8>), Error>(
            (will, tail),
        ),
{
    match will {
        Some(w) => {
            assert(wire_will(will) + tail =~= wire_string(w.topic) + (wire_string(w.message)
                + tail));
            lemma_string_round_trip(w.topic, wire_string(w.message) + tail);
            lemma_string_round_trip(w.message, tail);
        },
        None => {
            assert(wire_will(will) + tail =~= tail);
        },
    }
}

/// An optional string is read back as written, given a flag that
/// announces it.
pub proof fn lemma_optional_string_round_trip(text: Option<Seq<char>>, tail: Seq<u8>)
    requires
        text matches Some(t) ==> text_fits(t),
    ensures
        take_optional_string(text is Some, wire_optional_string(text) + tail) == Ok::<
            (Option<Seq<char>>, Seq<u8>),
            Error,
        >((text, tail)),
{
    match text {
        Some(t) => {
            lemma_string_round_trip(t, tail);
        },
        None => {
            assert(wire_optional_string(text) + tail =~= tail);
        },
    }
}

/// What follows the keep alive of a connect that can be written is read
/// back as the connect.
pub proof fn lemma_payload_round_trip(p: ConnectView)
    requires
        p.encodable(),
    ensures
        Connect::parse_payload(p.flags(), p.keep_alive, p.wire_payload()) == Ok::<
            ConnectView,
            Error,
        >(p),
{
    reveal(Connect::parse_payload);
    let flags = p.flags();
    let after_user = wire_optional_string(p.password);
    let after_will = wire_optional_string(p.username) + after_user;
    let after_id = wire_will(p.last_will) + after_will;
    lemma_flags_decode(p);
    lemma_string_round_trip(p.client_id, after_id);
    lemma_will_round_trip(p.last_will, flags, after_will);
    lemma_optional_string_round_trip(p.username, after_user);
    lemma_optional_string_round_trip(p.password, Seq::empty());
    assert(after_user + Seq::<u8>::empty() =~= after_user);
}

/// A connect that can be written is read back from its body as the same.
pub proof fn lemma_connect_round_trip(p: ConnectView)
    requires
        p.encodable(),
    ensures
        Connect::parse_body(p.wire_body()) == Ok::<ConnectView, Error>(p),
{
    let flags = p.flags();
    let after_flags = wire_u16(p.keep_alive) + p.wire_payload();
    let after_name = seq![4u8, flags] + after_flags;
    lemma_bytes_round_trip(protocol_name(), after_name);
    assert(after_name.skip(1).skip(1) =~= after_flags);
    assert(after_name.skip(1)[0] == flags);
    lemma_u16_round_trip(p.keep_alive, p.wire_payload());
    lemma_payload_round_trip(p);
}

} // verus!
