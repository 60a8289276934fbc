//! What a client is configured with.

use vstd::prelude::*;

verus! {

/// The shortest keep alive that a client may ask for, in seconds.
pub const MIN_KEEP_ALIVE: u16 = 5;

/// Options to configure the behaviour of mqtt connection
#[derive(Debug)]
pub struct MqttOptions {
    /// broker address that you want to connect to
    pub(crate) broker_addr: String,
    /// broker port
    pub(crate) port: u16,
    /// keep alive time to send pingreq to broker when the connection is
    /// idle, in seconds
    pub(crate) keep_alive: u16,
    /// clean (or) persistent session
    pub(crate) clean_session: bool,
    /// client identifier
    pub(crate) client_id: String,
    /// certificate authority certificate
    pub(crate) ca: Option<Vec<u8>>,
    /// username and password
    pub(crate) credentials: Option<(String, String)>,
    /// maximum packet size
    pub(crate) max_packet_size: usize,
    /// minimum delay time between consecutive outgoing packets, in
    /// milliseconds
    pub(crate) throttle: u64,
    /// maximum number of outgoing inflight messages
    pub(crate) inflight: usize,
}

/// Credentials as a value.
pub open spec fn credentials_of(c: Option<(String, String)>) -> Option<(Seq<char>, Seq<char>)> {
    match c {
        Some((username, password)) => Some((username@, password@)),
        None => None,
    }
}

/// A certificate as a value.
pub open spec fn certificate_of(ca: Option<Vec<u8>>) -> Option<Seq<u8>> {
    match ca {
        Some(bytes) => Some(bytes@),
        None => None,
    }
}

/// The options of a client as a value.
#[verifier::ext_equal]
pub struct OptionsView {
    pub broker_addr: Seq<char>,
    pub port: u16,
    pub keep_alive: u16,
    pub clean_session: bool,
    pub client_id: Seq<char>,
    pub ca: Option<Seq<u8>>,
    pub credentials: Option<(Seq<char>, Seq<char>)>,
    pub max_packet_size: usize,
    pub throttle: u64,
    pub inflight: usize,
}

impl View for MqttOptions {
    type V = OptionsView;

    closed spec fn view(&self) -> OptionsView {
        OptionsView {
            broker_addr: self.broker_addr@,
            port: self.port,
            keep_alive: self.keep_alive,
            clean_session: self.clean_session,
            client_id: self.client_id@,
            ca: certificate_of(self.ca),
            credentials: credentials_of(self.credentials),
            max_packet_size: self.max_packet_size,
            throttle: self.throttle,
            inflight: self.inflight,
        }
    }
}

impl MqttOptions {
    /// Whether the options are in order: the keep alive is at least five
    /// seconds.
    pub open spec fn wf(&self) -> bool {
        self@.keep_alive >= MIN_KEEP_ALIVE
    }

    /// New mqtt options: sixty seconds of keep alive, a clean session, no
    /// certificate, no credentials, packets of up to 256 KiB, no throttle
    /// and up to a hundred publishes in flight.
    pub fn new(id: String, host: String, port: u16) -> (options: MqttOptions)
        ensures
            options.wf(),
            options@ == (OptionsView {
                broker_addr: host@,
                port,
                keep_alive: 60,
                clean_session: true,
                client_id: id@,
                ca: None,
                credentials: None,
                max_packet_size: 262_144,
                throttle: 0,
                inflight: 100,
            }),
    {
        MqttOptions {
            broker_addr: host,
            port,
            keep_alive: 60,
            clean_session: true,
            client_id: id,
            ca: None,
            credentials: None,
            max_packet_size: 256 * 1024,
            throttle: 0,
            inflight: 100,
        }
    }

    /// Broker address
    pub fn broker_address(&self) -> (r: (String, u16))
        ensures
            r.0@ == self@.broker_addr,
            r.1 == self@.port,
    {
        (self.broker_addr.clone(), self.port)
    }

    /// Set the certificate authority, which makes the connection use TLS.
    pub fn set_ca(&mut self, ca: Vec<u8>)
        ensures
            final(self)@ == (OptionsView { ca: Some(ca@), ..old(self)@ }),
    {
        self.ca = Some(ca);
    }

    /// Whether a certificate authority is set.
    pub fn has_ca(&self) -> (b: bool)
        ensures
            b == self@.ca is Some,
    {
        self.ca.is_some()
    }

    /// Set number of seconds after which client should ping the broker
    /// if there is no other data exchange
    pub fn set_keep_alive(&mut self, secs: u16)
        requires
            secs >= MIN_KEEP_ALIVE,
        ensures
            final(self)@ == (OptionsView { keep_alive: secs, ..old(self)@ }),
    {
        self.keep_alive = secs;
    }

    /// Keep alive time, in seconds
    pub fn keep_alive(&self) -> (secs: u16)
        ensures
            secs == self@.keep_alive,
    {
        self.keep_alive
    }

    /// Client identifier
    pub fn client_id(&self) -> (id: String)
        ensures
            id@ == self@.client_id,
    {
        self.client_id.clone()
    }

    /// Set packet size limit (in bytes)
    pub fn set_max_packet_size(&mut self, sz: usize)
        ensures
            final(self)@ == (OptionsView { max_packet_size: sz, ..old(self)@ }),
    {
        self.max_packet_size = sz;
    }

    /// Maximum packet size
    pub fn max_packet_size(&self) -> (sz: usize)
        ensures
            sz == self@.max_packet_size,
    {
        self.max_packet_size
    }

    /// `clean_session = true` removes all the state from queues & instructs the broker
    /// to clean all the client state when client disconnects.
    ///
    /// When set `false`, broker will hold the client state and performs pending
    /// operations on the client when reconnection with same `client_id`
    /// happens. Local queue state is also held to retransmit packets after reconnection.
    pub fn set_clean_session(&mut self, clean_session: bool)
        ensures
            final(self)@ == (OptionsView { clean_session, ..old(self)@ }),
    {
        self.clean_session = clean_session;
    }

    /// Clean session
    pub fn clean_session(&self) -> (b: bool)
        ensures
            b == self@.clean_session,
    {
        self.clean_session
    }

    /// Username and password
    pub fn set_credentials(&mut self, username: String, password: String)
        ensures
            final(self)@ == (OptionsView {
                credentials: Some((username@, password@)),
                ..old(self)@
            }),
    {
        self.credentials = Some((username, password));
    }

    /// Security options
    pub fn credentials(&self) -> (c: Option<(String, String)>)
        ensures
            credentials_of(c) == self@.credentials,
    {
        match &self.credentials {
            Some((username, password)) => Some((username.clone(), password.clone())),
            None => None,
        }
    }

    /// Enables throttling and sets outoing message rate to the specified
    /// 'rate': the least delay between two requests, in milliseconds
    pub fn set_throttle(&mut self, millis: u64)
        ensures
            final(self)@ == (OptionsView { throttle: millis, ..old(self)@ }),
    {
        self.throttle = millis;
    }

    /// Outgoing message rate
    pub fn throttle(&self) -> (millis: u64)
        ensures
            millis == self@.throttle,
    {
        self.throttle
    }

    /// Set number of concurrent in flight messages
    pub fn set_inflight(&mut self, inflight: usize)
        ensures
            final(self)@ == (OptionsView { inflight, ..old(self)@ }),
    {
        self.inflight = inflight;
    }

    /// Number of concurrent in flight messages
    pub fn inflight(&self) -> (n: usize)
        ensures
            n == self@.inflight,
    {
        self.inflight
    }
}

} // verus!
