//! The packet that asks for the messages of the topics that its filters match.

use super::header::{
    frame, take_body, write_remaining_length, FixedHeader, MAX_REMAINING_LEN,
};
use super::primitives::{
    lemma_string_round_trip, read_mqtt_string, read_u16, read_u8, take_string, take_u16,
    wire_string, wire_u16, write_mqtt_string, MAX_FIELD_LEN,
};
use super::{qos, qos_num, qos_of, qos_to_u8, Error, QoS};
use crate::buffer::{bytes_contents, bytes_len, bytes_mut_contents, put_u16, put_u8};
use bytes::{Bytes, BytesMut};
use vstd::prelude::*;
use vstd::utf8::encode_utf8;

verus! {

/// Subscription packet
#[derive(Debug, PartialEq)]
pub struct Subscribe {
    pub pkid: u16,
    pub topics: Vec<SubscribeTopic>,
}

///  Subscription filter
#[derive(Debug, PartialEq)]
pub struct SubscribeTopic {
    pub topic_path: String,
    pub qos: QoS,
}

/// A subscription filter as a value.
pub struct SubscribeTopicView {
    pub topic_path: Seq<char>,
    pub qos: QoS,
}

/// A subscribe as a value.
pub struct SubscribeView {
    pub pkid: u16,
    pub topics: Seq<SubscribeTopicView>,
}

impl View for SubscribeTopic {
    type V = SubscribeTopicView;

    open spec fn view(&self) -> SubscribeTopicView {
        SubscribeTopicView { topic_path: self.topic_path@, qos: self.qos }
    }
}

impl Clone for SubscribeTopic {
    fn clone(&self) -> (r: Self)
        ensures
            r@ == self@,
    {
        SubscribeTopic { topic_path: self.topic_path.clone(), qos: self.qos }
    }
}

/// The filters of a list as values, in their order.
pub open spec fn filter_views(topics: Seq<SubscribeTopic>) -> Seq<SubscribeTopicView> {
    Seq::new(topics.len(), |i: int| topics[i]@)
}

impl View for Subscribe {
    type V = SubscribeView;

    open spec fn view(&self) -> SubscribeView {
        SubscribeView { pkid: self.pkid, topics: filter_views(self.topics@) }
    }
}

impl Clone for Subscribe {
    fn clone(&self) -> (r: Self)
        ensures
            r@ == self@,
    {
        let mut topics: Vec<SubscribeTopic> = Vec::new();
        let mut i: usize = 0;
        while i < self.topics.len()
            invariant
                i <= self.topics.len(),
                topics@.len() == i,
                filter_views(topics@) == filter_views(self.topics@).take(i as int),
            decreases self.topics.len() - i,
        {
            let ghost before = topics@;
            let topic = self.topics[i].clone();
            topics.push(topic);
            assert forall|j: int| 0 <= j < i + 1 implies filter_views(topics@)[j] == filter_views(
                self.topics@,
            )[j] by {
                if j < i {
                    assert(filter_views(before)[j] == filter_views(self.topics@).take(i as int)[j]);
                }
            }
            assert(filter_views(topics@) =~= filter_views(self.topics@).take(i + 1));
            i += 1;
        }
        assert(filter_views(self.topics@).take(i as int) =~= filter_views(self.topics@));
        Subscribe { pkid: self.pkid, topics }
    }
}

/// Whether a filter's path fits behind a two-byte length.
pub open spec fn filter_fits(t: SubscribeTopicView) -> bool {
    encode_utf8(t.topic_path).len() <= MAX_FIELD_LEN
}

/// The bytes of one filter: its path, then a byte with the requested
/// quality of service.
pub open spec fn wire_filter(t: SubscribeTopicView) -> Seq<u8> {
    wire_string(t.topic_path).push(qos_num(t.qos))
}

/// The bytes of a list of filters, one after the other.
pub open spec fn wire_filters(ts: Seq<SubscribeTopicView>) -> Seq<u8>
    decreases ts.len(),
{
    if ts.len() == 0 {
        Seq::empty()
    } else {
        wire_filters(ts.drop_last()) + wire_filter(ts.last())
    }
}

/// What a run of bytes says as a list of filters, or the complaint about
/// the first filter that cannot be read.
pub open spec fn parse_filters(s: Seq<u8>) -> Result<Seq<SubscribeTopicView>, Error>
    decreases s.len(),
{
    if s.len() == 0 {
        Ok(Seq::empty())
    } else {
        match take_string(s) {
            Err(e) => Err(e),
            Ok((topic_path, rest)) => if rest.len() < 1 {
                Err(Error::MalformedPacket)
            } else {
                match qos_of(rest[0] % 4) {
                    None => Err(Error::InvalidQoS(rest[0] % 4)),
                    Some(qos) => match parse_filters(rest.skip(1)) {
                        Err(e) => Err(e),
                        Ok(more) => Ok(seq![SubscribeTopicView { topic_path, qos }] + more),
                    },
                }
            },
        }
    }
}

impl SubscribeView {
    /// The body: the packet id, then the filters.
    pub open spec fn wire_body(self) -> Seq<u8> {
        wire_u16(self.pkid) + wire_filters(self.topics)
    }

    /// The frame of the subscribe.
    pub open spec fn wire(self) -> Seq<u8> {
        frame(0x82, self.wire_body())
    }

    /// Whether the subscribe can be written: every path fits a length
    /// prefix and the body fits a frame.
    pub open spec fn encodable(self) -> bool {
        &&& forall|i: int| 0 <= i < self.topics.len() ==> filter_fits(#[trigger] self.topics[i])
        &&& self.wire_body().len() <= MAX_REMAINING_LEN
    }
}

/// The bytes of a list of filters start with the bytes of each shorter
/// list that it starts with.
pub proof fn lemma_wire_filters_prefix(ts: Seq<SubscribeTopicView>, i: int)
    requires
        0 <= i <= ts.len(),
    ensures
        wire_filters(ts.take(i)).len() <= wire_filters(ts).len(),
    decreases ts.len() - i,
{
    if i < ts.len() {
        lemma_wire_filters_prefix(ts, i + 1);
        assert(ts.take(i + 1).drop_last() =~= ts.take(i));
    } else {
        assert(ts.take(i) =~= ts);
    }
}

/// The bytes of a list that has a first filter are that filter's bytes,
/// then the bytes of the others.
pub proof fn lemma_wire_filters_front(ts: Seq<SubscribeTopicView>)
    requires
        ts.len() > 0,
    ensures
        wire_filters(ts) == wire_filter(ts[0]) + wire_filters(ts.skip(1)),
    decreases ts.len(),
{
    if ts.len() == 1 {
        assert(ts.drop_last() =~= Seq::empty());
        assert(ts.skip(1) =~= Seq::empty());
        assert(wire_filters(ts) =~= wire_filter(ts[0]) + wire_filters(ts.skip(1)));
    } else {
        lemma_wire_filters_front(ts.drop_last());
        assert(ts.drop_last().skip(1) =~= ts.skip(1).drop_last());
        assert(wire_filters(ts) =~= wire_filter(ts[0]) + wire_filters(ts.skip(1)));
    }
}

/// A filter written before a run of bytes that says a list is read as the
/// head of that list.
pub proof fn lemma_parse_filters_step(
    first: SubscribeTopicView,
    more: Seq<u8>,
    others: Seq<SubscribeTopicView>,
)
    requires
        filter_fits(first),
        parse_filters(more) == Ok::<Seq<SubscribeTopicView>, Error>(others),
    ensures
        parse_filters(wire_filter(first) + more) == Ok::<Seq<SubscribeTopicView>, Error>(
            seq![first] + others,
        ),
{
    let path = wire_string(first.topic_path);
    let tail = seq![qos_num(first.qos)] + more;
    let s = wire_filter(first) + more;
    assert(s == path + tail) by {
        assert(path.push(qos_num(first.qos)) + more =~= path + tail);
    }
    assert(take_string(s) == Ok::<(Seq<char>, Seq<u8>), Error>((first.topic_path, tail))) by {
        lemma_string_round_trip(first.topic_path, tail);
    }
    assert(tail.len() >= 1 && tail[0] == qos_num(first.qos));
    assert(qos_of(tail[0] % 4) == Some(first.qos));
    assert(tail.skip(1) == more) by {
        assert(tail.skip(1) =~= more);
    }
    assert(s.len() > 0);
}

/// A list of filters whose paths fit their length prefixes is read back
/// from its bytes as the same list.
pub proof fn lemma_filters_round_trip(ts: Seq<SubscribeTopicView>)
    requires
        forall|i: int| 0 <= i < ts.len() ==> filter_fits(#[trigger] ts[i]),
    ensures
        parse_filters(wire_filters(ts)) == Ok::<Seq<SubscribeTopicView>, Error>(ts),
    decreases ts.len(),
{
    if ts.len() == 0 {
        assert(ts =~= Seq::empty());
    } else {
        let others = ts.skip(1);
        assert forall|i: int| 0 <= i < others.len() implies filter_fits(#[trigger] others[i]) by {
            assert(others[i] == ts[i + 1]);
        }
        lemma_filters_round_trip(others);
        lemma_wire_filters_front(ts);
        lemma_parse_filters_step(ts[0], wire_filters(others), others);
        assert(seq![ts[0]] + others =~= ts);
    }
}

impl Subscribe {
    /// What the body of a subscribe says.
    pub open spec fn parse_body(body: Seq<u8>) -> Result<SubscribeView, Error> {
        match take_u16(body) {
            Err(e) => Err(e),
            Ok((pkid, rest)) => match parse_filters(rest) {
                Err(e) => Err(e),
                Ok(topics) => Ok(SubscribeView { pkid, topics }),
            },
        }
    }

    /// A request to subscribe to one filter; the packet id is assigned
    /// when the request is sent.
    pub fn new(topic: String, qos: QoS) -> (r: Subscribe)
        ensures
            r@.pkid == 0,
            r@.topics == seq![SubscribeTopicView { topic_path: topic@, qos }],
    {
        let mut topics = Vec::new();
        topics.push(SubscribeTopic { topic_path: topic, qos });
        let subscribe = Subscribe { pkid: 0, topics };
        assert(subscribe@.topics =~= seq![SubscribeTopicView { topic_path: topic@, qos }]);
        subscribe
    }

    /// Reads a subscribe out of its frame.
    pub fn assemble(fixed_header: FixedHeader, bytes: Bytes) -> (r: Result<Self, Error>)
        requires
            fixed_header.wf(),
            fixed_header.spec_frame_length() <= bytes_contents(bytes).len(),
        ensures
            match Self::parse_body(fixed_header.body(bytes_contents(bytes))) {
                Ok(v) => r is Ok && r->Ok_0@ == v,
                Err(e) => r is Err && r->Err_0 == e,
            },
    {
        let mut stream = take_body(&fixed_header, bytes);
        let pkid = match read_u16(&mut stream) {
            Ok(pkid) => pkid,
            Err(e) => {
                return Err(e);
            },
        };
        let ghost listed = bytes_contents(stream);

        // variable header size = 2 (packet identifier)
        let mut topics: Vec<SubscribeTopic> = Vec::new();
        while bytes_len(&stream) > 0
            invariant
                take_u16(fixed_header.body(bytes_contents(bytes))) == Ok::<
                    (u16, Seq<u8>),
                    Error,
                >((pkid, listed)),
                parse_filters(listed) == match parse_filters(bytes_contents(stream)) {
                    Ok(more) => Ok::<Seq<SubscribeTopicView>, Error>(filter_views(topics@) + more),
                    Err(e) => Err(e),
                },
            decreases bytes_contents(stream).len(),
        {
            let ghost unread = bytes_contents(stream);
            let ghost before = filter_views(topics@);
            let topic_path = match read_mqtt_string(&mut stream) {
                Ok(topic_path) => topic_path,
                Err(e) => {
                    assert(parse_filters(unread) == Err::<Seq<SubscribeTopicView>, Error>(e));
                    return Err(e);
                },
            };
            let options = match read_u8(&mut stream) {
                Ok(options) => options,
                Err(e) => {
                    assert(parse_filters(unread) == Err::<Seq<SubscribeTopicView>, Error>(e));
                    return Err(e);
                },
            };
            assert(options & 0b0000_0011 == options % 4) by (bit_vector);
            let requested_qos = match qos(options & 0b0000_0011) {
                Ok(requested_qos) => requested_qos,
                Err(e) => {
                    assert(parse_filters(unread) == Err::<Seq<SubscribeTopicView>, Error>(e));
                    return Err(e);
                },
            };
            let ghost filter = SubscribeTopicView { topic_path: topic_path@, qos: requested_qos };
            topics.push(SubscribeTopic { topic_path, qos: requested_qos });
            proof {
                assert(filter_views(topics@) =~= before.push(filter));
                if let Ok(more) = parse_filters(bytes_contents(stream)) {
                    assert(before + (seq![filter] + more) =~= filter_views(topics@) + more);
                }
            }
        }
        assert(filter_views(topics@) + Seq::<SubscribeTopicView>::empty() =~= filter_views(
            topics@,
        ));
        Ok(Subscribe { pkid, topics })
    }

    /// Appends the subscribe's frame and returns its length. A subscribe
    /// too long for the wire format is refused and nothing is written.
    pub fn write(&self, stream: &mut BytesMut) -> (r: Result<usize, Error>)
        requires
            self@.encodable() ==> bytes_mut_contents(*old(stream)).len() + self@.wire().len()
                <= isize::MAX,
        ensures
            match r {
                Ok(n) => self@.encodable() && n == self@.wire().len() && bytes_mut_contents(
                    *final(stream),
                ) == bytes_mut_contents(*old(stream)) + self@.wire(),
                Err(e) => !self@.encodable() && e == Error::PayloadTooLong && bytes_mut_contents(
                    *final(stream),
                ) == bytes_mut_contents(*old(stream)),
            },
    {
        let ghost filters = filter_views(self.topics@);
        let mut remaining_len: usize = 2;
        let mut i: usize = 0;
        while i < self.topics.len()
            invariant
                i <= self.topics.len(),
                filters == filter_views(self.topics@),
                remaining_len == 2 + wire_filters(filters.take(i as int)).len(),
                remaining_len <= MAX_REMAINING_LEN,
                forall|j: int| 0 <= j < i ==> filter_fits(#[trigger] filters[j]),
            decreases self.topics.len() - i,
        {
            let path_len = self.topics[i].topic_path.as_str().as_bytes().len();
            proof {
                assert(filters.take(i + 1).drop_last() =~= filters.take(i as int));
                assert(filters.take(i + 1).last() == filters[i as int]);
                assert(path_len == encode_utf8(filters[i as int].topic_path).len());
                lemma_wire_filters_prefix(filters, i + 1);
            }
            if path_len > MAX_FIELD_LEN {
                return Err(Error::PayloadTooLong);
            }
            if remaining_len + path_len + 3 > MAX_REMAINING_LEN {
                return Err(Error::PayloadTooLong);
            }
            remaining_len = remaining_len + path_len + 3;
            i += 1;
        }
        let ghost start = bytes_mut_contents(*stream);
        proof {
            assert(filters.take(i as int) =~= filters);
            super::header::lemma_pow128_4();
            super::header::lemma_varint_round_trip(remaining_len as int, Seq::empty(), 4);
            assert(self@.wire_body().len() == remaining_len);
        }
        put_u8(stream, 0x82);
        let count = write_remaining_length(stream, remaining_len);
        put_u16(stream, self.pkid);
        let ghost head = bytes_mut_contents(*stream);
        let mut i: usize = 0;
        while i < self.topics.len()
            invariant
                i <= self.topics.len(),
                filters == filter_views(self.topics@),
                bytes_mut_contents(*stream) == head + wire_filters(filters.take(i as int)),
                head.len() + wire_filters(filters).len() <= isize::MAX,
                forall|j: int| 0 <= j < filters.len() ==> filter_fits(#[trigger] filters[j]),
            decreases self.topics.len() - i,
        {
            proof {
                assert(filters.take(i + 1).drop_last() =~= filters.take(i as int));
                assert(filters.take(i + 1).last() == filters[i as int]);
                assert(filters[i as int].topic_path == self.topics[i as int].topic_path@);
                assert(filter_fits(filters[i as int]));
                lemma_wire_filters_prefix(filters, i + 1);
            }
            let ghost before = bytes_mut_contents(*stream);
            write_mqtt_string(stream, self.topics[i].topic_path.as_str());
            put_u8(stream, qos_to_u8(self.topics[i].qos));
            assert(bytes_mut_contents(*stream) =~= before + wire_filter(filters[i as int]));
            assert(bytes_mut_contents(*stream) =~= head + wire_filters(filters.take(i + 1)));
            i += 1;
        }
        proof {
            assert(filters.take(i as int) =~= filters);
            assert(bytes_mut_contents(*stream) =~= start + self@.wire());
        }
        Ok(1 + count + remaining_len)
    }
}

/// A subscribe that can be written is read back from its body as the same.
pub proof fn lemma_subscribe_round_trip(p: SubscribeView)
    requires
        p.encodable(),
    ensures
        Subscribe::parse_body(p.wire_body()) == Ok::<SubscribeView, Error>(p),
{
    super::primitives::lemma_u16_round_trip(p.pkid, wire_filters(p.topics));
    lemma_filters_round_trip(p.topics);
}

} // verus!
