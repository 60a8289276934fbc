//! The packet that takes filters back.

use super::header::{
    frame, take_body, write_remaining_length, FixedHeader, MAX_REMAINING_LEN,
};
use super::primitives::{
    lemma_string_round_trip, read_mqtt_string, read_u16, take_string, take_u16, wire_string,
    wire_u16, write_mqtt_string, MAX_FIELD_LEN,
};
use super::Error;
use crate::buffer::{bytes_contents, bytes_len, bytes_mut_contents, put_u16, put_u8};
use bytes::{Bytes, BytesMut};
use vstd::prelude::*;
use vstd::utf8::encode_utf8;

verus! {

/// Unsubscribe packet
#[derive(Debug, PartialEq)]
pub struct Unsubscribe {
    pub pkid: u16,
    pub topics: Vec<String>,
}

/// An unsubscribe as a value.
pub struct UnsubscribeView {
    pub pkid: u16,
    pub topics: Seq<Seq<char>>,
}

/// The paths of a list as values, in their order.
pub open spec fn path_views(topics: Seq<String>) -> Seq<Seq<char>> {
    Seq::new(topics.len(), |i: int| topics[i]@)
}

impl View for Unsubscribe {
    type V = UnsubscribeView;

    open spec fn view(&self) -> UnsubscribeView {
        UnsubscribeView { pkid: self.pkid, topics: path_views(self.topics@) }
    }
}

impl Clone for Unsubscribe {
    fn clone(&self) -> (r: Self)
        ensures
            r@ == self@,
    {
        let mut topics: Vec<String> = Vec::new();
        let mut i: usize = 0;
        while i < self.topics.len()
            invariant
                i <= self.topics.len(),
                topics@.len() == i,
                path_views(topics@) == path_views(self.topics@).take(i as int),
            decreases self.topics.len() - i,
        {
            let ghost before = topics@;
            let topic = self.topics[i].clone();
            topics.push(topic);
            assert forall|j: int| 0 <= j < i + 1 implies path_views(topics@)[j] == path_views(
                self.topics@,
            )[j] by {
                if j < i {
                    assert(path_views(before)[j] == path_views(self.topics@).take(i as int)[j]);
                }
            }
            assert(path_views(topics@) =~= path_views(self.topics@).take(i + 1));
            i += 1;
        }
        assert(path_views(self.topics@).take(i as int) =~= path_views(self.topics@));
        Unsubscribe { pkid: self.pkid, topics }
    }
}

/// Whether a path fits behind a two-byte length.
pub open spec fn path_fits(path: Seq<char>) -> bool {
    encode_utf8(path).len() <= MAX_FIELD_LEN
}

/// The bytes of a list of paths, one after the other.
pub open spec fn wire_paths(ts: Seq<Seq<char>>) -> Seq<u8>
    decreases ts.len(),
{
    if ts.len() == 0 {
        Seq::empty()
    } else {
        wire_paths(ts.drop_last()) + wire_string(ts.last())
    }
}

/// What a run of bytes says as a list of paths, or the complaint about the
/// first path that cannot be read.
pub open spec fn parse_paths(s: Seq<u8>) -> Result<Seq<Seq<char>>, Error>
    decreases s.len(),
{
    if s.len() == 0 {
        Ok(Seq::empty())
    } else {
        match take_string(s) {
            Err(e) => Err(e),
            Ok((path, rest)) => match parse_paths(rest) {
                Err(e) => Err(e),
                Ok(more) => Ok(seq![path] + more),
            },
        }
    }
}

impl UnsubscribeView {
    /// The body: the packet id, then the paths.
    pub open spec fn wire_body(self) -> Seq<u8> {
        wire_u16(self.pkid) + wire_paths(self.topics)
    }

    /// The frame of the unsubscribe.
    pub open spec fn wire(self) -> Seq<u8> {
        frame(0xA2, self.wire_body())
    }

    /// Whether the unsubscribe can be written: every path fits a length
    /// prefix and the body fits a frame.
    pub open spec fn encodable(self) -> bool {
        &&& forall|i: int| 0 <= i < self.topics.len() ==> path_fits(#[trigger] self.topics[i])
        &&& self.wire_body().len() <= MAX_REMAINING_LEN
    }
}

/// The bytes of a list of paths are at least as many as those of each
/// shorter list that it starts with.
pub proof fn lemma_wire_paths_prefix(ts: Seq<Seq<char>>, i: int)
    requires
        0 <= i <= ts.len(),
    ensures
        wire_paths(ts.take(i)).len() <= wire_paths(ts).len(),
    decreases ts.len() - i,
{
    if i < ts.len() {
        lemma_wire_paths_prefix(ts, i + 1);
        assert(ts.take(i + 1).drop_last() =~= ts.take(i));
    } else {
        assert(ts.take(i) =~= ts);
    }
}

/// The bytes of a list that has a first path are that path's bytes, then
/// the bytes of the others.
pub proof fn lemma_wire_paths_front(ts: Seq<Seq<char>>)
    requires
        ts.len() > 0,
    ensures
        wire_paths(ts) == wire_string(ts[0]) + wire_paths(ts.skip(1)),
    decreases ts.len(),
{
    if ts.len() == 1 {
        assert(ts.drop_last() =~= Seq::empty());
        assert(ts.skip(1) =~= Seq::empty());
        assert(wire_paths(ts) =~= wire_string(ts[0]) + wire_paths(ts.skip(1)));
    } else {
        lemma_wire_paths_front(ts.drop_last());
        assert(ts.drop_last().skip(1) =~= ts.skip(1).drop_last());
        assert(wire_paths(ts) =~= wire_string(ts[0]) + wire_paths(ts.skip(1)));
    }
}

/// A path written before a run of bytes that says a list is read as the
/// head of that list.
pub proof fn lemma_parse_paths_step(first: Seq<char>, more: Seq<u8>, others: Seq<Seq<char>>)
    requires
        path_fits(first),
        parse_paths(more) == Ok::<Seq<Seq<char>>, Error>(others),
    ensures
        parse_paths(wire_string(first) + more) == Ok::<Seq<Seq<char>>, Error>(
            seq![first] + others,
        ),
{
    lemma_string_round_trip(first, more);
    assert((wire_string(first) + more).len() > 0);
}

/// A list of paths that fit their length prefixes is read back from its
/// bytes as the same list.
pub proof fn lemma_paths_round_trip(ts: Seq<Seq<char>>)
    requires
        forall|i: int| 0 <= i < ts.len() ==> path_fits(#[trigger] ts[i]),
    ensures
        parse_paths(wire_paths(ts)) == Ok::<Seq<Seq<char>>, Error>(ts),
    decreases ts.len(),
{
    if ts.len() == 0 {
        assert(ts =~= Seq::empty());
    } else {
        let others = ts.skip(1);
        assert forall|i: int| 0 <= i < others.len() implies path_fits(#[trigger] others[i]) by {
            assert(others[i] == ts[i + 1]);
        }
        lemma_paths_round_trip(others);
        lemma_wire_paths_front(ts);
        lemma_parse_paths_step(ts[0], wire_paths(others), others);
        assert(seq![ts[0]] + others =~= ts);
    }
}

impl Unsubscribe {
    /// What the body of an unsubscribe says.
    pub open spec fn parse_body(body: Seq<u8>) -> Result<UnsubscribeView, Error> {
        match take_u16(body) {
            Err(e) => Err(e),
            Ok((pkid, rest)) => match parse_paths(rest) {
                Err(e) => Err(e),
                Ok(topics) => Ok(UnsubscribeView { pkid, topics }),
            },
        }
    }

    /// A request to unsubscribe from one filter; the packet id is assigned
    /// when the request is sent.
    pub fn new(topic: String) -> (r: Unsubscribe)
        ensures
            r@.pkid == 0,
            r@.topics == seq![topic@],
    {
        let mut topics = Vec::new();
        topics.push(topic);
        let unsubscribe = Unsubscribe { pkid: 0, topics };
        assert(unsubscribe@.topics =~= seq![topic@]);
        unsubscribe
    }

    /// Reads an unsubscribe out of its frame.
    pub fn assemble(fixed_header: FixedHeader, bytes: Bytes) -> (r: Result<Self, Error>)
        requires
            fixed_header.wf(),
            fixed_header.spec_frame_length() <= bytes_contents(bytes).len(),
        ensures
            match Self::parse_body(fixed_header.body(bytes_contents(bytes))) {
                Ok(v) => r is Ok && r->Ok_0@ == v,
                Err(e) => r is Err && r->Err_0 == e,
            },
    {
        let mut stream = take_body(&fixed_header, bytes);
        let pkid = match read_u16(&mut stream) {
            Ok(pkid) => pkid,
            Err(e) => {
                return Err(e);
            },
        };
        let ghost listed = bytes_contents(stream);

        let mut topics: Vec<String> = Vec::new();
        while bytes_len(&stream) > 0
            invariant
                take_u16(fixed_header.body(bytes_contents(bytes))) == Ok::<
                    (u16, Seq<u8>),
                    Error,
                >((pkid, listed)),
                parse_paths(listed) == match parse_paths(bytes_contents(stream)) {
                    Ok(more) => Ok::<Seq<Seq<char>>, Error>(path_views(topics@) + more),
                    Err(e) => Err(e),
                },
            decreases bytes_contents(stream).len(),
        {
            let ghost unread = bytes_contents(stream);
            let ghost before = path_views(topics@);
            let topic_filter = match read_mqtt_string(&mut stream) {
                Ok(topic_filter) => topic_filter,
                Err(e) => {
                    assert(parse_paths(unread) == Err::<Seq<Seq<char>>, Error>(e));
                    return Err(e);
                },
            };
            let ghost path = topic_filter@;
            topics.push(topic_filter);
            proof {
                assert(path_views(topics@) =~= before.push(path));
                if let Ok(more) = parse_paths(bytes_contents(stream)) {
                    assert(before + (seq![path] + more) =~= path_views(topics@) + more);
                }
            }
        }
        assert(path_views(topics@) + Seq::<Seq<char>>::empty() =~= path_views(topics@));
        Ok(Unsubscribe { pkid, topics })
    }

    /// Appends the unsubscribe's frame and returns its length. An
    /// unsubscribe too long for the wire format is refused and nothing is
    /// written.
    pub fn write(&self, stream: &mut BytesMut) -> (r: Result<usize, Error>)
        requires
            self@.encodable() ==> bytes_mut_contents(*old(stream)).len() + self@.wire().len()
                <= isize::MAX,
        ensures
            match r {
                Ok(n) => self@.encodable() && n == self@.wire().len() && bytes_mut_contents(
                    *final(stream),
                ) == bytes_mut_contents(*old(stream)) + self@.wire(),
                Err(e) => !self@.encodable() && e == Error::PayloadTooLong && bytes_mut_contents(
                    *final(stream),
                ) == bytes_mut_contents(*old(stream)),
            },
    {
        let ghost paths = path_views(self.topics@);
        let mut remaining_len: usize = 2;
        let mut i: usize = 0;
        while i < self.topics.len()
            invariant
                i <= self.topics.len(),
                paths == path_views(self.topics@),
                remaining_len == 2 + wire_paths(paths.take(i as int)).len(),
                remaining_len <= MAX_REMAINING_LEN,
                forall|j: int| 0 <= j < i ==> path_fits(#[trigger] paths[j]),
            decreases self.topics.len() - i,
        {
            let path_len = self.topics[i].as_str().as_bytes().len();
            proof {
                assert(paths.take(i + 1).drop_last() =~= paths.take(i as int));
                assert(paths.take(i + 1).last() == paths[i as int]);
                assert(path_len == encode_utf8(paths[i as int]).len());
                lemma_wire_paths_prefix(paths, i + 1);
            }
            if path_len > MAX_FIELD_LEN {
                assert(!path_fits(paths[i as int]));
                return Err(Error::PayloadTooLong);
            }
            if remaining_len + path_len + 2 > MAX_REMAINING_LEN {
                return Err(Error::PayloadTooLong);
            }
            remaining_len = remaining_len + path_len + 2;
            i += 1;
        }
        let ghost start = bytes_mut_contents(*stream);
        proof {
            assert(paths.take(i as int) =~= paths);
            super::header::lemma_pow128_4();
            super::header::lemma_varint_round_trip(remaining_len as int, Seq::empty(), 4);
            assert(self@.wire_body().len() == remaining_len);
        }
        put_u8(stream, 0xA2);
        let count = write_remaining_length(stream, remaining_len);
        put_u16(stream, self.pkid);
        let ghost head = bytes_mut_contents(*stream);
        let mut i: usize = 0;
        while i < self.topics.len()
            invariant
                i <= self.topics.len(),
                paths == path_views(self.topics@),
                bytes_mut_contents(*stream) == head + wire_paths(paths.take(i as int)),
                head.len() + wire_paths(paths).len() <= isize::MAX,
                forall|j: int| 0 <= j < paths.len() ==> path_fits(#[trigger] paths[j]),
            decreases self.topics.len() - i,
        {
            proof {
                assert(paths.take(i + 1).drop_last() =~= paths.take(i as int));
                assert(paths.take(i + 1).last() == paths[i as int]);
                assert(paths[i as int] == self.topics[i as int]@);
                assert(path_fits(paths[i as int]));
                lemma_wire_paths_prefix(paths, i + 1);
            }
            write_mqtt_string(stream, self.topics[i].as_str());
            assert(bytes_mut_contents(*stream) =~= head + wire_paths(paths.take(i + 1)));
            i += 1;
        }
        proof {
            assert(paths.take(i as int) =~= paths);
            assert(bytes_mut_contents(*stream) =~= start + self@.wire());
        }
        Ok(1 + count + remaining_len)
    }
}

/// An unsubscribe that can be written is read back from its body as the
/// same.
pub proof fn lemma_unsubscribe_round_trip(p: UnsubscribeView)
    requires
        p.encodable(),
    ensures
        Unsubscribe::parse_body(p.wire_body()) == Ok::<UnsubscribeView, Error>(p),
{
    super::primitives::lemma_u16_round_trip(p.pkid, wire_paths(p.topics));
    lemma_paths_round_trip(p.topics);
}

} // verus!
