//! The router's messages in words, for logs.
//!
//! None of the contracts in this file is proved. The text that std's
//! formatting makes of given values is always the same text, and each
//! contract gives that text a name; what the text holds is not stated.

use super::ConnectionType;
use vstd::prelude::*;

verus! {

/// The text that stands for a data request with these values.
pub uninterp spec fn data_request_text(
    topic: Seq<char>,
    cursors: Seq<(u64, u64)>,
    max_count: usize,
) -> Seq<char>;

/// The text that stands for a batch of data with these values.
pub uninterp spec fn data_text(
    topic: Seq<char>,
    cursors: Seq<(u64, u64)>,
    size: usize,
    count: usize,
) -> Seq<char>;

/// The text that stands for a connection of a device with this client id,
/// or of the replica with this number.
pub uninterp spec fn kind_text(device: Option<Seq<char>>, replica: Option<usize>) -> Seq<char>;

/// The client id of a device's connection.
pub open spec fn device_of(kind: ConnectionType) -> Option<Seq<char>> {
    match kind {
        ConnectionType::Device(id) => Some(id@),
        ConnectionType::Replicator(_) => None,
    }
}

/// The number of a replica's connection.
pub open spec fn replica_number(kind: ConnectionType) -> Option<usize> {
    match kind {
        ConnectionType::Device(_) => None,
        ConnectionType::Replicator(replica) => Some(replica),
    }
}

/// `format!` on a data request's topic, cursors and count: the topic as it
/// is, the cursors as a list of pairs, the count as a number.
#[verifier::external_body]
pub(crate) fn format_data_request(topic: &str, cursors: &[(u64, u64); 3], max_count: usize) -> (text:
    String)
    ensures
        text@ == data_request_text(topic@, cursors@, max_count),
{
    format!("Topic = {}, cursors = {:?}, max_count = {}", topic, cursors, max_count)
}

/// `format!` on a batch's topic, cursors, size and number of payloads: the
/// topic in quotes, the cursors as a list of pairs, the two numbers.
#[verifier::external_body]
pub(crate) fn format_data(topic: &str, cursors: &[(u64, u64); 3], size: usize, count: usize) -> (text:
    String)
    ensures
        text@ == data_text(topic@, cursors@, size, count),
{
    format!(
        "Topic = {:?}, Cursors = {:?}, Payload size = {}, Payload count = {}",
        topic, cursors, size, count
    )
}

/// `format!` on the kind of a connection, through the kind's derived
/// `Debug`.
#[verifier::external_body]
pub(crate) fn format_kind(kind: &ConnectionType) -> (text: String)
    ensures
        text@ == kind_text(device_of(*kind), replica_number(*kind)),
{
    format!("{:?}", kind)
}

} // verus!
