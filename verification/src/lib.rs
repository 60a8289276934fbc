//! MQTT 3.1.1 building blocks: the packet codec, the client's connection
//! state machine and the router with its per-topic commit logs.

pub mod buffer;
pub mod codec;
pub mod client;
pub mod router;
