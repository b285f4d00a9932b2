//! Server endpoint core for a source-routed overlay network: packet model,
//! retransmission cache, topology router, message fragmentation and the
//! packet dispatch state machines of the chat and content servers.
pub mod packet;
pub mod cache;
pub mod router;
pub mod messages;
pub mod factory;
pub mod endpoint;
pub mod chat;
pub mod media;
pub mod content;
