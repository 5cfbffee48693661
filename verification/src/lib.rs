//! Core of a small group-messaging server: the wire records exchanged with
//! clients, a line-oriented codec for them, the registry of named groups,
//! the bounded fan-out backlog each group keeps for its subscribers, and the
//! per-request decision logic of a connection handler.
use vstd::prelude::*;

pub mod client;
pub mod codec;
pub mod connection;
pub mod group;
pub mod registry;

verus! {

/// A request sent by a client: subscribe to a group, or publish a message.
#[derive(Debug, Clone, PartialEq, Eq)]
pub enum FromClient {
    Join { group_name: String },
    Post { group_name: String, message: String },
}

/// A record sent to a client: a delivered chat message, or an in-band error
/// (unknown group, lag notice).
#[derive(Debug, Clone, PartialEq, Eq)]
pub enum FromServer {
    Message { group_name: String, message: String },
    Error(String),
}

/// Two client requests carry the same content (same variant, same text).
pub open spec fn client_eq(a: FromClient, b: FromClient) -> bool {
    match (a, b) {
        (
            FromClient::Join { group_name: g1 },
            FromClient::Join { group_name: g2 },
        ) => g1@ == g2@,
        (
            FromClient::Post { group_name: g1, message: m1 },
            FromClient::Post { group_name: g2, message: m2 },
        ) => g1@ == g2@ && m1@ == m2@,
        _ => false,
    }
}

/// Two server records carry the same content (same variant, same text).
pub open spec fn server_eq(a: FromServer, b: FromServer) -> bool {
    match (a, b) {
        (
            FromServer::Message { group_name: g1, message: m1 },
            FromServer::Message { group_name: g2, message: m2 },
        ) => g1@ == g2@ && m1@ == m2@,
        (FromServer::Error(e1), FromServer::Error(e2)) => e1@ == e2@,
        _ => false,
    }
}

} // verus!
