//! Message shapes exchanged with the worker process.
//!
//! The worker's protocol is JSON over newline-delimited lines. Every payload
//! that this core does not interpret (a Michelson expression, an error value)
//! is carried as the text of one JSON value; the core never looks inside it.

use vstd::prelude::*;

verus! {

/// The text of one JSON value holding a Michelson expression. The core treats
/// it as opaque; the shell that talks to callers converts real JSON values to
/// and from this text.
pub type MichelsonV1Expression = String;

/// A key into a contract's big map, sent as a JSON string.
pub type BigMapKey = String;

/// One outbound command: a fresh correlation identifier plus the request
/// payload. Exactly one such envelope is written per line.
#[derive(Clone, Debug)]
pub struct BridgeRequest {
    pub id: u64,
    pub content: RequestContent,
}

/// One inbound reply: the identifier of the request it answers plus the text
/// of the JSON value the worker produced. Exactly one per line read.
#[derive(Clone, Debug)]
pub struct BridgeResponse {
    pub id: u64,
    pub content: String,
}

/// The request payload, tagged on the wire by a `kind` field whose value is
/// the variant's name.
#[derive(Clone, Debug)]
#[allow(non_camel_case_types)]
pub enum RequestContent {
    listen {
        rpc_node: String,
        confirmation: i64,
        destination: String,
    },
    subscribe {
        rpc_node: String,
        confirmation: i64,
    },
    transaction {
        rpc_node: String,
        secret: String,
        confirmation: i64,
        destination: String,
        entrypoint: String,
        payload: Vec<MichelsonV1Expression>,
    },
    storage {
        rpc_node: String,
        confirmation: i64,
        destination: String,
    },
    big_map_keys {
        rpc_node: String,
        confirmation: i64,
        destination: String,
        keys: Vec<BigMapKey>,
    },
}

/// Outcome of a transaction submission, tagged on the wire by a `status`
/// field. The error payload may be a string or a structured value, so it is
/// kept as JSON text.
#[derive(Clone, Debug)]
#[allow(non_camel_case_types)]
pub enum TransactionResponse {
    applied { hash: String },
    failed { hash: String },
    skipped { hash: String },
    backtracked { hash: String },
    unknown { hash: String },
    error { error: String },
}

/// Outcome of a storage or big-map query, tagged on the wire by a `status`
/// field. The storage itself is an uninterpreted Michelson expression.
#[derive(Clone, Debug)]
#[allow(non_camel_case_types)]
pub enum StorageResponse {
    success { storage: MichelsonV1Expression },
    error { error: String },
}

/// A transaction as delivered on a subscription stream.
#[derive(Clone, Debug)]
pub struct TransactionMessage {
    pub hash: String,
    pub transactions: Vec<Transaction>,
}

/// One call within a [`TransactionMessage`].
#[derive(Clone, Debug)]
pub struct Transaction {
    pub entrypoint: String,
    pub value: MichelsonV1Expression,
}

} // verus!
