//! Client-side runtime of an editor's Language Server Protocol integration:
//! wire framing of JSON-RPC messages, fan-out of editor requests to the
//! eligible servers, correlation of their replies, and merging of the results
//! into one editor-facing answer.

pub mod types;
pub mod aggregate;
pub mod framing;
pub mod message;
pub mod orchestrate;
pub mod position;
pub mod requests;
pub mod transport;
