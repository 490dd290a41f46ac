//! The data model shared by the transport, orchestration and aggregation
//! layers: server configuration, editor and protocol coordinates, and the
//! messages that cross a transport.

use vstd::prelude::*;

verus! {

/// Width of the code units a server uses to measure text positions.
#[derive(Clone, Copy, PartialEq, Eq, Structural, Debug)]
pub enum OffsetEncoding {
    Utf8,
    Utf16,
    Utf32,
}

/// A request kind a server may declare support for at startup.
#[derive(Clone, Copy, PartialEq, Eq, Structural, Debug)]
pub enum Capability {
    Hover,
    RangeFormatting,
    Completion,
    Definition,
}

/// Immutable per-server configuration, fixed once the server is started.
pub struct ServerSettings {
    /// Unique within the session, stable for the server's lifetime.
    pub id: u64,
    pub name: String,
    /// Project root this instance was started for.
    pub root: String,
    pub offset_encoding: OffsetEncoding,
    /// Request kinds the server declared at startup.
    pub capabilities: Vec<Capability>,
}

/// 1-based editor coordinates; the column counts bytes.
#[derive(Clone, Copy, PartialEq, Eq, Structural, Debug)]
pub struct EditorPosition {
    pub line: u32,
    pub column: u32,
}

/// A selection in editor coordinates.
#[derive(Clone, Copy, PartialEq, Eq, Structural, Debug)]
pub struct EditorRange {
    pub start: EditorPosition,
    pub end: EditorPosition,
}

/// 0-based protocol coordinates; the character counts code units in the
/// server's offset encoding.
#[derive(Clone, Copy, PartialEq, Eq, Structural, Debug)]
pub struct LspPosition {
    pub line: u32,
    pub character: u32,
}

/// A range in protocol coordinates.
#[derive(Clone, Copy, PartialEq, Eq, Structural, Debug)]
pub struct LspRange {
    pub start: LspPosition,
    pub end: LspPosition,
}

/// One reported problem, kept per buffer and filtered into hover output.
pub struct Diagnostic {
    pub range: LspRange,
    pub message: String,
}

/// An inline annotation tied to a document range.
pub struct CodeLens {
    pub range: LspRange,
    /// Title of the resolved command, if the lens was resolved.
    pub title: Option<String>,
}

/// An editor buffer's text, one entry per line, without the line terminators.
pub struct Document {
    pub lines: Vec<String>,
}

/// The envelope of one editor-originated request.
pub struct EditorMeta {
    pub session: String,
    pub client: String,
    /// Path of the buffer the request is about.
    pub buffile: String,
    /// Explicit server choice by the caller, if any.
    pub server: Option<String>,
    /// Present when the editor blocks on the reply; such a caller must always
    /// be released, even by a no-op acknowledgment.
    pub fifo: Option<String>,
}

/// One message crossing a transport, already parsed off the wire.
pub enum ServerMessage {
    /// A call or notification; the body is kept as JSON text.
    Request { payload: String },
    /// A reply to an earlier call; `id` is its correlation id when the wire
    /// carried a numeric one.
    Response { id: Option<u64>, payload: String },
}

} // verus!
