//! Construction of the per-server protocol requests that the feature clients
//! send through a transport, with the coordinate translation redone per
//! server, and the release of a blocked caller when there is nothing to do.

use vstd::prelude::*;
use vstd::string::*;
use crate::types::{Document, EditorPosition, EditorRange, LspPosition, LspRange, ServerSettings};
use crate::position::{lsp_position, lsp_range, lsp_position_none, units_before};

verus! {

/// Relies on `url::Url::from_file_path` and the URL's string form: an
/// absolute path becomes a URL in the `file` scheme, a relative one becomes
/// nothing; which exact URL comes back is platform policy, but every success
/// starts with `file://`.
#[verifier::external_body]
fn file_uri(path: &str) -> (r: Option<String>)
    ensures
        r matches Some(u) ==> u@.len() >= 7 && u@.subrange(0, 7) == "file://"@,
{
    url::Url::from_file_path(path).ok().map(String::from)
}

/// One hover request ready to send: the target server, the document's URL,
/// and the position in that server's coordinates.
pub struct HoverRequest {
    pub server_id: u64,
    pub uri: String,
    pub position: LspPosition,
}

/// Build one hover request per eligible server, the cursor translated per
/// that server's offset encoding. `None` exactly when the cursor has no
/// translation (its line is not in the document, or too long) and someone
/// would need one.
pub fn build_hover_requests(
    servers: &Vec<ServerSettings>,
    targets: &Vec<usize>,
    uri: &str,
    doc: &Document,
    cursor: EditorPosition,
) -> (r: Option<Vec<HoverRequest>>)
    requires
        cursor.line >= 1,
        cursor.column >= 1,
        forall|i: int| 0 <= i < targets@.len() ==> (#[trigger] targets@[i]) < servers@.len(),
    ensures
        r matches Some(reqs) ==> ({
            &&& reqs@.len() == targets@.len()
            &&& forall|i: int|
                0 <= i < targets@.len() ==> ({
                    let s = servers@[targets@[i] as int];
                    &&& (#[trigger] reqs@[i]).server_id == s.id
                    &&& reqs@[i].uri@ == uri@
                    &&& reqs@[i].position.line == cursor.line - 1
                    &&& reqs@[i].position.character == units_before(
                        doc.lines@[cursor.line - 1]@,
                        s.offset_encoding,
                        cursor.column - 1,
                    )
                })
        }),
        r is None <==> (targets@.len() > 0 && lsp_position_none(doc, cursor)),
{
    let mut reqs: Vec<HoverRequest> = Vec::new();
    let mut i: usize = 0;
    let n = targets.len();
    while i < n
        invariant
            i <= n,
            n == targets@.len(),
            cursor.line >= 1,
            cursor.column >= 1,
            forall|x: int| 0 <= x < n ==> (#[trigger] targets@[x]) < servers@.len(),
            reqs@.len() == i,
            i > 0 ==> !lsp_position_none(doc, cursor),
            forall|x: int|
                0 <= x < i ==> ({
                    let s = servers@[targets@[x] as int];
                    &&& (#[trigger] reqs@[x]).server_id == s.id
                    &&& reqs@[x].uri@ == uri@
                    &&& reqs@[x].position.line == cursor.line - 1
                    &&& reqs@[x].position.character == units_before(
                        doc.lines@[cursor.line - 1]@,
                        s.offset_encoding,
                        cursor.column - 1,
                    )
                }),
        decreases n - i,
    {
        let s = &servers[targets[i]];
        match lsp_position(doc, cursor, s.offset_encoding) {
            None => {
                return None;
            },
            Some(p) => {
                reqs.push(HoverRequest { server_id: s.id, uri: String::from_str(uri), position: p });
            },
        }
        i = i + 1;
    }
    Some(reqs)
}

/// Build the hover requests straight from the buffer's file path. Whatever
/// URL the path converted to, every request carries that same URL; a path
/// that converts to no URL gives nothing to send.
pub fn build_hover_requests_for_path(
    servers: &Vec<ServerSettings>,
    targets: &Vec<usize>,
    path: &str,
    doc: &Document,
    cursor: EditorPosition,
) -> (r: Option<(String, Vec<HoverRequest>)>)
    requires
        cursor.line >= 1,
        cursor.column >= 1,
        forall|i: int| 0 <= i < targets@.len() ==> (#[trigger] targets@[i]) < servers@.len(),
    ensures
        r matches Some((u, reqs)) ==> ({
            &&& u@.len() >= 7 && u@.subrange(0, 7) == "file://"@
            &&& reqs@.len() == targets@.len()
            &&& forall|i: int|
                0 <= i < targets@.len() ==> ({
                    let s = servers@[targets@[i] as int];
                    &&& (#[trigger] reqs@[i]).server_id == s.id
                    &&& reqs@[i].uri@ == u@
                    &&& reqs@[i].position.line == cursor.line - 1
                    &&& reqs@[i].position.character == units_before(
                        doc.lines@[cursor.line - 1]@,
                        s.offset_encoding,
                        cursor.column - 1,
                    )
                })
        }),
{
    let uri = match file_uri(path) {
        None => {
            return None;
        },
        Some(u) => u,
    };
    match build_hover_requests(servers, targets, uri.as_str(), doc, cursor) {
        None => None,
        Some(reqs) => Some((uri, reqs)),
    }
}

/// Whether the editor range translates for this document at all.
pub open spec fn range_translates(doc: &Document, er: EditorRange) -> bool {
    !lsp_position_none(doc, er.start) && !lsp_position_none(doc, er.end)
}

/// The four coordinate equations of one translated range.
pub open spec fn range_translated(
    doc: &Document,
    er: EditorRange,
    enc: crate::types::OffsetEncoding,
    lr: LspRange,
) -> bool {
    &&& lr.start.line == er.start.line - 1
    &&& lr.start.character == units_before(doc.lines@[er.start.line - 1]@, enc, er.start.column - 1)
    &&& lr.end.line == er.end.line - 1
    &&& lr.end.character == units_before(doc.lines@[er.end.line - 1]@, enc, er.end.column - 1)
}

/// One range-formatting request ready to send: the single chosen server, the
/// document's URL, and the selections in that server's coordinates.
pub struct FormattingRequest {
    pub server_id: u64,
    pub uri: String,
    pub ranges: Vec<LspRange>,
}

/// Build the range-formatting request for the one chosen server, every
/// selection translated per its offset encoding. `None` exactly when some
/// selection has no translation.
pub fn build_formatting_request(
    server: &ServerSettings,
    uri: &str,
    doc: &Document,
    ranges: &Vec<EditorRange>,
) -> (r: Option<FormattingRequest>)
    requires
        forall|i: int|
            0 <= i < ranges@.len() ==> ({
                &&& (#[trigger] ranges@[i]).start.line >= 1
                &&& ranges@[i].start.column >= 1
                &&& ranges@[i].end.line >= 1
                &&& ranges@[i].end.column >= 1
            }),
    ensures
        r matches Some(req) ==> ({
            &&& req.server_id == server.id
            &&& req.uri@ == uri@
            &&& req.ranges@.len() == ranges@.len()
            &&& forall|i: int|
                0 <= i < ranges@.len() ==> range_translated(
                    doc,
                    #[trigger] ranges@[i],
                    server.offset_encoding,
                    req.ranges@[i],
                )
        }),
        r is None <==> exists|i: int|
            0 <= i < ranges@.len() && !range_translates(doc, #[trigger] ranges@[i]),
{
    let mut out: Vec<LspRange> = Vec::new();
    let mut i: usize = 0;
    let n = ranges.len();
    while i < n
        invariant
            i <= n,
            n == ranges@.len(),
            out@.len() == i,
            forall|x: int|
                0 <= x < n ==> ({
                    &&& (#[trigger] ranges@[x]).start.line >= 1
                    &&& ranges@[x].start.column >= 1
                    &&& ranges@[x].end.line >= 1
                    &&& ranges@[x].end.column >= 1
                }),
            forall|x: int| 0 <= x < i ==> range_translates(doc, #[trigger] ranges@[x]),
            forall|x: int|
                0 <= x < i ==> range_translated(
                    doc,
                    #[trigger] ranges@[x],
                    server.offset_encoding,
                    out@[x],
                ),
        decreases n - i,
    {
        match lsp_range(doc, ranges[i], server.offset_encoding) {
            None => {
                return None;
            },
            Some(lr) => {
                out.push(lr);
            },
        }
        i = i + 1;
    }
    Some(FormattingRequest { server_id: server.id, uri: String::from_str(uri), ranges: out })
}

/// Release a caller that may be blocked on the reply stream: the computed
/// editor command when there is one, else the explicit no-op acknowledgment,
/// so a blocked caller is always released.
pub fn release_or_nop(cmd: Option<String>) -> (r: String)
    ensures
        match cmd {
            Some(c) => r@ == c@,
            None => r@ == "nop"@,
        },
{
    match cmd {
        Some(c) => c,
        None => String::from_str("nop"),
    }
}

} // verus!
