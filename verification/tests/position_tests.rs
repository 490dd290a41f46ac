use lsp_dispatch::position::{lsp_character, lsp_position, lsp_range, parse_selection_desc};
use lsp_dispatch::requests::{
    build_formatting_request, build_hover_requests, build_hover_requests_for_path, release_or_nop,
};
use lsp_dispatch::transport::{
    spawn_error_message, LanguageServerTransport, ShutdownAction, ShutdownPhase, SpawnErrorKind,
};
use lsp_dispatch::types::{
    Capability, Document, EditorPosition, EditorRange, OffsetEncoding, ServerSettings,
};

fn doc(lines: Vec<&str>) -> Document {
    Document { lines: lines.into_iter().map(|l| l.to_string()).collect() }
}

fn server(id: u64, enc: OffsetEncoding) -> ServerSettings {
    ServerSettings {
        id,
        name: "srv".to_string(),
        root: "/".to_string(),
        offset_encoding: enc,
        capabilities: vec![Capability::Hover, Capability::RangeFormatting],
    }
}

#[test]
fn ascii_columns_translate_one_to_one() {
    assert_eq!(lsp_character("hello", 1, OffsetEncoding::Utf8), 0);
    assert_eq!(lsp_character("hello", 4, OffsetEncoding::Utf8), 3);
    assert_eq!(lsp_character("hello", 4, OffsetEncoding::Utf16), 3);
    assert_eq!(lsp_character("hello", 4, OffsetEncoding::Utf32), 3);
}

#[test]
fn multibyte_characters_count_per_encoding() {
    // 'é' is two UTF-8 bytes, one UTF-16 unit, one UTF-32 unit.
    let line = "aéb";
    // Column 4 is the byte offset just past the two-byte 'é'.
    assert_eq!(lsp_character(line, 4, OffsetEncoding::Utf8), 3);
    assert_eq!(lsp_character(line, 4, OffsetEncoding::Utf16), 2);
    assert_eq!(lsp_character(line, 4, OffsetEncoding::Utf32), 2);
    // An emoji is four UTF-8 bytes and two UTF-16 units.
    let line = "a😀b";
    assert_eq!(lsp_character(line, 6, OffsetEncoding::Utf8), 5);
    assert_eq!(lsp_character(line, 6, OffsetEncoding::Utf16), 3);
    assert_eq!(lsp_character(line, 6, OffsetEncoding::Utf32), 2);
}

#[test]
fn positions_translate_to_zero_based_lines() {
    let d = doc(vec!["first", "second"]);
    let p = lsp_position(&d, EditorPosition { line: 2, column: 3 }, OffsetEncoding::Utf8).unwrap();
    assert_eq!((p.line, p.character), (1, 2));
    assert!(lsp_position(&d, EditorPosition { line: 3, column: 1 }, OffsetEncoding::Utf8).is_none());
}

#[test]
fn ranges_translate_end_for_end() {
    let d = doc(vec!["alpha", "beta"]);
    let er = EditorRange {
        start: EditorPosition { line: 1, column: 2 },
        end: EditorPosition { line: 2, column: 4 },
    };
    let lr = lsp_range(&d, er, OffsetEncoding::Utf8).unwrap();
    assert_eq!((lr.start.line, lr.start.character), (0, 1));
    assert_eq!((lr.end.line, lr.end.character), (1, 3));
}

#[test]
fn selection_descriptors_parse_with_the_cursor_second() {
    let (range, cursor) = parse_selection_desc("2.5,3.8").unwrap();
    assert_eq!((cursor.line, cursor.column), (3, 8));
    assert_eq!((range.start.line, range.start.column), (2, 5));
    assert_eq!((range.end.line, range.end.column), (3, 8));
    // A backward selection still yields an ordered range.
    let (range, cursor) = parse_selection_desc("3.8,2.5").unwrap();
    assert_eq!((cursor.line, cursor.column), (2, 5));
    assert_eq!((range.start.line, range.start.column), (2, 5));
    assert_eq!((range.end.line, range.end.column), (3, 8));
}

#[test]
fn malformed_selection_descriptors_are_rejected() {
    assert!(parse_selection_desc("").is_none());
    assert!(parse_selection_desc("1.2").is_none());
    assert!(parse_selection_desc("1,2").is_none());
    assert!(parse_selection_desc("a.b,c.d").is_none());
    assert!(parse_selection_desc("1.2,3.").is_none());
    assert!(parse_selection_desc("99999999999,1.2").is_none());
}

#[test]
fn hover_requests_carry_per_server_positions() {
    let servers = vec![server(10, OffsetEncoding::Utf8), server(20, OffsetEncoding::Utf16)];
    let d = doc(vec!["aéb"]);
    let cursor = EditorPosition { line: 1, column: 4 };
    let reqs = build_hover_requests(&servers, &vec![0, 1], "file:///x", &d, cursor).unwrap();
    assert_eq!(reqs.len(), 2);
    assert_eq!(reqs[0].server_id, 10);
    assert_eq!(reqs[0].position.character, 3);
    assert_eq!(reqs[1].server_id, 20);
    assert_eq!(reqs[1].position.character, 2);
    assert_eq!(reqs[0].uri, "file:///x");
}

#[test]
fn a_file_path_becomes_a_file_url() {
    let servers = vec![server(10, OffsetEncoding::Utf8)];
    let d = doc(vec!["text"]);
    let cursor = EditorPosition { line: 1, column: 1 };
    let (uri, reqs) =
        build_hover_requests_for_path(&servers, &vec![0], "/tmp/foo.rs", &d, cursor).unwrap();
    assert_eq!(uri, "file:///tmp/foo.rs");
    assert_eq!(reqs[0].uri, "file:///tmp/foo.rs");
    assert!(build_hover_requests_for_path(&servers, &vec![0], "relative.rs", &d, cursor).is_none());
}

#[test]
fn formatting_requests_translate_every_selection() {
    let s = server(20, OffsetEncoding::Utf8);
    let d = doc(vec!["one", "two"]);
    let ranges = vec![
        EditorRange {
            start: EditorPosition { line: 1, column: 1 },
            end: EditorPosition { line: 1, column: 3 },
        },
        EditorRange {
            start: EditorPosition { line: 2, column: 2 },
            end: EditorPosition { line: 2, column: 3 },
        },
    ];
    let req = build_formatting_request(&s, "file:///x", &d, &ranges).unwrap();
    assert_eq!(req.server_id, 20);
    assert_eq!(req.ranges.len(), 2);
    assert_eq!((req.ranges[1].start.line, req.ranges[1].start.character), (1, 1));
    let bad = vec![EditorRange {
        start: EditorPosition { line: 9, column: 1 },
        end: EditorPosition { line: 9, column: 1 },
    }];
    assert!(build_formatting_request(&s, "file:///x", &d, &bad).is_none());
}

#[test]
fn a_blocked_caller_is_always_released() {
    assert_eq!(release_or_nop(Some("apply-edits".to_string())), "apply-edits");
    assert_eq!(release_or_nop(None), "nop");
}

#[test]
fn spawn_errors_name_the_command_only_when_it_is_at_fault() {
    assert_eq!(
        spawn_error_message(SpawnErrorKind::NotFound, "No such file", "rust-analyzer"),
        "No such file: rust-analyzer"
    );
    assert_eq!(
        spawn_error_message(SpawnErrorKind::PermissionDenied, "Permission denied", "ra"),
        "Permission denied: ra"
    );
    assert_eq!(spawn_error_message(SpawnErrorKind::Other, "Broken pipe", "ra"), "Broken pipe");
}

#[test]
fn shutdown_escalates_only_after_two_waits() {
    let mut t = LanguageServerTransport::new(7);
    assert_eq!(t.phase, ShutdownPhase::Running);
    t.writer_finished();
    t.pipes_closed();
    assert_eq!(t.process_polled(false), ShutdownAction::WaitAgain);
    assert_eq!(t.process_polled(false), ShutdownAction::Kill);
    assert_eq!(t.phase, ShutdownPhase::Killed);
    let mut quick = LanguageServerTransport::new(8);
    quick.writer_finished();
    quick.pipes_closed();
    assert_eq!(quick.process_polled(true), ShutdownAction::Done);
    assert_eq!(quick.phase, ShutdownPhase::Exited);
}
