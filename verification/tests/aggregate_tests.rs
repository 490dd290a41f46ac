use lsp_dispatch::aggregate::{
    content_of_reply, expand_tabs, format_bullet, hover_buffer_text, hover_info_parts,
    indent_message, merge_hover_results, ranges_touch_same_line, select_code_lenses,
    select_diagnostics, split_lines, CodeLensEntry, DiagnosticEntry, HoverReply, ServerHover,
};
use lsp_dispatch::types::{CodeLens, Diagnostic, LspPosition, LspRange};

fn line_range(line: u32, a: u32, b: u32) -> LspRange {
    LspRange {
        start: LspPosition { line, character: a },
        end: LspPosition { line, character: b },
    }
}

fn hover(name: &str, blocks: Vec<&str>, plaintext: bool) -> ServerHover {
    ServerHover {
        name: name.to_string(),
        reply: Some(HoverReply {
            blocks: blocks.into_iter().map(|b| b.to_string()).collect(),
            plaintext,
        }),
    }
}

fn no_reply(name: &str) -> ServerHover {
    ServerHover { name: name.to_string(), reply: None }
}

#[test]
fn leading_tabs_expand_to_spaces_per_tab() {
    assert_eq!(expand_tabs("\t\tfoo", 4), "        foo");
}

#[test]
fn interior_tabs_are_left_alone() {
    assert_eq!(expand_tabs("\ta\tb", 4), "    a\tb");
    assert_eq!(expand_tabs("x\ty", 4), "x\ty");
}

#[test]
fn tabs_expand_per_line() {
    assert_eq!(expand_tabs("\tone\n\t\ttwo\nthree", 2), "  one\n    two\nthree");
}

#[test]
fn split_lines_keeps_empty_segments() {
    assert_eq!(split_lines("a\nb\n"), vec!["a", "b", ""]);
    assert_eq!(split_lines(""), vec![""]);
}

#[test]
fn one_empty_one_nonempty_yields_only_the_nonempty() {
    let results = vec![hover("alpha", vec![], true), hover("beta", vec!["present"], true)];
    assert_eq!(merge_hover_results(&results, 4), "present");
    let results = vec![hover("alpha", vec!["present"], true), hover("beta", vec![], true)];
    assert_eq!(merge_hover_results(&results, 4), "present");
}

#[test]
fn a_declared_but_silent_server_leaves_no_artifact() {
    // Server A answers with hover text, server B declared the capability but
    // returned nothing: the output is A's text alone, unlabelled.
    let results = vec![hover("A", vec!["Type: int"], true), no_reply("B")];
    assert_eq!(merge_hover_results(&results, 8), "Type: int");
}

#[test]
fn two_contributors_are_labelled_and_separated() {
    let results = vec![hover("alpha", vec!["one"], false), hover("beta", vec!["two"], false)];
    assert_eq!(merge_hover_results(&results, 4), "[alpha] one\n---\n[beta] two");
}

#[test]
fn blocks_of_one_server_are_joined_by_the_rule() {
    let s = hover("x", vec!["first", "", "second"], false);
    assert_eq!(content_of_reply(&s, 4), "first\n---\nsecond");
}

#[test]
fn plain_text_content_gets_its_tabs_expanded() {
    let s = hover("x", vec!["\tindented"], true);
    assert_eq!(content_of_reply(&s, 3), "   indented");
    let m = hover("x", vec!["\tindented"], false);
    assert_eq!(content_of_reply(&m, 3), "\tindented");
}

#[test]
fn ranges_touch_when_their_lines_overlap() {
    assert!(ranges_touch_same_line(&line_range(5, 0, 4), &line_range(5, 8, 9)));
    assert!(!ranges_touch_same_line(&line_range(4, 0, 4), &line_range(5, 8, 9)));
    let tall = LspRange {
        start: LspPosition { line: 2, character: 0 },
        end: LspPosition { line: 6, character: 0 },
    };
    assert!(ranges_touch_same_line(&tall, &line_range(5, 0, 1)));
}

#[test]
fn diagnostics_on_another_line_never_surface() {
    let diags = vec![
        DiagnosticEntry {
            server_id: 10,
            diagnostic: Diagnostic { range: line_range(5, 0, 2), message: "same line".to_string() },
        },
        DiagnosticEntry {
            server_id: 10,
            diagnostic: Diagnostic { range: line_range(7, 0, 2), message: "other line".to_string() },
        },
        DiagnosticEntry {
            server_id: 10,
            diagnostic: Diagnostic { range: line_range(5, 3, 4), message: "".to_string() },
        },
        DiagnosticEntry {
            server_id: 99,
            diagnostic: Diagnostic { range: line_range(5, 0, 2), message: "unqueried".to_string() },
        },
    ];
    let queried = vec![(10u64, line_range(5, 1, 1))];
    assert_eq!(select_diagnostics(&diags, &queried), vec![0]);
}

#[test]
fn lenses_filter_by_the_same_line_test() {
    let lenses = vec![
        CodeLensEntry {
            server_id: 10,
            lens: CodeLens { range: line_range(3, 0, 0), title: Some("run".to_string()) },
        },
        CodeLensEntry {
            server_id: 10,
            lens: CodeLens { range: line_range(9, 0, 0), title: None },
        },
    ];
    let queried = vec![(10u64, line_range(3, 0, 5))];
    assert_eq!(select_code_lenses(&lenses, &queried), vec![0]);
}

#[test]
fn indentation_follows_the_bullet() {
    assert_eq!(indent_message("a\nb"), "a\n  b");
    assert_eq!(format_bullet("srv", "m1\nm2", true, false), "\u{2022} [srv] m1\n  m2");
    assert_eq!(format_bullet("srv", "m", false, true), "* m");
}

#[test]
fn hover_buffer_output_is_suppressed_only_when_everything_is_empty() {
    assert!(hover_buffer_text(String::new(), String::new()).is_none());
    assert_eq!(hover_buffer_text("info".to_string(), String::new()).unwrap(), "info");
    assert_eq!(
        hover_buffer_text("info".to_string(), "\u{2022} d".to_string()).unwrap(),
        "info\n\n## Diagnostics\n\u{2022} d"
    );
    assert!(hover_buffer_text(String::new(), "d".to_string()).is_some());
}

#[test]
fn info_box_output_is_suppressed_only_when_everything_is_empty() {
    assert!(hover_info_parts(String::new(), String::new(), String::new()).is_none());
    let parts = hover_info_parts("i".to_string(), String::new(), "l".to_string()).unwrap();
    assert_eq!(parts, ("i".to_string(), String::new(), "l".to_string()));
}
