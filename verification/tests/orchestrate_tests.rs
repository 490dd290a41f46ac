use lsp_dispatch::orchestrate::{
    eligible_servers, plan_dispatch, DispatchPlan, PendingRequestTable, TargetServer,
};
use lsp_dispatch::types::{Capability, OffsetEncoding, ServerSettings};

fn server(id: u64, name: &str, root: &str, caps: Vec<Capability>) -> ServerSettings {
    ServerSettings {
        id,
        name: name.to_string(),
        root: root.to_string(),
        offset_encoding: OffsetEncoding::Utf8,
        capabilities: caps,
    }
}

fn three_servers() -> Vec<ServerSettings> {
    vec![
        server(10, "alpha", "/a", vec![Capability::Hover]),
        server(20, "beta", "/b", vec![Capability::Hover, Capability::RangeFormatting]),
        server(30, "alpha", "/c", vec![Capability::RangeFormatting]),
    ]
}

#[test]
fn eligibility_filters_by_capability_in_order() {
    let servers = three_servers();
    assert_eq!(eligible_servers(&servers, Capability::Hover, &None), vec![0, 1]);
    assert_eq!(
        eligible_servers(&servers, Capability::RangeFormatting, &None),
        vec![1, 2]
    );
    assert_eq!(eligible_servers(&servers, Capability::Completion, &None), Vec::<usize>::new());
}

#[test]
fn an_explicit_target_narrows_to_name_and_root() {
    let servers = three_servers();
    let target = Some(TargetServer { name: "alpha".to_string(), root: "/c".to_string() });
    assert_eq!(
        eligible_servers(&servers, Capability::RangeFormatting, &target),
        vec![2]
    );
    let wrong_root = Some(TargetServer { name: "alpha".to_string(), root: "/b".to_string() });
    assert_eq!(
        eligible_servers(&servers, Capability::RangeFormatting, &wrong_root),
        Vec::<usize>::new()
    );
}

#[test]
fn zero_eligible_servers_release_the_caller() {
    let servers = three_servers();
    let plan = plan_dispatch(&servers, Capability::Completion, &None, false, true, 1);
    assert!(matches!(plan, DispatchPlan::Released { ack: true }));
    let plan = plan_dispatch(&servers, Capability::Completion, &None, false, false, 1);
    assert!(matches!(plan, DispatchPlan::Released { ack: false }));
}

#[test]
fn an_exclusive_feature_with_several_candidates_becomes_a_menu() {
    let servers = three_servers();
    match plan_dispatch(&servers, Capability::RangeFormatting, &None, true, false, 1) {
        DispatchPlan::Menu { choices } => assert_eq!(choices, vec![1, 2]),
        _ => panic!("expected a menu"),
    }
}

#[test]
fn a_shared_feature_fans_out_to_all_eligible() {
    let servers = three_servers();
    match plan_dispatch(&servers, Capability::Hover, &None, false, false, 99) {
        DispatchPlan::Fan { targets, correlation_id } => {
            assert_eq!(targets, vec![0, 1]);
            assert_eq!(correlation_id, 99);
        }
        _ => panic!("expected a fan-out"),
    }
}

#[test]
fn continuation_fires_once_after_all_replies_in_scan_order() {
    let mut table = PendingRequestTable::new();
    table.register(1, vec![10, 20]);
    // Replies arrive in the opposite order of the scan.
    assert!(table.record_reply(1, 20, "from-beta".to_string()).is_none());
    let results = table.record_reply(1, 10, "from-alpha".to_string()).unwrap();
    assert_eq!(results.len(), 2);
    assert_eq!(results[0], (10, Some("from-alpha".to_string())));
    assert_eq!(results[1], (20, Some("from-beta".to_string())));
    // The id is gone: a late duplicate reply is ignored.
    assert!(!table.has_entry(1));
    assert!(table.record_reply(1, 20, "dup".to_string()).is_none());
}

#[test]
fn an_unexpected_server_or_id_is_ignored() {
    let mut table = PendingRequestTable::new();
    table.register(5, vec![10]);
    assert!(table.record_reply(6, 10, "wrong id".to_string()).is_none());
    assert!(table.record_reply(5, 99, "wrong server".to_string()).is_none());
    assert!(table.has_entry(5));
}

#[test]
fn teardown_resolves_only_that_servers_entries_as_absent() {
    let mut table = PendingRequestTable::new();
    table.register(1, vec![10, 20]);
    table.register(2, vec![20]);
    table.register(3, vec![10]);
    table.mark_server_absent(20);
    let completed = table.take_completed();
    // Only the entry waiting solely on the torn-down server completes.
    assert_eq!(completed.len(), 1);
    assert_eq!(completed[0].0, 2);
    assert_eq!(completed[0].1, vec![(20, None)]);
    // The others still wait on server 10, untouched or with one absent slot.
    assert!(table.has_entry(1));
    assert!(table.has_entry(3));
    let results = table.record_reply(1, 10, "late".to_string()).unwrap();
    assert_eq!(results, vec![(10, Some("late".to_string())), (20, None)]);
    let results = table.record_reply(3, 10, "fine".to_string()).unwrap();
    assert_eq!(results, vec![(10, Some("fine".to_string()))]);
}

#[test]
fn a_duplicate_reply_does_not_overwrite_the_first() {
    let mut table = PendingRequestTable::new();
    table.register(7, vec![10, 20]);
    assert!(table.record_reply(7, 10, "first".to_string()).is_none());
    assert!(table.record_reply(7, 10, "second".to_string()).is_none());
    let results = table.record_reply(7, 20, "other".to_string()).unwrap();
    assert_eq!(results[0], (10, Some("first".to_string())));
}
