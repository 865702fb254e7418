use dateifinder::{
    completion_event, plan_search, platform_capabilities, AllowedRoots, SearchCompletion,
    SearchEvents, SearchRegistry, SearchRequest, TraversalOutcome,
};

fn request(session: &str, root: &str, query: &str, batch: usize, max: usize) -> SearchRequest {
    SearchRequest {
        session_id: session.to_string(),
        root_path: root.to_string(),
        query: query.to_string(),
        batch_size: batch,
        max_results: max,
    }
}

fn released(root: &str) -> AllowedRoots {
    let mut roots = AllowedRoots::new();
    roots.register(root.as_bytes().to_vec()).unwrap();
    roots
}

#[test]
fn plan_search_clamps_and_tokenizes() {
    let roots = released("/data");
    let plan = plan_search(&request("  s1 ", "/data", "Urlaub 2025", 3, 0), Ok(b"/data".to_vec()), true, &roots)
        .expect("plan");
    assert_eq!(plan.session_id, "s1");
    assert_eq!(plan.canonical_root, b"/data".to_vec());
    assert_eq!(plan.tokens, vec!["urlaub", "2025"]);
    assert_eq!(plan.batch_size, 10);
    assert_eq!(plan.max_results, 1);
    let plan = plan_search(&request("s", "/data", "", 9000, 9_000_000), Ok(b"/data".to_vec()), true, &roots)
        .expect("plan");
    assert_eq!(plan.batch_size, 500);
    assert_eq!(plan.max_results, 250_000);
    let plan = plan_search(&request("s", "/data", "", 137, 4242), Ok(b"/data".to_vec()), true, &roots)
        .expect("plan");
    assert_eq!((plan.batch_size, plan.max_results), (137, 4242));
}

#[test]
fn plan_search_refusals() {
    let roots = released("/data");
    let err = |r: Result<dateifinder::SearchPlan, String>| r.err().unwrap();
    assert_eq!(
        err(plan_search(&request("s", "  ", "q", 10, 10), Err("unused".to_string()), true, &roots)),
        "Kein Suchort angegeben."
    );
    assert_eq!(
        err(plan_search(&request("s", "/x", "q", 10, 10), Err("denied".to_string()), true, &roots)),
        "Suchort kann nicht geöffnet werden: denied"
    );
    assert_eq!(
        err(plan_search(&request("s", "/data/f", "q", 10, 10), Ok(b"/data/f".to_vec()), false, &roots)),
        "Der gewählte Suchort ist kein Ordner."
    );
    assert_eq!(
        err(plan_search(&request("s", "/other", "q", 10, 10), Ok(b"/other".to_vec()), true, &roots)),
        "Der Suchort wurde in dieser Sitzung nicht freigegeben."
    );
    assert_eq!(
        err(plan_search(&request(" \t", "/data", "q", 10, 10), Ok(b"/data".to_vec()), true, &roots)),
        "Ungültige Suchsitzung."
    );
    let long = "x".repeat(129);
    assert_eq!(
        err(plan_search(&request(&long, "/data", "q", 10, 10), Ok(b"/data".to_vec()), true, &roots)),
        "Ungültige Suchsitzung."
    );
    let ok128 = "x".repeat(128);
    assert!(plan_search(&request(&ok128, "/data", "q", 10, 10), Ok(b"/data".to_vec()), true, &roots).is_ok());
    let wide = "ä".repeat(65);
    assert!(plan_search(&request(&wide, "/data", "q", 10, 10), Ok(b"/data".to_vec()), true, &roots).is_err());
}

#[test]
fn registry_refuses_duplicate_sessions_and_forgets_closed_ones() {
    let mut registry: SearchRegistry<u32> = SearchRegistry::new();
    let a = "a".to_string();
    assert_eq!(registry.open_session(a.clone(), 1), Ok(()));
    assert_eq!(
        registry.open_session(a.clone(), 2),
        Err("Diese Suchsitzung existiert bereits.".to_string())
    );
    assert_eq!(registry.handle(&a), Some(&1));
    assert_eq!(registry.open_session("b".to_string(), 3), Ok(()));
    assert_eq!(registry.close_session(&a), Some(1));
    assert!(!registry.contains(&a));
    assert_eq!(registry.handle(&"b".to_string()), Some(&3));
    assert_eq!(registry.close_session(&a), None);
    assert_eq!(registry.open_session(a.clone(), 4), Ok(()));
    assert_eq!(registry.handle(&a), Some(&4));
}

#[test]
fn completion_reports_cancel_or_counts() {
    let cancelled = TraversalOutcome { scanned_count: 5, result_count: 1, skipped_count: 0, cancelled: true };
    match completion_event("s".to_string(), &cancelled, 7) {
        SearchCompletion::Cancelled(p) => assert_eq!(p.session_id, "s"),
        SearchCompletion::Finished(_) => panic!("expected cancellation"),
    }
    let done = TraversalOutcome { scanned_count: 5, result_count: 1, skipped_count: 2, cancelled: false };
    match completion_event("s".to_string(), &done, 7) {
        SearchCompletion::Finished(p) => {
            assert_eq!((p.scanned_count, p.result_count, p.skipped_count, p.duration_ms), (5, 1, 2, 7));
        }
        SearchCompletion::Cancelled(_) => panic!("expected finish"),
    }
}

#[test]
fn capabilities_follow_platform_kind() {
    let desktop = platform_capabilities("linux".to_string(), false);
    assert!(desktop.can_pick_folder && desktop.can_open_file && desktop.can_reveal_file);
    assert!(desktop.can_search_recursively && !desktop.supports_picked_files);
    assert_eq!(desktop.platform, "linux");
    let mobile = platform_capabilities("android".to_string(), true);
    assert!(!mobile.can_pick_folder && !mobile.can_search_recursively && mobile.supports_picked_files);
}

#[test]
fn search_events_carry_the_session_and_end_once() {
    let mut events = SearchEvents::new("s1".to_string());
    assert!(!events.has_ended());
    let p = events.progress(250).unwrap();
    assert_eq!(p.session_id, "s1");
    assert_eq!(p.scanned_count, 250);
    let b = events.batch(Vec::new(), 260).unwrap();
    assert_eq!(b.session_id, "s1");
    assert_eq!(b.scanned_count, 260);
    let outcome = TraversalOutcome { scanned_count: 300, result_count: 4, skipped_count: 1, cancelled: false };
    match events.complete(&outcome, 12) {
        Some(SearchCompletion::Finished(f)) => {
            assert_eq!(f.session_id, "s1");
            assert_eq!(f.result_count, 4);
            assert_eq!(f.scanned_count, 300);
            assert_eq!(f.skipped_count, 1);
            assert_eq!(f.duration_ms, 12);
        }
        _ => panic!("expected a finished event"),
    }
    assert!(events.has_ended());
    assert!(events.progress(500).is_none());
    assert!(events.batch(Vec::new(), 500).is_none());
    assert!(events.complete(&outcome, 13).is_none());
}

#[test]
fn cancelled_search_sends_a_cancelled_event() {
    let mut events = SearchEvents::new("abc".to_string());
    let outcome = TraversalOutcome { scanned_count: 3, result_count: 1, skipped_count: 0, cancelled: true };
    match events.complete(&outcome, 1) {
        Some(SearchCompletion::Cancelled(c)) => assert_eq!(c.session_id, "abc"),
        _ => panic!("expected a cancelled event"),
    }
    assert!(events.progress(1).is_none());
}
