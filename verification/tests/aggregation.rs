use session_watch::session::{
    cwd_to_project_path, distinct_cwds, enrich_sessions_with_index, filter_active_sessions,
    find_session_by_id, IndexEntry, ProjectIndex, Session,
};

fn session(id: &str, pane: &str, cwd: &str, updated: u64) -> Session {
    Session {
        session_id: id.to_string(),
        pane_id: pane.to_string(),
        cwd: cwd.to_string(),
        status: "active".to_string(),
        notification_message: None,
        notification_type: None,
        updated,
        summary: None,
        first_prompt: None,
        message_count: None,
        git_branch: None,
        modified: None,
    }
}

fn entry(id: &str, summary: Option<&str>) -> IndexEntry {
    IndexEntry {
        session_id: id.to_string(),
        summary: summary.map(|s| s.to_string()),
        first_prompt: None,
        message_count: None,
        git_branch: None,
        modified: None,
    }
}

fn live(ids: &[&str]) -> Vec<String> {
    ids.iter().map(|s| s.to_string()).collect()
}

#[test]
fn dedup_keeps_freshest_per_pane() {
    let sessions = vec![
        session("a", "7", "/p", 100),
        session("b", "7", "/p", 200),
    ];
    let out = filter_active_sessions(sessions, &live(&["7"]));
    assert_eq!(out.len(), 1);
    assert_eq!(out[0].pane_id, "7");
    assert_eq!(out[0].updated, 200);
    assert_eq!(out[0].session_id, "b");
}

#[test]
fn non_live_pane_is_filtered_out() {
    let sessions = vec![session("a", "9", "/p", 100), session("b", "7", "/p", 50)];
    let out = filter_active_sessions(sessions, &live(&["7"]));
    assert_eq!(out.len(), 1);
    assert!(out.iter().all(|s| s.pane_id != "9"));
}

#[test]
fn output_sorted_by_updated_descending() {
    let sessions = vec![
        session("a", "1", "/p", 10),
        session("b", "2", "/p", 30),
        session("c", "3", "/p", 20),
    ];
    let out = filter_active_sessions(sessions, &live(&["1", "2", "3"]));
    let updated: Vec<u64> = out.iter().map(|s| s.updated).collect();
    assert_eq!(updated, vec![30, 20, 10]);
}

#[test]
fn first_seen_wins_exact_ties() {
    let sessions = vec![
        session("first", "7", "/p", 100),
        session("second", "7", "/p", 100),
    ];
    let out = filter_active_sessions(sessions, &live(&["7"]));
    assert_eq!(out.len(), 1);
    assert_eq!(out[0].session_id, "first");
}

#[test]
fn at_most_one_entry_per_pane() {
    let sessions = vec![
        session("a", "7", "/p", 1),
        session("b", "7", "/p", 3),
        session("c", "7", "/p", 2),
        session("d", "8", "/q", 9),
        session("e", "8", "/q", 4),
    ];
    let out = filter_active_sessions(sessions, &live(&["7", "8"]));
    assert_eq!(out.len(), 2);
    assert_eq!(out[0].pane_id, "8");
    assert_eq!(out[0].updated, 9);
    assert_eq!(out[1].pane_id, "7");
    assert_eq!(out[1].updated, 3);
}

#[test]
fn rerunning_aggregation_gives_identical_order() {
    let mk = || {
        vec![
            session("a", "1", "/p", 10),
            session("b", "2", "/p", 10),
            session("c", "3", "/p", 10),
            session("d", "2", "/p", 10),
        ]
    };
    let panes = live(&["1", "2", "3"]);
    let out1: Vec<String> = filter_active_sessions(mk(), &panes)
        .iter()
        .map(|s| s.session_id.clone())
        .collect();
    let out2: Vec<String> = filter_active_sessions(mk(), &panes)
        .iter()
        .map(|s| s.session_id.clone())
        .collect();
    assert_eq!(out1, out2);
}

#[test]
fn empty_input_gives_empty_output() {
    let out = filter_active_sessions(Vec::new(), &live(&["7"]));
    assert!(out.is_empty());
}

#[test]
fn enrichment_copies_matching_entry_fields() {
    let mut sessions = vec![session("a", "7", "/p", 1)];
    let indexes = vec![ProjectIndex {
        cwd: "/p".to_string(),
        entries: vec![IndexEntry {
            session_id: "a".to_string(),
            summary: Some("working on tests".to_string()),
            first_prompt: Some("please fix".to_string()),
            message_count: Some(12),
            git_branch: Some("main".to_string()),
            modified: Some("2026-01-15T07:08:52Z".to_string()),
        }],
    }];
    enrich_sessions_with_index(&mut sessions, &indexes);
    assert_eq!(sessions[0].summary.as_deref(), Some("working on tests"));
    assert_eq!(sessions[0].first_prompt.as_deref(), Some("please fix"));
    assert_eq!(sessions[0].message_count, Some(12));
    assert_eq!(sessions[0].git_branch.as_deref(), Some("main"));
    assert_eq!(sessions[0].modified.as_deref(), Some("2026-01-15T07:08:52Z"));
    assert_eq!(sessions[0].session_id, "a");
    assert_eq!(sessions[0].updated, 1);
}

#[test]
fn missing_index_leaves_fields_unset() {
    let mut sessions = vec![session("a", "7", "/nowhere", 1)];
    let indexes: Vec<ProjectIndex> = Vec::new();
    enrich_sessions_with_index(&mut sessions, &indexes);
    assert!(sessions[0].summary.is_none());
    assert!(sessions[0].first_prompt.is_none());
    assert!(sessions[0].message_count.is_none());
    assert!(sessions[0].git_branch.is_none());
    assert!(sessions[0].modified.is_none());
}

#[test]
fn missing_entry_leaves_fields_unset() {
    let mut sessions = vec![session("a", "7", "/p", 1)];
    let indexes = vec![ProjectIndex {
        cwd: "/p".to_string(),
        entries: vec![entry("other", Some("not ours"))],
    }];
    enrich_sessions_with_index(&mut sessions, &indexes);
    assert!(sessions[0].summary.is_none());
}

#[test]
fn enrichment_never_overwrites_set_fields() {
    let mut s = session("a", "7", "/p", 1);
    s.summary = Some("already here".to_string());
    let mut sessions = vec![s];
    let indexes = vec![ProjectIndex {
        cwd: "/p".to_string(),
        entries: vec![entry("a", Some("replacement"))],
    }];
    enrich_sessions_with_index(&mut sessions, &indexes);
    assert_eq!(sessions[0].summary.as_deref(), Some("already here"));
}

#[test]
fn last_entry_for_a_session_wins() {
    let mut sessions = vec![session("a", "7", "/p", 1)];
    let indexes = vec![ProjectIndex {
        cwd: "/p".to_string(),
        entries: vec![entry("a", Some("old")), entry("a", Some("new"))],
    }];
    enrich_sessions_with_index(&mut sessions, &indexes);
    assert_eq!(sessions[0].summary.as_deref(), Some("new"));
}

#[test]
fn find_session_by_id_returns_first_match() {
    let sessions = vec![session("a", "1", "/p", 1), session("b", "2", "/p", 2)];
    let found = find_session_by_id(&sessions, "b").expect("should find b");
    assert_eq!(found.pane_id, "2");
    assert!(find_session_by_id(&sessions, "zzz").is_none());
}

#[test]
fn distinct_cwds_in_first_seen_order() {
    let sessions = vec![
        session("a", "1", "/p", 1),
        session("b", "2", "/q", 2),
        session("c", "3", "/p", 3),
    ];
    let cwds = distinct_cwds(&sessions);
    assert_eq!(cwds, vec!["/p".to_string(), "/q".to_string()]);
}

#[test]
fn cwd_to_project_path_replaces_separators_and_dots() {
    assert_eq!(cwd_to_project_path("/home/aya/.dotfiles"), "-home-aya--dotfiles");
    assert_eq!(cwd_to_project_path(""), "");
    assert_eq!(cwd_to_project_path("/a.b/c"), "-a-b-c");
}
