use session_watch::dashboard::{App, InputEvent, LoopDecision};
use session_watch::session::Session;

fn session(id: &str, pane: &str, updated: u64) -> Session {
    Session {
        session_id: id.to_string(),
        pane_id: pane.to_string(),
        cwd: "/p".to_string(),
        status: "active".to_string(),
        notification_message: None,
        notification_type: None,
        updated,
        summary: None,
        first_prompt: None,
        message_count: None,
        git_branch: None,
        modified: None,
    }
}

fn three() -> Vec<Session> {
    vec![session("a", "1", 3), session("b", "2", 2), session("c", "3", 1)]
}

#[test]
fn new_with_sessions_selects_first_row() {
    let app = App::new(three());
    assert_eq!(app.selected_index(), Some(0));
    assert!(!app.should_quit());
}

#[test]
fn new_with_empty_list_selects_nothing() {
    let app = App::new(Vec::new());
    assert_eq!(app.selected_index(), None);
    assert!(app.selected_session().is_none());
    assert_eq!(app.sessions().len(), 0);
}

#[test]
fn next_wraps_from_last_to_first() {
    let mut app = App::new(three());
    app.next();
    assert_eq!(app.selected_index(), Some(1));
    app.next();
    assert_eq!(app.selected_index(), Some(2));
    app.next();
    assert_eq!(app.selected_index(), Some(0));
}

#[test]
fn previous_wraps_from_first_to_last() {
    let mut app = App::new(three());
    app.previous();
    assert_eq!(app.selected_index(), Some(2));
    app.previous();
    assert_eq!(app.selected_index(), Some(1));
}

#[test]
fn movement_on_empty_list_does_nothing() {
    let mut app = App::new(Vec::new());
    app.next();
    assert_eq!(app.selected_index(), None);
    app.previous();
    assert_eq!(app.selected_index(), None);
}

#[test]
fn replacement_keeps_in_bounds_selection() {
    let mut app = App::new(three());
    app.next();
    assert_eq!(app.selected_index(), Some(1));
    app.update_sessions(vec![session("x", "9", 5), session("y", "8", 4)]);
    assert_eq!(app.selected_index(), Some(1));
}

#[test]
fn replacement_clamps_to_new_last_row() {
    let mut app = App::new(three());
    app.next();
    app.next();
    assert_eq!(app.selected_index(), Some(2));
    app.update_sessions(vec![session("x", "9", 5)]);
    assert_eq!(app.selected_index(), Some(0));
}

#[test]
fn replacement_with_empty_list_clears_selection() {
    let mut app = App::new(three());
    app.update_sessions(Vec::new());
    assert_eq!(app.selected_index(), None);
    assert!(app.selected_session().is_none());
}

#[test]
fn replacement_of_empty_list_selects_first_row() {
    let mut app = App::new(Vec::new());
    app.update_sessions(three());
    assert_eq!(app.selected_index(), Some(0));
}

#[test]
fn selected_session_follows_cursor() {
    let mut app = App::new(three());
    app.next();
    let s = app.selected_session().expect("row selected");
    assert_eq!(s.session_id, "b");
}

#[test]
fn quit_key_stops_with_no_selection() {
    let mut app = App::new(three());
    let d = app.handle_input(InputEvent::Quit);
    assert!(matches!(d, LoopDecision::ExitWithout));
    assert!(app.should_quit());
}

#[test]
fn confirm_key_yields_selected_session_id() {
    let mut app = App::new(three());
    app.next();
    match app.handle_input(InputEvent::Confirm) {
        LoopDecision::ExitWith(id) => assert_eq!(id, "b"),
        _ => panic!("expected an exit with the selected id"),
    }
}

#[test]
fn confirm_on_empty_list_keeps_looping() {
    let mut app = App::new(Vec::new());
    let d = app.handle_input(InputEvent::Confirm);
    assert!(matches!(d, LoopDecision::Continue));
}

#[test]
fn movement_keys_move_the_cursor() {
    let mut app = App::new(three());
    assert!(matches!(app.handle_input(InputEvent::MoveNext), LoopDecision::Continue));
    assert_eq!(app.selected_index(), Some(1));
    assert!(matches!(app.handle_input(InputEvent::MovePrevious), LoopDecision::Continue));
    assert_eq!(app.selected_index(), Some(0));
    assert!(matches!(app.handle_input(InputEvent::Other), LoopDecision::Continue));
    assert_eq!(app.selected_index(), Some(0));
}
