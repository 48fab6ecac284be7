use dir_picker::scorer::PathEntry;
use dir_picker::session::{Outcome, SessionEvent, TUIApp};
use dir_picker::walker::{run, Walker};

fn session_with(paths: &[&str]) -> TUIApp {
    let mut app = TUIApp::new(String::from("root"));
    for p in paths {
        let r = app.handle(SessionEvent::Discovered(String::from(*p)));
        assert!(matches!(r, Outcome::Running));
    }
    app
}

fn shown(app: &TUIApp) -> Vec<String> {
    app.visible_paths().into_iter().map(|e| e.text).collect()
}

fn typed(app: &mut TUIApp, s: &str) {
    for c in s.chars() {
        assert!(matches!(app.handle(SessionEvent::Char(c)), Outcome::Running));
    }
}

#[test]
fn walker_depth_one_emits_children_and_stops() {
    let mut w = Walker::new(String::from("r"), 1);
    let root = run(&mut w).unwrap();
    assert_eq!(root.path, "r");
    assert_eq!(root.depth, 0);
    assert!(!root.emit);
    assert!(root.list_children);
    w.push_children(vec![String::from("r/a"), String::from("r/ab"), String::from("r/b")], 0);
    let mut emitted = Vec::new();
    while let Some(step) = run(&mut w) {
        assert_eq!(step.depth, 1);
        assert!(step.emit);
        assert!(!step.list_children);
        emitted.push(step.path);
    }
    assert_eq!(emitted, vec!["r/a", "r/ab", "r/b"]);
}

#[test]
fn walker_depth_zero_emits_nothing() {
    let mut w = Walker::new(String::from("r"), 0);
    let root = run(&mut w).unwrap();
    assert!(!root.emit);
    assert!(!root.list_children);
    assert!(run(&mut w).is_none());
}

#[test]
fn walker_is_breadth_first() {
    let mut w = Walker::new(String::from("r"), 2);
    let root = run(&mut w).unwrap();
    w.push_children(vec![String::from("r/x"), String::from("r/y")], root.depth);
    let x = run(&mut w).unwrap();
    assert_eq!(x.path, "r/x");
    assert!(x.list_children);
    w.push_children(vec![String::from("r/x/deep")], x.depth);
    let y = run(&mut w).unwrap();
    assert_eq!(y.path, "r/y");
    w.push_children(vec![], y.depth);
    let deep = run(&mut w).unwrap();
    assert_eq!(deep.path, "r/x/deep");
    assert_eq!(deep.depth, 2);
    assert!(deep.emit);
    assert!(!deep.list_children);
    assert!(run(&mut w).is_none());
}

#[test]
fn empty_query_scores_zero() {
    let mut e = PathEntry::new(String::from("abc"));
    e.calculate_score(&vec![]);
    assert_eq!(e.score, 0);
    assert!(e.indecies.is_empty());
}

#[test]
fn subsequence_match_reports_positions() {
    let mut e = PathEntry::new(String::from("axbycz"));
    e.calculate_score(&vec!['a', 'b', 'c']);
    assert!(e.score > 0);
    assert_eq!(e.indecies, vec![0, 2, 4]);
}

#[test]
fn non_subsequence_scores_zero() {
    let mut e = PathEntry::new(String::from("a"));
    e.calculate_score(&vec!['a', 'b']);
    assert_eq!(e.score, 0);
    assert!(e.indecies.is_empty());
}

#[test]
fn typing_narrows_to_subsequence_matches() {
    let mut app = session_with(&["a", "ab", "b"]);
    assert_eq!(shown(&app), vec!["a", "ab", "b"]);
    typed(&mut app, "a");
    assert_eq!(shown(&app), vec!["a", "ab"]);
    assert_eq!(app.visible_count, 2);
    typed(&mut app, "b");
    assert_eq!(shown(&app), vec!["ab"]);
    assert_eq!(app.visible_count, 1);
}

#[test]
fn query_matching_nothing_shows_all() {
    let mut app = session_with(&["a", "ab", "b"]);
    typed(&mut app, "z");
    assert_eq!(shown(&app), vec!["a", "ab", "b"]);
    assert_eq!(app.visible_count, 3);
}

#[test]
fn backspace_to_empty_restores_discovery_order() {
    let mut app = session_with(&["b", "ab", "a"]);
    typed(&mut app, "ab");
    assert_eq!(shown(&app), vec!["ab"]);
    app.handle(SessionEvent::Backspace);
    app.handle(SessionEvent::Backspace);
    assert!(app.input.is_empty());
    assert_eq!(shown(&app), vec!["b", "ab", "a"]);
    assert!(app.paths.iter().all(|e| e.score == 0 && e.indecies.is_empty()));
    app.handle(SessionEvent::Backspace);
    assert!(app.input.is_empty());
}

#[test]
fn discovery_is_scored_against_live_query() {
    let mut app = session_with(&["a"]);
    typed(&mut app, "b");
    assert_eq!(shown(&app), vec!["a"]);
    app.handle(SessionEvent::Discovered(String::from("b")));
    assert_eq!(shown(&app), vec!["b"]);
    assert!(app.paths[1].score > 0);
}

#[test]
fn confirm_with_no_candidates_accepts_nothing() {
    let mut app = TUIApp::new(String::from("."));
    assert!(matches!(app.handle(SessionEvent::Confirm), Outcome::Accepted(None)));
}

#[test]
fn cancel_yields_cancelled() {
    let mut app = session_with(&["a", "b"]);
    assert!(matches!(app.handle(SessionEvent::Cancel), Outcome::Cancelled));
}

#[test]
fn confirm_returns_selected_visible_path() {
    let mut app = session_with(&["x", "a", "ab"]);
    typed(&mut app, "a");
    app.handle(SessionEvent::Down);
    match app.handle(SessionEvent::Confirm) {
        Outcome::Accepted(Some(p)) => assert_eq!(p, "ab"),
        _ => panic!("expected a path"),
    }
}

#[test]
fn cursor_moves_within_bounds() {
    let mut app = session_with(&["a", "b"]);
    app.handle(SessionEvent::Up);
    assert_eq!(app.selected, 0);
    app.handle(SessionEvent::Down);
    assert_eq!(app.selected, 1);
    app.handle(SessionEvent::Down);
    assert_eq!(app.selected, 1);
    app.handle(SessionEvent::Up);
    assert_eq!(app.selected, 0);
}

#[test]
fn cursor_clamped_when_visible_set_shrinks() {
    let mut app = session_with(&["a", "ab", "b"]);
    app.handle(SessionEvent::Down);
    app.handle(SessionEvent::Down);
    assert_eq!(app.selected, 2);
    typed(&mut app, "a");
    assert_eq!(app.visible_count, 2);
    assert_eq!(app.selected, 1);
    typed(&mut app, "b");
    assert_eq!(app.visible_count, 1);
    assert_eq!(app.selected, 0);
}

#[test]
fn rescoring_twice_is_stable() {
    let mut app = session_with(&["src/main", "docs", "src/lib"]);
    typed(&mut app, "sm");
    let first: Vec<(i64, Vec<usize>)> = app.paths.iter().map(|e| (e.score, e.indecies.clone())).collect();
    app.on_type();
    let second: Vec<(i64, Vec<usize>)> = app.paths.iter().map(|e| (e.score, e.indecies.clone())).collect();
    assert_eq!(first, second);
}

#[test]
fn idle_changes_nothing() {
    let mut app = session_with(&["a"]);
    assert!(matches!(app.handle(SessionEvent::Idle), Outcome::Running));
    assert_eq!(app.paths.len(), 1);
    assert_eq!(app.selected, 0);
}

fn listing(path: &str) -> Vec<String> {
    let children: &[&str] = match path {
        "r" => &["r/a", "r/b"],
        "r/a" => &["r/a/x", "r/a/y"],
        "r/b" => &["r/b/z"],
        "r/a/x" => &["r/a/x/deep"],
        _ => &[],
    };
    children.iter().map(|c| String::from(*c)).collect()
}

fn drive(max_depth: u8) -> Vec<String> {
    let mut w = Walker::new(String::from("r"), max_depth);
    let mut emitted = Vec::new();
    while let Some(step) = run(&mut w) {
        if step.list_children {
            w.push_children(listing(&step.path), step.depth);
        }
        if step.emit {
            emitted.push(step.path);
        }
    }
    emitted
}

#[test]
fn walk_reports_levels_up_to_bound() {
    assert!(drive(0).is_empty());
    assert_eq!(drive(1), vec!["r/a", "r/b"]);
    assert_eq!(drive(2), vec!["r/a", "r/b", "r/a/x", "r/a/y", "r/b/z"]);
    assert_eq!(drive(3), vec!["r/a", "r/b", "r/a/x", "r/a/y", "r/b/z", "r/a/x/deep"]);
    assert_eq!(drive(9), drive(3));
}
