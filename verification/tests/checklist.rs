use checklist::app_state::{Action, AppState, Key};
use checklist::codec::{from_file, to_file, DecodeError};
use checklist::stateful_list::StatefulList;
use checklist::task::Task;

fn task(completed: bool, content: &str) -> Task {
    Task { completed, content: content.to_string() }
}

#[test]
fn scenario_three_tasks() {
    let input = "[x] Buy milk\n[ ] Walk dog\n[ ] Write report\n";
    let tasks = from_file(input).unwrap();
    assert_eq!(tasks.len(), 3);
    assert!(tasks[0].completed);
    assert_eq!(tasks[0].content, "Buy milk");
    assert!(!tasks[1].completed);
    assert_eq!(tasks[1].content, "Walk dog");
    assert!(!tasks[2].completed);
    assert_eq!(tasks[2].content, "Write report");

    let mut state = AppState::new(tasks, "list.txt".to_string());
    assert_eq!(state.selected(), Some(0));
    assert_eq!(state.handle_key(Key::Down), Action::Continue);
    assert_eq!(state.handle_key(Key::Down), Action::Continue);
    assert_eq!(state.selected(), Some(2));
    assert_eq!(state.handle_key(Key::Char(' ')), Action::Continue);
    assert!(state.tasks.items[2].completed);

    let encoded = to_file(&state.tasks.items);
    assert_eq!(encoded, "[x] Buy milk\n[ ] Walk dog\n[x] Write report\n");
}

#[test]
fn round_trip_returns_same_tasks() {
    let tasks = vec![
        task(true, "alpha"),
        task(false, "beta gamma"),
        task(false, ""),
        task(true, "d"),
    ];
    let decoded = from_file(&to_file(&tasks)).unwrap();
    assert_eq!(decoded.len(), tasks.len());
    for (a, b) in tasks.iter().zip(decoded.iter()) {
        assert_eq!(a.completed, b.completed);
        assert_eq!(a.content, b.content);
    }
}

#[test]
fn encode_exact_output() {
    let tasks = vec![task(false, "one"), task(true, "two")];
    assert_eq!(to_file(&tasks), "[ ] one\n[x] two\n");
}

#[test]
fn encode_empty_is_empty() {
    assert_eq!(to_file(&Vec::new()), "");
}

#[test]
fn decode_empty_and_blank_files() {
    assert_eq!(from_file("").unwrap().len(), 0);
    assert_eq!(from_file(" \t \n  \n").unwrap().len(), 0);
}

#[test]
fn decode_trims_input_and_content() {
    let tasks = from_file("\n\n[x] hello world \t\n").unwrap();
    assert_eq!(tasks.len(), 1);
    assert!(tasks[0].completed);
    assert_eq!(tasks[0].content, "hello world");
}

#[test]
fn decode_non_x_marker_means_incomplete() {
    let tasks = from_file("[y] thing\n[X] other\n").unwrap();
    assert!(!tasks[0].completed);
    assert_eq!(tasks[0].content, "thing");
    assert!(!tasks[1].completed);
    assert_eq!(tasks[1].content, "other");
}

#[test]
fn decode_minimal_and_empty_content_lines() {
    let tasks = from_file("[x]\n[ ] \n[x] a\n").unwrap();
    assert_eq!(tasks.len(), 3);
    assert!(tasks[0].completed);
    assert_eq!(tasks[0].content, "");
    assert!(!tasks[1].completed);
    assert_eq!(tasks[1].content, "");
    assert!(tasks[2].completed);
    assert_eq!(tasks[2].content, "a");
}

#[test]
fn decode_short_line_fails_whole_load() {
    assert!(matches!(from_file("[x] ok\nab\n"), Err(DecodeError::LineTooShort)));
    assert!(matches!(from_file("x"), Err(DecodeError::LineTooShort)));
    assert!(matches!(from_file("[x] ok\n\n[ ] later\n"), Err(DecodeError::LineTooShort)));
}

#[test]
fn toggle_twice_restores_task() {
    let mut t = task(true, "keep");
    t.select();
    assert!(!t.completed);
    t.select();
    assert!(t.completed);
    assert_eq!(t.content, "keep");
}

#[test]
fn empty_list_navigation_is_safe() {
    let mut list: StatefulList<Task> = StatefulList::with_items(Vec::new());
    assert_eq!(list.selected(), None);
    list.next();
    assert_eq!(list.selected(), None);
    list.previous();
    assert_eq!(list.selected(), None);
}

#[test]
fn wraparound_next_returns_to_start() {
    let mut list = StatefulList::with_items(vec![task(false, "a"), task(false, "b"), task(false, "c")]);
    list.next();
    let start = list.selected();
    for _ in 0..3 {
        list.next();
    }
    assert_eq!(list.selected(), start);
}

#[test]
fn wraparound_previous_returns_to_start() {
    let mut list = StatefulList::with_items(vec![task(false, "a"), task(false, "b"), task(false, "c")]);
    let start = list.selected();
    for _ in 0..3 {
        list.previous();
    }
    assert_eq!(list.selected(), start);
}

#[test]
fn selection_stays_in_bounds() {
    let mut list = StatefulList::with_items(vec![task(false, "a"), task(false, "b")]);
    let moves = [true, false, false, true, true, true, false];
    for &forward in moves.iter() {
        if forward {
            list.next();
        } else {
            list.previous();
        }
        let i = list.selected().unwrap();
        assert!(i < list.items.len());
    }
}

#[test]
fn unselect_clears_then_next_selects_first() {
    let mut list = StatefulList::with_items(vec![task(false, "a"), task(false, "b")]);
    list.unselect();
    assert_eq!(list.selected(), None);
    list.next();
    assert_eq!(list.selected(), Some(0));
}

#[test]
fn previous_wraps_to_last_from_first() {
    let mut list = StatefulList::with_items(vec![task(false, "a"), task(false, "b"), task(false, "c")]);
    assert_eq!(list.selected(), Some(0));
    list.previous();
    assert_eq!(list.selected(), Some(2));
}

#[test]
fn rows_show_marker_and_content() {
    let state = AppState::new(
        vec![task(true, "done"), task(false, "todo")],
        "list.txt".to_string(),
    );
    let rows = state.rows();
    assert_eq!(rows, vec!["[x] done".to_string(), "[ ] todo".to_string()]);
}

#[test]
fn handle_key_bindings() {
    let mut state = AppState::new(vec![task(false, "a"), task(false, "b")], "p".to_string());
    assert_eq!(state.handle_key(Key::Char('q')), Action::Exit);
    assert_eq!(state.handle_key(Key::Char('S')), Action::Persist);
    assert_eq!(state.handle_key(Key::Char('j')), Action::Continue);
    assert_eq!(state.selected(), Some(1));
    assert_eq!(state.handle_key(Key::Char('k')), Action::Continue);
    assert_eq!(state.selected(), Some(0));
    assert_eq!(state.handle_key(Key::Up), Action::Continue);
    assert_eq!(state.selected(), Some(1));
    assert_eq!(state.handle_key(Key::Down), Action::Continue);
    assert_eq!(state.selected(), Some(0));
    assert_eq!(state.handle_key(Key::Enter), Action::Continue);
    assert!(state.tasks.items[0].completed);
    assert_eq!(state.handle_key(Key::Char('z')), Action::Continue);
    assert_eq!(state.handle_key(Key::Other), Action::Continue);
    assert_eq!(state.selected(), Some(0));
    assert!(state.tasks.items[0].completed);
    assert!(!state.tasks.items[1].completed);
}

#[test]
fn toggle_without_selection_changes_nothing() {
    let mut state = AppState::new(Vec::new(), "p".to_string());
    state.toggle_selected();
    assert_eq!(state.selected(), None);
    assert_eq!(state.tasks.items.len(), 0);
}
