use porc::porc_app::{
    normalize_list_state, KeyCode, KeyEvent, KeyModifiers, ListState, PorcApp, Rect, Signal,
    StatusColor, UiMode, UpdateResult,
};
use porc::process::{Metrics, Process, SortBy};

const RECT: Rect = Rect { x: 0, y: 0, width: 80, height: 20 };

const AREA: Rect = Rect { x: 0, y: 0, width: 80, height: 10 };

fn render_number(n: u32) -> &'static str {
    match n {
        1 => "one",
        2 => "two",
        3 => "three",
        4 => "four",
        5 => "five",
        n => panic!("TestNode out of range: {}", n),
    }
}

fn test_process(pid: u32, percent: u64, parent: Option<u32>) -> Process {
    Process {
        pid,
        name: render_number(pid).to_string(),
        arguments: Vec::new(),
        parent,
        metrics: Metrics { cpu: Some(percent * 100), ram: 0 },
    }
}

fn test_app(processes: &Vec<Process>) -> PorcApp {
    let mut app = PorcApp::new(None);
    app.tick(Some(processes), &AREA);
    app
}

fn key(code: KeyCode) -> KeyEvent {
    KeyEvent { code, modifiers: KeyModifiers::Plain }
}

fn lines(app: &PorcApp) -> Vec<String> {
    app.processes.iter().map(|row| row.1.clone()).collect()
}

fn pids(app: &PorcApp) -> Vec<u32> {
    app.processes.iter().map(|row| row.0).collect()
}

#[test]
fn normalize_leaves_state_unmodified() {
    let mut list_state = ListState::default().with_selected(Some(7)).with_offset(5);
    normalize_list_state(&mut list_state, &vec![(); 30], &RECT);
    assert_eq!(list_state.selected(), Some(7));
    assert_eq!(list_state.offset(), 5);
}

#[test]
fn normalize_caps_at_the_list_end() {
    let mut list_state = ListState::default().with_selected(Some(11));
    normalize_list_state(&mut list_state, &vec![(); 10], &RECT);
    assert_eq!(list_state.selected(), Some(9));
}

#[test]
fn normalize_resets_offset_to_zero_when_the_list_fits_the_area() {
    let mut list_state = ListState::default().with_selected(Some(0)).with_offset(5);
    normalize_list_state(&mut list_state, &vec![(); 10], &RECT);
    assert_eq!(list_state.offset(), 0);
}

#[test]
fn normalize_scrolls_up_when_offset_is_too_big() {
    let mut list_state = ListState::default().with_selected(Some(0)).with_offset(25);
    normalize_list_state(&mut list_state, &vec![(); 30], &RECT);
    assert_eq!(list_state.offset(), 10);
}

#[test]
fn normalize_takes_the_cursor_away_from_an_empty_list() {
    let mut list_state = ListState::default().with_selected(Some(3)).with_offset(2);
    normalize_list_state(&mut list_state, &Vec::<()>::new(), &RECT);
    assert_eq!(list_state.selected(), None);
    assert_eq!(list_state.offset(), 0);
}

#[test]
fn normalize_twice_is_normalize_once() {
    for len in [0usize, 1, 5, 19, 20, 21, 40] {
        for selected in [None, Some(0usize), Some(4), Some(20), Some(100)] {
            for offset in [0usize, 1, 19, 20, 21, 50] {
                let list = vec![(); len];
                let mut once = ListState::default().with_selected(selected).with_offset(offset);
                normalize_list_state(&mut once, &list, &RECT);
                let mut twice = once;
                normalize_list_state(&mut twice, &list, &RECT);
                assert_eq!(once, twice);
                match once.selected() {
                    Some(at) => assert!(at < len),
                    None => assert!(selected.is_none() || len == 0),
                }
                assert!(once.offset() <= len.saturating_sub(20));
            }
        }
    }
}

#[test]
fn shows_a_tree_with_header_and_side_columns() {
    let mut app = test_app(&vec![
        test_process(1, 4, None),
        test_process(2, 3, Some(1)),
        test_process(3, 2, Some(2)),
        test_process(4, 1, None),
        test_process(5, 0, Some(4)),
    ]);
    let frame = app.render(AREA);
    assert_eq!(
        frame.header,
        vec![
            "     pid   cpu       ram ┃ executable".to_string(),
            format!("{}╋{}", "━".repeat(25), "━".repeat(54)),
        ]
    );
    assert_eq!(
        lines(&app),
        vec![
            "       1    9%       0MB ┃ one",
            "       2    5%       0MB ┃   two",
            "       3    2%       0MB ┃     three",
            "       4    1%       0MB ┃ four",
            "       5    0%       0MB ┃   five",
        ]
    );
    assert_eq!(pids(&app), vec![1, 2, 3, 4, 5]);
    assert_eq!(frame.list_area, Rect { x: 0, y: 2, width: 80, height: 7 });
    assert_eq!(frame.status_area, Rect { x: 0, y: 9, width: 80, height: 1 });
    assert_eq!(frame.marked, vec![false; 5]);
    assert_eq!(
        frame.status_bar,
        "Ctrl+C: Quit | ↑↓ : scroll | ENTER: select process | /: filter processes"
    );
    assert_eq!(frame.status_color, StatusColor::Plain);
    assert_eq!(app.list_state.selected(), Some(0));
}

#[test]
fn processes_get_sorted_by_pid() {
    let app = test_app(&vec![
        test_process(1, 1, None),
        test_process(2, 2, None),
        test_process(3, 4, None),
        test_process(4, 3, None),
    ]);
    assert_eq!(
        lines(&app),
        vec![
            "       1    1%       0MB ┃ one",
            "       2    2%       0MB ┃ two",
            "       3    4%       0MB ┃ three",
            "       4    3%       0MB ┃ four",
        ]
    );
}

#[test]
fn processes_can_be_sorted_by_cpu() {
    let processes = vec![
        test_process(1, 1, None),
        test_process(2, 2, None),
        test_process(3, 4, None),
        test_process(4, 3, None),
    ];
    let mut app = test_app(&processes);
    app.tick(Some(&processes), &AREA);
    assert_eq!(app.sort_column, SortBy::Pid);
    let result = app.update(key(KeyCode::Tab), &processes, &AREA);
    assert_eq!(result, UpdateResult::Continue);
    assert_eq!(app.sort_column, SortBy::Cpu);
    assert_eq!(
        lines(&app),
        vec![
            "       3    4%       0MB ┃ three",
            "       4    3%       0MB ┃ four",
            "       2    2%       0MB ┃ two",
            "       1    1%       0MB ┃ one",
        ]
    );
}

#[test]
fn sorting_by_cpu_goes_by_each_process_own_reading() {
    let processes = vec![
        test_process(1, 1, None),
        test_process(2, 2, Some(1)),
        test_process(3, 4, Some(2)),
        test_process(4, 3, None),
    ];
    let mut app = test_app(&processes);
    app.update(key(KeyCode::Tab), &processes, &AREA);
    assert_eq!(pids(&app), vec![4, 1, 2, 3]);
    assert_eq!(
        lines(&app),
        vec![
            "       4    3%       0MB ┃ four",
            "       1    7%       0MB ┃ one",
            "       2    6%       0MB ┃   two",
            "       3    4%       0MB ┃     three",
        ]
    );
}

#[test]
fn a_selected_process_that_is_gone_is_no_longer_selected() {
    let processes = vec![test_process(1, 1, None), test_process(2, 2, Some(1))];
    let mut app = test_app(&processes);
    app.update(key(KeyCode::Down), &processes, &AREA);
    assert_eq!(app.list_state.selected(), Some(1));
    app.update(key(KeyCode::Enter), &processes, &AREA);
    assert_eq!(app.ui_mode, UiMode::ProcessSelected(2));
    let frame = app.render(AREA);
    assert_eq!(frame.marked, vec![false, true]);
    assert_eq!(frame.status_color, StatusColor::Red);
    app.tick(Some(&processes), &AREA);
    assert_eq!(app.ui_mode, UiMode::ProcessSelected(2));
    app.tick(Some(&vec![test_process(1, 1, None)]), &AREA);
    assert_eq!(app.ui_mode, UiMode::Normal);
    assert_eq!(pids(&app), vec![1]);
    assert_eq!(app.list_state.selected(), Some(0));
}

#[test]
fn a_tick_without_a_snapshot_keeps_the_rows() {
    let processes = vec![test_process(1, 1, None), test_process(2, 2, Some(1))];
    let mut app = test_app(&processes);
    let before = lines(&app);
    app.tick(None, &AREA);
    assert_eq!(lines(&app), before);
}

fn named(pid: u32, name: &str, parent: Option<u32>) -> Process {
    Process {
        pid,
        name: name.to_string(),
        arguments: Vec::new(),
        parent,
        metrics: Metrics { cpu: Some(0), ram: 0 },
    }
}

#[test]
fn an_unfinished_pattern_shows_no_rows() {
    let processes = vec![
        named(1, "init", None),
        named(2, "bash", Some(1)),
        named(3, "Cat", Some(2)),
        named(4, "vim", None),
    ];
    let mut app = test_app(&processes);
    assert_eq!(app.update(key(KeyCode::Char('/')), &processes, &AREA), UpdateResult::Continue);
    assert_eq!(app.ui_mode, UiMode::EditingPattern);
    assert_eq!(pids(&app), vec![1, 2, 3, 4]);
    app.update(key(KeyCode::Char('(')), &processes, &AREA);
    assert_eq!(app.pattern.as_str(), "(");
    assert_eq!(pids(&app), Vec::<u32>::new());
    assert_eq!(app.list_state.selected(), None);
    app.update(key(KeyCode::Char('a')), &processes, &AREA);
    assert_eq!(app.pattern.as_str(), "(a");
    assert_eq!(pids(&app), Vec::<u32>::new());
    app.update(key(KeyCode::Char(')')), &processes, &AREA);
    assert_eq!(app.pattern.as_str(), "(a)");
    assert_eq!(
        lines(&app),
        vec![
            "       2    0%       0MB ┃   bash",
            "       3    0%       0MB ┃     Cat",
        ]
    );
    app.update(key(KeyCode::Backspace), &processes, &AREA);
    assert_eq!(app.pattern.as_str(), "(a");
    assert_eq!(pids(&app), Vec::<u32>::new());
    app.update(key(KeyCode::Backspace), &processes, &AREA);
    app.update(key(KeyCode::Backspace), &processes, &AREA);
    app.update(key(KeyCode::Backspace), &processes, &AREA);
    assert_eq!(app.pattern.as_str(), "");
    assert_eq!(pids(&app), vec![1, 2, 3, 4]);
    app.update(key(KeyCode::Char('I')), &processes, &AREA);
    assert_eq!(pids(&app), vec![1, 4]);
    assert_eq!(
        app.status_bar(),
        "Ctrl+C: Quit | ↑↓ : scroll | ENTER: select process | ESC: exit search mode | type search pattern: I▌"
    );
    let frame = app.render(AREA);
    assert_eq!(frame.status_color, StatusColor::Yellow);
    app.update(key(KeyCode::Esc), &processes, &AREA);
    assert_eq!(app.ui_mode, UiMode::Normal);
    assert_eq!(
        app.status_bar(),
        "Ctrl+C: Quit | ↑↓ : scroll | ENTER: select process | /: filter processes | search pattern: I"
    );
}

#[test]
fn a_pattern_from_the_start_filters_the_first_rows() {
    let processes = vec![named(1, "init", None), named(2, "bash", Some(1))];
    let valid = porc::pattern::ValidatedRegexString::new("^B").unwrap();
    let mut app = PorcApp::new(Some(valid));
    assert_eq!(app.pattern.as_str(), "^B");
    assert_eq!(app.ui_mode, UiMode::Normal);
    assert_eq!(app.sort_column, SortBy::Pid);
    assert_eq!(app.list_state.selected(), Some(0));
    assert!(app.processes.is_empty());
    app.tick(Some(&processes), &AREA);
    assert_eq!(pids(&app), vec![2]);
}

#[test]
fn keys_that_are_not_typed_do_not_reach_the_pattern() {
    let processes = vec![test_process(1, 1, None)];
    let mut app = test_app(&processes);
    app.update(key(KeyCode::Char('x')), &processes, &AREA);
    assert_eq!(app.pattern.as_str(), "");
    app.update(key(KeyCode::Char('/')), &processes, &AREA);
    app.update(key(KeyCode::Char('/')), &processes, &AREA);
    app.update(key(KeyCode::Char('é')), &processes, &AREA);
    app.update(key(KeyCode::Char('\u{7}')), &processes, &AREA);
    app.update(KeyEvent { code: KeyCode::Char('a'), modifiers: KeyModifiers::Other }, &processes, &AREA);
    app.update(key(KeyCode::Backspace), &processes, &AREA);
    assert_eq!(app.pattern.as_str(), "");
    assert_eq!(app.ui_mode, UiMode::EditingPattern);
    app.update(key(KeyCode::Char('q')), &processes, &AREA);
    assert_eq!(app.pattern.as_str(), "q");
}

#[test]
fn quitting() {
    let processes = vec![test_process(1, 1, None)];
    let mut app = test_app(&processes);
    let ctrl_c = KeyEvent { code: KeyCode::Char('c'), modifiers: KeyModifiers::Control };
    assert_eq!(app.update(ctrl_c, &processes, &AREA), UpdateResult::Exit);
    assert_eq!(app.update(key(KeyCode::Char('q')), &processes, &AREA), UpdateResult::Exit);
    assert_eq!(app.update(key(KeyCode::Char('c')), &processes, &AREA), UpdateResult::Continue);
    app.update(key(KeyCode::Enter), &processes, &AREA);
    assert_eq!(app.ui_mode, UiMode::ProcessSelected(1));
    assert_eq!(app.update(key(KeyCode::Char('q')), &processes, &AREA), UpdateResult::Continue);
    assert_eq!(app.update(ctrl_c, &processes, &AREA), UpdateResult::Exit);
    assert_eq!(app.ui_mode, UiMode::ProcessSelected(1));
}

#[test]
fn signals_go_to_the_selected_process() {
    let processes = vec![test_process(1, 1, None), test_process(2, 2, None)];
    let mut app = test_app(&processes);
    assert_eq!(app.update(key(KeyCode::Char('t')), &processes, &AREA), UpdateResult::Continue);
    app.update(key(KeyCode::Down), &processes, &AREA);
    app.update(key(KeyCode::Enter), &processes, &AREA);
    assert_eq!(
        app.update(key(KeyCode::Char('t')), &processes, &AREA),
        UpdateResult::Send { pid: 2, signal: Signal::Terminate }
    );
    assert_eq!(
        app.update(key(KeyCode::Char('k')), &processes, &AREA),
        UpdateResult::Send { pid: 2, signal: Signal::Kill }
    );
    assert_eq!(app.ui_mode, UiMode::ProcessSelected(2));
    app.signal_outcome(false);
    assert_eq!(app.ui_mode, UiMode::ProcessSelected(2));
    assert_eq!(
        app.status_bar(),
        "Ctrl+C: Quit | ↑↓ : scroll | t: SIGTERM process | k: SIGKILL process | ESC: unselect | ENTER: select other | signal not delivered"
    );
    app.update(key(KeyCode::Up), &processes, &AREA);
    assert_eq!(
        app.status_bar(),
        "Ctrl+C: Quit | ↑↓ : scroll | t: SIGTERM process | k: SIGKILL process | ESC: unselect | ENTER: select other"
    );
    app.update(key(KeyCode::Esc), &processes, &AREA);
    assert_eq!(app.ui_mode, UiMode::Normal);
    assert_eq!(app.update(key(KeyCode::Char('k')), &processes, &AREA), UpdateResult::Continue);
}

#[test]
fn the_cursor_stops_at_both_ends() {
    let processes: Vec<Process> = vec![
        test_process(1, 1, None),
        test_process(2, 1, None),
        test_process(3, 1, None),
    ];
    let mut app = test_app(&processes);
    app.update(key(KeyCode::Up), &processes, &AREA);
    assert_eq!(app.list_state.selected(), Some(0));
    app.update(key(KeyCode::Down), &processes, &AREA);
    assert_eq!(app.list_state.selected(), Some(1));
    app.update(key(KeyCode::PageDown), &processes, &AREA);
    assert_eq!(app.list_state.selected(), Some(2));
    app.update(key(KeyCode::Down), &processes, &AREA);
    assert_eq!(app.list_state.selected(), Some(2));
    app.update(key(KeyCode::PageUp), &processes, &AREA);
    assert_eq!(app.list_state.selected(), Some(0));
}

#[test]
fn the_sort_key_comes_round_after_three_tabs() {
    let processes = vec![test_process(1, 1, None)];
    let mut app = test_app(&processes);
    app.update(key(KeyCode::Tab), &processes, &AREA);
    assert_eq!(app.sort_column, SortBy::Cpu);
    app.update(key(KeyCode::Tab), &processes, &AREA);
    assert_eq!(app.sort_column, SortBy::Ram);
    app.update(key(KeyCode::Tab), &processes, &AREA);
    assert_eq!(app.sort_column, SortBy::Pid);
}

#[test]
fn a_small_area_leaves_no_room_for_rows() {
    let processes = vec![test_process(1, 1, None)];
    let mut app = test_app(&processes);
    let frame = app.render(Rect { x: 3, y: 65535, width: 10, height: 2 });
    assert_eq!(frame.list_area, Rect { x: 3, y: 65535, width: 10, height: 0 });
    assert_eq!(frame.status_area, Rect { x: 3, y: 1, width: 10, height: 1 });
    assert_eq!(
        frame.header[1],
        format!("{}╋", "━".repeat(25))
    );
}
