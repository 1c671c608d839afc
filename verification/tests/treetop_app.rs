use treetop::pattern::Pattern;
use treetop::process::header::Rect;
use treetop::process::watcher::ProcessWatcher;
use treetop::process::Process;
use treetop::treetop_app::{
    KeyCode, KeyEvent, KeyModifiers, Screen, Signal, StatusColor, TreetopApp, UiMode, UpdateResult,
};

fn render_number(n: usize) -> &'static str {
    match n {
        1 => "one",
        2 => "two",
        3 => "three",
        4 => "four",
        5 => "five",
        6 => "six",
        7 => "seven",
        n => panic!("render_number: out of range: {}", n),
    }
}

fn fake(pid: usize, cpu: f32, parent: Option<usize>) -> Process {
    Process::new(
        pid as u64,
        render_number(pid).to_string(),
        Vec::new(),
        parent.map(|parent| parent as u64),
        (cpu * 1000.0).round() as u64,
        0,
    )
}

fn test_app(processes: Vec<Process>) -> TreetopApp {
    let mut app = TreetopApp::new(ProcessWatcher::new(Vec::new()), None).unwrap();
    app.tick(processes);
    app
}

fn put(line: &mut Vec<char>, x: usize, text: &str) {
    for (i, c) in text.chars().enumerate() {
        if x + i < line.len() {
            line[x + i] = c;
        }
    }
}

fn lay_out(screen: &Screen, area: Rect, offset: usize) -> String {
    let mut lines = vec![vec![' '; area.width as usize]; area.height as usize];
    let mut x = area.x as usize;
    for span in screen.header.spans.iter() {
        put(&mut lines[area.y as usize], x, &span.text);
        x += span.text.chars().count();
    }
    put(&mut lines[area.y as usize], screen.header.bar_x as usize, "┃");
    put(
        &mut lines[area.y as usize],
        screen.header.tree_label_x as usize,
        "executable",
    );
    put(&mut lines[area.y as usize + 1], area.x as usize, &screen.header.rule);
    for (i, row) in screen
        .rows
        .iter()
        .skip(offset)
        .take(screen.list_rect.height as usize)
        .enumerate()
    {
        let text = format!(
            "{}┃{}{}{}",
            row.table,
            if row.cursor { " ▶ " } else { "   " },
            row.prefix,
            row.text
        );
        put(
            &mut lines[screen.list_rect.y as usize + i],
            screen.list_rect.x as usize,
            &text,
        );
    }
    put(
        &mut lines[screen.status_rect.y as usize],
        screen.status_rect.x as usize,
        &screen.status_bar,
    );
    let mut result = String::new();
    for line in lines {
        let line: String = line.into_iter().collect();
        result.push_str(line.trim_end());
        result.push('\n');
    }
    result
}

fn render_ui(mut app: TreetopApp) -> String {
    let area = Rect {
        x: 0,
        y: 0,
        width: 80,
        height: 10,
    };
    let screen = app.render(area);
    lay_out(&screen, area, app.list_state.offset())
}

fn simulate_key_press(app: &mut TreetopApp, code: KeyCode) -> UpdateResult {
    app.update(KeyEvent {
        code,
        modifiers: KeyModifiers::Plain,
    })
}

fn set_pattern(app: &mut TreetopApp, pattern: &str) {
    app.pattern = Pattern::new(regex::Regex::new(pattern).unwrap());
}

const HEADER: &str = "     pid   cpu       ram ┃ executable\n\
━━━━━━━━━━━━━━━━━━━━━━━━━╋━━━━━━━━━━━━━━━━━━━━━━━━━━━━━━━━━━━━━━━━━━━━━━━━━━━━━━\n";

const COMMANDS: &str =
    "Ctrl+C: Quit | ↑↓ : scroll | ENTER: select process | /: filter processes";

fn screen(rows: &[&str], status: &str) -> String {
    let mut expected = String::from(HEADER);
    for i in 0..7 {
        if i < rows.len() {
            expected.push_str(rows[i]);
        }
        expected.push('\n');
    }
    expected.extend(status.chars().take(80));
    expected.push('\n');
    expected
}

#[test]
fn treetop_app_shows_a_tree_with_header_and_side_columns() {
    let app = test_app(vec![
        fake(1, 4.0, None),
        fake(2, 3.0, Some(1)),
        fake(3, 2.0, Some(2)),
        fake(4, 1.0, None),
        fake(5, 0.0, Some(4)),
    ]);
    assert_eq!(
        render_ui(app),
        screen(
            &[
                "       1    9%       0MB ┃ ▶ one",
                "       2    5%       0MB ┃   └─┬ two",
                "       3    2%       0MB ┃     └── three",
                "       4    1%       0MB ┃   four",
                "       5    0%       0MB ┃   └── five",
            ],
            COMMANDS
        )
    );
}

#[test]
fn treetop_app_processes_get_sorted_by_pid() {
    let app = test_app(vec![
        fake(1, 1.0, None),
        fake(2, 2.0, None),
        fake(3, 4.0, None),
        fake(4, 3.0, None),
    ]);
    assert_eq!(
        render_ui(app),
        screen(
            &[
                "       1    1%       0MB ┃ ▶ one",
                "       2    2%       0MB ┃   two",
                "       3    4%       0MB ┃   three",
                "       4    3%       0MB ┃   four",
            ],
            COMMANDS
        )
    );
}

#[test]
fn treetop_app_processes_can_be_sorted_by_cpu() {
    let mut app = test_app(vec![
        fake(1, 1.0, None),
        fake(2, 2.0, None),
        fake(3, 4.0, None),
        fake(4, 3.0, None),
    ]);
    simulate_key_press(&mut app, KeyCode::Tab);
    let area = Rect {
        x: 0,
        y: 0,
        width: 80,
        height: 10,
    };
    let flags: Vec<bool> = app
        .render(area)
        .header
        .spans
        .iter()
        .map(|span| span.highlighted)
        .collect();
    assert_eq!(flags, vec![false, false, false, true, false, false, false]);
    assert_eq!(
        render_ui(app),
        screen(
            &[
                "       3    4%       0MB ┃ ▶ three",
                "       4    3%       0MB ┃   four",
                "       2    2%       0MB ┃   two",
                "       1    1%       0MB ┃   one",
            ],
            COMMANDS
        )
    );
}

#[test]
fn treetop_app_more_complicated_tree() {
    let app = test_app(vec![
        fake(1, 1.0, None),
        fake(2, 2.0, Some(1)),
        fake(3, 3.0, Some(2)),
        fake(4, 4.0, Some(1)),
        fake(5, 5.0, Some(4)),
        fake(6, 5.0, Some(4)),
        fake(7, 5.0, Some(6)),
    ]);
    assert_eq!(
        render_ui(app),
        screen(
            &[
                "       1   25%       0MB ┃ ▶ one",
                "       2    5%       0MB ┃   ├─┬ two",
                "       3    3%       0MB ┃   │ └── three",
                "       4   19%       0MB ┃   └─┬ four",
                "       5    5%       0MB ┃     ├── five",
                "       6   10%       0MB ┃     └─┬ six",
                "       7    5%       0MB ┃       └── seven",
            ],
            COMMANDS
        )
    );
}

#[test]
fn treetop_app_filtering() {
    let mut app = test_app(vec![
        fake(1, 1.0, None),
        fake(2, 2.0, Some(1)),
        fake(3, 3.0, Some(2)),
        fake(4, 4.0, Some(1)),
        fake(5, 5.0, Some(4)),
        fake(6, 5.0, Some(4)),
        fake(7, 5.0, Some(6)),
    ]);
    set_pattern(&mut app, "four");
    app.update_processes();
    assert_eq!(
        render_ui(app),
        screen(
            &[
                "       1   25%       0MB ┃ ▶ one",
                "       4   19%       0MB ┃   └─┬ four",
                "       5    5%       0MB ┃     ├── five",
                "       6   10%       0MB ┃     └─┬ six",
                "       7    5%       0MB ┃       └── seven",
            ],
            &format!("{} | search pattern: four", COMMANDS)
        )
    );
}

#[test]
fn filtering_with_regexes() {
    let mut app = test_app(vec![
        fake(1, 0.0, None),
        fake(2, 0.0, Some(1)),
        fake(3, 0.0, Some(1)),
        fake(4, 0.0, Some(1)),
    ]);
    set_pattern(&mut app, "two|three");
    app.update_processes();
    assert_eq!(
        render_ui(app),
        screen(
            &[
                "       1    0%       0MB ┃ ▶ one",
                "       2    0%       0MB ┃   ├── two",
                "       3    0%       0MB ┃   └── three",
            ],
            &format!("{} | search pattern: two|three", COMMANDS)
        )
    );
}

#[test]
fn filtering_by_pid() {
    let mut app = test_app(vec![fake(1, 0.0, None), fake(2, 0.0, None), fake(3, 0.0, None)]);
    set_pattern(&mut app, "2");
    app.update_processes();
    assert_eq!(
        render_ui(app),
        screen(
            &["       2    0%       0MB ┃ ▶ two"],
            &format!("{} | search pattern: 2", COMMANDS)
        )
    );
}

#[test]
fn typing_patterns() {
    let mut app = test_app(vec![fake(1, 0.0, None), fake(2, 0.0, Some(1))]);
    simulate_key_press(&mut app, KeyCode::Char('/'));
    simulate_key_press(&mut app, KeyCode::Char('a'));
    simulate_key_press(&mut app, KeyCode::Char('b'));
    assert_eq!(app.pattern.as_str(), "ab");
    simulate_key_press(&mut app, KeyCode::Backspace);
    assert_eq!(app.pattern.as_str(), "a");
    simulate_key_press(&mut app, KeyCode::Char('('));
    simulate_key_press(&mut app, KeyCode::Char('b'));
    simulate_key_press(&mut app, KeyCode::Char(')'));
    assert_eq!(app.pattern.as_str(), "a(b)");
}

#[test]
fn exit_pattern_edit_mode() {
    let mut app = test_app(vec![]);
    simulate_key_press(&mut app, KeyCode::Char('/'));
    simulate_key_press(&mut app, KeyCode::Enter);
    assert_eq!(app.ui_mode, UiMode::Normal);
}

#[test]
fn selecting_processes() {
    let mut app = test_app(vec![
        fake(1, 0.0, None),
        fake(2, 0.0, Some(1)),
        fake(3, 0.0, None),
        fake(4, 0.0, Some(3)),
    ]);
    assert_eq!(app.ui_mode, UiMode::Normal);
    simulate_key_press(&mut app, KeyCode::Enter);
    assert_eq!(app.ui_mode, UiMode::ProcessSelected(1));
    simulate_key_press(&mut app, KeyCode::Esc);
    assert_eq!(app.ui_mode, UiMode::Normal);
    simulate_key_press(&mut app, KeyCode::Down);
    simulate_key_press(&mut app, KeyCode::Enter);
    assert_eq!(app.ui_mode, UiMode::ProcessSelected(2));
}

#[test]
fn a_tick_without_the_selected_process_changes_nothing_else() {
    let mut app = test_app(vec![fake(1, 0.0, None), fake(2, 0.0, None), fake(3, 0.0, None)]);
    simulate_key_press(&mut app, KeyCode::Tab);
    simulate_key_press(&mut app, KeyCode::Char('/'));
    simulate_key_press(&mut app, KeyCode::Char('t'));
    simulate_key_press(&mut app, KeyCode::Enter);
    simulate_key_press(&mut app, KeyCode::Down);
    simulate_key_press(&mut app, KeyCode::Enter);
    assert_eq!(app.ui_mode, UiMode::ProcessSelected(3));
    app.tick(vec![fake(1, 0.0, None), fake(2, 0.0, None)]);
    assert_eq!(app.ui_mode, UiMode::Normal);
    assert_eq!(app.pattern.as_str(), "t");
    assert_eq!(app.sort_column, treetop::process::SortBy::Cpu);
    assert_eq!(app.forest.iter().len(), 1);
    assert_eq!(app.list_state.selected(), Some(0));
}

#[test]
fn a_selection_does_not_outlive_its_process() {
    let mut app = test_app(vec![fake(1, 0.0, None), fake(2, 0.0, Some(1))]);
    simulate_key_press(&mut app, KeyCode::Down);
    simulate_key_press(&mut app, KeyCode::Enter);
    assert_eq!(app.ui_mode, UiMode::ProcessSelected(2));
    app.tick(vec![fake(1, 0.0, None), fake(2, 0.0, Some(1))]);
    assert_eq!(app.ui_mode, UiMode::ProcessSelected(2));
    app.tick(vec![fake(1, 0.0, None)]);
    assert_eq!(app.ui_mode, UiMode::Normal);
    assert_eq!(app.list_state.selected(), Some(0));
}

#[test]
fn a_selection_is_dropped_when_the_pattern_hides_its_process() {
    let mut app = test_app(vec![fake(1, 0.0, None), fake(2, 0.0, None)]);
    simulate_key_press(&mut app, KeyCode::Enter);
    assert_eq!(app.ui_mode, UiMode::ProcessSelected(1));
    set_pattern(&mut app, "two");
    app.update_processes();
    assert_eq!(app.ui_mode, UiMode::Normal);
}

#[test]
fn quitting() {
    let mut app = test_app(vec![fake(1, 0.0, None)]);
    assert_eq!(
        app.update(KeyEvent {
            code: KeyCode::Char('c'),
            modifiers: KeyModifiers::Control,
        }),
        UpdateResult::Exit
    );
    assert_eq!(
        app.update(KeyEvent {
            code: KeyCode::Char('q'),
            modifiers: KeyModifiers::Other,
        }),
        UpdateResult::Continue
    );
    assert_eq!(
        simulate_key_press(&mut app, KeyCode::Char('q')),
        UpdateResult::Exit
    );
    simulate_key_press(&mut app, KeyCode::Char('/'));
    assert_eq!(
        simulate_key_press(&mut app, KeyCode::Char('q')),
        UpdateResult::Continue
    );
    assert_eq!(app.pattern.as_str(), "q");
    assert_eq!(
        app.update(KeyEvent {
            code: KeyCode::Char('c'),
            modifiers: KeyModifiers::Control,
        }),
        UpdateResult::Exit
    );
    assert_eq!(app.pattern.as_str(), "q");
    assert_eq!(app.ui_mode, UiMode::EditingPattern);
}

#[test]
fn signals_go_to_the_selected_process() {
    let mut app = test_app(vec![fake(1, 0.0, None), fake(2, 0.0, None)]);
    assert_eq!(
        simulate_key_press(&mut app, KeyCode::Char('t')),
        UpdateResult::Continue
    );
    simulate_key_press(&mut app, KeyCode::Down);
    simulate_key_press(&mut app, KeyCode::Enter);
    assert_eq!(
        simulate_key_press(&mut app, KeyCode::Char('t')),
        UpdateResult::Send(Signal::Terminate, 2)
    );
    assert_eq!(app.ui_mode, UiMode::ProcessSelected(2));
    assert_eq!(
        simulate_key_press(&mut app, KeyCode::Char('k')),
        UpdateResult::Send(Signal::Kill, 2)
    );
    assert_eq!(
        simulate_key_press(&mut app, KeyCode::Char('x')),
        UpdateResult::Continue
    );
    assert_eq!(app.ui_mode, UiMode::ProcessSelected(2));
}

#[test]
fn q_ends_the_session_on_a_selected_process() {
    let mut app = test_app(vec![fake(1, 0.0, None), fake(2, 0.0, None)]);
    simulate_key_press(&mut app, KeyCode::Tab);
    simulate_key_press(&mut app, KeyCode::Down);
    simulate_key_press(&mut app, KeyCode::Enter);
    assert_eq!(app.ui_mode, UiMode::ProcessSelected(2));
    assert_eq!(
        simulate_key_press(&mut app, KeyCode::Char('q')),
        UpdateResult::Exit
    );
    assert_eq!(app.ui_mode, UiMode::ProcessSelected(2));
    assert_eq!(app.pattern.as_str(), "");
    assert_eq!(app.list_state.selected(), Some(1));
    assert_eq!(app.sort_column, treetop::process::SortBy::Cpu);
    assert_eq!(
        app.update(KeyEvent {
            code: KeyCode::Char('c'),
            modifiers: KeyModifiers::Control,
        }),
        UpdateResult::Exit
    );
    assert_eq!(app.ui_mode, UiMode::ProcessSelected(2));
}

#[test]
fn the_cursor_stays_on_the_list() {
    let mut app = test_app(vec![fake(1, 0.0, None), fake(2, 0.0, None), fake(3, 0.0, None)]);
    assert_eq!(app.list_state.selected(), Some(0));
    simulate_key_press(&mut app, KeyCode::Up);
    assert_eq!(app.list_state.selected(), Some(0));
    simulate_key_press(&mut app, KeyCode::Down);
    assert_eq!(app.list_state.selected(), Some(1));
    simulate_key_press(&mut app, KeyCode::PageDown);
    assert_eq!(app.list_state.selected(), Some(2));
    simulate_key_press(&mut app, KeyCode::Down);
    assert_eq!(app.list_state.selected(), Some(2));
    simulate_key_press(&mut app, KeyCode::PageUp);
    assert_eq!(app.list_state.selected(), Some(0));
    app.update(KeyEvent {
        code: KeyCode::Down,
        modifiers: KeyModifiers::Control,
    });
    assert_eq!(app.list_state.selected(), Some(0));
}

#[test]
fn tab_goes_through_the_columns() {
    let mut app = test_app(vec![fake(1, 0.0, None)]);
    assert_eq!(app.sort_column, treetop::process::SortBy::Pid);
    simulate_key_press(&mut app, KeyCode::Tab);
    assert_eq!(app.sort_column, treetop::process::SortBy::Cpu);
    simulate_key_press(&mut app, KeyCode::Tab);
    assert_eq!(app.sort_column, treetop::process::SortBy::Ram);
    simulate_key_press(&mut app, KeyCode::Tab);
    assert_eq!(app.sort_column, treetop::process::SortBy::Pid);
}

#[test]
fn a_slash_starts_the_pattern_and_is_not_typed() {
    let mut app = test_app(vec![fake(1, 0.0, None)]);
    simulate_key_press(&mut app, KeyCode::Char('x'));
    assert_eq!(app.pattern.as_str(), "");
    simulate_key_press(&mut app, KeyCode::Char('/'));
    assert_eq!(app.ui_mode, UiMode::EditingPattern);
    simulate_key_press(&mut app, KeyCode::Char('/'));
    assert_eq!(app.pattern.as_str(), "");
    simulate_key_press(&mut app, KeyCode::Char('o'));
    assert_eq!(app.pattern.as_str(), "o");
    simulate_key_press(&mut app, KeyCode::Esc);
    assert_eq!(app.ui_mode, UiMode::Normal);
    assert_eq!(app.pattern.as_str(), "o");
}

#[test]
fn printable_characters_are_typed_and_control_characters_are_not() {
    let mut app = test_app(vec![fake(1, 0.0, None)]);
    simulate_key_press(&mut app, KeyCode::Char('/'));
    simulate_key_press(&mut app, KeyCode::Char('é'));
    assert_eq!(app.pattern.as_str(), "é");
    simulate_key_press(&mut app, KeyCode::Char(' '));
    simulate_key_press(&mut app, KeyCode::Char('~'));
    simulate_key_press(&mut app, KeyCode::Char('\u{a0}'));
    simulate_key_press(&mut app, KeyCode::Char('│'));
    assert_eq!(app.pattern.as_str(), "é ~\u{a0}│");
    for control in ['\u{0}', '\u{7}', '\u{1f}', '\u{7f}', '\u{80}', '\u{9f}'] {
        simulate_key_press(&mut app, KeyCode::Char(control));
    }
    assert_eq!(app.pattern.as_str(), "é ~\u{a0}│");
    simulate_key_press(&mut app, KeyCode::Backspace);
    simulate_key_press(&mut app, KeyCode::Backspace);
    assert_eq!(app.pattern.as_str(), "é ~");
    app.update(KeyEvent {
        code: KeyCode::Char('x'),
        modifiers: KeyModifiers::Other,
    });
    assert_eq!(app.pattern.as_str(), "é ~");
}

#[test]
fn an_invalid_pattern_shows_nothing() {
    let mut app = test_app(vec![fake(1, 0.0, None), fake(2, 0.0, Some(1))]);
    simulate_key_press(&mut app, KeyCode::Char('/'));
    simulate_key_press(&mut app, KeyCode::Char('('));
    assert_eq!(app.pattern.as_str(), "(");
    assert!(matches!(app.pattern, Pattern::Invalid { .. }));
    assert_eq!(app.forest.iter().len(), 0);
    assert_eq!(
        render_ui(app),
        screen(
            &[],
            "Ctrl+C: Quit | ↑↓ : scroll | ENTER: select process | ESC: exit search mode | type search pattern: (▌"
        )
    );
}

#[test]
fn the_status_bar_names_the_keys_of_the_mode() {
    assert_eq!(TreetopApp::status_bar(UiMode::Normal, ""), COMMANDS);
    assert_eq!(
        TreetopApp::status_bar(UiMode::ProcessSelected(3), ""),
        "Ctrl+C: Quit | ↑↓ : scroll | t: SIGTERM process | k: SIGKILL process | ESC: unselect | ENTER: select other"
    );
    assert_eq!(
        TreetopApp::status_bar(UiMode::ProcessSelected(3), "ab"),
        "Ctrl+C: Quit | ↑↓ : scroll | t: SIGTERM process | k: SIGKILL process | ESC: unselect | ENTER: select other | search pattern: ab"
    );
    assert_eq!(
        TreetopApp::status_bar(UiMode::EditingPattern, ""),
        "Ctrl+C: Quit | ↑↓ : scroll | ENTER: select process | ESC: exit search mode | type search pattern: ▌"
    );
}

#[test]
fn the_screen_marks_cursor_and_selection() {
    let mut app = test_app(vec![fake(1, 0.0, None), fake(2, 0.0, None)]);
    simulate_key_press(&mut app, KeyCode::Down);
    simulate_key_press(&mut app, KeyCode::Enter);
    simulate_key_press(&mut app, KeyCode::Up);
    let area = Rect {
        x: 0,
        y: 0,
        width: 80,
        height: 10,
    };
    let screen = app.render(area);
    assert_eq!(screen.status_color, StatusColor::Red);
    assert_eq!(
        screen.list_rect,
        Rect {
            x: 0,
            y: 2,
            width: 80,
            height: 7
        }
    );
    assert_eq!(
        screen.status_rect,
        Rect {
            x: 0,
            y: 9,
            width: 80,
            height: 1
        }
    );
    let marks: Vec<(bool, bool)> = screen
        .rows
        .iter()
        .map(|row| (row.cursor, row.inspected))
        .collect();
    assert_eq!(marks, vec![(true, false), (false, true)]);
}

#[test]
fn a_new_session_shows_nothing_yet() {
    let app = TreetopApp::new(ProcessWatcher::new(vec![fake(1, 0.0, None)]), None).unwrap();
    assert_eq!(app.forest.iter().len(), 0);
    assert_eq!(app.pattern.as_str(), "");
    assert_eq!(app.ui_mode, UiMode::Normal);
    assert_eq!(app.list_state.selected(), Some(0));
    let mut app = app;
    app.update_processes();
    assert_eq!(app.forest.iter().len(), 1);
}

#[test]
fn the_process_under_the_cursor() {
    let mut app = test_app(vec![fake(1, 0.0, None), fake(2, 0.0, Some(1)), fake(3, 0.0, None)]);
    assert_eq!(app.process_under_cursor(), Some(1));
    simulate_key_press(&mut app, KeyCode::Down);
    assert_eq!(app.process_under_cursor(), Some(2));
    app.list_state.select(Some(7));
    assert_eq!(app.process_under_cursor(), None);
    simulate_key_press(&mut app, KeyCode::Enter);
    assert_eq!(app.ui_mode, UiMode::Normal);
    assert_eq!(app.list_state.selected(), Some(2));
    app.list_state.select(None);
    assert_eq!(app.process_under_cursor(), None);
    simulate_key_press(&mut app, KeyCode::Down);
    assert_eq!(app.list_state.selected(), Some(1));
}
