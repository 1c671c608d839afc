//! The state of a viewing session, and how it reacts to keys and ticks.

use crate::pattern::{compiles, Pattern, PatternError};
use crate::process::header::{header_spans, rule_text, span_views, Header, Rect, HEADER_WIDTH};
use crate::process::watcher::{same_contents, ProcessWatcher};
use crate::process::{display_text, key_order, table_text, Process, SortBy};
use crate::text::{decimal, decimal_string, pop_char, push_char};
use crate::tree::assembly::{
    built, forest_ids, forest_of, ids_of, lemma_forest_ids_are_record_ids, roots_of, unique_ids,
};
use crate::tree::filter::{
    filtered, lemma_answers_everywhere, lemma_asks_everywhere,
    lemma_filter_by_true_changes_nothing, lemma_filter_without_match_leaves_nothing,
    lemma_filtered_stays_ordered,
};
use crate::tree::identity::{
    lemma_filtered_ids_are_ids, lemma_filtered_ids_stay_unique, lemma_siblings_differ,
    lemma_sorted_ids_are_ids, lemma_sorted_ids_stay_unique,
};
use crate::tree::lines::{forest_lines, lemma_lines_are_nodes, line_views};
use crate::tree::order::{
    is_strict_weak_order, lemma_answers_order_everywhere, lemma_asks_order_everywhere,
    lemma_sorted_forest_is_ordered, ordered_forest, sorted,
};
use crate::tree::{forest_nodes, Forest, TreeView};
use std::cmp::Ordering;
use vstd::prelude::*;

verus! {

/// How the keys are read: as commands, as text of the search pattern, or as
/// commands on the process that was selected.
#[derive(Debug, Clone, Copy, PartialEq, Eq, Structural)]
pub enum UiMode {
    Normal,
    EditingPattern,
    ProcessSelected(u64),
}

/// The key of a key press.
#[derive(Debug, Clone, Copy, PartialEq, Eq, Structural)]
pub enum KeyCode {
    Backspace,
    Enter,
    Up,
    Down,
    PageUp,
    PageDown,
    Tab,
    Esc,
    Char(char),
    Other,
}

/// The modifier keys held with a key: none of them, Control alone, or
/// anything else.
#[derive(Debug, Clone, Copy, PartialEq, Eq, Structural)]
pub enum KeyModifiers {
    Plain,
    Control,
    Other,
}

/// A key press.
#[derive(Debug, Clone, Copy, PartialEq, Eq, Structural)]
pub struct KeyEvent {
    pub code: KeyCode,
    pub modifiers: KeyModifiers,
}

/// A signal that asks a process to end.
#[derive(Debug, Clone, Copy, PartialEq, Eq, Structural)]
pub enum Signal {
    Terminate,
    Kill,
}

/// What is to follow a key press: the session goes on, it ends, or it goes
/// on after a signal has been sent to a process.
#[derive(Debug, Clone, Copy, PartialEq, Eq, Structural)]
pub enum UpdateResult {
    Continue,
    Exit,
    Send(Signal, u64),
}

/// The cursor of the list and the first line that shows.
#[derive(Debug, Clone, Copy)]
pub struct ListState {
    pub offset: usize,
    pub selected: Option<usize>,
}

impl Default for ListState {
    /// No cursor, and the list shows from its first line.
    fn default() -> (state: ListState)
        ensures
            state.offset == 0,
            state.selected is None,
    {
        ListState { offset: 0, selected: None }
    }
}

impl ListState {
    /// The same with another first line that shows.
    pub fn with_offset(self, offset: usize) -> (state: ListState)
        ensures
            state.offset == offset,
            state.selected == self.selected,
    {
        ListState { offset, selected: self.selected }
    }

    /// The same with the cursor on another line, or without cursor.
    pub fn with_selected(self, selected: Option<usize>) -> (state: ListState)
        ensures
            state.offset == self.offset,
            state.selected == selected,
    {
        ListState { offset: self.offset, selected }
    }

    /// The first line that shows.
    pub fn offset(&self) -> (offset: usize)
        ensures
            offset == self.offset,
    {
        self.offset
    }

    /// The line of the cursor.
    pub fn selected(&self) -> (selected: Option<usize>)
        ensures
            selected == self.selected,
    {
        self.selected
    }

    /// Puts the cursor on a line, or takes it away, which also shows the
    /// list from its first line.
    pub fn select(&mut self, index: Option<usize>)
        ensures
            final(self).selected == index,
            final(self).offset == if index is None {
                0
            } else {
                old(self).offset
            },
    {
        self.selected = index;
        if index.is_none() {
            self.offset = 0;
        }
    }
}

/// The smaller of two numbers.
pub open spec fn smaller(a: int, b: int) -> int {
    if a <= b {
        a
    } else {
        b
    }
}

/// `a - b`, and nothing where `b` is the larger.
pub open spec fn less(a: int, b: int) -> int {
    if a >= b {
        a - b
    } else {
        0
    }
}

/// Brings the cursor back to the last line where it is beyond it, and the
/// first line that shows back to where the rest of the list fills the
/// rectangle.
pub fn normalize_list_state<T>(list_state: &mut ListState, list: &Vec<T>, rect: &Rect)
    ensures
        final(list_state).selected == match old(list_state).selected {
            Some(selected) => Some(smaller(selected as int, less(list@.len() as int, 1)) as usize),
            None => None,
        },
        final(list_state).offset == smaller(
            old(list_state).offset as int,
            less(list@.len() as int, rect.height as int),
        ),
{
    let last = if list.len() > 0 {
        list.len() - 1
    } else {
        0
    };
    match list_state.selected {
        Some(selected) => {
            if selected > last {
                list_state.selected = Some(last);
            }
        },
        None => {},
    }
    let height = rect.height as usize;
    let most = if list.len() > height {
        list.len() - height
    } else {
        0
    };
    if list_state.offset > most {
        list_state.offset = most;
    }
}

/// The order of a column: whether the first process comes after the second.
pub open spec fn column_after(sort_by: SortBy) -> spec_fn(Process, Process) -> bool {
    |a: Process, b: Process| key_order(a, b, sort_by) is Greater
}

/// What the pattern shows: the processes in whose name or identifier it
/// matches.
pub open spec fn shows(pattern: Pattern) -> spec_fn(Process) -> bool {
    |process: Process|
        pattern.accepts(process.name@) || pattern.accepts(decimal(process.pid as nat))
}

/// The forest that a session shows of a snapshot: assembled with the metrics
/// rolled up, sorted by a column, and filtered by the pattern.
pub open spec fn visible_forest(records: Seq<Process>, sort_by: SortBy, pattern: Pattern) -> Seq<
    TreeView<Process>,
> {
    filtered(sorted(forest_of(records), column_after(sort_by)), shows(pattern), false)
}

/// The mode once the forest has changed: a selection does not outlive its
/// process.
pub open spec fn settled(mode: UiMode, ids: Seq<u64>) -> UiMode {
    match mode {
        UiMode::ProcessSelected(id) => if ids.contains(id) {
            mode
        } else {
            UiMode::Normal
        },
        _ => mode,
    }
}

/// The identifier of the process on the line of the cursor, if the cursor
/// is on a line.
pub open spec fn under_cursor(trees: Seq<TreeView<Process>>, selected: Option<usize>) -> Option<u64> {
    match selected {
        Some(line) => if line < forest_nodes(trees).len() {
            Some(forest_nodes(trees)[line as int].pid)
        } else {
            None
        },
        None => None,
    }
}

/// Whether the key ends the session: Control and `c` in any mode, and `q`
/// in any mode but that in which the pattern is edited, where it is typed.
pub open spec fn is_quit(mode: UiMode, event: KeyEvent) -> bool {
    ||| event.modifiers is Control && event.code == KeyCode::Char('c')
    ||| event.modifiers is Plain && !(mode is EditingPattern) && event.code == KeyCode::Char('q')
}

/// Whether a character is a control character: one of the first thirty-two,
/// or one from U+007F to U+009F.
pub open spec fn is_control(c: char) -> bool {
    (c as u32) < 0x20 || 0x7f <= (c as u32) <= 0x9f
}

/// Whether a character can be typed into the pattern: every printable one
/// but the slash, which starts the pattern.
pub open spec fn is_typed(c: char) -> bool {
    !is_control(c) && c != '/'
}

/// The cursor after a key: the arrow keys move it by one line and the page
/// keys by twenty, not beyond the first line.
pub open spec fn keyed_cursor(selected: Option<usize>, event: KeyEvent) -> Option<usize> {
    let line: int = match selected {
        Some(line) => line as int,
        None => 0,
    };
    if event.modifiers is Plain {
        match event.code {
            KeyCode::Up => Some(less(line, 1) as usize),
            KeyCode::PageUp => Some(less(line, 20) as usize),
            KeyCode::Down => Some(smaller(line + 1, usize::MAX as int) as usize),
            KeyCode::PageDown => Some(smaller(line + 20, usize::MAX as int) as usize),
            _ => selected,
        }
    } else {
        selected
    }
}

/// The mode after a key, before the forest is derived anew. `target` is the
/// process under the cursor.
pub open spec fn keyed_mode(mode: UiMode, event: KeyEvent, target: Option<u64>) -> UiMode {
    if event.modifiers is Plain {
        match event.code {
            KeyCode::Enter => if mode is EditingPattern {
                UiMode::Normal
            } else {
                match target {
                    Some(id) => UiMode::ProcessSelected(id),
                    None => mode,
                }
            },
            KeyCode::Char('/') => UiMode::EditingPattern,
            KeyCode::Esc => UiMode::Normal,
            _ => mode,
        }
    } else {
        mode
    }
}

/// The column after a key: Tab goes to the next.
pub open spec fn keyed_column(sort_by: SortBy, event: KeyEvent) -> SortBy {
    if event.modifiers is Plain && event.code is Tab {
        match sort_by {
            SortBy::Pid => SortBy::Cpu,
            SortBy::Cpu => SortBy::Ram,
            SortBy::Ram => SortBy::Pid,
        }
    } else {
        sort_by
    }
}

/// Whether the key edits the pattern: a character that can be typed, or
/// Backspace, while the pattern is edited.
pub open spec fn is_edit(mode: UiMode, event: KeyEvent) -> bool {
    event.modifiers is Plain && mode is EditingPattern && match event.code {
        KeyCode::Char(c) => is_typed(c),
        KeyCode::Backspace => true,
        _ => false,
    }
}

/// The text of the pattern after a key.
pub open spec fn keyed_text(mode: UiMode, text: Seq<char>, event: KeyEvent) -> Seq<char> {
    if is_edit(mode, event) {
        match event.code {
            KeyCode::Char(c) => text.push(c),
            _ => if text.len() > 0 {
                text.drop_last()
            } else {
                text
            },
        }
    } else {
        text
    }
}

/// The signal that the key asks for: `t` and `k` on a selected process.
pub open spec fn requested(mode: UiMode, event: KeyEvent) -> Option<(Signal, u64)> {
    match mode {
        UiMode::ProcessSelected(id) => if event.modifiers is Plain && event.code == KeyCode::Char('t') {
            Some((Signal::Terminate, id))
        } else if event.modifiers is Plain && event.code == KeyCode::Char('k') {
            Some((Signal::Kill, id))
        } else {
            None
        },
        _ => None,
    }
}

/// The cursor on a list of `lines` lines: not beyond the last.
pub open spec fn clamped(selected: Option<usize>, lines: nat) -> Option<usize> {
    match selected {
        Some(line) => Some(smaller(line as int, less(lines as int, 1)) as usize),
        None => None,
    }
}

/// The forest of a snapshot is there, built from its records, and `trees`
/// hold no process that is not in the snapshot.
pub open spec fn shows_snapshot(records: Seq<Process>, trees: Seq<TreeView<Process>>) -> bool {
    &&& built(forest_of(records), roots_of(records), records)
    &&& forall|id: u64| #[trigger] forest_ids(trees).contains(id) ==> ids_of(records).contains(id)
}

/// Whether `after` is the session that follows `before` upon a key that
/// does not end it: the key has moved the cursor, changed the mode, the
/// column or the pattern, the forest is derived anew, a selection whose
/// process is gone is dropped, and the cursor is kept on the list.
pub open spec fn follows(before: TreetopApp, event: KeyEvent, after: TreetopApp) -> bool {
    &&& after.sort_column == keyed_column(before.sort_column, event)
    &&& after.pattern@ == keyed_text(before.ui_mode, before.pattern@, event)
    &&& if is_edit(before.ui_mode, event) {
        after.pattern.is_valid() <==> compiles(after.pattern@)
    } else {
        after.pattern == before.pattern
    }
    &&& after.forest@ == visible_forest(before.process_watcher@, after.sort_column, after.pattern)
    &&& shows_snapshot(before.process_watcher@, after.forest@)
    &&& after.ui_mode == settled(
        keyed_mode(
            before.ui_mode,
            event,
            under_cursor(before.forest@, before.list_state.selected),
        ),
        forest_ids(after.forest@),
    )
    &&& after.list_state.selected == clamped(
        keyed_cursor(before.list_state.selected, event),
        forest_nodes(after.forest@).len(),
    )
    &&& after.list_state.offset == before.list_state.offset
    &&& same_contents(after.process_watcher@, before.process_watcher@)
}

/// One line of the list: the columns of the table, whether the cursor is on
/// the line, the glyphs that place the process in the tree, how the process
/// shows, and whether it is the selected process.
#[derive(Debug)]
pub struct Row {
    pub table: String,
    pub cursor: bool,
    pub prefix: String,
    pub text: String,
    pub inspected: bool,
}

/// The colour of the status bar.
#[derive(Debug, Clone, Copy, PartialEq, Eq, Structural)]
pub enum StatusColor {
    Plain,
    Yellow,
    Red,
}

/// What a session puts on the screen: the header, the lines of the list in
/// their rectangle, and the status bar in its own.
#[derive(Debug)]
pub struct Screen {
    pub header: Header,
    pub list_rect: Rect,
    pub rows: Vec<Row>,
    pub status_rect: Rect,
    pub status_bar: String,
    pub status_color: StatusColor,
}

/// The keys that the status bar names in a mode.
pub open spec fn status_commands(mode: UiMode) -> Seq<char> {
    match mode {
        UiMode::Normal => "Ctrl+C: Quit | ↑↓ : scroll | ENTER: select process | /: filter processes"@,
        UiMode::EditingPattern => "Ctrl+C: Quit | ↑↓ : scroll | ENTER: select process | ESC: exit search mode"@,
        UiMode::ProcessSelected(_) => "Ctrl+C: Quit | ↑↓ : scroll | t: SIGTERM process | k: SIGKILL process | ESC: unselect | ENTER: select other"@,
    }
}

/// The text of the status bar: the keys of the mode, and the pattern. While
/// it is edited the pattern shows with a cursor behind it; otherwise it
/// shows where it is not empty.
pub open spec fn status_text(mode: UiMode, pattern: Seq<char>) -> Seq<char> {
    if mode is EditingPattern {
        status_commands(mode) + " | type search pattern: "@ + pattern + "▌"@
    } else if pattern.len() > 0 {
        status_commands(mode) + " | search pattern: "@ + pattern
    } else {
        status_commands(mode)
    }
}

/// The colour of the status bar in a mode.
pub open spec fn status_color(mode: UiMode) -> StatusColor {
    match mode {
        UiMode::Normal => StatusColor::Plain,
        UiMode::EditingPattern => StatusColor::Yellow,
        UiMode::ProcessSelected(_) => StatusColor::Red,
    }
}

/// Whether `row` is the line of the list for a line of the tree: `at` is the
/// number of the line, `selected` the line of the cursor.
pub open spec fn row_shows(
    row: Row,
    line: (Seq<char>, Process),
    at: int,
    selected: Option<usize>,
    mode: UiMode,
) -> bool {
    &&& row.table@ == table_text(line.1@) + " "@
    &&& row.cursor == (selected == Some(at as usize))
    &&& row.prefix@ == line.0
    &&& exists|file_name: Option<Seq<char>>| row.text@ == display_text(line.1@, file_name)
    &&& row.inspected == (mode == UiMode::ProcessSelected(line.1.pid))
}

/// The order of a column is a strict weak order.
pub proof fn lemma_column_order(sort_column: SortBy)
    ensures
        is_strict_weak_order(column_after(sort_column)),
{
}

/// The forest of a session is in order at every level: no process comes
/// after a later sibling in the column by which the session sorts.
pub proof fn lemma_visible_forest_is_ordered(
    records: Seq<Process>,
    sort_column: SortBy,
    pattern: Pattern,
)
    ensures
        ordered_forest(
            visible_forest(records, sort_column, pattern),
            column_after(sort_column),
        ),
{
    let after = column_after(sort_column);
    lemma_sorted_forest_is_ordered(forest_of(records), after);
    lemma_filtered_stays_ordered(sorted(forest_of(records), after), shows(pattern), false, after);
}

/// A session shows no process that is not in its snapshot.
pub proof fn lemma_visible_ids_are_snapshot_ids(
    records: Seq<Process>,
    sort_column: SortBy,
    pattern: Pattern,
)
    requires
        unique_ids(records),
        built(forest_of(records), roots_of(records), records),
    ensures
        shows_snapshot(records, visible_forest(records, sort_column, pattern)),
{
    let after = column_after(sort_column);
    let assembled = forest_of(records);
    lemma_forest_ids_are_record_ids(assembled, records);
    lemma_sorted_ids_are_ids(assembled, after);
    lemma_filtered_ids_are_ids(sorted(assembled, after), shows(pattern), false);
}

/// A selection does not outlive its process: where the selected process is
/// not in the snapshot, the session that is derived from the snapshot reads
/// keys as commands again.
pub proof fn lemma_stale_selection_is_dropped(
    records: Seq<Process>,
    sort_column: SortBy,
    pattern: Pattern,
    id: u64,
)
    requires
        unique_ids(records),
        built(forest_of(records), roots_of(records), records),
        !ids_of(records).contains(id),
    ensures
        settled(
            UiMode::ProcessSelected(id),
            forest_ids(visible_forest(records, sort_column, pattern)),
        ) is Normal,
{
    lemma_visible_ids_are_snapshot_ids(records, sort_column, pattern);
}

/// The empty pattern shows everything: the forest of the session is the
/// sorted forest of the snapshot.
pub proof fn lemma_empty_pattern_shows_everything(
    records: Seq<Process>,
    sort_column: SortBy,
    pattern: Pattern,
)
    requires
        pattern.is_valid(),
        pattern@.len() == 0,
    ensures
        visible_forest(records, sort_column, pattern) == sorted(
            forest_of(records),
            column_after(sort_column),
        ),
{
    let all = sorted(forest_of(records), column_after(sort_column));
    lemma_filter_by_true_changes_nothing(all, shows(pattern), false);
}

/// A pattern that does not compile shows nothing.
pub proof fn lemma_invalid_pattern_shows_nothing(
    records: Seq<Process>,
    sort_column: SortBy,
    pattern: Pattern,
)
    requires
        !pattern.is_valid(),
    ensures
        visible_forest(records, sort_column, pattern) == Seq::<TreeView<Process>>::empty(),
{
    let all = sorted(forest_of(records), column_after(sort_column));
    lemma_filter_without_match_leaves_nothing(all, shows(pattern));
}

/// Whether every tree comes before each of its later siblings in a column,
/// and none is equal to another.
pub open spec fn strictly_ordered(trees: Seq<TreeView<Process>>, sort_column: SortBy) -> bool
    decreases trees,
{
    &&& forall|i: int, j: int|
        0 <= i < j < trees.len() ==> key_order(
            (#[trigger] trees[i]).node,
            (#[trigger] trees[j]).node,
            sort_column,
        ) is Less
    &&& forall|i: int|
        0 <= i < trees.len() ==> strictly_ordered((#[trigger] trees[i]).children, sort_column)
}

/// In a forest that is in order and holds no process twice, no two siblings
/// are equal in the column: the order of siblings is decided to the last.
pub proof fn lemma_siblings_are_never_equal(trees: Seq<TreeView<Process>>, sort_column: SortBy)
    requires
        ordered_forest(trees, column_after(sort_column)),
        forest_ids(trees).no_duplicates(),
    ensures
        strictly_ordered(trees, sort_column),
    decreases trees,
{
    lemma_siblings_differ(trees);
    assert forall|i: int| 0 <= i < trees.len() implies strictly_ordered(
        (#[trigger] trees[i]).children,
        sort_column,
    ) by {
        lemma_siblings_are_never_equal(trees[i].children, sort_column);
    }
}

/// A viewing session.
#[derive(Debug)]
pub struct TreetopApp {
    pub process_watcher: ProcessWatcher,
    pub forest: Forest<Process>,
    pub pattern: Pattern,
    pub list_state: ListState,
    pub ui_mode: UiMode,
    pub sort_column: SortBy,
}

impl TreetopApp {
    /// The snapshot has unique identifiers, the forest holds no process
    /// twice, and a selected process is one of the forest.
    pub open spec fn wf(&self) -> bool {
        &&& self.process_watcher.wf()
        &&& forest_ids(self.forest@).no_duplicates()
        &&& self.ui_mode matches UiMode::ProcessSelected(id) ==> forest_ids(
            self.forest@,
        ).contains(id)
    }

    /// A session that has not looked at its snapshot yet: it shows nothing,
    /// reads keys as commands, sorts by identifier and has the cursor on the
    /// first line. Without a pattern it starts with the empty one.
    pub fn new(process_watcher: ProcessWatcher, pattern: Option<Pattern>) -> (app: Result<
        TreetopApp,
        PatternError,
    >)
        requires
            process_watcher.wf(),
        ensures
            app matches Ok(app) && {
                &&& app.wf()
                &&& app.process_watcher == process_watcher
                &&& app.forest@ == Seq::<TreeView<Process>>::empty()
                &&& match pattern {
                    Some(pattern) => app.pattern == pattern,
                    None => app.pattern.is_valid() && app.pattern@ == Seq::<char>::empty(),
                }
                &&& app.list_state.selected == Some(0usize)
                &&& app.list_state.offset == 0
                &&& app.ui_mode is Normal
                &&& app.sort_column is Pid
            },
    {
        let pattern = match pattern {
            Some(pattern) => pattern,
            None => match Pattern::empty() {
                Ok(pattern) => pattern,
                Err(error) => {
                    return Err(error);
                },
            },
        };
        Ok(
            TreetopApp {
                process_watcher,
                forest: Forest::empty(),
                pattern,
                list_state: ListState::default().with_selected(Some(0)),
                ui_mode: UiMode::Normal,
                sort_column: SortBy::Pid,
            },
        )
    }

    /// Derives the forest anew from the snapshot, the column and the
    /// pattern, and drops a selection whose process is not in it.
    pub fn update_processes(&mut self)
        requires
            old(self).process_watcher.wf(),
        ensures
            final(self).wf(),
            final(self).forest@ == visible_forest(
                old(self).process_watcher@,
                old(self).sort_column,
                old(self).pattern,
            ),
            shows_snapshot(old(self).process_watcher@, final(self).forest@),
            final(self).ui_mode == settled(old(self).ui_mode, forest_ids(final(self).forest@)),
            forall|id: u64|
                old(self).ui_mode == UiMode::ProcessSelected(id) && !ids_of(
                    old(self).process_watcher@,
                ).contains(id) ==> final(self).ui_mode is Normal,
            same_contents(final(self).process_watcher@, old(self).process_watcher@),
            final(self).pattern == old(self).pattern,
            final(self).sort_column == old(self).sort_column,
            final(self).list_state == old(self).list_state,
    {
        let mut forest = self.process_watcher.get_forest();
        let sort_column = self.sort_column;
        let compare = |a: &Process, b: &Process| -> (order: Ordering)
            ensures
                order == key_order(*a, *b, sort_column),
            { a.compare(b, sort_column) };
        proof {
            lemma_asks_order_everywhere(&compare, forest@);
            lemma_answers_order_everywhere(&compare, column_after(sort_column), forest@);
        }
        let ghost assembled = forest@;
        forest.sort_by(&compare);
        proof {
            lemma_sorted_ids_stay_unique(assembled, column_after(sort_column));
            lemma_sorted_ids_are_ids(assembled, column_after(sort_column));
        }
        let ghost in_order = forest@;
        let pattern = &self.pattern;
        let shown = |process: &Process| -> (found: bool)
            ensures
                found == shows(*pattern)(*process),
            {
                pattern.is_match(process.name.as_str()) || pattern.is_match(
                    decimal_string(process.pid).as_str(),
                )
            };
        proof {
            lemma_asks_everywhere(&shown, forest@);
            lemma_answers_everywhere(&shown, shows(*pattern), forest@);
        }
        forest.filter(shown);
        proof {
            lemma_filtered_ids_stay_unique(in_order, shows(*pattern), false);
            lemma_filtered_ids_are_ids(in_order, shows(*pattern), false);
        }
        self.forest = forest;
        match self.ui_mode {
            UiMode::ProcessSelected(selected) => {
                if !self.forest.contains_id(selected) {
                    self.ui_mode = UiMode::Normal;
                }
            },
            _ => {},
        }
    }

    /// Takes a new snapshot and derives the forest from it. A selection
    /// whose process is not in the new snapshot is dropped: keys are read as
    /// commands again.
    pub fn tick(&mut self, processes: Vec<Process>)
        requires
            unique_ids(processes@),
        ensures
            final(self).wf(),
            final(self).forest@ == visible_forest(
                processes@,
                old(self).sort_column,
                old(self).pattern,
            ),
            shows_snapshot(processes@, final(self).forest@),
            final(self).ui_mode == settled(old(self).ui_mode, forest_ids(final(self).forest@)),
            forall|id: u64|
                old(self).ui_mode == UiMode::ProcessSelected(id) && !ids_of(processes@).contains(
                    id,
                ) ==> final(self).ui_mode is Normal,
            same_contents(final(self).process_watcher@, processes@),
            final(self).pattern == old(self).pattern,
            final(self).sort_column == old(self).sort_column,
            final(self).list_state.selected == clamped(
                old(self).list_state.selected,
                forest_nodes(final(self).forest@).len(),
            ),
            final(self).list_state.offset == old(self).list_state.offset,
    {
        self.process_watcher.refresh(processes);
        self.update_processes();
        self.clamp_cursor();
    }

    /// Reacts to a key. Control and `c`, and `q` unless the pattern is
    /// edited, end the session and change nothing. Any other key may move
    /// the cursor, change the mode, the column or the pattern; the forest is
    /// then derived anew. `t` and `k` on a selected process ask for a signal
    /// to be sent to it.
    pub fn update(&mut self, event: KeyEvent) -> (result: UpdateResult)
        requires
            old(self).wf(),
        ensures
            final(self).wf(),
            is_quit(old(self).ui_mode, event) ==> result is Exit && *final(self) == *old(self),
            !is_quit(old(self).ui_mode, event) ==> follows(*old(self), event, *final(self))
                && result == match requested(old(self).ui_mode, event) {
                Some((signal, id)) => UpdateResult::Send(signal, id),
                None => UpdateResult::Continue,
            },
    {
        let plain = match event.modifiers {
            KeyModifiers::Plain => true,
            _ => false,
        };
        let mode = self.ui_mode;
        let mut result = UpdateResult::Continue;
        match event.code {
            KeyCode::Char(c) => {
                match event.modifiers {
                    KeyModifiers::Control => {
                        if c == 'c' {
                            return UpdateResult::Exit;
                        }
                    },
                    _ => {},
                }
                if plain {
                    match mode {
                        UiMode::EditingPattern => {},
                        _ => {
                            if c == 'q' {
                                return UpdateResult::Exit;
                            }
                        },
                    }
                    if c == '/' {
                        self.ui_mode = UiMode::EditingPattern;
                    } else {
                        match mode {
                            UiMode::EditingPattern => {
                                if !Self::is_control(c) {
                                    let push = |text: &mut String|
                                        ensures
                                            final(text)@ == old(text)@.push(c),
                                        { push_char(text, c) };
                                    self.pattern.modify(push);
                                }
                            },
                            UiMode::ProcessSelected(id) => {
                                if c == 't' {
                                    result = UpdateResult::Send(Signal::Terminate, id);
                                } else if c == 'k' {
                                    result = UpdateResult::Send(Signal::Kill, id);
                                }
                            },
                            UiMode::Normal => {},
                        }
                    }
                }
            },
            KeyCode::Up => {
                if plain {
                    let line = Self::cursor_line(&self.list_state);
                    self.list_state.select(Some(line.saturating_sub(1)));
                }
            },
            KeyCode::PageUp => {
                if plain {
                    let line = Self::cursor_line(&self.list_state);
                    self.list_state.select(Some(line.saturating_sub(20)));
                }
            },
            KeyCode::Down => {
                if plain {
                    let line = Self::cursor_line(&self.list_state);
                    self.list_state.select(Some(line.saturating_add(1)));
                }
            },
            KeyCode::PageDown => {
                if plain {
                    let line = Self::cursor_line(&self.list_state);
                    self.list_state.select(Some(line.saturating_add(20)));
                }
            },
            KeyCode::Enter => {
                if plain {
                    match mode {
                        UiMode::EditingPattern => {
                            self.ui_mode = UiMode::Normal;
                        },
                        _ => {
                            match self.process_under_cursor() {
                                Some(id) => {
                                    self.ui_mode = UiMode::ProcessSelected(id);
                                },
                                None => {},
                            }
                        },
                    }
                }
            },
            KeyCode::Tab => {
                if plain {
                    self.sort_column = self.sort_column.next();
                }
            },
            KeyCode::Esc => {
                if plain {
                    self.ui_mode = UiMode::Normal;
                }
            },
            KeyCode::Backspace => {
                if plain {
                    match mode {
                        UiMode::EditingPattern => {
                            let pop = |text: &mut String|
                                ensures
                                    final(text)@ == if old(text)@.len() > 0 {
                                        old(text)@.drop_last()
                                    } else {
                                        old(text)@
                                    },
                                {
                                    pop_char(text);
                                };
                            self.pattern.modify(pop);
                        },
                        _ => {},
                    }
                }
            },
            KeyCode::Other => {},
        }
        self.update_processes();
        self.clamp_cursor();
        result
    }

    /// Whether a character is a control character.
    fn is_control(c: char) -> (control: bool)
        ensures
            control == is_control(c),
    {
        let code = c as u32;
        code < 0x20 || (0x7f <= code && code <= 0x9f)
    }

    /// The line of the cursor: the first where there is no cursor.
    fn cursor_line(list_state: &ListState) -> (line: usize)
        ensures
            line == match list_state.selected {
                Some(line) => line,
                None => 0,
            },
    {
        match list_state.selected {
            Some(line) => line,
            None => 0,
        }
    }

    /// The identifier of the process on the line of the cursor.
    pub fn process_under_cursor(&self) -> (id: Option<u64>)
        ensures
            id == under_cursor(self.forest@, self.list_state.selected),
    {
        match self.list_state.selected {
            Some(line) => {
                let nodes = self.forest.iter();
                if line < nodes.len() {
                    Some(nodes[line].pid)
                } else {
                    None
                }
            },
            None => None,
        }
    }

    /// Brings the cursor back to the last line of the list where it is
    /// beyond it.
    fn clamp_cursor(&mut self)
        requires
            old(self).wf(),
        ensures
            final(self).wf(),
            final(self).list_state.selected == clamped(
                old(self).list_state.selected,
                forest_nodes(old(self).forest@).len(),
            ),
            final(self).list_state.offset == old(self).list_state.offset,
            final(self).process_watcher == old(self).process_watcher,
            final(self).forest == old(self).forest,
            final(self).pattern == old(self).pattern,
            final(self).ui_mode == old(self).ui_mode,
            final(self).sort_column == old(self).sort_column,
    {
        match self.list_state.selected {
            Some(line) => {
                let nodes = self.forest.iter();
                let lines = nodes.len();
                let last = if lines > 0 {
                    lines - 1
                } else {
                    0
                };
                if line > last {
                    self.list_state.selected = Some(last);
                }
            },
            None => {},
        }
    }

    /// What the session shows in a screen area: the header in its first two
    /// lines, the status bar in the last, the list in between. The cursor
    /// and the first line that shows are brought back onto the list.
    pub fn render(&mut self, area: Rect) -> (screen: Screen)
        requires
            old(self).wf(),
            area.height >= 3,
            area.y + 2 <= u16::MAX,
            area.x + HEADER_WIDTH + 2 <= u16::MAX,
        ensures
            final(self).wf(),
            span_views(screen.header.spans@) == header_spans(old(self).sort_column),
            screen.header.bar_x == HEADER_WIDTH,
            screen.header.tree_label_x == area.x + HEADER_WIDTH + 2,
            screen.header.rule@ == rule_text(area.x, area.width, HEADER_WIDTH),
            screen.header.height == 2,
            screen.list_rect == (Rect {
                x: area.x,
                y: (area.y + 2) as u16,
                width: area.width,
                height: (area.height - 3) as u16,
            }),
            screen.status_rect == (Rect {
                x: area.x,
                y: (area.height - 1) as u16,
                width: area.width,
                height: 1,
            }),
            final(self).list_state.selected == clamped(
                old(self).list_state.selected,
                forest_nodes(old(self).forest@).len(),
            ),
            final(self).list_state.offset == smaller(
                old(self).list_state.offset as int,
                less(forest_nodes(old(self).forest@).len() as int, area.height - 3),
            ),
            screen.rows@.len() == forest_lines(old(self).forest@, true, Seq::empty()).len(),
            forall|i: int|
                0 <= i < screen.rows@.len() ==> row_shows(
                    #[trigger] screen.rows@[i],
                    forest_lines(old(self).forest@, true, Seq::empty())[i],
                    i,
                    final(self).list_state.selected,
                    old(self).ui_mode,
                ),
            screen.status_bar@ == status_text(old(self).ui_mode, old(self).pattern@),
            screen.status_color == status_color(old(self).ui_mode),
            final(self).process_watcher == old(self).process_watcher,
            final(self).forest == old(self).forest,
            final(self).pattern == old(self).pattern,
            final(self).ui_mode == old(self).ui_mode,
            final(self).sort_column == old(self).sort_column,
    {
        let header = Process::render_header(area, self.sort_column);
        let list_rect = Rect {
            x: area.x,
            y: area.y + header.height,
            width: area.width,
            height: area.height - header.height - 1,
        };
        let list = self.forest.render_forest_prefixes();
        let ghost lines = forest_lines(self.forest@, true, Seq::empty());
        proof {
            lemma_lines_are_nodes(self.forest@, true, Seq::empty());
        }
        normalize_list_state(&mut self.list_state, &list, &list_rect);
        let selected = self.list_state.selected;
        let mode = self.ui_mode;
        let mut rows: Vec<Row> = Vec::new();
        let mut i: usize = 0;
        while i < list.len()
            invariant
                i <= list@.len(),
                line_views(list@) == lines,
                rows@.len() == i,
                forall|k: int|
                    0 <= k < i ==> row_shows(#[trigger] rows@[k], lines[k], k, selected, mode),
            decreases list@.len() - i,
        {
            let process = list[i].1;
            proof {
                reveal_strlit(" ");
            }
            let mut table = process.table_data();
            table.append(" ");
            let row = Row {
                table,
                cursor: match selected {
                    Some(line) => line == i,
                    None => false,
                },
                prefix: list[i].0.clone(),
                text: process.to_string(),
                inspected: match mode {
                    UiMode::ProcessSelected(id) => id == process.pid,
                    _ => false,
                },
            };
            rows.push(row);
            i = i + 1;
        }
        let status_bar = Self::status_bar(mode, self.pattern.as_str());
        Screen {
            header,
            list_rect,
            rows,
            status_rect: Rect { x: area.x, y: area.height - 1, width: area.width, height: 1 },
            status_bar,
            status_color: match mode {
                UiMode::Normal => StatusColor::Plain,
                UiMode::EditingPattern => StatusColor::Yellow,
                UiMode::ProcessSelected(_) => StatusColor::Red,
            },
        }
    }

    /// The text of the status bar.
    pub fn status_bar(mode: UiMode, pattern: &str) -> (text: String)
        ensures
            text@ == status_text(mode, pattern@),
    {
        let mut text = match mode {
            UiMode::Normal => "Ctrl+C: Quit | ↑↓ : scroll | ENTER: select process | /: filter processes",
            UiMode::EditingPattern => "Ctrl+C: Quit | ↑↓ : scroll | ENTER: select process | ESC: exit search mode",
            UiMode::ProcessSelected(_) => "Ctrl+C: Quit | ↑↓ : scroll | t: SIGTERM process | k: SIGKILL process | ESC: unselect | ENTER: select other",
        }.to_owned();
        match mode {
            UiMode::EditingPattern => {
                text.append(" | type search pattern: ");
                text.append(pattern);
                text.append("▌");
            },
            _ => {
                if pattern.unicode_len() > 0 {
                    text.append(" | search pattern: ");
                    text.append(pattern);
                }
            },
        }
        text
    }
}

} // verus!
