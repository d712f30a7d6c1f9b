//! The state that follows the keyboard: the mode, the cursor, the pattern and
//! the sort key, and the rows that are shown under them.

use crate::pattern::{without_last, Regex, ValidatedRegexString};
use crate::process::{views, Process, ProcessView, SortBy};
use crate::rows::{
    forest_rows, header_lines, lemma_level_lines, lemma_level_rows_pass_one_by_one, lemma_passing,
    level_lines, line_views, row_views,
};
use crate::sorting::{lemma_sort_trees_keep_processes, sort_forest};
use crate::totals::level_processes;
use crate::placement::{among, lemma_every_record_once, lemma_forest_holds};
use crate::tree::{forest_of, Forest};
use vstd::prelude::*;
use vstd::string::*;

verus! {

/// How many rows the cursor moves on `PageUp` and `PageDown`.
pub const PAGE: usize = 20;

/// How many lines the header takes.
pub const HEADER_HEIGHT: u16 = 2;

/// What the keys mean at the moment.
#[derive(Debug, Clone, Copy, PartialEq, Eq, Structural)]
pub enum UiMode {
    Normal,
    EditingPattern,
    ProcessSelected(u32),
}

/// The keys held down with a key.
#[derive(Debug, Clone, Copy, PartialEq, Eq, Structural)]
pub enum KeyModifiers {
    Plain,
    Control,
    Other,
}

/// A key.
#[derive(Debug, Clone, Copy, PartialEq, Eq, Structural)]
pub enum KeyCode {
    Char(char),
    Up,
    Down,
    PageUp,
    PageDown,
    Enter,
    Tab,
    Esc,
    Backspace,
    Other,
}

/// A key pressed, with what was held down with it.
#[derive(Debug, Clone, Copy, PartialEq, Eq, Structural)]
pub struct KeyEvent {
    pub code: KeyCode,
    pub modifiers: KeyModifiers,
}

/// A signal that can be sent to the selected process.
#[derive(Debug, Clone, Copy, PartialEq, Eq, Structural)]
pub enum Signal {
    Terminate,
    Kill,
}

/// What is to be done after a key has been handled.
#[derive(Debug, Clone, Copy, PartialEq, Eq, Structural)]
pub enum UpdateResult {
    Continue,
    Exit,
    Send { pid: u32, signal: Signal },
}

/// A rectangle of the screen.
#[derive(Debug, Clone, Copy, PartialEq, Eq, Structural)]
pub struct Rect {
    pub x: u16,
    pub y: u16,
    pub width: u16,
    pub height: u16,
}

/// The row under the cursor, and the first row that is shown.
#[derive(Debug, Clone, Copy, PartialEq, Eq, Structural)]
pub struct ListState {
    pub offset: usize,
    pub selected: Option<usize>,
}

impl Default for ListState {
    fn default() -> (r: ListState)
        ensures
            r == (ListState { offset: 0, selected: None }),
    {
        ListState { offset: 0, selected: None }
    }
}

impl ListState {
    /// This state with `offset` as the first row shown.
    pub fn with_offset(self, offset: usize) -> (r: ListState)
        ensures
            r == (ListState { offset, selected: self.selected }),
    {
        ListState { offset, selected: self.selected }
    }

    /// This state with the cursor on `selected`.
    pub fn with_selected(self, selected: Option<usize>) -> (r: ListState)
        ensures
            r == (ListState { offset: self.offset, selected }),
    {
        ListState { offset: self.offset, selected }
    }

    /// The first row shown.
    pub fn offset(&self) -> (r: usize)
        ensures
            r == self.offset,
    {
        self.offset
    }

    /// The row under the cursor.
    pub fn selected(&self) -> (r: Option<usize>)
        ensures
            r == self.selected,
    {
        self.selected
    }

    /// Puts the cursor on `index`; with no cursor the list is shown from its first row.
    pub fn select(&mut self, index: Option<usize>)
        ensures
            final(self).selected == index,
            final(self).offset == if index is None {
                0
            } else {
                old(self).offset
            },
    {
        self.selected = index;
        if index.is_none() {
            self.offset = 0;
        }
    }

    /// This state fitted to a list of `len` rows of which `height` are shown:
    /// the cursor on the last row where it was beyond it, no cursor where
    /// there is no row, and the first row shown no further down than the
    /// list's end minus the rows shown.
    pub open spec fn normalized(self, len: nat, height: nat) -> ListState {
        ListState {
            selected: match self.selected {
                Some(selected) => if len == 0 {
                    None
                } else if selected >= len {
                    Some((len - 1) as usize)
                } else {
                    Some(selected)
                },
                None => None,
            },
            offset: if len <= height {
                0
            } else if self.offset > len - height {
                (len - height) as usize
            } else {
                self.offset
            },
        }
    }

    /// Fitting a state twice changes nothing more; the cursor of a fitted
    /// state is on a row of the list, and its first shown row leaves the
    /// shown rows within the list, or is the first.
    pub proof fn lemma_normalized(self, len: nat, height: nat)
        requires
            len <= usize::MAX,
        ensures
            self.normalized(len, height).normalized(len, height) == self.normalized(len, height),
            self.normalized(len, height).selected matches Some(selected) ==> selected < len,
            len == 0 ==> self.normalized(len, height).selected is None,
            self.normalized(len, height).offset <= (if len > height {
                len - height
            } else {
                0
            }),
            self.normalized(len, height).offset <= self.offset,
    {
    }
}

/// Fits `list_state` to the rows of `list` as they are shown in `rect`.
pub fn normalize_list_state<T>(list_state: &mut ListState, list: &Vec<T>, rect: &Rect)
    ensures
        *final(list_state) == old(list_state).normalized(list.len() as nat, rect.height as nat),
{
    let len = list.len();
    match list_state.selected {
        Some(selected) => {
            if len == 0 {
                list_state.selected = None;
            } else if selected >= len {
                list_state.selected = Some(len - 1);
            }
        },
        None => {},
    }
    let last = len.saturating_sub(rect.height as usize);
    if list_state.offset > last {
        list_state.offset = last;
    }
}

/// The part of `area` in which the rows are shown: all but the header
/// lines at the top and the status line at the bottom.
pub open spec fn list_rect(area: Rect) -> Rect {
    Rect {
        x: area.x,
        y: if area.y + HEADER_HEIGHT > u16::MAX {
            u16::MAX
        } else {
            (area.y + HEADER_HEIGHT) as u16
        },
        width: area.width,
        height: if area.height > HEADER_HEIGHT + 1 {
            (area.height - HEADER_HEIGHT - 1) as u16
        } else {
            0
        },
    }
}

/// The line of `area` in which the status is shown.
pub open spec fn status_rect(area: Rect) -> Rect {
    Rect {
        x: area.x,
        y: if area.height > 0 {
            (area.height - 1) as u16
        } else {
            0
        },
        width: area.width,
        height: 1,
    }
}

/// The part of `area` in which the rows are shown.
pub fn list_area(area: &Rect) -> (r: Rect)
    ensures
        r == list_rect(*area),
{
    Rect {
        x: area.x,
        y: area.y.saturating_add(HEADER_HEIGHT),
        width: area.width,
        height: area.height.saturating_sub(HEADER_HEIGHT).saturating_sub(1),
    }
}

/// The rows for `records` under `key` and `pattern`: the forest of the
/// records, ordered by `key` on every level, row by row, without the rows
/// whose name does not pass `pattern`.
pub open spec fn shown(records: Seq<ProcessView>, key: SortBy, pattern: Regex) -> Seq<
    (u32, Seq<char>),
> {
    forest_rows(sort_forest(forest_of(records), key), pattern)
}

/// What is shown never has more rows than there are records, has one row
/// for every record where every name passes the pattern, and has no row
/// but for a record: the pid of every row is the pid of a record.
pub proof fn lemma_shown(records: Seq<ProcessView>, key: SortBy, pattern: Regex)
    ensures
        shown(records, key, pattern).len() <= records.len(),
        (forall|name: Seq<char>| pattern.matches(name)) ==> shown(records, key, pattern).len()
            == records.len(),
        forall|k: int|
            0 <= k < shown(records, key, pattern).len() ==> among(
                records,
                (#[trigger] shown(records, key, pattern)[k]).0,
            ),
{
    let sorted = sort_forest(forest_of(records), key);
    let nodes = level_processes(sorted);
    let lines = level_lines(sorted, Seq::empty());
    let rows = shown(records, key, pattern);
    lemma_every_record_once(records);
    lemma_sort_trees_keep_processes(forest_of(records), key);
    lemma_level_rows_pass_one_by_one(sorted, Seq::empty(), pattern);
    lemma_level_lines(sorted, Seq::empty());
    lemma_passing(lines, pattern);
    vstd::seq_lib::to_multiset_len(nodes);
    vstd::seq_lib::to_multiset_len(records);
    assert forall|k: int| 0 <= k < rows.len() implies among(records, (#[trigger] rows[k]).0) by {
        let j = choose|j: int| 0 <= j < lines.len() && (#[trigger] lines[j]).row == rows[k];
        assert(nodes.contains(nodes[j]));
        vstd::seq_lib::to_multiset_contains(nodes, nodes[j]);
        vstd::seq_lib::to_multiset_contains(records, nodes[j]);
        let i = choose|i: int| 0 <= i < records.len() && records[i] == nodes[j];
        assert(records[i].pid == rows[k].0);
    }
}

/// Whether `c` is a character that is typed into the pattern.
pub open spec fn printable(c: char) -> bool {
    32 <= c as u32 <= 126
}

/// Whether `c` is a character that is typed into the pattern.
pub fn is_printable(c: char) -> (r: bool)
    ensures
        r == printable(c),
{
    let code = c as u32;
    32 <= code && code <= 126
}

/// Whether `event` ends the program in the mode `mode`.
pub open spec fn quits(mode: UiMode, event: KeyEvent) -> bool {
    ||| event.modifiers == KeyModifiers::Control && event.code == KeyCode::Char('c')
    ||| event.modifiers == KeyModifiers::Plain && mode == UiMode::Normal && event.code
        == KeyCode::Char('q')
}

/// Where `event` moves a cursor that is on `selected`, before it is fitted to the list.
pub open spec fn moved(selected: Option<usize>, event: KeyEvent) -> Option<usize> {
    let at: usize = match selected {
        Some(at) => at,
        None => 0,
    };
    if event.modifiers != KeyModifiers::Plain {
        selected
    } else {
        match event.code {
            KeyCode::Up => Some(
                if at >= 1 {
                    (at - 1) as usize
                } else {
                    0
                },
            ),
            KeyCode::PageUp => Some(
                if at >= PAGE {
                    (at - PAGE) as usize
                } else {
                    0
                },
            ),
            KeyCode::Down => Some(
                if at + 1 > usize::MAX {
                    usize::MAX
                } else {
                    (at + 1) as usize
                },
            ),
            KeyCode::PageDown => Some(
                if at + PAGE > usize::MAX {
                    usize::MAX
                } else {
                    (at + PAGE) as usize
                },
            ),
            _ => selected,
        }
    }
}

/// The mode after `event` in the mode `mode`, with `rows` shown and the cursor on `selected`.
pub open spec fn next_mode(
    mode: UiMode,
    event: KeyEvent,
    rows: Seq<(u32, Seq<char>)>,
    selected: Option<usize>,
) -> UiMode {
    if event.modifiers != KeyModifiers::Plain {
        mode
    } else {
        match event.code {
            KeyCode::Enter => match selected {
                Some(at) => if at < rows.len() {
                    UiMode::ProcessSelected(rows[at as int].0)
                } else {
                    mode
                },
                None => mode,
            },
            KeyCode::Char(c) => if c == '/' {
                UiMode::EditingPattern
            } else {
                mode
            },
            KeyCode::Esc => UiMode::Normal,
            _ => mode,
        }
    }
}

/// The sort key after `event`.
pub open spec fn next_key(key: SortBy, event: KeyEvent) -> SortBy {
    if event.modifiers == KeyModifiers::Plain && event.code == KeyCode::Tab {
        key.following()
    } else {
        key
    }
}

/// Whether `event` edits the pattern in the mode `mode`.
pub open spec fn edits(mode: UiMode, event: KeyEvent) -> bool {
    &&& event.modifiers == KeyModifiers::Plain
    &&& mode == UiMode::EditingPattern
    &&& match event.code {
        KeyCode::Char(c) => c != '/' && printable(c),
        KeyCode::Backspace => true,
        _ => false,
    }
}

/// The pattern's text after the edit `event` of the text `text`.
pub open spec fn typed(text: Seq<char>, event: KeyEvent) -> Seq<char> {
    match event.code {
        KeyCode::Char(c) => text.push(c),
        _ => without_last(text),
    }
}

/// What `event` asks for in the mode `mode`, where it does not end the program.
pub open spec fn request(mode: UiMode, event: KeyEvent) -> UpdateResult {
    match mode {
        UiMode::ProcessSelected(pid) => if event.modifiers == KeyModifiers::Plain && event.code
            == KeyCode::Char('t') {
            UpdateResult::Send { pid, signal: Signal::Terminate }
        } else if event.modifiers == KeyModifiers::Plain && event.code == KeyCode::Char('k') {
            UpdateResult::Send { pid, signal: Signal::Kill }
        } else {
            UpdateResult::Continue
        },
        _ => UpdateResult::Continue,
    }
}

/// The state of the program between two events.
#[derive(Debug)]
pub struct PorcApp {
    /// The rows that are shown, each with the pid of its process.
    pub processes: Vec<(u32, String)>,
    /// The pattern that the rows are filtered by.
    pub pattern: Regex,
    pub list_state: ListState,
    pub ui_mode: UiMode,
    pub sort_column: SortBy,
    /// Whether the signal asked for last could not be delivered.
    pub signal_failed: bool,
}

impl PorcApp {
    /// The state at the start: no rows yet, the cursor on the first row,
    /// ordered by pid, filtered by `pattern` or, without one, by the empty pattern.
    pub fn new(pattern: Option<ValidatedRegexString>) -> (app: PorcApp)
        ensures
            app.processes@.len() == 0,
            match pattern {
                Some(valid) => app.pattern == (Regex::Regex { regex: valid.0 }),
                None => app.pattern.stands_for(Seq::<char>::empty()),
            },
            app.list_state == (ListState { offset: 0, selected: Some(0) }),
            app.ui_mode == UiMode::Normal,
            app.sort_column == SortBy::Pid,
            !app.signal_failed,
    {
        PorcApp {
            processes: Vec::new(),
            pattern: match pattern {
                Some(valid) => valid.into_regex(),
                None => Regex::lenient(String::new()),
            },
            list_state: ListState::default().with_selected(Some(0)),
            ui_mode: UiMode::Normal,
            sort_column: SortBy::Pid,
            signal_failed: false,
        }
    }

    /// Orders `forest`, takes its rows under the pattern, and fits the cursor to them.
    fn recompute(&mut self, forest: &mut Forest, area: &Rect)
        ensures
            final(self).pattern == old(self).pattern,
            final(self).ui_mode == old(self).ui_mode,
            final(self).sort_column == old(self).sort_column,
            final(self).signal_failed == old(self).signal_failed,
            final(forest)@ == sort_forest(old(forest)@, old(self).sort_column),
            row_views(final(self).processes@) == forest_rows(final(forest)@, old(self).pattern),
            final(self).list_state == old(self).list_state.normalized(
                final(self).processes@.len(),
                list_rect(*area).height as nat,
            ),
    {
        forest.sort_by(self.sort_column);
        self.processes = forest.format_processes(&self.pattern);
        let rect = list_area(area);
        normalize_list_state(&mut self.list_state, &self.processes, &rect);
    }

    /// Handles a key, then shows `snapshot` under the pattern and the sort key as they are now.
    ///
    /// `Ctrl+C`, and `q` in the normal mode, end the program and change
    /// nothing. Otherwise the arrows and page keys move the cursor, `Enter`
    /// selects the process under it, `/` starts the editing of the pattern,
    /// `Tab` takes the next sort key, `Esc` leads back to the normal mode;
    /// while the pattern is edited a typed character is added to it and
    /// `Backspace` takes its last one away; while a process is selected `t`
    /// and `k` ask for a signal to it.
    pub fn update(&mut self, event: KeyEvent, snapshot: &Vec<Process>, area: &Rect) -> (r:
        UpdateResult)
        ensures
            quits(old(self).ui_mode, event) ==> r == UpdateResult::Exit && *final(self) == *old(
                self,
            ),
            !quits(old(self).ui_mode, event) ==> {
                &&& r == request(old(self).ui_mode, event)
                &&& final(self).ui_mode == next_mode(
                    old(self).ui_mode,
                    event,
                    row_views(old(self).processes@),
                    old(self).list_state.selected,
                )
                &&& final(self).sort_column == next_key(old(self).sort_column, event)
                &&& if edits(old(self).ui_mode, event) {
                    final(self).pattern.stands_for(typed(old(self).pattern.text(), event))
                } else {
                    final(self).pattern == old(self).pattern
                }
                &&& row_views(final(self).processes@) == shown(
                    views(snapshot@),
                    final(self).sort_column,
                    final(self).pattern,
                )
                &&& final(self).list_state == (ListState {
                    offset: old(self).list_state.offset,
                    selected: moved(old(self).list_state.selected, event),
                }).normalized(final(self).processes@.len(), list_rect(*area).height as nat)
                &&& !final(self).signal_failed
            },
    {
        let mut result = UpdateResult::Continue;
        let at: usize = match self.list_state.selected {
            Some(at) => at,
            None => 0,
        };
        match event.modifiers {
            KeyModifiers::Control => {
                if event.code == KeyCode::Char('c') {
                    return UpdateResult::Exit;
                }
            },
            KeyModifiers::Plain => {
                match event.code {
                    KeyCode::Up => {
                        self.list_state.select(Some(at.saturating_sub(1)));
                    },
                    KeyCode::PageUp => {
                        self.list_state.select(Some(at.saturating_sub(PAGE)));
                    },
                    KeyCode::Down => {
                        self.list_state.select(Some(at.saturating_add(1)));
                    },
                    KeyCode::PageDown => {
                        self.list_state.select(Some(at.saturating_add(PAGE)));
                    },
                    KeyCode::Enter => {
                        if let Some(selected) = self.list_state.selected {
                            if selected < self.processes.len() {
                                self.ui_mode = UiMode::ProcessSelected(self.processes[selected].0);
                            }
                        }
                    },
                    KeyCode::Tab => {
                        self.sort_column = self.sort_column.next();
                    },
                    KeyCode::Esc => {
                        self.ui_mode = UiMode::Normal;
                    },
                    KeyCode::Backspace => {
                        if self.ui_mode == UiMode::EditingPattern {
                            self.pattern.pop();
                        }
                    },
                    KeyCode::Char(key) => {
                        if key == 'q' && self.ui_mode == UiMode::Normal {
                            return UpdateResult::Exit;
                        } else if key == '/' {
                            self.ui_mode = UiMode::EditingPattern;
                        } else {
                            match self.ui_mode {
                                UiMode::Normal => {},
                                UiMode::EditingPattern => {
                                    if is_printable(key) {
                                        self.pattern.push(key);
                                    }
                                },
                                UiMode::ProcessSelected(pid) => {
                                    if key == 't' {
                                        result = UpdateResult::Send { pid, signal: Signal::Terminate };
                                    } else if key == 'k' {
                                        result = UpdateResult::Send { pid, signal: Signal::Kill };
                                    }
                                },
                            }
                        }
                    },
                    KeyCode::Other => {},
                }
            },
            KeyModifiers::Other => {},
        }
        self.signal_failed = false;
        let mut forest = Forest::new_forest(snapshot);
        self.recompute(&mut forest, area);
        result
    }

    /// Shows the new snapshot `snapshot`; where there is none, all stays as it is.
    ///
    /// A selected process that is in no node of the new forest, which is to
    /// say not among `snapshot`, is no longer selected: the mode is the
    /// normal one again.
    pub fn tick(&mut self, snapshot: Option<&Vec<Process>>, area: &Rect)
        ensures
            match snapshot {
                None => *final(self) == *old(self),
                Some(processes) => {
                    &&& final(self).pattern == old(self).pattern
                    &&& final(self).sort_column == old(self).sort_column
                    &&& final(self).signal_failed == old(self).signal_failed
                    &&& final(self).ui_mode == match old(self).ui_mode {
                        UiMode::ProcessSelected(pid) => if among(views(processes@), pid) {
                            old(self).ui_mode
                        } else {
                            UiMode::Normal
                        },
                        mode => mode,
                    }
                    &&& row_views(final(self).processes@) == shown(
                        views(processes@),
                        old(self).sort_column,
                        old(self).pattern,
                    )
                    &&& final(self).list_state == old(self).list_state.normalized(
                        final(self).processes@.len(),
                        list_rect(*area).height as nat,
                    )
                },
            },
    {
        match snapshot {
            None => {},
            Some(processes) => {
                let mut forest = Forest::new_forest(processes);
                if let UiMode::ProcessSelected(selected) = self.ui_mode {
                    proof {
                        lemma_forest_holds(views(processes@), selected);
                    }
                    if !forest.contains(selected) {
                        self.ui_mode = UiMode::Normal;
                    }
                }
                self.recompute(&mut forest, area);
            },
        }
    }

    /// Takes note of whether the signal that `update` asked for was delivered.
    pub fn signal_outcome(&mut self, delivered: bool)
        ensures
            *final(self) == (PorcApp { signal_failed: !delivered, ..*old(self) }),
    {
        self.signal_failed = !delivered;
    }
}

/// The colour of the status line.
#[derive(Debug, Clone, Copy, PartialEq, Eq, Structural)]
pub enum StatusColor {
    Plain,
    Yellow,
    Red,
}

/// What is to be drawn, and where.
#[derive(Debug)]
pub struct Frame {
    /// The header lines, from the top of the area.
    pub header: Vec<String>,
    /// Where the rows are drawn.
    pub list_area: Rect,
    /// For each row, whether it is the row of the selected process.
    pub marked: Vec<bool>,
    pub status_bar: String,
    pub status_color: StatusColor,
    /// Where the status line is drawn.
    pub status_area: Rect,
}

/// The note on the pattern at the end of the status line; none for the empty pattern.
pub open spec fn pattern_note(pattern: Seq<char>) -> Seq<char> {
    if pattern.len() == 0 {
        Seq::empty()
    } else {
        " | search pattern: "@ + pattern
    }
}

/// The status line: the keys of the mode `mode`, the pattern `pattern`
/// where there is one, and a note where the last signal was not delivered.
pub open spec fn status_text(mode: UiMode, pattern: Seq<char>, failed: bool) -> Seq<char> {
    let keys = match mode {
        UiMode::Normal => "Ctrl+C: Quit | ↑↓ : scroll | ENTER: select process | /: filter processes"@
            + pattern_note(pattern),
        UiMode::EditingPattern => "Ctrl+C: Quit | ↑↓ : scroll | ENTER: select process | ESC: exit search mode | type search pattern: "@
            + pattern + "▌"@,
        UiMode::ProcessSelected(_) => "Ctrl+C: Quit | ↑↓ : scroll | t: SIGTERM process | k: SIGKILL process | ESC: unselect | ENTER: select other"@
            + pattern_note(pattern),
    };
    if failed {
        keys + " | signal not delivered"@
    } else {
        keys
    }
}

/// The colour of the status line in the mode `mode`.
pub open spec fn status_color(mode: UiMode) -> StatusColor {
    match mode {
        UiMode::Normal => StatusColor::Plain,
        UiMode::EditingPattern => StatusColor::Yellow,
        UiMode::ProcessSelected(_) => StatusColor::Red,
    }
}

/// For each row of `rows`, whether it is the row of the process selected in the mode `mode`.
pub open spec fn marks(rows: Seq<(u32, Seq<char>)>, mode: UiMode) -> Seq<bool> {
    Seq::new(rows.len(), |k: int| mode == UiMode::ProcessSelected(rows[k].0))
}

impl PorcApp {
    /// The status line.
    pub fn status_bar(&self) -> (r: String)
        ensures
            r@ == status_text(self.ui_mode, self.pattern.text(), self.signal_failed),
    {
        let pattern = self.pattern.as_str();
        let mut line = match self.ui_mode {
            UiMode::Normal => String::from_str(
                "Ctrl+C: Quit | ↑↓ : scroll | ENTER: select process | /: filter processes",
            ),
            UiMode::EditingPattern => String::from_str(
                "Ctrl+C: Quit | ↑↓ : scroll | ENTER: select process | ESC: exit search mode | type search pattern: ",
            ),
            UiMode::ProcessSelected(_) => String::from_str(
                "Ctrl+C: Quit | ↑↓ : scroll | t: SIGTERM process | k: SIGKILL process | ESC: unselect | ENTER: select other",
            ),
        };
        match self.ui_mode {
            UiMode::EditingPattern => {
                line.append(pattern);
                line.append("▌");
            },
            _ => {
                if pattern.unicode_len() > 0 {
                    line.append(" | search pattern: ");
                    line.append(pattern);
                }
            },
        }
        if self.signal_failed {
            line.append(" | signal not delivered");
        }
        line
    }

    /// Fits the cursor to the rows and to `area`, and says what is to be drawn in `area`.
    pub fn render(&mut self, area: Rect) -> (frame: Frame)
        ensures
            *final(self) == (PorcApp {
                list_state: old(self).list_state.normalized(
                    old(self).processes@.len(),
                    list_rect(area).height as nat,
                ),
                ..*old(self)
            }),
            line_views(frame.header@) == header_lines(area.width as nat),
            frame.list_area == list_rect(area),
            frame.marked@ == marks(row_views(old(self).processes@), old(self).ui_mode),
            frame.status_bar@ == status_text(
                old(self).ui_mode,
                old(self).pattern.text(),
                old(self).signal_failed,
            ),
            frame.status_color == status_color(old(self).ui_mode),
            frame.status_area == status_rect(area),
    {
        let header = Process::format_header(area.width as usize);
        let list_area = list_area(&area);
        normalize_list_state(&mut self.list_state, &self.processes, &list_area);
        let mut marked: Vec<bool> = Vec::new();
        let mut k: usize = 0;
        while k < self.processes.len()
            invariant
                k <= self.processes.len(),
                marked.len() == k,
                forall|q: int|
                    0 <= q < k ==> marked[q] == (self.ui_mode == UiMode::ProcessSelected(
                        self.processes[q].0,
                    )),
            decreases self.processes.len() - k,
        {
            let pid = self.processes[k].0;
            marked.push(
                match self.ui_mode {
                    UiMode::ProcessSelected(selected) => selected == pid,
                    _ => false,
                },
            );
            k += 1;
        }
        assert(marked@ =~= marks(row_views(self.processes@), self.ui_mode));
        Frame {
            header,
            list_area,
            marked,
            status_bar: self.status_bar(),
            status_color: match self.ui_mode {
                UiMode::Normal => StatusColor::Plain,
                UiMode::EditingPattern => StatusColor::Yellow,
                UiMode::ProcessSelected(_) => StatusColor::Red,
            },
            status_area: Rect {
                x: area.x,
                y: area.height.saturating_sub(1),
                width: area.width,
                height: 1,
            },
        }
    }
}

} // verus!
