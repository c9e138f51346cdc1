use vstd::prelude::*;

use crate::ports::{monitored, monitored_ports};
use crate::process::{PortProcess, PortProcessView, views};
use crate::rows::{
    as_selection, find_process_before, find_process_from, first_process_from, next_selection,
    previous_selection, row_views, rows_for, shown, shows_each_once, display_rows_of, DisplayRow,
    RowView,
};
use crate::screen::{fit_command, fitted_command};
use crate::text::{decimal, decimal_string, owned, signed_decimal, signed_decimal_string};

verus! {

broadcast use vstd::string::group_string_axioms;

// ---------------------------------------------------------------------------
// The application state
// ---------------------------------------------------------------------------

/// The state of the port list: the processes found, the rows shown for them,
/// the selected row, a message for the user, the watched ports, and the
/// automatic refresh setting.
pub struct App {
    processes: Vec<PortProcess>,
    display_rows: Vec<DisplayRow>,
    selected: Option<usize>,
    message: Option<String>,
    ports: Vec<u16>,
    auto_refresh: bool,
    refresh_interval_secs: u64,
}

/// The state with its texts as character sequences.
pub struct AppView {
    pub processes: Seq<PortProcessView>,
    pub rows: Seq<RowView>,
    pub selected: Option<usize>,
    pub message: Option<Seq<char>>,
    pub ports: Seq<u16>,
    pub auto_refresh: bool,
    pub refresh_interval_secs: u64,
}

/// The view of an optional message.
pub open spec fn message_view(m: Option<String>) -> Option<Seq<char>> {
    match m {
        Some(s) => Some(s@),
        None => None,
    }
}

impl View for App {
    type V = AppView;

    closed spec fn view(&self) -> AppView {
        AppView {
            processes: views(self.processes@),
            rows: row_views(self.display_rows@),
            selected: self.selected,
            message: message_view(self.message),
            ports: self.ports@,
            auto_refresh: self.auto_refresh,
            refresh_interval_secs: self.refresh_interval_secs,
        }
    }
}

/// The position, in the process list, of the process on the selected row.
pub open spec fn selected_process_index(v: AppView) -> Option<usize> {
    match v.selected {
        Some(i) => if i < v.rows.len() {
            match v.rows[i as int] {
                RowView::Process { index } => if index < v.processes.len() {
                    Some(index)
                } else {
                    None
                },
                RowView::Header { .. } => None,
            }
        } else {
            None
        },
        None => None,
    }
}

/// The process id of the process on the selected row.
pub open spec fn selected_pid(v: AppView) -> Option<i32> {
    match selected_process_index(v) {
        Some(i) => Some(v.processes[i as int].pid),
        None => None,
    }
}

/// The selection after the process list was replaced: none when no process is
/// left; the first process row when the old selection lies past the rows;
/// else the old selection.
pub open spec fn refreshed_selection(old_sel: Option<usize>, n: nat, rows: Seq<RowView>) -> Option<usize> {
    if n == 0 {
        None
    } else {
        match old_sel {
            Some(s) => if s >= rows.len() {
                as_selection(first_process_from(rows, 0))
            } else {
                Some(s)
            },
            None => None,
        }
    }
}

/// The row at position `r` shows a process with the id `pid`.
pub open spec fn shows_pid(rows: Seq<RowView>, ps: Seq<PortProcessView>, pid: i32, r: int) -> bool {
    0 <= r < rows.len() && match rows[r] {
        RowView::Process { index } => index < ps.len() && ps[index as int].pid == pid,
        RowView::Header { .. } => false,
    }
}

/// The first row at `start` or later that shows a process with the id `pid`.
pub open spec fn row_with_pid(rows: Seq<RowView>, ps: Seq<PortProcessView>, pid: i32, start: int) -> Option<int>
    decreases rows.len() - start,
{
    if start < 0 || start >= rows.len() {
        None
    } else if shows_pid(rows, ps, pid, start) {
        Some(start)
    } else {
        row_with_pid(rows, ps, pid, start + 1)
    }
}

/// The selection after the process list was replaced while the selected
/// process is kept: the first row that shows a process with the id of the
/// one selected before, if any; else as `refreshed_selection`.
pub open spec fn preserved_selection(
    old_pid: Option<i32>,
    old_sel: Option<usize>,
    ps: Seq<PortProcessView>,
    rows: Seq<RowView>,
) -> Option<usize> {
    match old_pid {
        Some(pid) => match row_with_pid(rows, ps, pid, 0) {
            Some(i) => Some(i as usize),
            None => refreshed_selection(old_sel, ps.len(), rows),
        },
        None => refreshed_selection(old_sel, ps.len(), rows),
    }
}

/// The message shown after a process was signalled.
pub open spec fn killed_message(pid: i32) -> Seq<char> {
    "Killed PID "@ + signed_decimal(pid as int) + " successfully"@
}

/// The message shown when a process could not be signalled.
pub open spec fn kill_failed_message(pid: i32, reason: Seq<char>) -> Seq<char> {
    "Failed to kill PID "@ + signed_decimal(pid as int) + ": "@ + reason
}

/// The message shown when automatic refresh is switched on or off.
pub open spec fn auto_refresh_message(on: bool, secs: u64) -> Seq<char> {
    if on {
        "Auto-refresh enabled ("@ + decimal(secs as nat) + "s)"@
    } else {
        "Auto-refresh disabled"@
    }
}

/// The position of a process row whose process has the id `pid`.
fn find_row_with_pid(rows: &Vec<DisplayRow>, ps: &Vec<PortProcess>, pid: i32) -> (r: Option<usize>)
    ensures
        as_selection(row_with_pid(row_views(rows@), views(ps@), pid, 0)) == r,
        r matches Some(i) ==> i < rows@.len(),
{
    let ghost rv = row_views(rows@);
    let ghost pv = views(ps@);
    let mut i: usize = 0;
    while i < rows.len()
        invariant
            rv == row_views(rows@),
            pv == views(ps@),
            row_with_pid(rv, pv, pid, 0) == row_with_pid(rv, pv, pid, i as int),
        decreases rows.len() - i,
    {
        assert(rv[i as int] == rows@[i as int]@);
        if let DisplayRow::Process { process_index } = rows[i] {
            if process_index < ps.len() {
                assert(pv[process_index as int] == ps@[process_index as int]@);
                if ps[process_index].pid == pid {
                    return Some(i);
                }
            }
        }
        i = i + 1;
    }
    None
}

/// A key that the user pressed, as far as the port list tells keys apart.
pub enum Key {
    Char(char),
    Esc,
    Up,
    Down,
    Delete,
    Other,
}

/// What the outside has to do after a key was handled.
pub enum Command {
    /// Leave the program.
    Quit,
    /// Scan the ports again, then call `refresh_requested`.
    Refresh,
    /// Send the process with this id a termination signal, then call
    /// `kill_selected` with the outcome.
    Kill(i32),
    /// Scan the ports again, then call `refresh_preserving_selection`.
    RefreshKeepingSelection,
    /// Nothing.
    Nothing,
}

/// The header line's note on automatic refresh.
pub open spec fn refresh_status(v: AppView) -> Seq<char> {
    if v.auto_refresh {
        " [Auto-refresh: "@ + decimal(v.refresh_interval_secs as nat) + "s]"@
    } else {
        " [Auto-refresh: off]"@
    }
}

/// The header line.
pub open spec fn header_of(v: AppView) -> Seq<char> {
    if v.processes.len() == 0 {
        "\u{1f50d} DevPort - No services detected"@ + refresh_status(v)
    } else {
        "\u{1f6a2} DevPort - Development Port Manager"@ + refresh_status(v)
    }
}

/// The title of the process list.
pub open spec fn list_title_of(v: AppView) -> Seq<char> {
    if v.processes.len() == 0 {
        " \u{1f4ed} No Processes Found "@
    } else {
        " \u{1f3af} Active Services ("@ + decimal(v.processes.len()) + ") "@
    }
}

proof fn lemma_row_with_pid(rows: Seq<RowView>, ps: Seq<PortProcessView>, pid: i32, start: int)
    requires
        0 <= start,
    ensures
        match row_with_pid(rows, ps, pid, start) {
            Some(r) => start <= r && shows_pid(rows, ps, pid, r),
            None => forall|r: int| start <= r < rows.len() ==> !#[trigger] shows_pid(rows, ps, pid, r),
        },
    decreases rows.len() - start,
{
    if start < rows.len() {
        lemma_row_with_pid(rows, ps, pid, start + 1);
    }
}

/// When a process with the id `pid` is listed and every process is shown, the
/// first row that shows a process with that id exists.
proof fn lemma_pid_row_found(rows: Seq<RowView>, ps: Seq<PortProcessView>, pid: i32, i: int)
    requires
        shows_each_once(rows, ps.len()),
        0 <= i < ps.len() <= usize::MAX,
        ps[i].pid == pid,
    ensures
        row_with_pid(rows, ps, pid, 0) matches Some(r) && shows_pid(rows, ps, pid, r),
{
    assert(shown(rows, i as usize));
    let r = choose|r: int| 0 <= r < rows.len() && rows[r] == (RowView::Process { index: i as usize });
    lemma_row_with_pid(rows, ps, pid, 0);
    assert(shows_pid(rows, ps, pid, r));
}

/// A line of the footer.
pub enum FooterLine {
    /// The message for the user.
    Message(String),
    /// The selected process's command line, fitted to the terminal.
    FullCommand(String),
    /// An empty line.
    Blank,
    /// The list of keys.
    Controls,
}

/// A footer line with its text as a character sequence.
pub enum FooterLineView {
    Message(Seq<char>),
    FullCommand(Seq<char>),
    Blank,
    Controls,
}

impl View for FooterLine {
    type V = FooterLineView;

    open spec fn view(&self) -> FooterLineView {
        match self {
            FooterLine::Message(m) => FooterLineView::Message(m@),
            FooterLine::FullCommand(c) => FooterLineView::FullCommand(c@),
            FooterLine::Blank => FooterLineView::Blank,
            FooterLine::Controls => FooterLineView::Controls,
        }
    }
}

/// The footer in a terminal `width` columns wide: the message, a blank line
/// and the keys when there is a message; else the selected process's command
/// line, a blank line and the keys when a process is selected; else the keys.
pub open spec fn footer_of(v: AppView, width: u16) -> Seq<FooterLineView> {
    match v.message {
        Some(m) => seq![FooterLineView::Message(m), FooterLineView::Blank, FooterLineView::Controls],
        None => match selected_process_index(v) {
            Some(i) => seq![
                FooterLineView::FullCommand(fitted_command(v.processes[i as int].command_full, width)),
                FooterLineView::Blank,
                FooterLineView::Controls,
            ],
            None => seq![FooterLineView::Controls],
        },
    }
}

impl App {
    /// The state is consistent: the rows are those of the processes, and the
    /// selection, if any, is a row.
    pub open spec fn wf(&self) -> bool {
        &&& self@.rows == display_rows_of(self@.processes)
        &&& shows_each_once(self@.rows, self@.processes.len())
        &&& (self@.selected matches Some(s) ==> s < self@.rows.len())
    }

    /// A new state for the custom ports and the refresh interval in seconds
    /// (0 turns automatic refresh off), showing the processes found on the
    /// watched ports, with the first process row selected.
    pub fn new(custom_ports: Vec<u16>, refresh_secs: u64, processes: Vec<PortProcess>) -> (r: App)
        ensures
            r.wf(),
            r@.ports == monitored(custom_ports@),
            r@.auto_refresh == (refresh_secs > 0),
            r@.refresh_interval_secs == (if refresh_secs > 0 { refresh_secs } else { 2 }),
            r@.message is None,
            r@.processes == views(processes@),
            r@.selected == as_selection(first_process_from(r@.rows, 0)),
    {
        let ports = monitored_ports(&custom_ports);
        let none: Vec<PortProcess> = Vec::new();
        let rows = rows_for(&none);
        let mut app = App {
            processes: none,
            display_rows: rows,
            selected: None,
            message: None,
            ports,
            auto_refresh: refresh_secs > 0,
            refresh_interval_secs: if refresh_secs > 0 { refresh_secs } else { 2 },
        };
        app.refresh(processes);
        app.select_first_process();
        app
    }

    fn rebuild_display_rows(&mut self)
        ensures
            final(self).processes == old(self).processes,
            final(self).selected == old(self).selected,
            final(self).message == old(self).message,
            final(self).ports == old(self).ports,
            final(self).auto_refresh == old(self).auto_refresh,
            final(self).refresh_interval_secs == old(self).refresh_interval_secs,
            row_views(final(self).display_rows@) == display_rows_of(views(final(self).processes@)),
            shows_each_once(row_views(final(self).display_rows@), final(self).processes@.len()),
    {
        self.display_rows = rows_for(&self.processes);
    }

    /// Selects the first process row; no row when there is none.
    pub fn select_first_process(&mut self)
        requires
            old(self).wf(),
        ensures
            final(self).wf(),
            final(self)@ == (AppView {
                selected: as_selection(first_process_from(old(self)@.rows, 0)),
                ..old(self)@
            }),
    {
        self.selected = find_process_from(&self.display_rows, 0);
    }

    /// The process on the selected row, if a process row is selected.
    pub fn selected_process(&self) -> (r: Option<&PortProcess>)
        ensures
            match selected_process_index(self@) {
                Some(i) => r matches Some(p) && p@ == self@.processes[i as int],
                None => r is None,
            },
    {
        match self.selected {
            Some(i) => {
                if i < self.display_rows.len() {
                    assert(row_views(self.display_rows@)[i as int] == self.display_rows@[i as int]@);
                    match self.display_rows[i] {
                        DisplayRow::Process { process_index } => {
                            if process_index < self.processes.len() {
                                assert(views(self.processes@)[process_index as int]
                                    == self.processes@[process_index as int]@);
                                Some(&self.processes[process_index])
                            } else {
                                None
                            }
                        },
                        DisplayRow::GroupHeader { .. } => None,
                    }
                } else {
                    None
                }
            },
            None => None,
        }
    }

    /// Replaces the process list with a fresh scan.
    pub fn refresh(&mut self, processes: Vec<PortProcess>)
        requires
            old(self).wf(),
        ensures
            final(self).wf(),
            final(self)@ == (AppView {
                processes: views(processes@),
                rows: display_rows_of(views(processes@)),
                selected: refreshed_selection(
                    old(self)@.selected,
                    processes@.len(),
                    display_rows_of(views(processes@)),
                ),
                ..old(self)@
            }),
    {
        self.processes = processes;
        self.rebuild_display_rows();
        if self.processes.len() == 0 {
            self.selected = None;
        } else if let Some(selected) = self.selected {
            if selected >= self.display_rows.len() {
                self.selected = find_process_from(&self.display_rows, 0);
            }
        }
    }

    /// Moves the selection to the next process row, wrapping round.
    pub fn next(&mut self)
        requires
            old(self).wf(),
        ensures
            final(self).wf(),
            final(self)@ == (AppView { selected: next_selection(old(self)@.rows, old(self)@.selected), ..old(self)@ }),
    {
        if self.display_rows.len() == 0 {
            return;
        }
        let start = match self.selected {
            Some(s) => s + 1,
            None => 0,
        };
        match find_process_from(&self.display_rows, start) {
            Some(i) => {
                self.selected = Some(i);
            },
            None => {
                if let Some(i) = find_process_from(&self.display_rows, 0) {
                    self.selected = Some(i);
                }
            },
        }
    }

    /// Moves the selection to the previous process row, wrapping round.
    pub fn previous(&mut self)
        requires
            old(self).wf(),
        ensures
            final(self).wf(),
            final(self)@ == (AppView {
                selected: previous_selection(old(self)@.rows, old(self)@.selected),
                ..old(self)@
            }),
    {
        if self.display_rows.len() == 0 {
            return;
        }
        let start = match self.selected {
            Some(s) => s,
            None => 0,
        };
        if start > 0 {
            if let Some(i) = find_process_before(&self.display_rows, start) {
                self.selected = Some(i);
                return;
            }
        }
        let n = self.display_rows.len();
        if let Some(i) = find_process_before(&self.display_rows, n) {
            self.selected = Some(i);
        }
    }

    /// Replaces the process list with a fresh scan, keeping the selected
    /// process selected when it is still there.
    pub fn refresh_preserving_selection(&mut self, processes: Vec<PortProcess>)
        requires
            old(self).wf(),
        ensures
            final(self).wf(),
            final(self)@ == (AppView {
                processes: views(processes@),
                rows: display_rows_of(views(processes@)),
                selected: preserved_selection(
                    selected_pid(old(self)@),
                    old(self)@.selected,
                    views(processes@),
                    display_rows_of(views(processes@)),
                ),
                ..old(self)@
            }),
            // The selected process stays selected while it is still listed.
            (selected_pid(old(self)@) matches Some(pid) && exists|i: int|
                0 <= i < processes@.len() && #[trigger] processes@[i].pid == pid) ==> selected_pid(final(self)@)
                == selected_pid(old(self)@),
    {
        let kept_pid = match self.selected_process() {
            Some(p) => Some(p.pid),
            None => None,
        };
        self.processes = processes;
        self.rebuild_display_rows();
        let count = self.processes.len();
        proof {
            if let Some(pid) = kept_pid {
                let ps = views(self.processes@);
                assert(ps.len() == count);
                let rows = row_views(self.display_rows@);
                if exists|i: int| 0 <= i < self.processes@.len() && #[trigger] self.processes@[i].pid == pid {
                    let i = choose|i: int| 0 <= i < self.processes@.len() && #[trigger] self.processes@[i].pid == pid;
                    assert(ps[i].pid == pid);
                    lemma_pid_row_found(rows, ps, pid, i);
                }
            }
        }
        if let Some(pid) = kept_pid {
            if let Some(i) = find_row_with_pid(&self.display_rows, &self.processes, pid) {
                self.selected = Some(i);
                let nrows = self.display_rows.len();
                proof {
                    let ps = views(self.processes@);
                    let rows = row_views(self.display_rows@);
                    assert(rows.len() == nrows);
                    lemma_row_with_pid(rows, ps, pid, 0);
                    assert(shows_pid(rows, ps, pid, i as int));
                    assert(rows[i as int] == self.display_rows@[i as int]@);
                    assert(selected_pid(self@) == Some(pid));
                }
                return;
            }
        }
        if self.processes.len() == 0 {
            self.selected = None;
        } else if let Some(sel) = self.selected {
            if sel >= self.display_rows.len() {
                self.selected = find_process_from(&self.display_rows, 0);
            }
        }
    }

    /// The id of the process to signal for the selected row, if it shows one.
    pub fn kill_target(&self) -> (r: Option<i32>)
        ensures
            r == selected_pid(self@),
    {
        match self.selected_process() {
            Some(p) => Some(p.pid),
            None => None,
        }
    }

    /// Records the outcome of signalling the process `pid`: on success (with a
    /// fresh scan made after it) a message saying so, and the fresh process
    /// list; on failure a message with the reason, and nothing else changes.
    pub fn kill_selected(&mut self, pid: i32, outcome: Result<Vec<PortProcess>, String>)
        requires
            old(self).wf(),
            selected_pid(old(self)@) == Some(pid),
        ensures
            final(self).wf(),
            match outcome {
                Ok(processes) => final(self)@ == (AppView {
                    processes: views(processes@),
                    rows: display_rows_of(views(processes@)),
                    selected: refreshed_selection(
                        old(self)@.selected,
                        processes@.len(),
                        display_rows_of(views(processes@)),
                    ),
                    message: Some(killed_message(pid)),
                    ..old(self)@
                }),
                Err(reason) => final(self)@ == (AppView {
                    message: Some(kill_failed_message(pid, reason@)),
                    ..old(self)@
                }),
            },
    {
        match outcome {
            Ok(processes) => {
                let mut m = owned("Killed PID ");
                m.append(signed_decimal_string(pid).as_str());
                m.append(" successfully");
                self.message = Some(m);
                self.refresh(processes);
            },
            Err(reason) => {
                let mut m = owned("Failed to kill PID ");
                m.append(signed_decimal_string(pid).as_str());
                m.append(": ");
                m.append(reason.as_str());
                self.message = Some(m);
            },
        }
    }

    /// Replaces the process list with a scan that the user asked for, and says
    /// so.
    pub fn refresh_requested(&mut self, processes: Vec<PortProcess>)
        requires
            old(self).wf(),
        ensures
            final(self).wf(),
            final(self)@ == (AppView {
                processes: views(processes@),
                rows: display_rows_of(views(processes@)),
                selected: refreshed_selection(
                    old(self)@.selected,
                    processes@.len(),
                    display_rows_of(views(processes@)),
                ),
                message: Some("Refreshed"@),
                ..old(self)@
            }),
    {
        self.refresh(processes);
        self.message = Some(owned("Refreshed"));
    }

    /// Switches automatic refresh on or off, and says so.
    pub fn toggle_auto_refresh(&mut self)
        requires
            old(self).wf(),
        ensures
            final(self).wf(),
            final(self)@ == (AppView {
                auto_refresh: !old(self)@.auto_refresh,
                message: Some(auto_refresh_message(!old(self)@.auto_refresh, old(self)@.refresh_interval_secs)),
                ..old(self)@
            }),
    {
        self.auto_refresh = !self.auto_refresh;
        if self.auto_refresh {
            let mut m = owned("Auto-refresh enabled (");
            m.append(decimal_string(self.refresh_interval_secs).as_str());
            m.append("s)");
            self.message = Some(m);
        } else {
            self.message = Some(owned("Auto-refresh disabled"));
        }
    }

    /// Handles a key: `q` or Escape quit; `r` asks for a new scan; `a`
    /// switches automatic refresh; Down or `j` and Up or `k` move the
    /// selection; `d` or Delete ask to signal the selected process; other keys
    /// do nothing.
    pub fn handle_key(&mut self, key: Key) -> (r: Command)
        requires
            old(self).wf(),
        ensures
            final(self).wf(),
            match key {
                Key::Char('q') | Key::Esc => r is Quit && final(self)@ == old(self)@,
                Key::Char('r') => r is Refresh && final(self)@ == old(self)@,
                Key::Char('a') => r is Nothing && final(self)@ == (AppView {
                    auto_refresh: !old(self)@.auto_refresh,
                    message: Some(
                        auto_refresh_message(!old(self)@.auto_refresh, old(self)@.refresh_interval_secs),
                    ),
                    ..old(self)@
                }),
                Key::Down | Key::Char('j') => r is Nothing && final(self)@ == (AppView {
                    selected: next_selection(old(self)@.rows, old(self)@.selected),
                    ..old(self)@
                }),
                Key::Up | Key::Char('k') => r is Nothing && final(self)@ == (AppView {
                    selected: previous_selection(old(self)@.rows, old(self)@.selected),
                    ..old(self)@
                }),
                Key::Char('d') | Key::Delete => final(self)@ == old(self)@ && match selected_pid(
                    old(self)@,
                ) {
                    Some(pid) => r == Command::Kill(pid),
                    None => r is Nothing,
                },
                _ => r is Nothing && final(self)@ == old(self)@,
            },
    {
        match key {
            Key::Char('q') | Key::Esc => Command::Quit,
            Key::Char('r') => Command::Refresh,
            Key::Char('a') => {
                self.toggle_auto_refresh();
                Command::Nothing
            },
            Key::Down | Key::Char('j') => {
                self.next();
                Command::Nothing
            },
            Key::Up | Key::Char('k') => {
                self.previous();
                Command::Nothing
            },
            Key::Char('d') | Key::Delete => match self.kill_target() {
                Some(pid) => Command::Kill(pid),
                None => Command::Nothing,
            },
            _ => Command::Nothing,
        }
    }

    /// Handles a timer tick: with automatic refresh on, it asks for a new scan
    /// that keeps the selection; else it does nothing.
    pub fn handle_tick(&self) -> (r: Command)
        ensures
            if self@.auto_refresh {
                r is RefreshKeepingSelection
            } else {
                r is Nothing
            },
    {
        if self.auto_refresh {
            Command::RefreshKeepingSelection
        } else {
            Command::Nothing
        }
    }

    /// Whether automatic refresh is on.
    pub fn auto_refresh(&self) -> (r: bool)
        ensures
            r == self@.auto_refresh,
    {
        self.auto_refresh
    }

    /// The seconds between automatic refreshes.
    pub fn refresh_interval_secs(&self) -> (r: u64)
        ensures
            r == self@.refresh_interval_secs,
    {
        self.refresh_interval_secs
    }

    /// The processes found.
    pub fn processes(&self) -> (r: &Vec<PortProcess>)
        ensures
            views(r@) == self@.processes,
    {
        &self.processes
    }

    /// The rows shown.
    pub fn display_rows(&self) -> (r: &Vec<DisplayRow>)
        ensures
            row_views(r@) == self@.rows,
    {
        &self.display_rows
    }

    /// The selected row.
    pub fn selected(&self) -> (r: Option<usize>)
        ensures
            r == self@.selected,
    {
        self.selected
    }

    /// The message for the user.
    pub fn message(&self) -> (r: &Option<String>)
        ensures
            message_view(*r) == self@.message,
    {
        &self.message
    }

    /// The watched ports.
    pub fn ports(&self) -> (r: &Vec<u16>)
        ensures
            r@ == self@.ports,
    {
        &self.ports
    }

    /// Forgets the message once it was shown.
    pub fn clear_message(&mut self)
        requires
            old(self).wf(),
        ensures
            final(self).wf(),
            final(self)@ == (AppView { message: None, ..old(self)@ }),
    {
        self.message = None;
    }

    /// The height of the footer: taller when a process is selected, to show
    /// its command line.
    pub fn footer_height(&self) -> (r: u16)
        ensures
            r == (if selected_process_index(self@) is Some { 5u16 } else { 3u16 }),
    {
        if self.selected_process().is_some() {
            5
        } else {
            3
        }
    }

    /// The header line.
    pub fn header_text(&self) -> (r: String)
        ensures
            r@ == header_of(self@),
    {
        let mut status = if self.auto_refresh {
            let mut s = owned(" [Auto-refresh: ");
            s.append(decimal_string(self.refresh_interval_secs).as_str());
            s.append("s]");
            s
        } else {
            owned(" [Auto-refresh: off]")
        };
        let mut h = if self.processes.len() == 0 {
            owned("\u{1f50d} DevPort - No services detected")
        } else {
            owned("\u{1f6a2} DevPort - Development Port Manager")
        };
        h.append(status.as_str());
        h
    }

    /// The title of the process list.
    pub fn list_title(&self) -> (r: String)
        ensures
            r@ == list_title_of(self@),
    {
        if self.processes.len() == 0 {
            owned(" \u{1f4ed} No Processes Found ")
        } else {
            let mut t = owned(" \u{1f3af} Active Services (");
            t.append(decimal_string(self.processes.len() as u64).as_str());
            t.append(") ");
            t
        }
    }

    /// The lines of the footer in a terminal `width` columns wide.
    pub fn footer_lines(&self, width: u16) -> (r: Vec<FooterLine>)
        ensures
            r@.map_values(|l: FooterLine| l@) == footer_of(self@, width),
    {
        let mut r: Vec<FooterLine> = Vec::new();
        match &self.message {
            Some(m) => {
                r.push(FooterLine::Message(m.clone()));
                r.push(FooterLine::Blank);
                r.push(FooterLine::Controls);
            },
            None => match self.selected_process() {
                Some(p) => {
                    r.push(FooterLine::FullCommand(fit_command(p.command_full.as_str(), width)));
                    r.push(FooterLine::Blank);
                    r.push(FooterLine::Controls);
                },
                None => {
                    r.push(FooterLine::Controls);
                },
            },
        }
        assert(r@.map_values(|l: FooterLine| l@) =~= footer_of(self@, width));
        r
    }
}

} // verus!