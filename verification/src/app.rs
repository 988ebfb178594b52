//! The interface's state and its single transition function.
//!
//! [`App::update`] takes an [`Event`], changes the state and returns the
//! [`Effect`]s for the shell to carry out. No terminal, process or network
//! access happens here, so every interaction is stated and proved in the library.

use std::collections::VecDeque;

use vstd::prelude::*;

use crate::catalog::{Catalog, CatalogModel, Row};
use crate::installed::{masks_right, Choice, Installed};
use crate::keys::{add_signed, clamp_usize, spec_wrap_step, wrap_step, Help, Key};
use crate::managers::{Action, ManagerId, MANAGER_COUNT};
use crate::query::{is_view, law_view_order, query_model, Matches, Query};
use crate::text::views;

use crate::show::decimal;

use crate::managers::manager;

use vstd::string::StringExecFns;
use crate::theme::THEME_COUNT;

verus! {

/// Lines of job output kept for the log view.
pub const LOG_LINES: usize = 2000;

/// How long the hint for a pressed key stays lit: about a second of 80 ms ticks.
pub const FLASH_TICKS: u8 = 14;

/// The largest count a run of digits builds.
pub const MAX_COUNT: usize = 99_999;

pub enum Event {
    Key { key: Key, ctrl: bool },
    Resize,
    /// The `PATH` walk for package managers finished.
    Detected(Vec<(ManagerId, String)>),
    /// A manager's "what is installed" scan finished.
    Listing(ManagerId, Vec<String>),
    Index(IndexUpdate),
    JobOutput(String),
    JobDone { ok: bool },
    /// Drives the spinner; only sent while something is in flight.
    Tick,
}

pub enum IndexUpdate {
    Fresh(Box<Catalog>),
    NotModified,
    Failed(String),
}

#[derive(Debug, PartialEq, Eq)]
pub enum Effect {
    Quit,
    RefreshIndex,
    /// Rescan one manager, or all detected ones.
    Scan(Option<ManagerId>),
    /// Run in the background with captured output.
    Spawn(Job),
    /// Hand the terminal to the command (sudo prompts and the like).
    RunInTerminal(Job),
    OpenUrl(String),
    Copy(String),
    SaveInstalled,
    /// Remember the theme called this for the next start.
    SaveTheme(&'static str),
}

#[derive(Clone, Debug, PartialEq, Eq)]
pub struct Job {
    pub action: Action,
    pub manager: ManagerId,
    /// The TUI being installed or removed, marked in the list while the job is pending.
    pub row: Row,
    pub title: String,
    pub argv: Vec<String>,
}

#[derive(Debug, PartialEq, Eq)]
pub enum Mode {
    Normal,
    Search,
    /// `/` in the sidebar: jumps to the first category containing `text`;
    /// esc restores `original`.
    CategorySearch { text: String, original: Option<u8> },
    Picker(Picker),
    Help(Help),
    Log,
}

/// A modal list. What a selection means depends on `kind`.
#[derive(Debug, PartialEq, Eq)]
pub struct Picker {
    pub title: String,
    pub items: Vec<String>,
    pub selected: usize,
    pub kind: PickerKind,
}

#[derive(Debug, PartialEq, Eq)]
pub enum PickerKind {
    Confirm { action: Action, row: Row, choices: Vec<Choice> },
    MinStars,
    /// Language ids parallel to `items`; `None` is "any".
    Language(Vec<Option<u16>>),
    /// Moving previews, `original` is restored on cancel. `ids` are themes
    /// parallel to `items`, narrowed by `filter` once `/` opened it.
    Theme { original: usize, filter: Option<String>, ids: Vec<usize> },
}

/// The last command key with its count, echoed like vim's showcmd: the
/// count when there is one, `^` for ctrl, `g` for a pending `g`, then the key.
#[derive(Clone, Copy, Debug, PartialEq, Eq)]
pub struct Echo {
    pub count: usize,
    pub ctrl: bool,
    pub g: bool,
    pub key: Option<Key>,
}

pub struct App {
    pub catalog: Catalog,
    pub installed: Installed,
    pub query: Query,
    pub view: Matches,
    /// Index into the rows in view.
    pub selected: usize,
    /// First visible table line; maintained by `scroll_into_view`.
    pub offset: usize,
    pub mode: Mode,
    pub status: String,
    pub log: VecDeque<String>,
    pub running: Option<Job>,
    pub queue: VecDeque<Job>,
    pub refreshing: bool,
    /// The refresh in flight was not asked for, so only news is worth a message.
    pub quiet_refresh: bool,
    pub scans_pending: usize,
    /// The startup `PATH` walk is still running.
    pub detecting: bool,
    pub spinner: usize,
    pub today_days: u32,
    /// Height of the table body in lines, reported by the renderer's layout.
    pub page: usize,
    pub dirty: bool,
    /// Index into the theme list.
    pub theme: usize,
    /// Left and right move focus; up and down then move through categories instead of rows.
    pub sidebar_focused: bool,
    /// The layout has room for the sidebar; reported by the shell.
    pub sidebar_visible: bool,
    pub quit_armed: bool,
    /// Digits typed so far, repeating the next motion as in vim's `3j`.
    pub count: usize,
    /// The count before a first `g`, waiting for the second one of `gg`.
    pub g_pending: Option<usize>,
    /// The last command key, lit in the status bar for `flash` ticks.
    pub last_key: Option<Echo>,
    /// Ticks left to light up `last_key`'s hint in the status bar.
    pub flash: u8,
    /// The directory `go install` puts binaries in, which a go uninstall removes from.
    pub go_bin: String,
    /// Whether tuiman runs as root, so privileged managers need no `sudo`.
    pub root: bool,
}

pub open spec fn sat_sub(a: int, b: int) -> int {
    if a > b {
        a - b
    } else {
        0
    }
}

pub open spec fn smaller(a: int, b: int) -> int {
    if a < b {
        a
    } else {
        b
    }
}

/// The cursor and first visible line once the cursor is kept on a row of a
/// list of `len` and in a window of `page` lines.
pub open spec fn scrolled(selected: int, offset: int, len: int, page: int) -> (int, int) {
    let page = if page < 1 {
        1
    } else {
        page
    };
    let s = smaller(selected, sat_sub(len, 1));
    let o = if s < offset {
        s
    } else if s >= offset + page {
        s + 1 - page
    } else {
        offset
    };
    (s, smaller(o, sat_sub(len, page)))
}

/// Where the cursor lands in `rows`: on `previous` when it is there, else on
/// the first row.
pub open spec fn landing(rows: Seq<Row>, previous: Option<Row>) -> int {
    match previous {
        Some(r) => if rows.contains(r) {
            choose|i: int| 0 <= i < rows.len() && rows[i] == r
        } else {
            0
        },
        None => 0,
    }
}

/// Whether `c` names a category of the catalog (`None` is "All").
pub open spec fn category_ok(c: Option<u8>, m: CatalogModel) -> bool {
    c matches Some(id) ==> (id as int) < m.categories.len()
}

/// The rows of the sidebar after "All": categories have `u8` ids.
pub open spec fn categories_shown(m: CatalogModel) -> int {
    smaller(m.categories.len() as int, 256)
}

/// What a picker holds when it is open.
#[verifier::opaque]
pub open spec fn picker_ok(p: Picker, m: CatalogModel) -> bool {
    &&& p.selected <= sat_sub(p.items@.len() as int, 1)
    &&& match p.kind {
        PickerKind::Confirm { action, row, choices } => (row as int) < m.rows() && choices@.len()
            == p.items@.len() && choices@.len() > 0 && forall|i: int|
            0 <= i < choices@.len() ==> (#[trigger] choices@[i].manager as int) < MANAGER_COUNT,
        PickerKind::MinStars => p.items@.len() == STAR_PRESET_COUNT,
        PickerKind::Language(ids) => ids@.len() == p.items@.len() && ids@.len() > 0 && forall|i: int|
            0 <= i < ids@.len() ==> (#[trigger] ids@[i] matches Some(id) ==> (id as int)
                < m.languages.len()),
        PickerKind::Theme { original, filter, ids } => original < THEME_COUNT && ids@.len()
            == p.items@.len() && forall|i: int| 0 <= i < ids@.len() ==> #[trigger] ids@[i] < THEME_COUNT,
    }
}

/// What the mode holds.
pub open spec fn mode_ok(mode: Mode, m: CatalogModel) -> bool {
    match mode {
        Mode::CategorySearch { text, original } => category_ok(original, m),
        Mode::Picker(p) => picker_ok(p, m),
        _ => true,
    }
}

/// The number of star presets.
pub const STAR_PRESET_COUNT: usize = 7;

/// The minimum-star presets the picker offers.
pub open spec fn star_presets() -> Seq<u32> {
    seq![0, 100, 500, 1_000, 5_000, 10_000, 50_000]
}

/// Preset `i` of the minimum-star picker.
pub fn star_preset(i: usize) -> (r: u32)
    requires
        i < STAR_PRESET_COUNT,
    ensures
        r == star_presets()[i as int],
{
    match i {
        0 => 0,
        1 => 100,
        2 => 500,
        3 => 1_000,
        4 => 5_000,
        5 => 10_000,
        _ => 50_000,
    }
}

impl App {
    /// The rows in view, in order.
    pub open spec fn rows(&self) -> Seq<Row> {
        self.view.shown()
    }

    /// The row under the cursor.
    pub open spec fn cursor_row(&self) -> Option<Row> {
        if self.selected < self.rows().len() {
            Some(self.rows()[self.selected as int])
        } else {
            None
        }
    }

    /// What every state of the interface satisfies.
    pub open spec fn wf(&self) -> bool {
        &&& masks_ok(self.installed@, self.catalog@)
        &&& self.installed@.listings.len() == MANAGER_COUNT
        &&& view_ok(self.catalog@, self.installed@, query_model(self.query), self.rows())
        &&& self.selected <= sat_sub(self.rows().len() as int, 1)
        &&& category_ok(self.query.category, self.catalog@)
        &&& self.theme < THEME_COUNT
        &&& self.log@.len() <= LOG_LINES
        &&& self.count <= MAX_COUNT
        &&& (self.g_pending matches Some(p) ==> p <= MAX_COUNT)
        &&& mode_ok(self.mode, self.catalog@)
    }
}

/// The installed state was worked out for this catalog.
#[verifier::opaque]
pub open spec fn masks_ok(inst: crate::installed::InstalledView, m: CatalogModel) -> bool {
    masks_right(inst, m)
}

/// `rows` is the view of the query.
#[verifier::opaque]
pub open spec fn view_ok(m: CatalogModel, inst: crate::installed::InstalledView, q: crate::query::QueryModel, rows: Seq<Row>) -> bool {
    is_view(m, inst, q, rows)
}

/// The row under the cursor is a row of the catalog.
pub proof fn lemma_cursor_row_in_catalog(a: App)
    requires
        a.wf(),
    ensures
        a.cursor_row() matches Some(r) ==> (r as int) < a.catalog@.rows() && (r as int) < a.installed@.installed.len(),
{
    reveal(view_ok);
    reveal(masks_ok);
    if a.cursor_row() is Some {
        assert(a.rows().contains(a.rows()[a.selected as int]));
    }
}

/// The view has no row twice.
proof fn lemma_view_distinct(m: CatalogModel, inst: crate::installed::InstalledView, q: crate::query::QueryModel, rows: Seq<Row>)
    requires
        is_view(m, inst, q, rows),
    ensures
        forall|i: int, j: int| 0 <= i < rows.len() && 0 <= j < rows.len() && rows[i] == rows[j] ==> i == j,
{
    assert forall|i: int, j: int| 0 <= i < rows.len() && 0 <= j < rows.len() && rows[i] == rows[j] implies i == j by {
        law_view_order(m, inst, q, rows[i] as int, rows[i] as int, rows[i] as int);
        if i < j {
            assert(crate::query::in_order(m, inst, q, rows[i] as int, rows[j] as int));
        } else if j < i {
            assert(crate::query::in_order(m, inst, q, rows[j] as int, rows[i] as int));
        }
    }
}

/// Where `row` first stands in `rows`.
fn position(rows: &Vec<Row>, row: Row) -> (r: Option<usize>)
    ensures
        match r {
            Some(i) => i < rows@.len() && rows@[i as int] == row,
            None => !rows@.contains(row),
        },
{
    let mut i: usize = 0;
    while i < rows.len()
        invariant
            i <= rows@.len(),
            forall|j: int| 0 <= j < i ==> rows@[j] != row,
        decreases rows@.len() - i,
    {
        if rows[i] == row {
            return Some(i);
        }
        i += 1;
    }
    None
}

impl App {
    pub fn new(catalog: Catalog, installed: Installed, today_days: u32) -> (r: App)
        requires
            masks_right(installed@, catalog@),
            installed@.listings.len() == MANAGER_COUNT,
        ensures
            r.wf(),
            r.catalog == catalog,
            r.installed == installed,
            r.query.text@.len() == 0,
            r.query.category is None,
            r.query.language is None,
            r.query.min_stars == 0,
            !r.query.installed_only && !r.query.installable_only && !r.query.show_archived,
            r.query.sort == crate::query::Sort::Stars,
            r.selected == 0 && r.offset == 0,
            r.mode == Mode::Normal,
            r.status@.len() == 0,
            r.log@.len() == 0,
            r.running is None,
            r.queue@.len() == 0,
            !r.refreshing && !r.quiet_refresh && !r.detecting,
            r.scans_pending == 0 && r.spinner == 0,
            r.today_days == today_days,
            r.page == 20,
            r.dirty,
            r.theme == 0,
            !r.sidebar_focused && r.sidebar_visible,
            !r.quit_armed && r.count == 0 && r.g_pending is None,
            r.last_key is None && r.flash == 0,
            r.go_bin@.len() == 0 && !r.root,
    {
        let mut app = App {
            catalog,
            installed,
            query: Query::default(),
            view: Matches::default(),
            selected: 0,
            offset: 0,
            mode: Mode::Normal,
            status: String::new(),
            log: VecDeque::new(),
            running: None,
            queue: VecDeque::new(),
            refreshing: false,
            quiet_refresh: false,
            scans_pending: 0,
            detecting: false,
            spinner: 0,
            today_days,
            page: 20,
            dirty: true,
            theme: 0,
            sidebar_focused: false,
            sidebar_visible: true,
            quit_armed: false,
            count: 0,
            g_pending: None,
            last_key: None,
            flash: 0,
            go_bin: String::new(),
            root: false,
        };
        let ghost before = app;
        proof {
            reveal(masks_ok);
        }
        app.refilter(false);
        proof {
            lemma_refiltered(before, app, false);
            reveal(refiltered);
        }
        app
    }

    /// The row under the cursor.
    pub fn selected_row(&self) -> (r: Option<Row>)
        ensures
            r == self.cursor_row(),
    {
        let rows = self.view.rows_in_view();
        if self.selected < rows.len() {
            Some(rows[self.selected])
        } else {
            None
        }
    }

    /// The shell started a background refresh the user did not ask for.
    pub fn begin_quiet_refresh(&mut self)
        ensures
            *final(self) == (App { refreshing: true, quiet_refresh: true, ..*old(self) }),
    {
        self.refreshing = true;
        self.quiet_refresh = true;
    }

    /// Whether something is in flight or lit, so ticks should keep coming.
    pub fn busy(&self) -> (r: bool)
        ensures
            r == (self.running is Some || self.refreshing || self.detecting || self.scans_pending > 0
                || self.flash > 0),
    {
        self.running.is_some() || self.refreshing || self.detecting || self.scans_pending > 0
            || self.flash > 0
    }

    /// Keeps the cursor on a row and in the window.
    pub(crate) fn scroll_into_view(&mut self)
        ensures
            ({
                let (s, o) = scrolled(
                    old(self).selected as int,
                    old(self).offset as int,
                    old(self).rows().len() as int,
                    old(self).page as int,
                );
                *final(self) == (App { selected: s as usize, offset: o as usize, ..*old(self) })
            }),
    {
        let len = self.view.rows_in_view().len();
        let page = if self.page < 1 {
            1
        } else {
            self.page
        };
        let last = if len > 0 {
            len - 1
        } else {
            0
        };
        let s = if self.selected < last {
            self.selected
        } else {
            last
        };
        let o = if s < self.offset {
            s
        } else if s - self.offset >= page {
            s + 1 - page
        } else {
            self.offset
        };
        let cap = if len > page {
            len - page
        } else {
            0
        };
        let o = if o < cap {
            o
        } else {
            cap
        };
        self.selected = s;
        self.offset = o;
    }

    /// Re-runs the query. `keep_row` keeps the cursor on the same TUI when it
    /// is still in view; otherwise the cursor returns to the best match.
    #[verifier::spinoff_prover]
    pub(crate) fn refilter(&mut self, keep_row: bool)
        requires
            masks_ok(old(self).installed@, old(self).catalog@),
        ensures
            refiltered(*old(self), *final(self), keep_row),
    {
        proof {
            reveal(masks_ok);
        }
        let previous = if keep_row {
            self.selected_row()
        } else {
            None
        };
        self.view.run(&self.catalog, &self.installed, &self.query);
        let ghost rows = self.rows();
        proof {
            lemma_view_distinct(self.catalog@, self.installed@, query_model(self.query), rows);
        }
        let mut at: usize = 0;
        if let Some(row) = previous {
            match position(self.view.rows_in_view(), row) {
                Some(i) => {
                    at = i;
                },
                None => {},
            }
            proof {
                if rows.contains(row) {
                    let w = choose|w: int| 0 <= w < rows.len() && rows[w] == row;
                    assert(w == at);
                }
            }
        }
        self.selected = at;
        self.scroll_into_view();
        proof {
            reveal(refiltered);
            reveal(view_ok);
        }
    }
}

/// The state `after` is `before` with the query run again over the catalog:
/// the view is the view of the query, and the cursor lands on the row it was
/// on when `keep` and that row is still in view, else on the first row.
#[verifier::opaque]
pub open spec fn refiltered(before: App, after: App, keep: bool) -> bool {
    let previous = if keep {
        before.cursor_row()
    } else {
        None
    };
    let (s, o) = scrolled(
        landing(after.rows(), previous),
        before.offset as int,
        after.rows().len() as int,
        before.page as int,
    );
    &&& view_ok(after.catalog@, after.installed@, query_model(after.query), after.rows())
    &&& after.selected == s
    &&& after.offset == o
    &&& after == (App { view: after.view, selected: after.selected, offset: after.offset, ..before })
}

/// Texts joined with `sep` between each two.
pub open spec fn join_with(ts: Seq<Seq<char>>, sep: Seq<char>) -> Seq<char>
    decreases ts.len(),
{
    if ts.len() == 0 {
        seq![]
    } else if ts.len() == 1 {
        ts[0]
    } else {
        join_with(ts.drop_last(), sep) + sep + ts.last()
    }
}

/// The strings of `parts` joined with `sep`.
pub fn join(parts: &Vec<String>, sep: &str) -> (r: String)
    ensures
        r@ == join_with(views(parts@), sep@),
{
    let mut out = String::new();
    let mut k: usize = 0;
    while k < parts.len()
        invariant
            k <= parts@.len(),
            out@ == join_with(views(parts@).take(k as int), sep@),
        decreases parts@.len() - k,
    {
        if k > 0 {
            out.append(sep);
        }
        out.append(parts[k].as_str());
        proof {
            let t = views(parts@).take(k + 1);
            assert(t.drop_last() =~= views(parts@).take(k as int));
            if k == 0 {
                assert(views(parts@).take(1) =~= seq![parts@[0]@]);
            }
        }
        k += 1;
    }
    assert(views(parts@).take(parts@.len() as int) =~= views(parts@));
    out
}

/// The lines of the log kept when one more is added: the oldest goes once
/// it is full.
pub open spec fn log_kept(log: Seq<String>) -> Seq<String> {
    if log.len() >= LOG_LINES {
        log.drop_first()
    } else {
        log
    }
}

/// The log after `line` is added.
pub open spec fn log_push(log: Seq<String>, line: String) -> Seq<String> {
    log_kept(log).push(line)
}

/// How many of the detected managers a rescan of `only` (or of all) starts.
pub open spec fn rescan_count(detected: Seq<(ManagerId, Seq<char>)>, only: Option<ManagerId>) -> nat
    decreases detected.len(),
{
    if detected.len() == 0 {
        0
    } else {
        rescan_count(detected.drop_last(), only) + if only matches Some(o) && o != detected.last().0 {
            0nat
        } else {
            1nat
        }
    }
}

/// The job as plain values.
pub open spec fn job_view(j: Job) -> (Action, ManagerId, Row, Seq<char>, Seq<Seq<char>>) {
    (j.action, j.manager, j.row, j.title@, views(j.argv@))
}

/// What a rescan of `only` (or of every detected manager) leaves pending,
/// and what it asks of the shell: the scans, or saving the installed state
/// when nothing is left to wait for.
pub open spec fn rescanned(a: App, only: Option<ManagerId>) -> (usize, Seq<Effect>) {
    let n = rescan_count(a.installed@.detected, only);
    let pending = clamp_usize(a.scans_pending + n);
    (
        pending as usize,
        if n == 0 && pending == 0 {
            seq![Effect::SaveInstalled]
        } else if n == 0 {
            seq![]
        } else {
            seq![Effect::Scan(only)]
        },
    )
}

/// "✗ `title` failed (press v for the log)".
pub open spec fn failed_text(title: Seq<char>) -> Seq<char> {
    "\u{2717} "@ + title + " failed (press v for the log)"@
}

/// A copy of `job`.
fn copy_job(job: &Job) -> (r: Job)
    ensures
        job_view(r) == job_view(*job),
{
    let argv = job.argv.clone();
    assert(views(argv@) =~= views(job.argv@)) by {
        assert forall|i: int| 0 <= i < argv@.len() implies argv@[i] == job.argv@[i] by {
            assert(vstd::pervasive::cloned::<String>(job.argv@[i], argv@[i]));
        }
    }
    Job { action: job.action, manager: job.manager, row: job.row, title: job.title.clone(), argv }
}

/// "✓ `title` finished".
pub open spec fn finished_text(title: Seq<char>) -> Seq<char> {
    "\u{2713} "@ + title + " finished"@
}

/// `n` repeats of a motion of `per` lines, as far as `isize` reaches.
pub open spec fn steps(n: int, per: int) -> int {
    smaller(n * per, isize::MAX as int)
}

pub(crate) fn repeat_lines(n: usize, per: usize) -> (r: isize)
    requires
        n <= MAX_COUNT,
    ensures
        r == steps(n as int, per as int),
{
    let cap = isize::MAX as usize;
    if n == 0 {
        return 0;
    }
    if per > cap / n {
        assert(n * per > isize::MAX) by (nonlinear_arith)
            requires
                n > 0,
                per > cap / n,
                cap == isize::MAX,
        ;
        isize::MAX
    } else {
        assert(n * per <= isize::MAX) by (nonlinear_arith)
            requires
                n > 0,
                per <= cap / n,
                cap == isize::MAX,
        ;
        (n * per) as isize
    }
}

/// The index of the sidebar row of category `c`: "All" is row 0.
pub open spec fn category_index(c: Option<u8>) -> int {
    match c {
        Some(id) => id + 1,
        None => 0,
    }
}

/// The category of sidebar row `i`.
pub open spec fn category_at(i: int) -> Option<u8> {
    if i > 0 {
        Some((i - 1) as u8)
    } else {
        None
    }
}

/// The sidebar row `step` rows from `current` among `count`: wrapping
/// around, or stopping at the ends.
pub open spec fn next_category(current: int, step: int, count: int, wrap: bool) -> int {
    let t = current + step;
    if wrap {
        if t < 0 {
            t + count
        } else if t >= count {
            t - count
        } else {
            t
        }
    } else if t < 0 {
        0
    } else if t > count - 1 {
        count - 1
    } else {
        t
    }
}

/// A state refiltered from `before` keeps all but the view and the cursor.
pub proof fn lemma_refiltered(before: App, after: App, keep: bool)
    requires
        refiltered(before, after, keep),
    ensures
        after == (App { view: after.view, selected: after.selected, offset: after.offset, ..before }),
        view_ok(after.catalog@, after.installed@, query_model(after.query), after.rows()),
        after.selected <= sat_sub(after.rows().len() as int, 1),
{
    reveal(refiltered);
}

/// The sidebar row `step` rows from `current`.
fn step_within(current: usize, step: isize, count: usize, wrap: bool) -> (r: usize)
    requires
        current < count <= 257,
        wrap ==> -1 <= step <= 1,
    ensures
        r == next_category(current as int, step as int, count as int, wrap),
{
    if wrap {
        if step < 0 && current == 0 {
            count - 1
        } else if step < 0 {
            current - 1
        } else if step > 0 && current + 1 == count {
            0
        } else if step > 0 {
            current + 1
        } else {
            current
        }
    } else if step < 0 {
        let back: usize = if step == isize::MIN {
            (isize::MAX as usize) + 1
        } else {
            (-step) as usize
        };
        if back >= current {
            0
        } else {
            current - back
        }
    } else {
        let ahead = step as usize;
        if ahead >= count - 1 - current {
            count - 1
        } else {
            current + ahead
        }
    }
}

/// `after` is `before` with the sidebar `step` rows on, wrapping or
/// stopping at the ends; the list follows the category.
pub open spec fn category_stepped(before: App, after: App, step: int, wrap: bool) -> bool {
    let count = categories_shown(before.catalog@) + 1;
    let current = category_index(before.query.category);
    let next = next_category(current, step, count, wrap);
    if next == current {
        after == before
    } else {
        refiltered(
            App { query: Query { category: category_at(next), ..before.query }, ..before },
            after,
            true,
        )
    }
}

impl App {
    /// Moves the cursor `delta` rows, stopping at the ends.
    pub(crate) fn move_by(&mut self, delta: isize)
        ensures
            ({
                let (s, o) = scrolled(
                    clamp_usize(old(self).selected + delta),
                    old(self).offset as int,
                    old(self).rows().len() as int,
                    old(self).page as int,
                );
                *final(self) == (App { selected: s as usize, offset: o as usize, ..*old(self) })
            }),
    {
        self.selected = add_signed(self.selected, delta);
        self.scroll_into_view();
    }

    /// A line up or down, wrapping around at the ends.
    pub(crate) fn step_rows(&mut self, delta: isize)
        ensures
            ({
                let (s, o) = scrolled(
                    spec_wrap_step(old(self).selected as int, delta as int, old(self).rows().len() as int),
                    old(self).offset as int,
                    old(self).rows().len() as int,
                    old(self).page as int,
                );
                *final(self) == (App { selected: s as usize, offset: o as usize, ..*old(self) })
            }),
    {
        let len = self.view.rows_in_view().len();
        self.selected = wrap_step(self.selected, delta, len);
        self.scroll_into_view();
    }

    /// The number of sidebar rows: "All" and each category.
    pub(crate) fn sidebar_rows(&self) -> (r: usize)
        ensures
            r == categories_shown(self.catalog@) + 1,
    {
        let n = self.catalog.category_count();
        if n < 256 {
            n + 1
        } else {
            257
        }
    }

    /// Steps through "All" followed by each category, wrapping or stopping at the ends.
    #[verifier::spinoff_prover]
    #[verifier::rlimit(100)]
    pub(crate) fn step_category(&mut self, step: isize, wrap: bool)
        requires
            old(self).wf(),
            wrap ==> -1 <= step <= 1,
        ensures
            category_stepped(*old(self), *final(self), step as int, wrap),
            final(self).wf(),
    {
        let count = self.sidebar_rows();
        let current: usize = match self.query.category {
            Some(c) => c as usize + 1,
            None => 0,
        };
        let next = step_within(current, step, count, wrap);
        if next == current {
            return;
        }
        self.query.category = if next > 0 {
            Some((next - 1) as u8)
        } else {
            None
        };
        let ghost mid = *self;
        self.refilter(true);
        proof {
            lemma_refiltered(mid, *self, true);
        }
    }

    pub(crate) fn push_log(&mut self, line: String)
        ensures
            *final(self) == (App { log: final(self).log, ..*old(self) }),
            final(self).log@ == log_push(old(self).log@, line),
    {
        if self.log.len() >= LOG_LINES {
            self.log.pop_front();
        }
        self.log.push_back(line);
    }

    /// Starts `job`: its command line goes to the log.
    pub(crate) fn start(&mut self, job: Job) -> (e: Effect)
        ensures
            e == Effect::Spawn(job),
            *final(self) == (App { log: final(self).log, running: final(self).running, ..*old(self) }),
            final(self).running matches Some(j) && job_view(j) == job_view(job),
            final(self).log@.len() == log_kept(old(self).log@).len() + 1,
            final(self).log@.last()@ == "$ "@ + join_with(views(job.argv@), " "@),
            final(self).log@.drop_last() == log_kept(old(self).log@),
    {
        let mut line = String::from_str("$ ");
        let cmd = join(&job.argv, " ");
        line.append(cmd.as_str());
        self.push_log(line);
        self.running = Some(copy_job(&job));
        Effect::Spawn(job)
    }

    /// Rescans one manager, or every detected one. The pending count is
    /// what the shell will actually start: a manager that disappeared
    /// between confirming a job and its end would otherwise be waited on
    /// forever.
    pub(crate) fn rescan(&mut self, only: Option<ManagerId>) -> (r: Vec<Effect>)
        ensures
            *final(self) == (App { scans_pending: rescanned(*old(self), only).0, ..*old(self) }),
            r@ == rescanned(*old(self), only).1,
    {
        let detected = self.installed.detected();
        let ghost dv = self.installed@.detected;
        let mut n: usize = 0;
        let mut i: usize = 0;
        while i < detected.len()
            invariant
                i <= detected@.len(),
                detected@.map_values(|d: (ManagerId, String)| (d.0, d.1@)) == dv,
                n == rescan_count(dv.take(i as int), only),
                n <= i,
            decreases detected@.len() - i,
        {
            assert(dv.take(i + 1).drop_last() =~= dv.take(i as int));
            let hit = match only {
                Some(o) => o == detected[i].0,
                None => true,
            };
            if hit {
                n += 1;
            }
            i += 1;
        }
        assert(dv.take(detected@.len() as int) =~= dv);
        self.scans_pending = self.scans_pending.saturating_add(n);
        if n == 0 {
            if self.scans_pending == 0 {
                vec![Effect::SaveInstalled]
            } else {
                Vec::new()
            }
        } else {
            vec![Effect::Scan(only)]
        }
    }
}

/// The label of a star preset.
pub open spec fn star_item(n: u32) -> Seq<char> {
    if n == 0 {
        "any"@
    } else {
        "\u{2265} "@ + decimal(n as nat)
    }
}

/// The index of the last preset `k` below which is at most `min`, or 0.
pub open spec fn last_at_most(min: u32, k: int) -> int
    decreases k,
{
    if k <= 0 {
        0
    } else if star_presets()[k - 1] <= min {
        k - 1
    } else {
        last_at_most(min, k - 1)
    }
}

} // verus!
