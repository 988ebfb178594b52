//! What the keys do in the main list and in the sidebar.

use vstd::prelude::*;
use vstd::string::StringExecFns;
use vstd::utf8::decode_utf8;

use crate::app::{category_index, category_stepped, categories_shown, last_at_most, lemma_refiltered, refiltered, repeat_lines, scrolled, star_item, star_presets, steps, App, Effect, Mode, FLASH_TICKS, MAX_COUNT, STAR_PRESET_COUNT};
use crate::pickers::{confirm_opened, copies, is_char, language_picker_ok, theme_picker_ok};
use crate::keys::{clamp_usize, spec_wrap_step, wrap_step, Help, Key};
use crate::managers::Action;
use crate::query::{Query, Sort};
use crate::text::views;

verus! {

/// The cursor moved `delta` rows, stopping at the ends.
pub open spec fn moved(b: App, a: App, delta: int) -> bool {
    let (s, o) = scrolled(clamp_usize(b.selected + delta), b.offset as int, b.rows().len() as int, b.page as int);
    a == (App { selected: s as usize, offset: o as usize, ..b })
}

/// The cursor stepped `delta` rows, wrapping around at the ends.
pub open spec fn rows_stepped(b: App, a: App, delta: int) -> bool {
    let (s, o) = scrolled(
        spec_wrap_step(b.selected as int, delta, b.rows().len() as int),
        b.offset as int,
        b.rows().len() as int,
        b.page as int,
    );
    a == (App { selected: s as usize, offset: o as usize, ..b })
}

/// A motion repeated by the count: at least once.
pub open spec fn repeats(count: int) -> int {
    if count > 1 {
        count
    } else {
        1
    }
}

/// Half a page of the list, at least a line.
pub open spec fn half_page(page: int) -> int {
    if page / 2 > 1 {
        page / 2
    } else {
        1
    }
}

/// The keys that move in the list or between the panels.
pub open spec fn is_motion(key: Key, ctrl: bool) -> bool {
    ||| is_char(key, ')') || is_char(key, '(')
    ||| ctrl && (is_char(key, 'd') || is_char(key, 'u'))
    ||| is_char(key, 'j') || is_char(key, 'k') || key == Key::Down || key == Key::Up
    ||| key == Key::PageDown || key == Key::PageUp
    ||| is_char(key, 'g') || is_char(key, 'G') || key == Key::Home || key == Key::End
    ||| is_char(key, 'h') || is_char(key, 'l') || key == Key::Left || key == Key::Right
    ||| key == Key::Tab || key == Key::BackTab
}

/// What a motion key does in the list: brackets and ctrl-d/u move half a
/// page, j/k and the arrows a line (wrapping at the ends), the page keys a
/// page, `gg` and `G` to the ends (`3gg` to row 3), h/l move the focus, and
/// tab steps through the categories. Counts repeat a motion.
#[verifier::opaque]
pub open spec fn motion_on(b: App, a: App, key: Key, ctrl: bool, count: int) -> bool {
    let n = repeats(count);
    let h = half_page(b.page as int);
    if is_char(key, ')') || (ctrl && is_char(key, 'd')) {
        moved(b, a, steps(n, h))
    } else if is_char(key, '(') || (ctrl && is_char(key, 'u')) {
        moved(b, a, -steps(n, h))
    } else if is_char(key, 'j') || key == Key::Down {
        rows_stepped(b, a, n)
    } else if is_char(key, 'k') || key == Key::Up {
        rows_stepped(b, a, -n)
    } else if key == Key::PageDown {
        moved(b, a, steps(n, b.page as int))
    } else if key == Key::PageUp {
        moved(b, a, -steps(n, b.page as int))
    } else if is_char(key, 'g') && count > 0 {
        moved(b, a, count - 1 - b.selected)
    } else if is_char(key, 'g') || key == Key::Home {
        moved(b, a, isize::MIN as int)
    } else if is_char(key, 'G') || key == Key::End {
        moved(b, a, isize::MAX as int)
    } else if is_char(key, 'h') || key == Key::Left {
        a == (App { sidebar_focused: b.sidebar_visible, ..b })
    } else if is_char(key, 'l') || key == Key::Right {
        a == (App { sidebar_focused: false, ..b })
    } else if key == Key::Tab {
        category_stepped(b, a, 1, true)
    } else {
        category_stepped(b, a, -1, true)
    }
}

impl App {
    #[verifier::spinoff_prover]
    #[verifier::rlimit(100)]
    pub(crate) fn on_motion_key(&mut self, key: Key, ctrl: bool, count: usize)
        requires
            old(self).wf(),
            is_motion(key, ctrl),
            count <= MAX_COUNT,
        ensures
            motion_on(*old(self), *final(self), key, ctrl, count as int),
            final(self).wf(),
    {
        reveal(motion_on);
        let n = if count > 1 {
            count
        } else {
            1
        };
        let half = if self.page / 2 > 1 {
            self.page / 2
        } else {
            1
        };
        if key == Key::Char(')') || (ctrl && key == Key::Char('d')) {
            self.move_by(repeat_lines(n, half));
        } else if key == Key::Char('(') || (ctrl && key == Key::Char('u')) {
            self.move_by(-repeat_lines(n, half));
        } else if key == Key::Char('j') || key == Key::Down {
            self.step_rows(n as isize);
        } else if key == Key::Char('k') || key == Key::Up {
            self.step_rows(-(n as isize));
        } else if key == Key::PageDown {
            self.move_by(repeat_lines(n, self.page));
        } else if key == Key::PageUp {
            self.move_by(-repeat_lines(n, self.page));
        } else if key == Key::Char('g') && count > 0 {
            self.selected = count - 1;
            self.scroll_into_view();
        } else if key == Key::Char('g') || key == Key::Home {
            self.move_by(isize::MIN);
        } else if key == Key::Char('G') || key == Key::End {
            self.move_by(isize::MAX);
        } else if key == Key::Char('h') || key == Key::Left {
            self.sidebar_focused = self.sidebar_visible;
        } else if key == Key::Char('l') || key == Key::Right {
            self.sidebar_focused = false;
        } else if key == Key::Tab {
            self.step_category(1, true);
        } else {
            self.step_category(-1, true);
        }
    }
}


/// The keys that change what the list shows or open a panel.
pub open spec fn is_view_key(key: Key) -> bool {
    ||| is_char(key, '/') || key == Key::Esc || is_char(key, 'c') || is_char(key, 's')
    ||| is_char(key, 'i') || is_char(key, 'a') || is_char(key, 'A')
    ||| is_char(key, '*') || is_char(key, 'L') || is_char(key, 'v') || is_char(key, 't') || is_char(key, '?')
}

/// The sort after `s`.
pub open spec fn sort_after(s: Sort) -> Sort {
    match s {
        Sort::Stars => Sort::Updated,
        Sort::Updated => Sort::Name,
        Sort::Name => Sort::Stars,
    }
}

/// What a view key does: `/` opens the search, esc clears it, `c` clears
/// every filter but the sort, `s` cycles the sort (reading from the top),
/// `i`, `a` and `A` toggle their filters, and the other keys open the star,
/// language and theme pickers, the log and the key list.
#[verifier::opaque]
pub open spec fn view_key_on(b: App, a: App, key: Key) -> bool {
    if is_char(key, '/') {
        a == (App { sidebar_focused: false, mode: Mode::Search, ..b })
    } else if key == Key::Esc {
        &&& a.query.text@.len() == 0
        &&& a.query == (Query { text: a.query.text, ..b.query })
        &&& refiltered(App { query: a.query, ..b }, a, true)
    } else if is_char(key, 'c') {
        &&& a.query.text@.len() == 0
        &&& a.query == (Query {
            text: a.query.text,
            category: None,
            language: None,
            min_stars: 0,
            installed_only: false,
            installable_only: false,
            show_archived: false,
            sort: b.query.sort,
        })
        &&& refiltered(App { query: a.query, ..b }, a, true)
    } else if is_char(key, 's') {
        refiltered(App { query: Query { sort: sort_after(b.query.sort), ..b.query }, ..b }, a, false)
    } else if is_char(key, 'i') {
        refiltered(App { query: Query { installed_only: !b.query.installed_only, ..b.query }, ..b }, a, true)
    } else if is_char(key, 'a') {
        refiltered(App { query: Query { installable_only: !b.query.installable_only, ..b.query }, ..b }, a, true)
    } else if is_char(key, 'A') {
        refiltered(App { query: Query { show_archived: !b.query.show_archived, ..b.query }, ..b }, a, true)
    } else if is_char(key, '*') {
        &&& a == (App { mode: a.mode, ..b })
        &&& a.mode matches Mode::Picker(p) && p.title@ == "Minimum stars"@ && views(p.items@)
            == star_presets().map_values(|n: u32| star_item(n)) && p.selected == last_at_most(
            b.query.min_stars,
            STAR_PRESET_COUNT as int,
        ) && p.kind == crate::app::PickerKind::MinStars
    } else if is_char(key, 'L') {
        a == (App { mode: a.mode, ..b }) && (a.mode matches Mode::Picker(p) && language_picker_ok(
            p,
            b.catalog@,
            b.rows(),
            b.query.language,
        ))
    } else if is_char(key, 'v') {
        a == (App { mode: Mode::Log, ..b })
    } else if is_char(key, 't') {
        a == (App { mode: a.mode, ..b }) && (a.mode matches Mode::Picker(p) && theme_picker_ok(p, b.theme, b.theme, None))
    } else {
        a == (App { mode: Mode::Help(Help { filter: None, selected: 0 }), ..b })
    }
}

/// The view keys that change the query.
pub open spec fn is_filter_key(key: Key) -> bool {
    key == Key::Esc || is_char(key, 'c') || is_char(key, 's') || is_char(key, 'i') || is_char(key, 'a') || is_char(key, 'A')
}

impl App {
    pub(crate) fn on_view_key(&mut self, key: Key)
        requires
            old(self).wf(),
            is_view_key(key),
        ensures
            view_key_on(*old(self), *final(self), key),
            final(self).wf(),
    {
        if key == Key::Esc || key == Key::Char('c') || key == Key::Char('s') || key == Key::Char('i') || key == Key::Char('a') || key == Key::Char('A') {
            self.on_filter_key(key);
        } else {
            self.on_panel_key(key);
        }
    }

    #[verifier::spinoff_prover]
    #[verifier::rlimit(100)]
    pub(crate) fn on_panel_key(&mut self, key: Key)
        requires
            old(self).wf(),
            is_view_key(key),
            !is_filter_key(key),
        ensures
            view_key_on(*old(self), *final(self), key),
            final(self).wf(),
    {
        reveal(view_key_on);
        if key == Key::Char('/') {
            self.sidebar_focused = false;
            self.mode = Mode::Search;
        } else if key == Key::Char('*') {
            self.open_stars_picker();
        } else if key == Key::Char('L') {
            self.open_language_picker();
        } else if key == Key::Char('v') {
            self.mode = Mode::Log;
        } else if key == Key::Char('t') {
            let p = self.theme_picker(self.theme, None);
            self.mode = Mode::Picker(p);
        } else {
            self.mode = Mode::Help(Help { filter: None, selected: 0 });
        }
    }

    #[verifier::spinoff_prover]
    #[verifier::rlimit(100)]
    pub(crate) fn on_filter_key(&mut self, key: Key)
        requires
            old(self).wf(),
            is_filter_key(key),
        ensures
            view_key_on(*old(self), *final(self), key),
            final(self).wf(),
    {
        reveal(view_key_on);
        let keep = !(key == Key::Char('s'));
        if key == Key::Esc {
            self.query.text = String::new();
        } else if key == Key::Char('c') {
            self.query = Query {
                text: String::new(),
                category: None,
                language: None,
                min_stars: 0,
                installed_only: false,
                installable_only: false,
                show_archived: false,
                sort: self.query.sort,
            };
        } else if key == Key::Char('s') {
            self.query.sort = self.query.sort.next();
        } else if key == Key::Char('i') {
            self.query.installed_only = !self.query.installed_only;
        } else if key == Key::Char('a') {
            self.query.installable_only = !self.query.installable_only;
        } else {
            self.query.show_archived = !self.query.show_archived;
        }
        let ghost mid = *self;
        self.refilter(keep);
        proof {
            lemma_refiltered(mid, *self, keep);
        }
    }
}

/// The action enter offers on the row under the cursor: uninstalling what
/// is installed, installing anything else.
pub open spec fn enter_action(b: App) -> Action {
    match b.cursor_row() {
        Some(r) => if b.installed@.installed[r as int] != 0 {
            Action::Uninstall
        } else {
            Action::Install
        },
        None => Action::Install,
    }
}

/// What the remaining keys of the list do: `qq` quits (a first `q` arms
/// it and says so), enter installs or uninstalls, `u` upgrades, `o` opens
/// the project page, `y` copies the name, and `r` refreshes the index
/// unless a refresh is running. Anything else does nothing.
#[verifier::opaque]
pub open spec fn command_on(b: App, a: App, key: Key, armed: bool, effects: Seq<Effect>) -> bool {
    if is_char(key, 'q') {
        if armed {
            a == b && effects.len() == 1 && effects[0] == Effect::Quit
        } else {
            &&& a == (App { quit_armed: true, status: a.status, ..b })
            &&& a.status@ == if b.running is Some {
                "A job is still running \u{b7} q again quits anyway"@
            } else {
                "q again quits"@
            }
            &&& effects.len() == 0
        }
    } else if key == Key::Enter {
        confirm_opened(b, a, enter_action(b)) && effects.len() == 0
    } else if is_char(key, 'u') {
        confirm_opened(b, a, Action::Upgrade) && effects.len() == 0
    } else if is_char(key, 'o') {
        a == b && match b.cursor_row() {
            Some(r) => effects.len() == 1 && (effects[0] matches Effect::OpenUrl(u) && u@ == decode_utf8(
                b.catalog@.text(b.catalog@.url[r as int]),
            )),
            None => effects.len() == 0,
        }
    } else if is_char(key, 'y') {
        a == b && copies(
            effects,
            match b.cursor_row() {
                Some(r) => Some(decode_utf8(b.catalog@.text(b.catalog@.name[r as int]))),
                None => None,
            },
        )
    } else if is_char(key, 'r') && !b.refreshing {
        &&& a == (App { refreshing: true, status: a.status, ..b })
        &&& a.status@ == "Refreshing index\u{2026}"@
        &&& effects.len() == 1
        &&& effects[0] == Effect::RefreshIndex
    } else {
        a == b && effects.len() == 0
    }
}

impl App {
    #[verifier::spinoff_prover]
    #[verifier::rlimit(100)]
    pub(crate) fn on_command_key(&mut self, key: Key, armed: bool) -> (effects: Vec<Effect>)
        requires
            old(self).wf(),
        ensures
            command_on(*old(self), *final(self), key, armed, effects@),
            final(self).wf(),
    {
        reveal(command_on);
        if key == Key::Char('q') {
            if armed {
                return vec![Effect::Quit];
            }
            self.quit_armed = true;
            self.status = String::from_str(if self.running.is_some() {
                "A job is still running \u{b7} q again quits anyway"
            } else {
                "q again quits"
            });
            return Vec::new();
        }
        if key == Key::Enter {
            let action = match self.selected_row() {
                Some(row) => {
                    proof {
                        crate::app::lemma_cursor_row_in_catalog(*self);
                    }
                    if self.installed.is_installed(row) {
                        Action::Uninstall
                    } else {
                        Action::Install
                    }
                },
                None => Action::Install,
            };
            self.open_confirm(action);
            return Vec::new();
        }
        if key == Key::Char('u') {
            self.open_confirm(Action::Upgrade);
            return Vec::new();
        }
        if key == Key::Char('o') || key == Key::Char('y') {
            return match self.selected_row() {
                Some(row) => {
                    proof {
                        crate::app::lemma_cursor_row_in_catalog(*self);
                    }
                    let text = if key == Key::Char('o') {
                        self.catalog.url(row)
                    } else {
                        self.catalog.name(row)
                    };
                    proof {
                        vstd::utf8::encode_utf8_decode_utf8(text@);
                    }
                    let t = String::from_str(text);
                    if key == Key::Char('o') {
                        vec![Effect::OpenUrl(t)]
                    } else {
                        vec![Effect::Copy(t)]
                    }
                },
                None => Vec::new(),
            };
        }
        if key == Key::Char('r') && !self.refreshing {
            self.refreshing = true;
            self.status = String::from_str("Refreshing index\u{2026}");
            return vec![Effect::RefreshIndex];
        }
        Vec::new()
    }
}


/// The rows of the sidebar: "All" and each category.
pub open spec fn sidebar_count(b: App) -> int {
    categories_shown(b.catalog@) + 1
}

/// How many sidebar rows a key moves by in the focused sidebar; 0 for a
/// key that is no sidebar motion, or a motion that has nowhere to go.
pub open spec fn sidebar_step(b: App, key: Key, count: int) -> int {
    let n = repeats(count);
    let h = half_page(b.page as int);
    let cats = sidebar_count(b);
    let cur = category_index(b.query.category);
    if is_char(key, 'j') || key == Key::Down {
        spec_wrap_step(cur, n, cats) - cur
    } else if is_char(key, 'k') || key == Key::Up {
        spec_wrap_step(cur, -n, cats) - cur
    } else if is_char(key, ')') {
        steps(n, h)
    } else if is_char(key, '(') {
        -steps(n, h)
    } else if is_char(key, 'g') && count > 0 {
        count - 1 - cur
    } else if is_char(key, 'g') || key == Key::Home {
        -cats
    } else if is_char(key, 'G') || key == Key::End {
        cats
    } else {
        0
    }
}

/// Whether the focused sidebar takes the key; the others go to the list.
pub open spec fn sidebar_takes(b: App, key: Key, count: int) -> bool {
    ||| is_char(key, 'g') && count > 0
    ||| key == Key::Enter || is_char(key, '/') || is_char(key, 'y')
    ||| sidebar_step(b, key, count) != 0
}

/// What a key the focused sidebar takes does: the motions move through the
/// categories (`3gg` to the third row, "All" being the first), enter hands
/// the focus back to the list, `/` searches the categories, and `y` copies
/// the category's name.
#[verifier::opaque]
pub open spec fn sidebar_on(b: App, a: App, key: Key, count: int, effects: Seq<Effect>) -> bool {
    if key == Key::Enter {
        a == (App { sidebar_focused: false, ..b }) && effects.len() == 0
    } else if is_char(key, '/') {
        &&& a == (App { mode: a.mode, ..b })
        &&& a.mode matches Mode::CategorySearch { text, original } && text@.len() == 0 && original == b.query.category
        &&& effects.len() == 0
    } else if is_char(key, 'y') {
        a == b && copies(
            effects,
            Some(
                match b.query.category {
                    Some(id) => decode_utf8(b.catalog@.text(b.catalog@.categories[id as int])),
                    None => "All"@,
                },
            ),
        )
    } else {
        category_stepped(b, a, sidebar_step(b, key, count), false) && effects.len() == 0
    }
}

impl App {
    #[verifier::spinoff_prover]
    #[verifier::rlimit(100)]
    pub(crate) fn on_sidebar_key(&mut self, key: Key, count: usize) -> (r: Option<Vec<Effect>>)
        requires
            old(self).wf(),
            count <= MAX_COUNT,
        ensures
            if sidebar_takes(*old(self), key, count as int) {
                r matches Some(e) && sidebar_on(*old(self), *final(self), key, count as int, e@)
            } else {
                r is None && *final(self) == *old(self)
            },
            final(self).wf(),
    {
        reveal(sidebar_on);
        if key == Key::Enter {
            self.sidebar_focused = false;
            return Some(Vec::new());
        }
        if key == Key::Char('/') {
            self.mode = Mode::CategorySearch { text: String::new(), original: self.query.category };
            return Some(Vec::new());
        }
        if key == Key::Char('y') {
            let name = match self.query.category {
                Some(id) => {
                    let name = self.catalog.category_name(id);
                    proof {
                        vstd::utf8::encode_utf8_decode_utf8(name@);
                    }
                    String::from_str(name)
                },
                None => String::from_str("All"),
            };
            return Some(vec![Effect::Copy(name)]);
        }
        let n = if count > 1 {
            count
        } else {
            1
        };
        let half = if self.page / 2 > 1 {
            self.page / 2
        } else {
            1
        };
        let cats = self.sidebar_rows();
        let cur: usize = match self.query.category {
            Some(c) => c as usize + 1,
            None => 0,
        };
        let step: isize = if key == Key::Char('j') || key == Key::Down {
            wrap_step(cur, n as isize, cats) as isize - cur as isize
        } else if key == Key::Char('k') || key == Key::Up {
            wrap_step(cur, -(n as isize), cats) as isize - cur as isize
        } else if key == Key::Char(')') {
            repeat_lines(n, half)
        } else if key == Key::Char('(') {
            -repeat_lines(n, half)
        } else if key == Key::Char('g') && count > 0 {
            count as isize - 1 - cur as isize
        } else if key == Key::Char('g') || key == Key::Home {
            -(cats as isize)
        } else if key == Key::Char('G') || key == Key::End {
            cats as isize
        } else {
            0
        };
        if step == 0 && !(key == Key::Char('g') && count > 0) {
            return None;
        }
        self.step_category(step, false);
        Some(Vec::new())
    }
}

/// What a key does in normal mode, once the status is cleared and the
/// key's hint is lit: the focused sidebar takes its keys, then the list's
/// motions, view keys and commands.
#[verifier::opaque]
pub open spec fn normal_from(b: App, a: App, key: Key, ctrl: bool, armed: bool, count: int, effects: Seq<Effect>) -> bool {
    if b.sidebar_focused && sidebar_takes(b, key, count) {
        sidebar_on(b, a, key, count, effects)
    } else if is_motion(key, ctrl) {
        motion_on(b, a, key, ctrl, count) && effects.len() == 0
    } else if is_view_key(key) {
        view_key_on(b, a, key) && effects.len() == 0
    } else {
        command_on(b, a, key, armed, effects)
    }
}

/// What a key does in normal mode: the status line is cleared and the
/// key's hint lit, then the key acts.
pub open spec fn normal_on(b: App, a: App, key: Key, ctrl: bool, armed: bool, count: int, effects: Seq<Effect>) -> bool {
    exists|s: String|
        s@.len() == 0 && #[trigger] normal_from(App { status: s, flash: FLASH_TICKS, ..b }, a, key, ctrl, armed, count, effects)
}

impl App {
    pub(crate) fn on_normal_key(&mut self, key: Key, ctrl: bool, armed: bool, count: usize) -> (effects: Vec<Effect>)
        requires
            old(self).wf(),
            count <= MAX_COUNT,
        ensures
            normal_on(*old(self), *final(self), key, ctrl, armed, count as int, effects@),
            final(self).wf(),
    {
        self.status = String::new();
        self.flash = FLASH_TICKS;
        let ghost b = *self;
        let effects = self.normal_key(key, ctrl, armed, count);
        assert(normal_from(b, *self, key, ctrl, armed, count as int, effects@));
        effects
    }

    #[verifier::spinoff_prover]
    #[verifier::rlimit(100)]
    pub(crate) fn normal_key(&mut self, key: Key, ctrl: bool, armed: bool, count: usize) -> (effects: Vec<Effect>)
        requires
            old(self).wf(),
            count <= MAX_COUNT,
        ensures
            normal_from(*old(self), *final(self), key, ctrl, armed, count as int, effects@),
            final(self).wf(),
    {
        reveal(normal_from);
        if self.sidebar_focused {
            match self.on_sidebar_key(key, count) {
                Some(e) => {
                    return e;
                },
                None => {},
            }
        }
        let motion = key == Key::Char(')') || key == Key::Char('(') || (ctrl && (key == Key::Char('d')
            || key == Key::Char('u'))) || key == Key::Char('j') || key == Key::Char('k') || key == Key::Down
            || key == Key::Up || key == Key::PageDown || key == Key::PageUp || key == Key::Char('g')
            || key == Key::Char('G') || key == Key::Home || key == Key::End || key == Key::Char('h')
            || key == Key::Char('l') || key == Key::Left || key == Key::Right || key == Key::Tab
            || key == Key::BackTab;
        if motion {
            self.on_motion_key(key, ctrl, count);
            return Vec::new();
        }
        let view = key == Key::Char('/') || key == Key::Esc || key == Key::Char('c') || key == Key::Char('s')
            || key == Key::Char('i') || key == Key::Char('a') || key == Key::Char('A') || key == Key::Char('*')
            || key == Key::Char('L') || key == Key::Char('v') || key == Key::Char('t') || key == Key::Char('?');
        if view {
            self.on_view_key(key);
            return Vec::new();
        }
        self.on_command_key(key, armed)
    }
}


/// Quitting takes two presses of `q` in the list: a first `q` never quits
/// but arms, and a `q` that finds quitting armed quits.
pub proof fn law_quit_needs_two_presses(b: App, a: App, armed: bool, effects: Seq<Effect>)
    requires
        command_on(b, a, Key::Char('q'), armed, effects),
    ensures
        !armed ==> effects.len() == 0 && a.quit_armed,
        armed ==> effects.len() == 1 && effects[0] == Effect::Quit,
{
    reveal(command_on);
}

} // verus!
