//! The transition function: each event, and each key by mode.

use vstd::prelude::*;
use vstd::string::StringExecFns;

use crate::app::{join_with, lemma_refiltered, log_push, masks_ok, refiltered, rescanned, App, Echo, Effect, Event, IndexUpdate, Mode, PickerKind, MAX_COUNT};
use crate::pickers::picker_key_on;
use crate::help::help_key_on;
use crate::search::{category_search_on, search_key_on};
use crate::jobs::job_done;
use crate::commands::normal_on;
use crate::installed::{kept_listings, masks_right};
use crate::keys::Key;
use crate::managers::MANAGER_COUNT;
use crate::query::Query;
use crate::show::{decimal, push_decimal};
use crate::text::views;

verus! {

/// Whether digits are a count in `mode`: everywhere but where a search is
/// being typed.
pub open spec fn takes_count(mode: Mode) -> bool {
    match mode {
        Mode::Normal => true,
        Mode::Help(h) => h.filter is None,
        Mode::Picker(p) => match p.kind {
            PickerKind::Theme { filter, .. } => filter is None,
            _ => true,
        },
        _ => false,
    }
}

/// The digit a key adds to a count of `count`: a leading 0 is not a count.
pub open spec fn digit_of(key: Key, count: int) -> Option<int> {
    match key {
        Key::Char(c) => if '0' <= c <= '9' && (c != '0' || count > 0) {
            Some(c as int - '0' as int)
        } else {
            None
        },
        _ => None,
    }
}

/// What a key does in the mode `b` is in, given the count and whether a
/// first `q` armed quitting.
pub open spec fn mode_key_on(b: App, a: App, key: Key, ctrl: bool, armed: bool, count: int, effects: Seq<Effect>) -> bool {
    match b.mode {
        Mode::Normal => normal_on(b, a, key, ctrl, armed, count, effects),
        Mode::Search => search_key_on(b, a, key, ctrl) && effects.len() == 0,
        Mode::CategorySearch { text, original } => category_search_on(b, text@, original, a, key, ctrl)
            && effects.len() == 0,
        Mode::Picker(p) => picker_key_on(b, p, a, key, ctrl, count, effects),
        Mode::Help(h) => help_key_on(b, h, a, key, ctrl, count, effects),
        Mode::Log => if key == Key::Char('y') {
            a == b && effects.len() == 1 && (effects[0] matches Effect::Copy(t) && t@ == join_with(
                views(b.log@),
                "\n"@,
            ))
        } else {
            a == (App { mode: Mode::Normal, ..b }) && effects.len() == 0
        },
    }
}

/// What a key does: ctrl-c quits; where digits are a count they build one
/// (up to 99999), and `g` waits for a second `g`; any other key disarms a
/// first `q`, uses up the count, is echoed where it is a command, and acts
/// in the current mode.
pub open spec fn key_on(b: App, a: App, key: Key, ctrl: bool, effects: Seq<Effect>) -> bool {
    if ctrl && key == Key::Char('c') {
        a == b && effects.len() == 1 && effects[0] == Effect::Quit
    } else {
        let tc = takes_count(b.mode);
        let b1 = App { quit_armed: false, count: 0, g_pending: None, ..b };
        let digit = if !ctrl && tc {
            digit_of(key, b.count as int)
        } else {
            None
        };
        match digit {
            Some(d) => {
                let c = b.count * 10 + d;
                &&& a == (App {
                    count: (if c < MAX_COUNT {
                        c
                    } else {
                        MAX_COUNT as int
                    }) as usize,
                    last_key: None,
                    ..b1
                })
                &&& effects.len() == 0
            },
            None => if key == Key::Char('g') && !ctrl && tc && b.g_pending is None {
                &&& a == (App {
                    g_pending: Some(b.count),
                    last_key: Some(Echo { count: b.count, ctrl: false, g: true, key: None }),
                    ..b1
                })
                &&& effects.len() == 0
            } else {
                let count = if key == Key::Char('g') && !ctrl && tc {
                    b.g_pending->0
                } else {
                    b.count
                };
                let b2 = App {
                    last_key: if tc {
                        Some(Echo { count, ctrl, g: b.g_pending is Some, key: Some(key) })
                    } else {
                        None
                    },
                    ..b1
                };
                mode_key_on(b2, a, key, ctrl, b.quit_armed, count as int, effects)
            },
        }
    }
}

impl App {
    /// Whether digits are a count in the current mode.
    pub fn takes_count(&self) -> (r: bool)
        ensures
            r == takes_count(self.mode),
    {
        match &self.mode {
            Mode::Normal => true,
            Mode::Help(h) => h.filter.is_none(),
            Mode::Picker(p) => match &p.kind {
                PickerKind::Theme { filter, .. } => filter.is_none(),
                _ => true,
            },
            _ => false,
        }
    }

    /// The log, one line after another.
    fn log_text(&self) -> (r: String)
        ensures
            r@ == join_with(views(self.log@), "\n"@),
    {
        let mut out = String::new();
        let mut k: usize = 0;
        while k < self.log.len()
            invariant
                k <= self.log@.len(),
                out@ == join_with(views(self.log@).take(k as int), "\n"@),
            decreases self.log@.len() - k,
        {
            if k > 0 {
                out.append("\n");
            }
            out.append(self.log[k].as_str());
            proof {
                let t = views(self.log@).take(k + 1);
                assert(t.drop_last() =~= views(self.log@).take(k as int));
                if k == 0 {
                    assert(views(self.log@).take(1) =~= seq![self.log@[0]@]);
                }
            }
            k += 1;
        }
        assert(views(self.log@).take(self.log@.len() as int) =~= views(self.log@));
        out
    }

    #[verifier::spinoff_prover]
    #[verifier::rlimit(100)]
    fn on_key(&mut self, key: Key, ctrl: bool) -> (effects: Vec<Effect>)
        requires
            old(self).wf(),
        ensures
            key_on(*old(self), *final(self), key, ctrl, effects@),
            final(self).wf(),
    {
        if ctrl && key == Key::Char('c') {
            return vec![Effect::Quit];
        }
        let tc = self.takes_count();
        let armed = self.quit_armed;
        let count0 = self.count;
        let g_pending = self.g_pending;
        self.quit_armed = false;
        self.count = 0;
        self.g_pending = None;
        if !ctrl && tc {
            match key {
                Key::Char(c) => {
                    if '0' <= c && c <= '9' && (c != '0' || count0 > 0) {
                        let d = (c as u32 - '0' as u32) as usize;
                        let next = if count0 > (MAX_COUNT - d) / 10 {
                            MAX_COUNT
                        } else {
                            let c = count0 * 10 + d;
                            if c < MAX_COUNT {
                                c
                            } else {
                                MAX_COUNT
                            }
                        };
                        self.count = next;
                        self.last_key = None;
                        return Vec::new();
                    }
                },
                _ => {},
            }
        }
        let mut count = count0;
        if key == Key::Char('g') && !ctrl && tc {
            match g_pending {
                Some(p) => {
                    count = p;
                },
                None => {
                    self.g_pending = Some(count0);
                    self.last_key = Some(Echo { count: count0, ctrl: false, g: true, key: None });
                    return Vec::new();
                },
            }
        }
        self.last_key = if tc {
            Some(Echo { count, ctrl, g: g_pending.is_some(), key: Some(key) })
        } else {
            None
        };
        let is_log = match &self.mode {
            Mode::Log => true,
            _ => false,
        };
        if is_log {
            if key == Key::Char('y') {
                return vec![Effect::Copy(self.log_text())];
            }
            self.mode = Mode::Normal;
            return Vec::new();
        }
        self.on_mode_key(key, ctrl, armed, count)
    }

    #[verifier::spinoff_prover]
    #[verifier::rlimit(100)]
    fn on_mode_key(&mut self, key: Key, ctrl: bool, armed: bool, count: usize) -> (effects: Vec<Effect>)
        requires
            old(self).wf(),
            !(old(self).mode is Log),
            count <= MAX_COUNT,
        ensures
            mode_key_on(*old(self), *final(self), key, ctrl, armed, count as int, effects@),
            final(self).wf(),
    {
        let which: u8 = match &self.mode {
            Mode::Normal => 0,
            Mode::Search => 1,
            Mode::CategorySearch { .. } => 2,
            Mode::Picker(_) => 3,
            _ => 4,
        };
        if which == 0 {
            self.on_normal_key(key, ctrl, armed, count)
        } else if which == 1 {
            self.on_search_key(key, ctrl);
            Vec::new()
        } else if which == 2 {
            self.on_category_search_key(key, ctrl);
            Vec::new()
        } else if which == 3 {
            self.on_picker_key(key, ctrl, count)
        } else {
            self.on_help_key(key, ctrl, count)
        }
    }
}

/// The mode after a new catalog lands: dialogs holding rows or ids of the
/// old catalog close, as they could now name another TUI or none.
pub open spec fn mode_after_index(mode: Mode) -> Mode {
    match mode {
        Mode::CategorySearch { .. } => Mode::Normal,
        Mode::Picker(p) => match p.kind {
            PickerKind::Confirm { .. } | PickerKind::Language(_) => Mode::Normal,
            _ => mode,
        },
        _ => mode,
    }
}

/// What the end of an index refresh does. A new catalog replaces the old
/// one: the installed state is worked out again, the category and language
/// filters (ids of the old catalog) are dropped, and the list starts from
/// the top. A refresh nobody asked for only speaks up about news.
pub open spec fn index_updated(d: App, a: App, u: IndexUpdate, effects: Seq<Effect>) -> bool {
    let quiet = d.quiet_refresh && d.catalog@.rows() != 0;
    let c = App { refreshing: false, quiet_refresh: false, ..d };
    &&& effects.len() == 0
    &&& match u {
        IndexUpdate::Fresh(cat) => exists|m: App|
            {
                &&& m.installed@.detected == d.installed@.detected
                &&& m.installed@.listings == d.installed@.listings
                &&& #[trigger] masks_right(m.installed@, cat@)
                &&& refiltered(
                    App {
                        catalog: *cat,
                        installed: m.installed,
                        query: Query { category: None, language: None, ..d.query },
                        mode: mode_after_index(d.mode),
                        ..c
                    },
                    m,
                    false,
                )
                &&& a == (App { status: a.status, ..m })
                &&& a.status@ == "Index updated: "@ + decimal(cat@.rows() as nat) + " TUIs"@
            },
        IndexUpdate::NotModified => if quiet {
            a == c
        } else {
            a == (App { status: a.status, ..c }) && a.status@ == "Index is up to date"@
        },
        IndexUpdate::Failed(why) => if quiet {
            a == c
        } else {
            a == (App { status: a.status, ..c }) && a.status@ == "Index refresh failed: "@ + why@
        },
    }
}

/// What an event does to the state, and what it asks of the shell.
pub open spec fn updated(b: App, a: App, event: Event, effects: Seq<Effect>) -> bool {
    let d = App { dirty: true, ..b };
    match event {
        Event::Key { key, ctrl } => exists|m: App|
            #[trigger] key_on(App { dirty: true, ..b }, m, key, ctrl, effects) && a == (App {
                flash: if takes_count(m.mode) {
                    m.flash
                } else {
                    0
                },
                ..m
            }),
        Event::Resize => a == d && effects.len() == 0,
        Event::Tick => a == (App {
            spinner: if b.spinner == usize::MAX {
                0
            } else {
                (b.spinner + 1) as usize
            },
            flash: if b.flash > 0 {
                (b.flash - 1) as u8
            } else {
                0
            },
            ..d
        }) && effects.len() == 0,
        Event::Detected(det) => exists|m: App|
            {
                &&& m.installed@.detected == det@.map_values(|x: (crate::managers::ManagerId, String)| (x.0, x.1@))
                &&& m.installed@.listings == kept_listings(b.installed@.listings, m.installed@.detected)
                &&& masks_right(m.installed@, b.catalog@)
                &&& refiltered(App { detecting: false, installed: m.installed, ..d }, m, true)
                &&& a == (App { scans_pending: #[trigger] rescanned(m, None).0, ..m })
                &&& effects == rescanned(m, None).1
            },
        Event::Listing(mgr, names) => {
            &&& a.installed@.detected == b.installed@.detected
            &&& a.installed@.listings == b.installed@.listings.update(mgr as int, Some(views(names@)))
            &&& masks_right(a.installed@, b.catalog@)
            &&& refiltered(
                App {
                    scans_pending: (if b.scans_pending > 0 {
                        b.scans_pending - 1
                    } else {
                        0
                    }) as usize,
                    installed: a.installed,
                    ..d
                },
                a,
                true,
            )
            &&& if a.scans_pending == 0 {
                effects.len() == 1 && effects[0] == Effect::SaveInstalled
            } else {
                effects.len() == 0
            }
        },
        Event::Index(u) => index_updated(d, a, u, effects),
        Event::JobOutput(line) => a == (App { log: a.log, ..d }) && a.log@ == log_push(b.log@, line)
            && effects.len() == 0,
        Event::JobDone { ok } => job_done(d, a, ok, effects),
    }
}

impl App {
    /// Takes one event: changes the state and returns what the shell is to
    /// do. Every state it leaves satisfies [`App::wf`].
    #[verifier::spinoff_prover]
    #[verifier::rlimit(100)]
    pub fn update(&mut self, event: Event) -> (effects: Vec<Effect>)
        requires
            old(self).wf(),
            event matches Event::Listing(m, _) ==> m < MANAGER_COUNT,
        ensures
            updated(*old(self), *final(self), event, effects@),
            final(self).wf(),
    {
        self.dirty = true;
        match event {
            Event::Key { key, ctrl } => {
                let effects = self.on_key(key, ctrl);
                let ghost m = *self;
                if !self.takes_count() {
                    self.flash = 0;
                }
                assert(key_on(App { dirty: true, ..*old(self) }, m, key, ctrl, effects@));
                effects
            },
            Event::Resize => Vec::new(),
            Event::Tick => {
                self.spinner = if self.spinner == usize::MAX {
                    0
                } else {
                    self.spinner + 1
                };
                self.flash = if self.flash > 0 {
                    self.flash - 1
                } else {
                    0
                };
                Vec::new()
            },
            Event::Detected(detected) => self.on_detected(detected),
            Event::Listing(manager, names) => self.on_listing(manager, names),
            Event::Index(update) => {
                self.on_index(update);
                Vec::new()
            },
            Event::JobOutput(line) => {
                self.push_log(line);
                Vec::new()
            },
            Event::JobDone { ok } => self.on_job_done(ok),
        }
    }

    #[verifier::spinoff_prover]
    fn on_detected(&mut self, detected: Vec<(crate::managers::ManagerId, String)>) -> (effects: Vec<Effect>)
        requires
            old(self).wf(),
        ensures
            final(self).wf(),
            exists|m: App|
                {
                    &&& m.installed@.detected == detected@.map_values(|x: (crate::managers::ManagerId, String)| (x.0, x.1@))
                    &&& m.installed@.listings == kept_listings(old(self).installed@.listings, m.installed@.detected)
                    &&& masks_right(m.installed@, old(self).catalog@)
                    &&& refiltered(App { detecting: false, installed: m.installed, ..*old(self) }, m, true)
                    &&& *final(self) == (App { scans_pending: #[trigger] rescanned(m, None).0, ..m })
                    &&& effects@ == rescanned(m, None).1
                },
    {
        self.detecting = false;
        self.installed.set_detected(detected, &self.catalog);
        proof {
            reveal(masks_ok);
        }
        let ghost mid = *self;
        self.refilter(true);
        proof {
            lemma_refiltered(mid, *self, true);
        }
        let ghost m = *self;
        let effects = self.rescan(None);
        assert(refiltered(App { detecting: false, installed: m.installed, ..*old(self) }, m, true));
        effects
    }

    #[verifier::spinoff_prover]
    fn on_listing(&mut self, manager: crate::managers::ManagerId, names: Vec<String>) -> (effects: Vec<Effect>)
        requires
            old(self).wf(),
            manager < MANAGER_COUNT,
        ensures
            final(self).wf(),
            final(self).installed@.detected == old(self).installed@.detected,
            final(self).installed@.listings == old(self).installed@.listings.update(manager as int, Some(views(names@))),
            masks_right(final(self).installed@, old(self).catalog@),
            refiltered(
                App {
                    scans_pending: (if old(self).scans_pending > 0 {
                        old(self).scans_pending - 1
                    } else {
                        0
                    }) as usize,
                    installed: final(self).installed,
                    ..*old(self)
                },
                *final(self),
                true,
            ),
            if final(self).scans_pending == 0 {
                effects@.len() == 1 && effects@[0] == Effect::SaveInstalled
            } else {
                effects@.len() == 0
            },
    {
        self.scans_pending = if self.scans_pending > 0 {
            self.scans_pending - 1
        } else {
            0
        };
        self.installed.set_listing(manager, names, &self.catalog);
        proof {
            reveal(masks_ok);
        }
        let ghost mid = *self;
        self.refilter(true);
        proof {
            lemma_refiltered(mid, *self, true);
        }
        if self.scans_pending == 0 {
            vec![Effect::SaveInstalled]
        } else {
            Vec::new()
        }
    }

    #[verifier::spinoff_prover]
    #[verifier::rlimit(100)]
    fn on_index(&mut self, update: IndexUpdate)
        requires
            old(self).wf(),
        ensures
            final(self).wf(),
            index_updated(*old(self), *final(self), update, seq![]),
    {
        reveal(crate::app::picker_ok);
        self.refreshing = false;
        let quiet = self.quiet_refresh && !self.catalog.is_empty();
        self.quiet_refresh = false;
        match update {
            IndexUpdate::Fresh(catalog) => {
                let ghost cat = *catalog;
                self.catalog = *catalog;
                self.installed.rebuild(&self.catalog);
                self.query.category = None;
                self.query.language = None;
                let close = match &self.mode {
                    Mode::CategorySearch { .. } => true,
                    Mode::Picker(p) => match &p.kind {
                        PickerKind::Confirm { .. } | PickerKind::Language(_) => true,
                        _ => false,
                    },
                    _ => false,
                };
                if close {
                    self.mode = Mode::Normal;
                }
                proof {
                    reveal(masks_ok);
                }
                let ghost mid = *self;
                self.refilter(false);
                proof {
                    lemma_refiltered(mid, *self, false);
                }
                let ghost m = *self;
                let mut status = String::from_str("Index updated: ");
                push_decimal(&mut status, self.catalog.len() as u64);
                status.append(" TUIs");
                self.status = status;
                assert(refiltered(
                    App {
                        catalog: cat,
                        installed: m.installed,
                        query: Query { category: None, language: None, ..old(self).query },
                        mode: mode_after_index(old(self).mode),
                        ..App { refreshing: false, quiet_refresh: false, ..*old(self) }
                    },
                    m,
                    false,
                ));
            },
            IndexUpdate::NotModified => {
                if !quiet {
                    self.status = String::from_str("Index is up to date");
                }
            },
            IndexUpdate::Failed(why) => {
                if !quiet {
                    let mut status = String::from_str("Index refresh failed: ");
                    status.append(why.as_str());
                    self.status = status;
                }
            },
        }
    }
}

/// Ctrl-c quits whatever the mode, and changes nothing else.
pub proof fn law_ctrl_c_quits(b: App, a: App, effects: Seq<Effect>)
    requires
        key_on(b, a, Key::Char('c'), true, effects),
    ensures
        a == b,
        effects.len() == 1 && effects[0] == Effect::Quit,
{
}

/// A count is used up by the key after it: a key that is not a digit of
/// the count or the first `g` of `gg` leaves no count behind in the list.
pub proof fn law_count_is_used_once(b: App, a: App, key: Key, effects: Seq<Effect>)
    requires
        key_on(b, a, key, false, effects),
        b.mode == Mode::Normal,
        !b.sidebar_focused,
        digit_of(key, b.count as int) is None,
        key == Key::Char('j') || key == Key::Char('k') || key == Key::Down || key == Key::Up,
    ensures
        a.count == 0,
        a.quit_armed == false,
{
    reveal(crate::commands::normal_from);
    reveal(crate::commands::motion_on);
    let b1 = App { quit_armed: false, count: 0, g_pending: None, ..b };
    let b2 = App {
        last_key: Some(Echo { count: b.count, ctrl: false, g: b.g_pending is Some, key: Some(key) }),
        ..b1
    };
    assert(mode_key_on(b2, a, key, false, b.quit_armed, b.count as int, effects));
    let s = choose|s: String|
        s@.len() == 0 && #[trigger] crate::commands::normal_from(
            App { status: s, flash: crate::app::FLASH_TICKS, ..b2 },
            a,
            key,
            false,
            b.quit_armed,
            b.count as int,
            effects,
        );
}

} // verus!
