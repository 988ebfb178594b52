//! The help overlay: the key list, its search, and what its keys do.

use vstd::prelude::*;
use crate::keys::{Help, Key};
use crate::keys::{edit, help_matching, help_rows, help_table, list_motion, spec_edit, spec_list_motion};
use crate::text::same_text;
use crate::app::{App, Effect, MAX_COUNT, Mode};
use crate::pickers::{copies, is_char};

verus! {


/// Where the entry with these texts stands in the key list, or 0.
pub open spec fn help_index(keys: Seq<char>, what: Seq<char>) -> int {
    if exists|i: int| 0 <= i < help_rows().len() && help_rows()[i].0@ == keys && help_rows()[i].1@ == what {
        choose|i: int|
            0 <= i < help_rows().len() && help_rows()[i].0@ == keys && help_rows()[i].1@ == what && forall|j: int|
                0 <= j < i ==> !(help_rows()[j].0@ == keys && help_rows()[j].1@ == what)
    } else {
        0
    }
}

/// What a key does in the key list `h`: the motion keys move (only the
/// non-letter ones while a search is typed), `y` copies the entry, `/`
/// searches, esc ends a search, enter ends it keeping the entry, typing
/// edits it, and any other key closes the list.
#[verifier::opaque]
pub open spec fn help_key_on(before: App, h: Help, after: App, key: Key, ctrl: bool, count: int, effects: Seq<Effect>) -> bool {
    let rows = help_matching(help_rows(), h.needle());
    let typing = h.filter is Some;
    match spec_list_motion(key, typing, h.selected as int, rows.len() as int, before.page as int, count) {
        Some(to) => after == (App { mode: Mode::Help(Help { selected: to as usize, ..h }), ..before })
            && effects.len() == 0,
        None => help_command_on(before, h, after, key, ctrl, effects),
    }
}

/// What a key that is no motion does in the key list `h`: `y` copies the
/// entry, `/` searches, esc ends a search, enter ends it keeping the entry,
/// typing edits it, and any other key closes the list.
#[verifier::opaque]
pub open spec fn help_command_on(before: App, h: Help, after: App, key: Key, ctrl: bool, effects: Seq<Effect>) -> bool {
    let rows = help_matching(help_rows(), h.needle());
    let typing = h.filter is Some;
    if !typing && is_char(key, 'y') {
    after == before && copies(
        effects,
        if h.selected < rows.len() {
            Some(rows[h.selected as int].0@ + "  "@ + rows[h.selected as int].1@)
        } else {
            None
        },
    )
} else if typing && (key == Key::Left || key == Key::Right) {
    after == before && effects.len() == 0
} else if !typing && is_char(key, '/') {
    &&& after == (App { mode: after.mode, ..before })
    &&& after.mode matches Mode::Help(h2) && h2.filter matches Some(f) && f@.len() == 0 && h2.selected == h.selected
    &&& effects.len() == 0
} else if typing && key == Key::Esc {
    after == (App { mode: Mode::Help(Help { filter: None, selected: 0 }), ..before }) && effects.len() == 0
} else if typing && key == Key::Enter {
    let at = if h.selected < rows.len() {
        help_index(rows[h.selected as int].0@, rows[h.selected as int].1@)
    } else {
        0
    };
    after == (App { mode: Mode::Help(Help { filter: None, selected: at as usize }), ..before }) && effects.len() == 0
} else if typing {
    match spec_edit(h.needle(), key, ctrl, 32) {
        Some(t) => {
            &&& after == (App { mode: after.mode, ..before })
            &&& after.mode matches Mode::Help(h2) && h2.filter matches Some(f) && f@ == t && h2.selected == 0
            &&& effects.len() == 0
        },
        None => after == (App { mode: Mode::Normal, ..before }) && effects.len() == 0,
    }
} else {
    after == (App { mode: Mode::Normal, ..before }) && effects.len() == 0
}
}

/// Where the entry `keys`, `what` stands in the key list.
fn help_position(keys: &str, what: &str) -> (r: usize)
    ensures
        r == help_index(keys@, what@),
{
    let table = help_table();
    let mut i: usize = 0;
    while i < table.len()
        invariant
            table@ == help_rows(),
            i <= table@.len(),
            forall|j: int| 0 <= j < i ==> !(#[trigger] help_rows()[j].0@ == keys@ && help_rows()[j].1@ == what@),
        decreases table@.len() - i,
    {
        if same_text(table[i].0, keys) && same_text(table[i].1, what) {
            proof {
                let w = choose|w: int|
                    0 <= w < help_rows().len() && help_rows()[w].0@ == keys@ && help_rows()[w].1@ == what@ && forall|j: int|
                        0 <= j < w ==> !(help_rows()[j].0@ == keys@ && help_rows()[j].1@ == what@);
                if w < i {
                } else if w > i {
                    assert(help_rows()[i as int].0@ == keys@ && help_rows()[i as int].1@ == what@);
                }
            }
            return i;
        }
        i += 1;
    }
    0
}

impl App {
    /// Arrows always move; typing edits the filter once `/` opened it.
    pub(crate) fn on_help_key(&mut self, key: Key, ctrl: bool, count: usize) -> (effects: Vec<Effect>)
        requires
            old(self).wf(),
            old(self).mode is Help,
            count <= MAX_COUNT,
        ensures
            match old(self).mode {
                Mode::Help(h) => help_key_on(*old(self), h, *final(self), key, ctrl, count as int, effects@),
                _ => false,
            },
            final(self).wf(),
    {
        let mut mode = Mode::Normal;
        std::mem::swap(&mut mode, &mut self.mode);
        match mode {
            Mode::Help(help) => self.help_key(help, key, ctrl, count),
            other => {
                self.mode = other;
                Vec::new()
            },
        }
    }

    /// A key in the key list `help`, taken out of the mode.
    fn help_key(&mut self, help: Help, key: Key, ctrl: bool, count: usize) -> (effects: Vec<Effect>)
        requires
            old(self).mode == Mode::Normal,
            (App { mode: Mode::Help(help), ..*old(self) }).wf(),
            count <= MAX_COUNT,
        ensures
            help_key_on(App { mode: Mode::Help(help), ..*old(self) }, help, *final(self), key, ctrl, count as int, effects@),
            final(self).wf(),
    {
        reveal(help_key_on);
        let mut help = help;
        let rows = help.rows();
        let typing = help.filter.is_some();
        match list_motion(key, typing, help.selected, rows.len(), self.page, count) {
            Some(to) => {
                help.selected = to;
                self.mode = Mode::Help(help);
                Vec::new()
            },
            None => self.help_command(help, &rows, key, ctrl),
        }
    }

    /// The keys of the key list that are no motion.
    fn help_command(&mut self, help: Help, rows: &Vec<(&'static str, &'static str)>, key: Key, ctrl: bool) -> (effects: Vec<Effect>)
        requires
            old(self).mode == Mode::Normal,
            old(self).wf(),
            rows@ == help_matching(help_rows(), help.needle()),
        ensures
            help_command_on(App { mode: Mode::Help(help), ..*old(self) }, help, *final(self), key, ctrl, effects@),
            final(self).wf(),
    {
        if help.filter.is_some() {
            self.help_filter_key(help, rows, key, ctrl)
        } else {
            self.help_list_key(help, rows, key, ctrl)
        }
    }

    /// `y` copies the entry, `/` starts a search, any other key closes.
    fn help_list_key(&mut self, help: Help, rows: &Vec<(&'static str, &'static str)>, key: Key, ctrl: bool) -> (effects: Vec<Effect>)
        requires
            old(self).mode == Mode::Normal,
            old(self).wf(),
            rows@ == help_matching(help_rows(), help.needle()),
            help.filter is None,
        ensures
            help_command_on(App { mode: Mode::Help(help), ..*old(self) }, help, *final(self), key, ctrl, effects@),
            final(self).wf(),
    {
        reveal(help_command_on);
        let mut help = help;
        if key == Key::Char('y') {
            let effects = if help.selected < rows.len() {
                let (keys, what) = rows[help.selected];
                let mut text = String::from_str(keys);
                text.append("  ");
                text.append(what);
                vec![Effect::Copy(text)]
            } else {
                Vec::new()
            };
            self.mode = Mode::Help(help);
            effects
        } else {
            if key == Key::Char('/') {
                help.filter = Some(String::new());
                self.mode = Mode::Help(help);
            }
            Vec::new()
        }
    }

    /// While searching: esc and enter end the search, typing edits it.
    fn help_filter_key(&mut self, help: Help, rows: &Vec<(&'static str, &'static str)>, key: Key, ctrl: bool) -> (effects: Vec<Effect>)
        requires
            old(self).mode == Mode::Normal,
            old(self).wf(),
            rows@ == help_matching(help_rows(), help.needle()),
            help.filter is Some,
        ensures
            help_command_on(App { mode: Mode::Help(help), ..*old(self) }, help, *final(self), key, ctrl, effects@),
            final(self).wf(),
    {
        reveal(help_command_on);
        if key == Key::Left || key == Key::Right {
            self.mode = Mode::Help(help);
        } else if key == Key::Esc {
            self.mode = Mode::Help(Help { filter: None, selected: 0 });
        } else if key == Key::Enter {
            let at = if help.selected < rows.len() {
                help_position(rows[help.selected].0, rows[help.selected].1)
            } else {
                0
            };
            self.mode = Mode::Help(Help { filter: None, selected: at });
        } else {
            let mut filter = match help.filter {
                Some(f) => f,
                None => String::new(),
            };
            if edit(&mut filter, key, ctrl, 32) {
                self.mode = Mode::Help(Help { filter: Some(filter), selected: 0 });
            }
        }
        Vec::new()
    }
}

} // verus!
