//! The list search and the category search prompts.

use vstd::prelude::*;
use crate::catalog::{Catalog, CatalogModel};
use crate::keys::{spec_wrap_step, Key};
use crate::query::Query;
use crate::text::{to_lowercase, unicode_lower};
use crate::keys::{contains_text, edit, holds_text, spec_edit};
use vstd::utf8::decode_utf8;
use crate::app::{App, Mode, categories_shown, category_ok, category_stepped, lemma_refiltered, refiltered, scrolled};

verus! {

impl App {
    /// Typing in the list search narrows the list as it goes.
    pub(crate) fn on_search_key(&mut self, key: Key, ctrl: bool)
        requires
            old(self).wf(),
        ensures
            final(self).wf(),
            search_key_on(*old(self), *final(self), key, ctrl),
    {
        if key == Key::Enter {
            self.close_search(key, ctrl);
        } else if key == Key::Esc {
            self.clear_search(key, ctrl);
        } else if key == Key::Down || key == Key::Up {
            self.search_step(key, ctrl);
        } else {
            self.edit_search(key, ctrl);
        }
    }

    /// Enter keeps the search and goes back to the list.
    fn close_search(&mut self, key: Key, ctrl: bool)
        requires
            old(self).wf(),
            key == Key::Enter,
        ensures
            final(self).wf(),
            search_key_on(*old(self), *final(self), key, ctrl),
    {
        reveal(search_key_on);
        self.mode = Mode::Normal;
    }

    /// Esc clears the search and goes back to the whole list.
    fn clear_search(&mut self, key: Key, ctrl: bool)
        requires
            old(self).wf(),
            key == Key::Esc,
        ensures
            final(self).wf(),
            search_key_on(*old(self), *final(self), key, ctrl),
    {
        reveal(search_key_on);
        self.query.text = String::new();
        self.mode = Mode::Normal;
        let ghost mid = *self;
        self.refilter(false);
        proof {
            lemma_refiltered(mid, *self, false);
        }
    }

    /// The arrows move in the list while searching.
    fn search_step(&mut self, key: Key, ctrl: bool)
        requires
            old(self).wf(),
            key == Key::Down || key == Key::Up,
        ensures
            final(self).wf(),
            search_key_on(*old(self), *final(self), key, ctrl),
    {
        reveal(search_key_on);
        self.step_rows(
            if key == Key::Down {
                1
            } else {
                -1
            },
        );
    }

    /// Typing edits the search text and runs the query again.
    fn edit_search(&mut self, key: Key, ctrl: bool)
        requires
            old(self).wf(),
            key != Key::Enter && key != Key::Esc && key != Key::Down && key != Key::Up,
        ensures
            final(self).wf(),
            search_key_on(*old(self), *final(self), key, ctrl),
    {
        reveal(search_key_on);
        let mut text = String::new();
        std::mem::swap(&mut text, &mut self.query.text);
        let edited = edit(&mut text, key, ctrl, 64);
        self.query.text = text;
        if edited {
            let ghost mid = *self;
            self.refilter(false);
            proof {
                lemma_refiltered(mid, *self, false);
            }
        }
    }
}

/// What a key does in the list search: enter closes it, esc clears and
/// closes it, the arrows move in the list, and typing edits the search text,
/// running the query again from the top.
#[verifier::opaque]
pub open spec fn search_key_on(before: App, after: App, key: Key, ctrl: bool) -> bool {
    if key == Key::Enter {
        after == (App { mode: Mode::Normal, ..before })
    } else if key == Key::Esc {
        &&& after.query.text@.len() == 0
        &&& after.query == (Query { text: after.query.text, ..before.query })
        &&& refiltered(App { query: after.query, mode: Mode::Normal, ..before }, after, false)
    } else if key == Key::Down || key == Key::Up {
        let (s, o) = scrolled(
            spec_wrap_step(before.selected as int, if key == Key::Down { 1 } else { -1 }, before.rows().len() as int),
            before.offset as int,
            before.rows().len() as int,
            before.page as int,
        );
        after == (App { selected: s as usize, offset: o as usize, ..before })
    } else {
        match spec_edit(before.query.text@, key, ctrl, 64) {
            Some(t) => after.query.text@ == t && after.query == (Query { text: after.query.text, ..before.query })
                && refiltered(App { query: after.query, ..before }, after, false),
            None => after.query.text@ == before.query.text@ && after == (App { query: after.query, ..before })
                && after.query == (Query { text: after.query.text, ..before.query }),
        }
    }
}

/// The first category among `0..k` whose lowercased name holds `needle`.
pub open spec fn category_found(m: CatalogModel, needle: Seq<char>, k: int) -> Option<u8>
    decreases k,
{
    if k <= 0 {
        None
    } else {
        match category_found(m, needle, k - 1) {
            Some(id) => Some(id),
            None => if holds_text(unicode_lower(decode_utf8(m.text(m.categories[k - 1]))), needle) {
                Some((k - 1) as u8)
            } else {
                None
            },
        }
    }
}

/// The category a sidebar search for `text` jumps to: back to where it
/// started when the search is empty, else the first category whose name
/// holds it, ignoring case; `None` when no category does.
pub open spec fn category_search_hit(m: CatalogModel, text: Seq<char>, original: Option<u8>) -> Option<Option<u8>> {
    let needle = unicode_lower(text);
    if needle.len() == 0 {
        Some(original)
    } else {
        match category_found(m, needle, categories_shown(m)) {
            Some(id) => Some(Some(id)),
            None => None,
        }
    }
}

/// What a key does in the sidebar search: enter closes it, esc closes it
/// and goes back to the category it started on, the arrows step through
/// the categories, and typing edits the search and jumps to the first
/// category that matches (no match keeps the last hit).
#[verifier::opaque]
pub open spec fn category_search_on(before: App, text: Seq<char>, original: Option<u8>, after: App, key: Key, ctrl: bool) -> bool {
    if key == Key::Enter {
        after == (App { mode: Mode::Normal, ..before })
    } else if key == Key::Esc {
        refiltered(App { mode: Mode::Normal, query: Query { category: original, ..before.query }, ..before }, after, true)
    } else if key == Key::Down || key == Key::Up {
        category_stepped(before, after, if key == Key::Down { 1 } else { -1 }, true)
    } else {
        match spec_edit(text, key, ctrl, 32) {
            None => after == before,
            Some(t) => {
                &&& after.mode matches Mode::CategorySearch { text: x, original: o } && x@ == t && o == original
                &&& match category_search_hit(before.catalog@, t, original) {
                    Some(c) => if c != before.query.category {
                        refiltered(App { query: Query { category: c, ..before.query }, mode: after.mode, ..before }, after, true)
                    } else {
                        after == (App { mode: after.mode, ..before })
                    },
                    None => after == (App { mode: after.mode, ..before }),
                }
            },
        }
    }
}

/// The first category whose lowercased name holds `needle`.
fn find_category(catalog: &Catalog, needle: &str) -> (r: Option<u8>)
    ensures
        r == category_found(catalog@, needle@, categories_shown(catalog@)),
        r matches Some(id) ==> (id as int) < catalog@.categories.len(),
{
    catalog.check_wf();
    let n = catalog.category_count();
    let k = if n < 256 {
        n
    } else {
        256
    };
    let mut id: usize = 0;
    while id < k
        invariant
            k == categories_shown(catalog@),
            k <= catalog@.categories.len(),
            id <= k,
            category_found(catalog@, needle@, id as int) is None,
        decreases k - id,
    {
        let name = catalog.category_name(id as u8);
        proof {
            vstd::utf8::encode_utf8_decode_utf8(name@);
        }
        let lower = to_lowercase(name);
        if contains_text(lower.as_str(), needle) {
            proof {
                assert(category_found(catalog@, needle@, id + 1) == Some(id as u8));
                lemma_category_found_stable(catalog@, needle@, id + 1, k as int);
            }
            return Some(id as u8);
        }
        id += 1;
    }
    None
}

proof fn lemma_category_found_stable(m: CatalogModel, needle: Seq<char>, i: int, k: int)
    requires
        0 <= i <= k,
        category_found(m, needle, i) is Some,
    ensures
        category_found(m, needle, k) == category_found(m, needle, i),
    decreases k - i,
{
    if i < k {
        lemma_category_found_stable(m, needle, i, k - 1);
    }
}
/// Where a sidebar search for `text` lands, if anywhere.
fn category_hit(catalog: &Catalog, text: &str, original: Option<u8>) -> (r: Option<Option<u8>>)
    requires
        original matches Some(id) ==> (id as int) < catalog@.categories.len(),
    ensures
        r == category_search_hit(catalog@, text@, original),
        r matches Some(Some(id)) ==> (id as int) < catalog@.categories.len(),
{
    let needle = to_lowercase(text);
    if needle.as_str().is_empty() {
        Some(original)
    } else {
        match find_category(catalog, needle.as_str()) {
            Some(id) => Some(Some(id)),
            None => None,
        }
    }
}

/// Typing in the sidebar search, edited and jumped as `category_search_on` says.
proof fn lemma_category_search_typed(before: App, mid: App, after: App, key: Key, ctrl: bool, found: Option<Option<u8>>)
    requires
        key is Backspace || key is Char,
        before.mode matches Mode::CategorySearch { text, original } && spec_edit(text@, key, ctrl, 32) matches Some(t)
            && mid.mode matches Mode::CategorySearch { text: x, original: o } && x@ == t && o == original
            && found == category_search_hit(before.catalog@, t, original),
        mid == (App { mode: mid.mode, ..before }),
        match found {
            Some(c) => if c != mid.query.category {
                refiltered(App { query: Query { category: c, ..mid.query }, ..mid }, after, true)
            } else {
                after == mid
            },
            None => after == mid,
        },
    ensures
        match before.mode {
            Mode::CategorySearch { text, original } => category_search_on(before, text@, original, after, key, ctrl),
            _ => false,
        },
{
    reveal(category_search_on);
    if let Some(c) = found {
        if c != mid.query.category {
            let from = App { query: Query { category: c, ..mid.query }, ..mid };
            lemma_refiltered(from, after, true);
            assert(from == (App { query: Query { category: c, ..before.query }, mode: after.mode, ..before }));
        }
    }
}

impl App {
    /// `/` in the sidebar: jumps to the first category containing the text.
    pub(crate) fn on_category_search_key(&mut self, key: Key, ctrl: bool)
        requires
            old(self).wf(),
            old(self).mode is CategorySearch,
        ensures
            final(self).wf(),
            match old(self).mode {
                Mode::CategorySearch { text, original } => category_search_on(*old(self), text@, original, *final(self), key, ctrl),
                _ => false,
            },
    {
        if key == Key::Enter {
            self.close_category_search(key, ctrl);
        } else if key == Key::Esc {
            self.cancel_category_search(key, ctrl);
        } else if key == Key::Down || key == Key::Up {
            self.category_search_step(key, ctrl);
        } else if match key {
            Key::Backspace | Key::Char(_) => true,
            _ => false,
        } {
            self.category_search_edit(key, ctrl);
        } else {
            proof {
                reveal(category_search_on);
                match old(self).mode {
                    Mode::CategorySearch { text, original } => crate::keys::lemma_edit_keys(text@, key, ctrl, 32),
                    _ => {},
                }
            }
        }
    }

    /// Enter stays on the category found.
    fn close_category_search(&mut self, key: Key, ctrl: bool)
        requires
            old(self).wf(),
            old(self).mode is CategorySearch,
            key == Key::Enter,
        ensures
            final(self).wf(),
            match old(self).mode {
                Mode::CategorySearch { text, original } => category_search_on(*old(self), text@, original, *final(self), key, ctrl),
                _ => false,
            },
    {
        reveal(category_search_on);
        self.mode = Mode::Normal;
    }

    /// Esc goes back to the category the search started on.
    fn cancel_category_search(&mut self, key: Key, ctrl: bool)
        requires
            old(self).wf(),
            old(self).mode is CategorySearch,
            key == Key::Esc,
        ensures
            final(self).wf(),
            match old(self).mode {
                Mode::CategorySearch { text, original } => category_search_on(*old(self), text@, original, *final(self), key, ctrl),
                _ => false,
            },
    {
        reveal(category_search_on);
        let mut mode = Mode::Normal;
        std::mem::swap(&mut mode, &mut self.mode);
        let (mut text, original) = match mode {
            Mode::CategorySearch { text, original } => (text, original),
            other => {
                self.mode = other;
                return;
            },
        };
        self.query.category = original;
        let ghost mid = *self;
        self.refilter(true);
        proof {
            lemma_refiltered(mid, *self, true);
        }
    }

    /// The arrows step through the categories while searching.
    fn category_search_step(&mut self, key: Key, ctrl: bool)
        requires
            old(self).wf(),
            old(self).mode is CategorySearch,
            key == Key::Down || key == Key::Up,
        ensures
            final(self).wf(),
            match old(self).mode {
                Mode::CategorySearch { text, original } => category_search_on(*old(self), text@, original, *final(self), key, ctrl),
                _ => false,
            },
    {
        reveal(category_search_on);
        self.step_category(
            if key == Key::Down {
                1
            } else {
                -1
            },
            true,
        );
    }

    /// Typing edits the search and jumps to the first category that matches.
    fn category_search_edit(&mut self, key: Key, ctrl: bool)
        requires
            old(self).wf(),
            old(self).mode is CategorySearch,
            key is Backspace || key is Char,
        ensures
            final(self).wf(),
            match old(self).mode {
                Mode::CategorySearch { text, original } => category_search_on(*old(self), text@, original, *final(self), key, ctrl),
                _ => false,
            },
    {
        let (mut text, original) = match &self.mode {
            Mode::CategorySearch { text, original } => (text.clone(), *original),
            _ => (String::new(), None),
        };
        proof {
            crate::keys::lemma_edit_keys(text@, key, ctrl, 32);
        }
        edit(&mut text, key, ctrl, 32);
        let found = category_hit(&self.catalog, text.as_str(), original);
        self.mode = Mode::CategorySearch { text, original };
        let ghost mid = *self;
        self.jump_to_category(found);
        proof {
            lemma_category_search_typed(*old(self), mid, *self, key, ctrl, found);
        }
    }

    /// Moves the sidebar to the category found, if it is another one.
    fn jump_to_category(&mut self, found: Option<Option<u8>>)
        requires
            old(self).wf(),
            found matches Some(c) ==> category_ok(c, old(self).catalog@),
        ensures
            final(self).wf(),
            match found {
                Some(c) => if c != old(self).query.category {
                    refiltered(App { query: Query { category: c, ..old(self).query }, ..*old(self) }, *final(self), true)
                } else {
                    *final(self) == *old(self)
                },
                None => *final(self) == *old(self),
            },
    {
        match found {
            Some(c) => {
                let same = match (c, self.query.category) {
                    (Some(a), Some(b)) => a == b,
                    (None, None) => true,
                    _ => false,
                };
                if !same {
                    self.query.category = c;
                    let ghost mid = *self;
                    self.refilter(true);
                    proof {
                        lemma_refiltered(mid, *self, true);
                    }
                }
            },
            None => {},
        }
    }
}

} // verus!
