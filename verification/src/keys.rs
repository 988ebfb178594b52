//! Keys and the list and text-field behaviour every panel of the interface
//! shares: vim-like motions with counts, line editing, and the key list.

use vstd::prelude::*;
use vstd::string::{StringExecFns, StringSliceAdditionalSpecFns};
use vstd::utf8::encode_utf8;

use crate::text::{chars_of, find_chars, find_sub, rfind, rfind_char, string_of, trim_end};

verus! {

/// A key as the interface reads it.
#[derive(Clone, Copy, Debug, PartialEq, Eq, Structural)]
pub enum Key {
    Char(char),
    Up,
    Down,
    Left,
    Right,
    Home,
    End,
    PageUp,
    PageDown,
    Enter,
    Esc,
    Backspace,
    Tab,
    BackTab,
    /// Any key the interface has no use for.
    Other,
}

/// `a + b`, kept within `0..=usize::MAX`.
pub open spec fn clamp_usize(x: int) -> int {
    if x < 0 {
        0
    } else if x > usize::MAX {
        usize::MAX as int
    } else {
        x
    }
}

/// Steps `delta` rows through a list of `len`, clamping at the ends, except
/// that stepping past an end the selection is already on wraps to the other.
pub open spec fn spec_wrap_step(selected: int, delta: int, len: int) -> int {
    let last = if len > 0 {
        len - 1
    } else {
        0
    };
    if delta < 0 && selected == 0 {
        last
    } else if delta > 0 && selected >= last {
        0
    } else {
        let to = clamp_usize(selected + delta);
        if to < last {
            to
        } else {
            last
        }
    }
}

/// `a + d`, kept within `0..=usize::MAX`.
pub fn add_signed(a: usize, d: isize) -> (r: usize)
    ensures
        r == clamp_usize(a + d),
{
    if d >= 0 {
        let u = d as usize;
        if a > usize::MAX - u {
            usize::MAX
        } else {
            a + u
        }
    } else {
        let u: usize = if d == isize::MIN {
            (isize::MAX as usize) + 1
        } else {
            (-d) as usize
        };
        if a < u {
            0
        } else {
            a - u
        }
    }
}

/// Whether `hay` holds `needle`.
pub fn contains_text(hay: &str, needle: &str) -> (r: bool)
    ensures
        r == holds_text(hay@, needle@),
{
    find_chars(&chars_of(hay), &chars_of(needle), 0).is_some()
}

pub fn wrap_step(selected: usize, delta: isize, len: usize) -> (r: usize)
    ensures
        r == spec_wrap_step(selected as int, delta as int, len as int),
{
    let last = if len > 0 {
        len - 1
    } else {
        0
    };
    if delta < 0 && selected == 0 {
        return last;
    }
    if delta > 0 && selected >= last {
        return 0;
    }
    let to = if delta >= 0 {
        let d = delta as usize;
        if selected > usize::MAX - d {
            usize::MAX
        } else {
            selected + d
        }
    } else {
        let d: usize = if delta == isize::MIN {
            (isize::MAX as usize) + 1
        } else {
            (-delta) as usize
        };
        if selected < d {
            0
        } else {
            selected - d
        }
    };
    if to < last {
        to
    } else {
        last
    }
}

/// The row a motion key moves a list selection to, if the key is a motion:
/// arrows always, letters and brackets only when the panel is not taking
/// text. `count` repeats the motion; `gg` with a count goes to that row.
#[verifier::opaque]
pub open spec fn spec_list_motion(
    key: Key,
    typing: bool,
    selected: int,
    len: int,
    page: int,
    count: int,
) -> Option<int> {
    let last = if len > 0 {
        len - 1
    } else {
        0
    };
    let n = if count > 1 {
        count
    } else {
        1
    };
    let shown = if len < page {
        len
    } else {
        page
    };
    let half_page = if shown / 2 > 1 {
        shown / 2
    } else {
        1
    };
    let to: Option<int> = match key {
        Key::Down => Some(spec_wrap_step(selected, n, len)),
        Key::Up => Some(spec_wrap_step(selected, -n, len)),
        Key::Home | Key::PageUp => Some(0),
        Key::End | Key::PageDown => Some(last),
        Key::Char(c) => if typing {
            None
        } else if c == 'j' {
            Some(spec_wrap_step(selected, n, len))
        } else if c == 'k' {
            Some(spec_wrap_step(selected, -n, len))
        } else if c == ')' {
            Some(selected + n * half_page)
        } else if c == '(' {
            Some(clamp_usize(selected - n * half_page))
        } else if c == 'g' {
            Some(clamp_usize(count - 1))
        } else if c == 'G' {
            Some(last)
        } else {
            None
        },
        _ => None,
    };
    match to {
        Some(t) => Some(
            if t < last {
                t
            } else {
                last
            },
        ),
        None => None,
    }
}

#[verifier::rlimit(40)]
pub fn list_motion(key: Key, typing: bool, selected: usize, len: usize, page: usize, count: usize) -> (r:
    Option<usize>)
    requires
        count <= isize::MAX,
    ensures
        match r {
            Some(t) => spec_list_motion(key, typing, selected as int, len as int, page as int, count as int)
                == Some(t as int),
            None => spec_list_motion(key, typing, selected as int, len as int, page as int, count as int)
                is None,
        },
        r matches Some(t) ==> (t as int) <= (if len > 0 {
            len - 1
        } else {
            0
        }),
{
    reveal(spec_list_motion);
    let last = if len > 0 {
        len - 1
    } else {
        0
    };
    let n = if count > 1 {
        count
    } else {
        1
    };
    let shown = if len < page {
        len
    } else {
        page
    };
    let half_page = if shown / 2 > 1 {
        shown / 2
    } else {
        1
    };
    let to: usize = match key {
        Key::Down => wrap_step(selected, n as isize, len),
        Key::Up => wrap_step(selected, -(n as isize), len),
        Key::Home | Key::PageUp => 0,
        Key::End | Key::PageDown => last,
        Key::Char(c) => {
            if typing {
                return None;
            }
            if c == 'j' {
                wrap_step(selected, n as isize, len)
            } else if c == 'k' {
                wrap_step(selected, -(n as isize), len)
            } else if c == ')' || c == '(' {
                if len == 0 {
                    return Some(0);
                }
                let step: Option<usize> = n.checked_mul(half_page);
                if c == ')' {
                    match step {
                        Some(st) => if selected <= usize::MAX - st {
                            selected + st
                        } else {
                            usize::MAX
                        },
                        None => usize::MAX,
                    }
                } else {
                    match step {
                        Some(st) => if selected < st {
                            0
                        } else {
                            selected - st
                        },
                        None => 0,
                    }
                }
            } else if c == 'g' {
                if count > 0 {
                    count - 1
                } else {
                    0
                }
            } else if c == 'G' {
                last
            } else {
                return None;
            }
        },
        _ => {
            return None;
        },
    };
    Some(
        if to < last {
            to
        } else {
            last
        },
    )
}

/// What a key does to a text field: backspace drops the last character,
/// ctrl-u clears, ctrl-w drops the last word, and a character is typed while
/// the text is shorter than `max` bytes. `None` when the key is no editing
/// key at all, so callers can tell a keystroke to swallow from a command of
/// their own.
#[verifier::opaque]
pub open spec fn spec_edit(text: Seq<char>, key: Key, ctrl: bool, max: nat) -> Option<Seq<char>> {
    match key {
        Key::Backspace => Some(
            if text.len() > 0 {
                text.drop_last()
            } else {
                text
            },
        ),
        Key::Char(c) => if ctrl && c == 'u' {
            Some(seq![])
        } else if ctrl && c == 'w' {
            let t = trim_end(text);
            Some(text.take(rfind(t, ' ', t.len() as int) + 1))
        } else if !ctrl && encode_utf8(text).len() < max {
            Some(text.push(c))
        } else {
            Some(text)
        },
        _ => None,
    }
}

/// Only backspace and the character keys edit.
pub proof fn lemma_edit_keys(text: Seq<char>, key: Key, ctrl: bool, max: nat)
    ensures
        spec_edit(text, key, ctrl, max) is Some <==> (key is Backspace || key is Char),
{
    reveal(spec_edit);
}

/// Applies an editing key to `text`; returns whether the key was one.
pub fn edit(text: &mut String, key: Key, ctrl: bool, max: usize) -> (r: bool)
    ensures
        r == spec_edit(old(text)@, key, ctrl, max as nat) is Some,
        r ==> final(text)@ == spec_edit(old(text)@, key, ctrl, max as nat)->0,
        !r ==> final(text)@ == old(text)@,
{
    reveal(spec_edit);
    match key {
        Key::Backspace => {
            let cs = chars_of(text.as_str());
            if cs.len() > 0 {
                let shorter = string_of(&cs, 0, cs.len() - 1);
                assert(cs@.subrange(0, cs@.len() - 1) =~= old(text)@.drop_last());
                *text = shorter;
            }
            true
        },
        Key::Char(c) => {
            if ctrl && c == 'u' {
                *text = String::new();
                assert(text@ =~= seq![]);
            } else if ctrl && c == 'w' {
                let cs = chars_of(text.as_str());
                let end = trimmed_end(&cs);
                proof {
                    crate::text::lemma_rfind(cs@, ' ', end as int);
                    lemma_rfind_take(cs@, end as int, end as int);
                }
                let keep = match rfind_char(&cs, ' ', end) {
                    Some(i) => i + 1,
                    None => 0,
                };
                *text = string_of(&cs, 0, keep);
                assert(cs@.subrange(0, keep as int) =~= cs@.take(keep as int));
            } else if !ctrl && text.as_str().as_bytes().len() < max {
                crate::text::push_char(text, c);
            }
            true
        },
        _ => false,
    }
}

/// Where `cs` ends once trailing whitespace is dropped.
fn trimmed_end(cs: &Vec<char>) -> (r: usize)
    ensures
        r <= cs@.len(),
        trim_end(cs@) == cs@.take(r as int),
{
    let mut end = cs.len();
    assert(cs@.take(end as int) =~= cs@);
    while end > 0 && crate::text::is_whitespace(cs[end - 1])
        invariant
            end <= cs@.len(),
            trim_end(cs@) == trim_end(cs@.take(end as int)),
        decreases end,
    {
        assert(cs@.take(end as int).drop_last() =~= cs@.take(end - 1));
        end -= 1;
    }
    end
}

proof fn lemma_rfind_take(s: Seq<char>, e: int, k: int)
    requires
        0 <= k <= e <= s.len(),
    ensures
        rfind(s.take(e), ' ', k) == rfind(s, ' ', k),
    decreases k,
{
    if k > 0 {
        lemma_rfind_take(s, e, k - 1);
    }
}

/// The key list: keys and what they do.
#[verifier::opaque]
pub open spec fn help_rows() -> Seq<(&'static str, &'static str)> {
    seq![
        ("h l \u{2190} \u{2192}", "focus categories / list"),
        ("j k \u{2193} \u{2191}", "move in the focused panel"),
        ("gg G", "first / last, 3gg row 3"),
        ("1-9", "count for the next move, as in 3j"),
        ("ctrl-d ctrl-u", "half page down / up"),
        (") (", "half page down / up, in any list"),
        ("tab shift-tab", "next / previous category"),
        ("/", "fuzzy search, or find a category in the sidebar"),
        ("s", "cycle sort: stars, last push, name"),
        ("*", "minimum stars"),
        ("L", "language"),
        ("i", "installed only"),
        ("a", "installable on this machine only"),
        ("A", "show archived projects"),
        ("enter", "install, or uninstall if installed"),
        ("u", "upgrade an installed TUI"),
        ("o", "open the project page"),
        ("y", "copy the selected item"),
        ("r", "refresh the index"),
        ("v", "view job output"),
        ("t", "colour theme"),
        ("?", "this help"),
        ("qq", "quit"),
        ("c", "clear all filters"),
    ]
}

/// The key list.
pub fn help_table() -> (r: Vec<(&'static str, &'static str)>)
    ensures
        r@ == help_rows(),
{
    let r = vec![
        ("h l \u{2190} \u{2192}", "focus categories / list"),
        ("j k \u{2193} \u{2191}", "move in the focused panel"),
        ("gg G", "first / last, 3gg row 3"),
        ("1-9", "count for the next move, as in 3j"),
        ("ctrl-d ctrl-u", "half page down / up"),
        (") (", "half page down / up, in any list"),
        ("tab shift-tab", "next / previous category"),
        ("/", "fuzzy search, or find a category in the sidebar"),
        ("s", "cycle sort: stars, last push, name"),
        ("*", "minimum stars"),
        ("L", "language"),
        ("i", "installed only"),
        ("a", "installable on this machine only"),
        ("A", "show archived projects"),
        ("enter", "install, or uninstall if installed"),
        ("u", "upgrade an installed TUI"),
        ("o", "open the project page"),
        ("y", "copy the selected item"),
        ("r", "refresh the index"),
        ("v", "view job output"),
        ("t", "colour theme"),
        ("?", "this help"),
        ("qq", "quit"),
        ("c", "clear all filters"),
    ];
    proof {
        reveal(help_rows);
    }
    assert(r@ =~= help_rows());
    r
}

/// The key list overlay.
#[derive(Debug, Default, PartialEq, Eq)]
pub struct Help {
    /// `Some` once `/` is pressed; the text narrows the list.
    pub filter: Option<String>,
    /// Index into the narrowed list.
    pub selected: usize,
}

/// Whether `s` holds `needle`.
pub open spec fn holds_text(s: Seq<char>, needle: Seq<char>) -> bool {
    find_sub(s, needle, 0) >= 0
}

/// The rows of `rows` whose keys or description hold `needle`, in order.
pub open spec fn help_matching(rows: Seq<(&'static str, &'static str)>, needle: Seq<char>) -> Seq<
    (&'static str, &'static str),
>
    decreases rows.len(),
{
    if rows.len() == 0 {
        seq![]
    } else {
        let prev = help_matching(rows.drop_last(), needle);
        let r = rows.last();
        if holds_text(r.0@, needle) || holds_text(r.1@, needle) {
            prev.push(r)
        } else {
            prev
        }
    }
}

impl Help {
    /// The text the list is narrowed by; empty before `/`.
    pub open spec fn needle(&self) -> Seq<char> {
        match self.filter {
            Some(f) => f@,
            None => seq![],
        }
    }

    /// Key-list rows whose keys or description contain the filter.
    pub fn rows(&self) -> (r: Vec<(&'static str, &'static str)>)
        ensures
            r@ == help_matching(help_rows(), self.needle()),
    {
        let needle = match &self.filter {
            Some(f) => chars_of(f.as_str()),
            None => Vec::new(),
        };
        assert(needle@ =~= self.needle());
        let table = help_table();
        let mut out: Vec<(&'static str, &'static str)> = Vec::new();
        let mut i: usize = 0;
        while i < table.len()
            invariant
                i <= table@.len(),
                table@ == help_rows(),
                needle@ == self.needle(),
                out@ == help_matching(help_rows().take(i as int), needle@),
            decreases table@.len() - i,
        {
            let (keys, what) = table[i];
            assert(help_rows().take(i + 1).drop_last() =~= help_rows().take(i as int));
            let hit = find_chars(&chars_of(keys), &needle, 0).is_some() || find_chars(
                &chars_of(what),
                &needle,
                0,
            ).is_some();
            if hit {
                out.push((keys, what));
            }
            i += 1;
        }
        assert(help_rows().take(table@.len() as int) =~= help_rows());
        out
    }
}

} // verus!
