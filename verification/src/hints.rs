//! The key hints of the status bar, grouped as act | find | app, and how
//! many of them fit: hints that do not fit are dropped whole from the end,
//! while "? help" always stays, since it lists them all.

use vstd::prelude::*;
use vstd::string::StrSliceExecFns;

verus! {

/// The hints as key, label and whether the hint starts a group, in order.
pub open spec fn hint_table() -> Seq<(Seq<char>, Seq<char>, bool)> {
    seq![
        ("enter"@, "install/uninstall"@, true),
        ("u"@, "upgrade"@, false),
        ("o"@, "open"@, false),
        ("/"@, "search"@, true),
        ("s"@, "sort"@, false),
        ("*"@, "stars"@, false),
        ("L"@, "language"@, false),
        ("i"@, "installed"@, false),
        ("a"@, "installable"@, false),
        ("c"@, "clear"@, false),
        ("r"@, "refresh"@, true),
        ("t"@, "theme"@, false),
        ("q"@, "quit"@, false),
    ]
}

/// The hints, in order, with the group each starts (if it starts one).
pub fn hints() -> (r: Vec<(&'static str, &'static str, bool)>)
    ensures
        r@.map_values(|h: (&'static str, &'static str, bool)| (h.0@, h.1@, h.2)) == hint_table(),
        r@.len() == 13,
        forall|i: int| 0 <= i < r@.len() ==> (#[trigger] r@[i]).0@.len() <= 8 && r@[i].1@.len() <= 20,
        r@[0].2 && !r@[1].2 && !r@[2].2 && r@[3].2 && r@[10].2,
        forall|i: int| 3 < i < 10 || 10 < i < 13 ==> !(#[trigger] r@[i]).2,
{
    proof {
        reveal_strlit("enter");
        reveal_strlit("install/uninstall");
        reveal_strlit("u");
        reveal_strlit("upgrade");
        reveal_strlit("o");
        reveal_strlit("open");
        reveal_strlit("/");
        reveal_strlit("search");
        reveal_strlit("s");
        reveal_strlit("sort");
        reveal_strlit("*");
        reveal_strlit("stars");
        reveal_strlit("L");
        reveal_strlit("language");
        reveal_strlit("i");
        reveal_strlit("installed");
        reveal_strlit("a");
        reveal_strlit("installable");
        reveal_strlit("c");
        reveal_strlit("clear");
        reveal_strlit("r");
        reveal_strlit("refresh");
        reveal_strlit("t");
        reveal_strlit("theme");
        reveal_strlit("q");
        reveal_strlit("quit");
    }
    vec![
        ("enter", "install/uninstall", true),
        ("u", "upgrade", false),
        ("o", "open", false),
        ("/", "search", true),
        ("s", "sort", false),
        ("*", "stars", false),
        ("L", "language", false),
        ("i", "installed", false),
        ("a", "installable", false),
        ("c", "clear", false),
        ("r", "refresh", true),
        ("t", "theme", false),
        ("q", "quit", false),
    ]
}

/// The width of hint `h` drawn after what came before: nothing before the
/// first, the group divider before the first of a group, a two-space gap
/// otherwise; then the key, a space and the label.
pub open spec fn hint_width(h: (&'static str, &'static str, bool), first: bool, divider: int) -> int {
    (if first {
        0
    } else if h.2 {
        divider
    } else {
        2
    }) + h.0@.len() + 1 + h.1@.len()
}

/// The width of the first `n` hints of `hs`.
pub open spec fn hints_width(hs: Seq<(&'static str, &'static str, bool)>, n: int, divider: int) -> int
    decreases n,
{
    if n <= 0 {
        0
    } else {
        hints_width(hs, n - 1, divider) + hint_width(hs[n - 1], n == 1, divider)
    }
}

/// How many of the hints fit in `room` columns: the longest run from the
/// start whose width does not pass `room`.
pub fn hints_that_fit(hs: &Vec<(&'static str, &'static str, bool)>, room: usize, divider: usize) -> (r: usize)
    ensures
        r <= hs@.len(),
        hints_width(hs@, r as int, divider as int) <= room,
        r < hs@.len() ==> hints_width(hs@, r + 1, divider as int) > room,
{
    let mut n: usize = 0;
    let mut used: usize = 0;
    while n < hs.len()
        invariant
            n <= hs@.len(),
            used == hints_width(hs@, n as int, divider as int),
            used <= room,
        decreases hs@.len() - n,
    {
        let (key, label, starts) = hs[n];
        let sep = if n == 0 {
            0
        } else if starts {
            divider
        } else {
            2
        };
        let w = match sep.checked_add(key.unicode_len()) {
            Some(a) => match a.checked_add(1) {
                Some(b) => b.checked_add(label.unicode_len()),
                None => None,
            },
            None => None,
        };
        let total = match w {
            Some(w) => used.checked_add(w),
            None => None,
        };
        match total {
            Some(t) => {
                if t > room {
                    return n;
                }
                used = t;
            },
            None => {
                return n;
            },
        }
        n += 1;
    }
    n
}

} // verus!
