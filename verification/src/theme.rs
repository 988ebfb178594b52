//! Colour themes by name. The colours themselves belong to the renderer;
//! the library knows the themes' names and their order.

use vstd::prelude::*;

use crate::text::{chars_of, same_text, trim, trim_range};

verus! {

/// Number of themes.
pub const THEME_COUNT: usize = 26;

/// The names of the themes, in the order the picker lists them.
#[verifier::opaque]
pub open spec fn theme_names() -> Seq<Seq<char>> {
    seq![
        "default"@,
        "catppuccin"@,
        "dracula"@,
        "everforest"@,
        "github"@,
        "gruvbox"@,
        "kanagawa"@,
        "monokai"@,
        "nord"@,
        "rose-pine"@,
        "solarized-dark"@,
        "synthwave"@,
        "tokyonight"@,
        "bubblegum"@,
        "catppuccin-latte"@,
        "github-light"@,
        "gruvbox-light"@,
        "paper"@,
        "sepia"@,
        "solarized-light"@,
        "amber"@,
        "c64"@,
        "cga"@,
        "gameboy"@,
        "phosphor"@,
        "high-contrast"@,
    ]
}

/// The names of the themes, in the order the picker lists them.
pub fn names() -> (r: Vec<&'static str>)
    ensures
        r@.map_values(|s: &str| s@) == theme_names(),
{
    let r = vec![
        "default",
        "catppuccin",
        "dracula",
        "everforest",
        "github",
        "gruvbox",
        "kanagawa",
        "monokai",
        "nord",
        "rose-pine",
        "solarized-dark",
        "synthwave",
        "tokyonight",
        "bubblegum",
        "catppuccin-latte",
        "github-light",
        "gruvbox-light",
        "paper",
        "sepia",
        "solarized-light",
        "amber",
        "c64",
        "cga",
        "gameboy",
        "phosphor",
        "high-contrast",
    ];
    proof {
        reveal(theme_names);
    }
    assert(r@.map_values(|s: &str| s@) =~= theme_names());
    r
}

/// The first theme among `i..` called `name`, or the default theme.
pub open spec fn theme_from(name: Seq<char>, i: int) -> int
    decreases theme_names().len() - i,
{
    if i < 0 || i >= theme_names().len() {
        0
    } else if theme_names()[i] == name {
        i
    } else {
        theme_from(name, i + 1)
    }
}

/// Index of the theme called `name` (surrounding whitespace ignored),
/// falling back to `default`.
pub fn by_name(name: &str) -> (r: usize)
    ensures
        r == theme_from(trim(name@), 0),
        r < THEME_COUNT,
{
    let cs = chars_of(name);
    let (a, b) = trim_range(&cs, 0, cs.len());
    assert(cs@.subrange(0, cs@.len() as int) =~= name@);
    let wanted = crate::text::string_of(&cs, a, b);
    let table = names();
    assert(table@.len() == table@.map_values(|s: &str| s@).len());
    assert(theme_names().len() == THEME_COUNT) by {
        reveal(theme_names);
    }
    let mut i: usize = 0;
    while i < table.len()
        invariant
            i <= table@.len() == THEME_COUNT,
            table@.map_values(|s: &str| s@) == theme_names(),
            wanted@ == trim(name@),
            theme_from(trim(name@), 0) == theme_from(trim(name@), i as int),
        decreases table@.len() - i,
    {
        assert(table@.map_values(|s: &str| s@)[i as int] == table@[i as int]@);
        if same_text(table[i], wanted.as_str()) {
            return i;
        }
        i += 1;
    }
    0
}

} // verus!
