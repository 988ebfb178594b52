//! The tuiman catalog: every TUI we know about, stored as struct-of-arrays
//! columns over a single string arena. The client only ever decodes one; the
//! indexer only ever builds and encodes one.

use vstd::prelude::*;
use vstd::string::{StringExecFns, StringSliceAdditionalSpecFns};
use vstd::utf8::{decode_utf8, encode_utf8, is_char_boundary, valid_utf8};

use crate::text::push_char;
use crate::text::spec_valid_package_name;

verus! {

broadcast use {vstd::utf8::encode_utf8_valid_utf8, vstd::utf8::encode_utf8_decode_utf8};

/// Row id into a [`Catalog`].
pub type Row = u32;

/// Entry is flagged as archived upstream.
pub const FLAG_ARCHIVED: u8 = 1;

/// Entry is a TUI *library*, not an application: browsable, never installable.
pub const FLAG_LIBRARY: u8 = 2;

/// Stored in the stars column when the star count is unknown.
pub const STARS_UNKNOWN: u32 = 0xffff_ffff;

/// Where a package lives. This is index-side vocabulary: the client maps each
/// ecosystem onto whichever package managers on the machine can consume it
/// (`Pypi` is served by both `pipx` and `uv`).
#[derive(Clone, Copy, Debug, PartialEq, Eq, Structural, Hash, PartialOrd, Ord)]
pub enum Ecosystem {
    Brew,
    Crates,
    Go,
    Npm,
    Pypi,
    Apt,
    Dnf,
    Pacman,
    Aur,
    Nix,
}

/// The ecosystem stored as `id` in an index.
pub open spec fn spec_eco_from_u8(id: u8) -> Option<Ecosystem> {
    if id == 0 {
        Some(Ecosystem::Brew)
    } else if id == 1 {
        Some(Ecosystem::Crates)
    } else if id == 2 {
        Some(Ecosystem::Go)
    } else if id == 3 {
        Some(Ecosystem::Npm)
    } else if id == 4 {
        Some(Ecosystem::Pypi)
    } else if id == 5 {
        Some(Ecosystem::Apt)
    } else if id == 6 {
        Some(Ecosystem::Dnf)
    } else if id == 7 {
        Some(Ecosystem::Pacman)
    } else if id == 8 {
        Some(Ecosystem::Aur)
    } else if id == 9 {
        Some(Ecosystem::Nix)
    } else {
        None
    }
}

/// The id an index stores for an ecosystem.
pub open spec fn spec_eco_id(e: Ecosystem) -> u8 {
    match e {
        Ecosystem::Brew => 0,
        Ecosystem::Crates => 1,
        Ecosystem::Go => 2,
        Ecosystem::Npm => 3,
        Ecosystem::Pypi => 4,
        Ecosystem::Apt => 5,
        Ecosystem::Dnf => 6,
        Ecosystem::Pacman => 7,
        Ecosystem::Aur => 8,
        Ecosystem::Nix => 9,
    }
}

/// The name users and configuration files call an ecosystem by.
pub open spec fn spec_eco_name(e: Ecosystem) -> Seq<char> {
    match e {
        Ecosystem::Brew => "brew"@,
        Ecosystem::Crates => "crates"@,
        Ecosystem::Go => "go"@,
        Ecosystem::Npm => "npm"@,
        Ecosystem::Pypi => "pypi"@,
        Ecosystem::Apt => "apt"@,
        Ecosystem::Dnf => "dnf"@,
        Ecosystem::Pacman => "pacman"@,
        Ecosystem::Aur => "aur"@,
        Ecosystem::Nix => "nix"@,
    }
}

impl Ecosystem {
    /// Unknown ids are not an error: an older client must keep working when
    /// the indexer learns a new ecosystem.
    pub fn from_u8(id: u8) -> (r: Option<Ecosystem>)
        ensures
            r == spec_eco_from_u8(id),
    {
        match id {
            0 => Some(Ecosystem::Brew),
            1 => Some(Ecosystem::Crates),
            2 => Some(Ecosystem::Go),
            3 => Some(Ecosystem::Npm),
            4 => Some(Ecosystem::Pypi),
            5 => Some(Ecosystem::Apt),
            6 => Some(Ecosystem::Dnf),
            7 => Some(Ecosystem::Pacman),
            8 => Some(Ecosystem::Aur),
            9 => Some(Ecosystem::Nix),
            _ => None,
        }
    }

    /// The id an index stores for this ecosystem.
    pub fn id(self) -> (r: u8)
        ensures
            r == spec_eco_id(self),
    {
        match self {
            Ecosystem::Brew => 0,
            Ecosystem::Crates => 1,
            Ecosystem::Go => 2,
            Ecosystem::Npm => 3,
            Ecosystem::Pypi => 4,
            Ecosystem::Apt => 5,
            Ecosystem::Dnf => 6,
            Ecosystem::Pacman => 7,
            Ecosystem::Aur => 8,
            Ecosystem::Nix => 9,
        }
    }

    pub fn name(self) -> (r: &'static str)
        ensures
            r@ == spec_eco_name(self),
    {
        match self {
            Ecosystem::Brew => "brew",
            Ecosystem::Crates => "crates",
            Ecosystem::Go => "go",
            Ecosystem::Npm => "npm",
            Ecosystem::Pypi => "pypi",
            Ecosystem::Apt => "apt",
            Ecosystem::Dnf => "dnf",
            Ecosystem::Pacman => "pacman",
            Ecosystem::Aur => "aur",
            Ecosystem::Nix => "nix",
        }
    }

    /// The ecosystem called `name`, if any.
    pub fn from_name(name: &str) -> (r: Option<Ecosystem>)
        ensures
            r matches Some(e) ==> spec_eco_name(e) == name@,
            r is None ==> forall|e: Ecosystem| spec_eco_name(e) != name@,
    {
        let mut i: u8 = 0;
        while i < 10
            invariant
                i <= 10,
                forall|j: u8| j < i ==> #[trigger] spec_eco_from_u8(j) is Some && spec_eco_name(
                    spec_eco_from_u8(j)->0,
                ) != name@,
            decreases 10 - i,
        {
            let e = match Ecosystem::from_u8(i) {
                Some(e) => e,
                None => return None,
            };
            let en = e.name();
            proof {
                lemma_same_bytes_same_text(en, name);
            }
            if crate::text::str_eq(en, name) {
                return Some(e);
            }
            i += 1;
        }
        proof {
            assert forall|e: Ecosystem| spec_eco_name(e) != name@ by {
                assert(spec_eco_from_u8(spec_eco_id(e)) == Some(e));
            }
        }
        None
    }
}

/// The first two letters of an ecosystem's name.
pub open spec fn eco_initials(e: Ecosystem) -> (char, char) {
    match e {
        Ecosystem::Brew => ('b', 'r'),
        Ecosystem::Crates => ('c', 'r'),
        Ecosystem::Go => ('g', 'o'),
        Ecosystem::Npm => ('n', 'p'),
        Ecosystem::Pypi => ('p', 'y'),
        Ecosystem::Apt => ('a', 'p'),
        Ecosystem::Dnf => ('d', 'n'),
        Ecosystem::Pacman => ('p', 'a'),
        Ecosystem::Aur => ('a', 'u'),
        Ecosystem::Nix => ('n', 'i'),
    }
}

proof fn lemma_eco_initials(e: Ecosystem)
    ensures
        spec_eco_name(e).len() >= 2,
        (spec_eco_name(e)[0], spec_eco_name(e)[1]) == eco_initials(e),
{
    reveal_strlit("brew");
    reveal_strlit("crates");
    reveal_strlit("go");
    reveal_strlit("npm");
    reveal_strlit("pypi");
    reveal_strlit("apt");
    reveal_strlit("dnf");
    reveal_strlit("pacman");
    reveal_strlit("aur");
    reveal_strlit("nix");
}

/// No two ecosystems share a name.
pub proof fn lemma_eco_name_injective(a: Ecosystem, b: Ecosystem)
    requires
        spec_eco_name(a) == spec_eco_name(b),
    ensures
        a == b,
{
    lemma_eco_initials(a);
    lemma_eco_initials(b);
}

/// Two strings hold the same characters exactly when they hold the same bytes.
pub proof fn lemma_same_bytes_same_text(a: &str, b: &str)
    ensures
        (a.spec_bytes() == b.spec_bytes()) == (a@ == b@),
{
    if a.spec_bytes() == b.spec_bytes() {
        assert(decode_utf8(encode_utf8(a@)) == a@);
        assert(decode_utf8(encode_utf8(b@)) == b@);
    }
}

/// A string slice inside the catalog arena: byte offset and byte length.
#[derive(Clone, Copy, Debug, Default, PartialEq, Eq, Structural)]
pub struct Str {
    pub off: u32,
    pub len: u32,
}

/// The catalog as its columns hold it; the arena is its UTF-8 bytes.
#[verifier::ext_equal]
pub struct CatalogModel {
    pub generated: u64,
    pub name: Seq<Str>,
    pub desc: Seq<Str>,
    pub url: Seq<Str>,
    pub stars: Seq<u32>,
    pub pushed: Seq<u32>,
    pub language: Seq<u16>,
    pub license: Seq<u16>,
    pub category: Seq<u8>,
    pub flags: Seq<u8>,
    pub pkg_start: Seq<u32>,
    pub categories: Seq<Str>,
    pub languages: Seq<Str>,
    pub licenses: Seq<Str>,
    pub pkg_eco: Seq<u8>,
    pub pkg_name: Seq<Str>,
    pub arena: Seq<u8>,
}

/// The catalog with no rows, generated at `generated`: every table empty and
/// the package offsets holding only their leading zero.
pub open spec fn empty_model(generated: u64) -> CatalogModel {
    CatalogModel {
        generated,
        name: seq![],
        desc: seq![],
        url: seq![],
        stars: seq![],
        pushed: seq![],
        language: seq![],
        license: seq![],
        category: seq![],
        flags: seq![],
        pkg_start: seq![0],
        categories: seq![],
        languages: seq![],
        licenses: seq![],
        pkg_eco: seq![],
        pkg_name: seq![],
        arena: seq![],
    }
}

/// `s` lies inside `arena` and starts and ends on character boundaries.
pub open spec fn str_in(arena: Seq<u8>, s: Str) -> bool {
    &&& s.off + s.len <= arena.len()
    &&& is_char_boundary(arena, s.off as int)
    &&& is_char_boundary(arena, s.off + s.len)
}

pub open spec fn strs_in(arena: Seq<u8>, col: Seq<Str>) -> bool {
    forall|i: int| 0 <= i < col.len() ==> str_in(arena, #[trigger] col[i])
}

/// The bytes a `Str` names.
pub open spec fn text_of(arena: Seq<u8>, s: Str) -> Seq<u8> {
    arena.subrange(s.off as int, s.off + s.len)
}

/// No character of a text is a control character: catalog text is drawn
/// straight to a terminal.
pub open spec fn no_control(chars: Seq<char>) -> bool {
    forall|i: int| 0 <= i < chars.len() ==> !crate::text::spec_is_control(#[trigger] chars[i])
}

impl CatalogModel {
    pub open spec fn rows(self) -> nat {
        self.name.len()
    }

    pub open spec fn text(self, s: Str) -> Seq<u8> {
        text_of(self.arena, s)
    }

    /// What the accessors rely on: columns of one length, strings inside the
    /// arena on character boundaries, ids inside their tables, package ranges
    /// in order, and package names that are safe to hand to a package manager.
    pub open spec fn wf(self) -> bool {
        let n = self.name.len();
        &&& n <= u32::MAX
        &&& self.desc.len() == n
        &&& self.url.len() == n
        &&& self.stars.len() == n
        &&& self.pushed.len() == n
        &&& self.language.len() == n
        &&& self.license.len() == n
        &&& self.category.len() == n
        &&& self.flags.len() == n
        &&& self.pkg_start.len() == n + 1
        &&& self.pkg_name.len() == self.pkg_eco.len()
        &&& self.pkg_eco.len() <= u32::MAX
        &&& self.categories.len() <= u32::MAX
        &&& self.languages.len() <= u32::MAX
        &&& self.licenses.len() <= u32::MAX
        &&& self.arena.len() <= u32::MAX
        &&& valid_utf8(self.arena)
        &&& no_control(decode_utf8(self.arena))
        &&& strs_in(self.arena, self.name)
        &&& strs_in(self.arena, self.desc)
        &&& strs_in(self.arena, self.url)
        &&& strs_in(self.arena, self.categories)
        &&& strs_in(self.arena, self.languages)
        &&& strs_in(self.arena, self.licenses)
        &&& strs_in(self.arena, self.pkg_name)
        &&& forall|i: int| 0 <= i < n ==> (#[trigger] self.category[i] as int) < self.categories.len()
        &&& forall|i: int| 0 <= i < n ==> (#[trigger] self.language[i] as int) < self.languages.len()
        &&& forall|i: int| 0 <= i < n ==> (#[trigger] self.license[i] as int) < self.licenses.len()
        &&& self.pkg_start[0] == 0
        &&& forall|i: int| 0 <= i < n ==> #[trigger] self.pkg_start[i] <= self.pkg_start[i + 1]
        &&& self.pkg_start[n as int] == self.pkg_eco.len()
        &&& forall|k: int|
            0 <= k < self.pkg_name.len() ==> spec_valid_package_name(
                #[trigger] self.text(self.pkg_name[k]),
            )
    }

    /// Packages `lo..hi` of the package columns, skipping ecosystems this
    /// build predates.
    pub open spec fn packages_in(self, lo: int, hi: int) -> Seq<(Ecosystem, Seq<u8>)>
        decreases hi - lo,
    {
        if hi <= lo {
            seq![]
        } else {
            let prev = self.packages_in(lo, hi - 1);
            match spec_eco_from_u8(self.pkg_eco[hi - 1]) {
                Some(e) => prev.push((e, self.text(self.pkg_name[hi - 1]))),
                None => prev,
            }
        }
    }

    /// The packages that provide `row`.
    pub open spec fn packages(self, row: int) -> Seq<(Ecosystem, Seq<u8>)> {
        self.packages_in(self.pkg_start[row] as int, self.pkg_start[row + 1] as int)
    }
}

/// Read-only catalog. Construct with [`Builder`] or `decode`; both uphold the
/// invariants the accessors rely on (ranges in bounds, ids in tables).
#[derive(Debug, PartialEq, Eq)]
pub struct Catalog {
    /// Unix seconds at which the indexer produced this catalog.
    pub(crate) generated: u64,
    pub(crate) name: Vec<Str>,
    pub(crate) desc: Vec<Str>,
    pub(crate) url: Vec<Str>,
    pub(crate) stars: Vec<u32>,
    /// Last push, in days since the Unix epoch. 0 = unknown.
    pub(crate) pushed: Vec<u32>,
    pub(crate) language: Vec<u16>,
    pub(crate) license: Vec<u16>,
    pub(crate) category: Vec<u8>,
    pub(crate) flags: Vec<u8>,
    /// `pkg_start[row]..pkg_start[row + 1]` indexes the package columns.
    pub(crate) pkg_start: Vec<u32>,
    pub(crate) categories: Vec<Str>,
    pub(crate) languages: Vec<Str>,
    pub(crate) licenses: Vec<Str>,
    pub(crate) pkg_eco: Vec<u8>,
    pub(crate) pkg_name: Vec<Str>,
    pub(crate) arena: String,
}

impl View for Catalog {
    type V = CatalogModel;

    closed spec fn view(&self) -> CatalogModel {
        CatalogModel {
            generated: self.generated,
            name: self.name@,
            desc: self.desc@,
            url: self.url@,
            stars: self.stars@,
            pushed: self.pushed@,
            language: self.language@,
            license: self.license@,
            category: self.category@,
            flags: self.flags@,
            pkg_start: self.pkg_start@,
            categories: self.categories@,
            languages: self.languages@,
            licenses: self.licenses@,
            pkg_eco: self.pkg_eco@,
            pkg_name: self.pkg_name@,
            arena: encode_utf8(self.arena@),
        }
    }
}

impl Catalog {
    #[verifier::type_invariant]
    spec fn inv(self) -> bool {
        self@.wf()
    }

    /// What every catalog satisfies.
    pub fn check_wf(&self)
        ensures
            self@.wf(),
    {
        proof {
            use_type_invariant(self);
        }
    }

    /// The columns, as the binary format writes them.
    pub(crate) fn columns(&self) -> (r: (&Vec<Str>, &Vec<Str>, &Vec<Str>, &Vec<u32>, &Vec<u32>, &Vec<u16>, &Vec<u16>, &Vec<u8>, &Vec<u8>, &Vec<u32>))
        ensures
            r.0@ == self@.name,
            r.1@ == self@.desc,
            r.2@ == self@.url,
            r.3@ == self@.stars,
            r.4@ == self@.pushed,
            r.5@ == self@.language,
            r.6@ == self@.license,
            r.7@ == self@.category,
            r.8@ == self@.flags,
            r.9@ == self@.pkg_start,
    {
        (&self.name, &self.desc, &self.url, &self.stars, &self.pushed, &self.language, &self.license, &self.category, &self.flags, &self.pkg_start)
    }

    /// The tables, the package columns and the arena, as the binary format writes them.
    pub(crate) fn tables(&self) -> (r: (u64, &Vec<Str>, &Vec<Str>, &Vec<Str>, &Vec<u8>, &Vec<Str>, &str))
        ensures
            r.0 == self@.generated,
            r.1@ == self@.categories,
            r.2@ == self@.languages,
            r.3@ == self@.licenses,
            r.4@ == self@.pkg_eco,
            r.5@ == self@.pkg_name,
            r.6.spec_bytes() == self@.arena,
    {
        (self.generated, &self.categories, &self.languages, &self.licenses, &self.pkg_eco, &self.pkg_name, self.arena.as_str())
    }

    /// Assembles a catalog from columns that satisfy the invariant.
    pub(crate) fn from_columns(
        generated: u64,
        name: Vec<Str>,
        desc: Vec<Str>,
        url: Vec<Str>,
        stars: Vec<u32>,
        pushed: Vec<u32>,
        language: Vec<u16>,
        license: Vec<u16>,
        category: Vec<u8>,
        flags: Vec<u8>,
        pkg_start: Vec<u32>,
        categories: Vec<Str>,
        languages: Vec<Str>,
        licenses: Vec<Str>,
        pkg_eco: Vec<u8>,
        pkg_name: Vec<Str>,
        arena: String,
    ) -> (r: Catalog)
        requires
            (CatalogModel {
                generated,
                name: name@,
                desc: desc@,
                url: url@,
                stars: stars@,
                pushed: pushed@,
                language: language@,
                license: license@,
                category: category@,
                flags: flags@,
                pkg_start: pkg_start@,
                categories: categories@,
                languages: languages@,
                licenses: licenses@,
                pkg_eco: pkg_eco@,
                pkg_name: pkg_name@,
                arena: encode_utf8(arena@),
            }).wf(),
        ensures
            r@ == (CatalogModel {
                generated,
                name: name@,
                desc: desc@,
                url: url@,
                stars: stars@,
                pushed: pushed@,
                language: language@,
                license: license@,
                category: category@,
                flags: flags@,
                pkg_start: pkg_start@,
                categories: categories@,
                languages: languages@,
                licenses: licenses@,
                pkg_eco: pkg_eco@,
                pkg_name: pkg_name@,
                arena: encode_utf8(arena@),
            }),
    {
        Catalog {
            generated,
            name,
            desc,
            url,
            stars,
            pushed,
            language,
            license,
            category,
            flags,
            pkg_start,
            categories,
            languages,
            licenses,
            pkg_eco,
            pkg_name,
            arena,
        }
    }

    /// A valid catalog with no rows.
    pub fn empty() -> (r: Catalog)
        ensures
            r@ == empty_model(0),
    {
        Builder::new(0).finish()
    }

    pub fn len(&self) -> (r: usize)
        ensures
            r == self@.rows(),
    {
        self.name.len()
    }

    pub fn is_empty(&self) -> (r: bool)
        ensures
            r == (self@.rows() == 0),
    {
        self.name.len() == 0
    }

    /// Every row id, in order.
    pub fn rows(&self) -> (r: core::ops::Range<Row>)
        ensures
            r.start == 0,
            r.end == self@.rows(),
    {
        proof {
            use_type_invariant(self);
        }
        0..self.name.len() as Row
    }

    fn str(&self, s: Str) -> (r: &str)
        requires
            str_in(self@.arena, s),
        ensures
            r.spec_bytes() == self@.text(s),
    {
        proof {
            use_type_invariant(self);
        }
        let whole = self.arena.as_str();
        let ghost bytes = whole.spec_bytes();
        assert(bytes == self@.arena);
        let (_, rest) = whole.split_at(s.off as usize);
        proof {
            lemma_boundary_in_suffix(bytes, s.off as int, s.off + s.len);
        }
        let (r, _) = rest.split_at(s.len as usize);
        assert(r.spec_bytes() =~= self@.text(s));
        r
    }

    pub fn name(&self, row: Row) -> (r: &str)
        requires
            row < self@.rows(),
        ensures
            r.spec_bytes() == self@.text(self@.name[row as int]),
    {
        proof {
            use_type_invariant(self);
        }
        self.str(self.name[row as usize])
    }

    pub fn desc(&self, row: Row) -> (r: &str)
        requires
            row < self@.rows(),
        ensures
            r.spec_bytes() == self@.text(self@.desc[row as int]),
    {
        proof {
            use_type_invariant(self);
        }
        self.str(self.desc[row as usize])
    }

    pub fn url(&self, row: Row) -> (r: &str)
        requires
            row < self@.rows(),
        ensures
            r.spec_bytes() == self@.text(self@.url[row as int]),
    {
        proof {
            use_type_invariant(self);
        }
        self.str(self.url[row as usize])
    }

    pub fn stars(&self, row: Row) -> (r: Option<u32>)
        requires
            row < self@.rows(),
        ensures
            r == spec_stars(self@.stars[row as int]),
    {
        proof {
            use_type_invariant(self);
        }
        let s = self.stars[row as usize];
        if s != STARS_UNKNOWN {
            Some(s)
        } else {
            None
        }
    }

    /// Days since the Unix epoch of the last push, if known.
    pub fn pushed_days(&self, row: Row) -> (r: Option<u32>)
        requires
            row < self@.rows(),
        ensures
            r == spec_pushed(self@.pushed[row as int]),
    {
        proof {
            use_type_invariant(self);
        }
        let d = self.pushed[row as usize];
        if d != 0 {
            Some(d)
        } else {
            None
        }
    }

    pub fn category_id(&self, row: Row) -> (r: u8)
        requires
            row < self@.rows(),
        ensures
            r == self@.category[row as int],
            (r as int) < self@.categories.len(),
    {
        proof {
            use_type_invariant(self);
        }
        self.category[row as usize]
    }

    pub fn language_id(&self, row: Row) -> (r: u16)
        requires
            row < self@.rows(),
        ensures
            r == self@.language[row as int],
            (r as int) < self@.languages.len(),
    {
        proof {
            use_type_invariant(self);
        }
        self.language[row as usize]
    }

    pub fn language(&self, row: Row) -> (r: &str)
        requires
            row < self@.rows(),
        ensures
            r.spec_bytes() == self@.text(self@.languages[self@.language[row as int] as int]),
    {
        proof {
            use_type_invariant(self);
        }
        self.str(self.languages[self.language[row as usize] as usize])
    }

    pub fn license(&self, row: Row) -> (r: &str)
        requires
            row < self@.rows(),
        ensures
            r.spec_bytes() == self@.text(self@.licenses[self@.license[row as int] as int]),
    {
        proof {
            use_type_invariant(self);
        }
        self.str(self.licenses[self.license[row as usize] as usize])
    }

    pub fn flags(&self, row: Row) -> (r: u8)
        requires
            row < self@.rows(),
        ensures
            r == self@.flags[row as int],
    {
        proof {
            use_type_invariant(self);
        }
        self.flags[row as usize]
    }

    pub fn is_archived(&self, row: Row) -> (r: bool)
        requires
            row < self@.rows(),
        ensures
            r == spec_is_archived(self@.flags[row as int]),
    {
        self.flags(row) & FLAG_ARCHIVED != 0
    }

    pub fn is_library(&self, row: Row) -> (r: bool)
        requires
            row < self@.rows(),
        ensures
            r == spec_is_library(self@.flags[row as int]),
    {
        self.flags(row) & FLAG_LIBRARY != 0
    }

    pub fn category_count(&self) -> (r: usize)
        ensures
            r == self@.categories.len(),
    {
        self.categories.len()
    }

    pub fn category_name(&self, id: u8) -> (r: &str)
        requires
            (id as int) < self@.categories.len(),
        ensures
            r.spec_bytes() == self@.text(self@.categories[id as int]),
    {
        proof {
            use_type_invariant(self);
        }
        self.str(self.categories[id as usize])
    }

    pub fn language_count(&self) -> (r: usize)
        ensures
            r == self@.languages.len(),
    {
        self.languages.len()
    }

    pub fn language_name(&self, id: u16) -> (r: &str)
        requires
            (id as int) < self@.languages.len(),
        ensures
            r.spec_bytes() == self@.text(self@.languages[id as int]),
    {
        proof {
            use_type_invariant(self);
        }
        self.str(self.languages[id as usize])
    }

    /// Packages that provide `row`, skipping ecosystems this build predates.
    pub fn packages(&self, row: Row) -> (r: Vec<(Ecosystem, &str)>)
        requires
            row < self@.rows(),
        ensures
            r@.len() == self@.packages(row as int).len(),
            forall|k: int|
                0 <= k < r@.len() ==> (#[trigger] r@[k]).0 == self@.packages(row as int)[k].0
                    && r@[k].1.spec_bytes() == self@.packages(row as int)[k].1,
    {
        proof {
            use_type_invariant(self);
        }
        let lo = self.pkg_start[row as usize] as usize;
        let hi = self.pkg_start[row as usize + 1] as usize;
        proof {
            lemma_pkg_start_bounds(self@, row as int);
        }
        let mut out: Vec<(Ecosystem, &str)> = Vec::new();
        let mut i = lo;
        while i < hi
            invariant
                strs_in(self@.arena, self@.pkg_name),
                self@.pkg_name.len() == self@.pkg_eco.len(),
                (row as int) < self@.rows(),
                lo == self@.pkg_start[row as int],
                hi == self@.pkg_start[row + 1],
                lo <= i <= hi,
                hi <= self@.pkg_eco.len(),
                out@.len() == self@.packages_in(lo as int, i as int).len(),
                forall|k: int|
                    0 <= k < out@.len() ==> (#[trigger] out@[k]).0 == self@.packages_in(
                        lo as int,
                        i as int,
                    )[k].0 && out@[k].1.spec_bytes() == self@.packages_in(lo as int, i as int)[k].1,
            decreases hi - i,
        {
            if let Some(eco) = Ecosystem::from_u8(self.pkg_eco[i]) {
                let name = self.str(self.pkg_name[i]);
                out.push((eco, name));
            }
            i += 1;
        }
        out
    }
}

pub open spec fn spec_stars(raw: u32) -> Option<u32> {
    if raw != STARS_UNKNOWN {
        Some(raw)
    } else {
        None
    }
}

pub open spec fn spec_pushed(raw: u32) -> Option<u32> {
    if raw != 0 {
        Some(raw)
    } else {
        None
    }
}

pub open spec fn spec_is_archived(flags: u8) -> bool {
    flags & FLAG_ARCHIVED != 0
}

pub open spec fn spec_is_library(flags: u8) -> bool {
    flags & FLAG_LIBRARY != 0
}

/// Package ranges are ordered, so every row's range lies inside the columns.
pub proof fn lemma_pkg_start_bounds(m: CatalogModel, row: int)
    requires
        m.wf(),
        0 <= row < m.rows(),
    ensures
        m.pkg_start[row] <= m.pkg_start[row + 1] <= m.pkg_eco.len(),
    decreases m.rows() - row,
{
    if row + 1 < m.rows() {
        lemma_pkg_start_bounds(m, row + 1);
    }
}

/// A boundary of the whole text is a boundary of the suffix that starts at
/// an earlier boundary.
pub proof fn lemma_boundary_in_suffix(bytes: Seq<u8>, start: int, end: int)
    requires
        valid_utf8(bytes),
        0 <= start <= end <= bytes.len(),
        is_char_boundary(bytes, start),
        is_char_boundary(bytes, end),
    ensures
        valid_utf8(bytes.subrange(start, bytes.len() as int)),
        is_char_boundary(bytes.subrange(start, bytes.len() as int), end - start),
{
    broadcast use {
        vstd::utf8::valid_utf8_split,
        vstd::utf8::is_char_boundary_iff_not_is_continuation_byte,
        vstd::utf8::is_char_boundary_start_end_of_seq,
    };

    let rest = bytes.subrange(start, bytes.len() as int);
    vstd::utf8::valid_utf8_split(bytes, start);
    assert(valid_utf8(rest));
    if end - start == 0 {
        vstd::utf8::is_char_boundary_start_end_of_seq(rest);
    } else if end == bytes.len() {
        vstd::utf8::is_char_boundary_start_end_of_seq(rest);
        assert(rest.len() == end - start);
    } else {
        assert(rest[end - start] == bytes[end]);
        vstd::utf8::is_char_boundary_iff_not_is_continuation_byte(rest, end - start);
        vstd::utf8::is_char_boundary_iff_not_is_continuation_byte(bytes, end);
    }
}

/// `s` with every control character replaced by a space: what the arena
/// stores of a text.
pub open spec fn neutral(s: Seq<char>) -> Seq<char> {
    Seq::new(s.len(), |i: int| if crate::text::spec_is_control(s[i]) { ' ' } else { s[i] })
}

/// The arena bytes of a text.
pub open spec fn stored(s: Seq<char>) -> Seq<u8> {
    encode_utf8(neutral(s))
}

/// The first of the first `n` table entries whose text is `s`.
pub open spec fn first_match(arena: Seq<u8>, table: Seq<Str>, s: Seq<u8>, n: int) -> Option<int>
    decreases n,
{
    if n <= 0 {
        None
    } else {
        match first_match(arena, table, s, n - 1) {
            Some(i) => Some(i),
            None => if text_of(arena, table[n - 1]) == s {
                Some(n - 1)
            } else {
                None
            },
        }
    }
}

/// Interning `s` into `table`: the arena and table afterwards, and the id,
/// or `None` when storing it would take the arena past 4 GiB.
pub open spec fn spec_intern(arena: Seq<u8>, table: Seq<Str>, s: Seq<char>) -> (
    Seq<u8>,
    Seq<Str>,
    Option<int>,
) {
    match first_match(arena, table, encode_utf8(s), table.len() as int) {
        Some(i) => (arena, table, Some(i)),
        None => {
            let t = stored(s);
            if table.len() >= u32::MAX || arena.len() + t.len() > u32::MAX {
                (arena, table, None)
            } else {
                (
                    arena + t,
                    table.push(Str { off: arena.len() as u32, len: t.len() as u32 }),
                    Some(table.len() as int),
                )
            }
        },
    }
}

/// The concatenation of `parts`.
pub open spec fn concat_all(parts: Seq<Seq<u8>>) -> Seq<u8>
    decreases parts.len(),
{
    if parts.len() == 0 {
        seq![]
    } else {
        concat_all(parts.drop_last()) + parts.last()
    }
}

/// Where `parts` land when appended, one after another, at `start`.
pub open spec fn lay_out(start: int, parts: Seq<Seq<u8>>) -> Seq<Str>
    decreases parts.len(),
{
    if parts.len() == 0 {
        seq![]
    } else {
        let prev = lay_out(start, parts.drop_last());
        prev.push(
            Str {
                off: (start + concat_all(parts.drop_last()).len()) as u32,
                len: parts.last().len() as u32,
            },
        )
    }
}

/// One catalog entry, as the specification reads it.
pub struct EntryModel {
    pub name: Seq<char>,
    pub desc: Seq<char>,
    pub url: Seq<char>,
    pub category: Seq<char>,
    pub language: Seq<char>,
    pub license: Seq<char>,
    pub stars: Option<u32>,
    pub pushed_days: Option<u32>,
    pub flags: u8,
    pub packages: Seq<(Ecosystem, Seq<char>)>,
}

/// The texts a row stores, in arena order: name, description, URL, then
/// each package name.
pub open spec fn row_texts(e: EntryModel) -> Seq<Seq<u8>> {
    seq![stored(e.name), stored(e.desc), stored(e.url)] + Seq::new(
        e.packages.len(),
        |k: int| stored(e.packages[k].1),
    )
}

pub open spec fn clamp_stars(stars: Option<u32>) -> u32 {
    match stars {
        Some(s) => if s < STARS_UNKNOWN { s } else { (STARS_UNKNOWN - 1) as u32 },
        None => STARS_UNKNOWN,
    }
}

/// The catalog with `e` appended as a row, its texts at the end of the arena
/// and its category, language and license ids already known.
pub open spec fn append_row(m: CatalogModel, e: EntryModel, cat: u8, lang: u16, lic: u16) -> CatalogModel {
    let parts = row_texts(e);
    let strs = lay_out(m.arena.len() as int, parts);
    let pkgs = strs.subrange(3, strs.len() as int);
    let pkg_eco = m.pkg_eco + Seq::new(e.packages.len(), |k: int| spec_eco_id(e.packages[k].0));
    CatalogModel {
        generated: m.generated,
        name: m.name.push(strs[0]),
        desc: m.desc.push(strs[1]),
        url: m.url.push(strs[2]),
        stars: m.stars.push(clamp_stars(e.stars)),
        pushed: m.pushed.push(
            match e.pushed_days {
                Some(d) => d,
                None => 0,
            },
        ),
        language: m.language.push(lang),
        license: m.license.push(lic),
        category: m.category.push(cat),
        flags: m.flags.push(e.flags),
        pkg_start: m.pkg_start.push(pkg_eco.len() as u32),
        categories: m.categories,
        languages: m.languages,
        licenses: m.licenses,
        pkg_eco: pkg_eco,
        pkg_name: m.pkg_name + pkgs,
        arena: m.arena + concat_all(parts),
    }
}

/// Why a new text could not be interned: the table holds as many entries
/// as a 32-bit count can say, or else the arena is full.
pub open spec fn full_error(table: Seq<Str>) -> BuildError {
    if table.len() >= u32::MAX {
        BuildError::TooManyTableEntries
    } else {
        BuildError::ArenaFull
    }
}

/// Interning a row's category, language and license, in that order: the
/// catalog afterwards, and the three ids or the error that stopped it. A
/// table that outgrows its id type keeps the new entry but refuses the row.
pub open spec fn spec_intern_keys(m: CatalogModel, e: EntryModel) -> (CatalogModel, Result<(u8, u16, u16), BuildError>) {
    let (a1, cats, c) = spec_intern(m.arena, m.categories, e.category);
    let m1 = CatalogModel { arena: a1, categories: cats, ..m };
    match c {
        None => (m1, Err(full_error(m.categories))),
        Some(c) => if c > 65535 {
            (m1, Err(BuildError::TooManyTableEntries))
        } else if c > 255 {
            (m1, Err(BuildError::TooManyCategories))
        } else {
            let (a2, langs, l) = spec_intern(a1, m.languages, e.language);
            let m2 = CatalogModel { arena: a2, languages: langs, ..m1 };
            match l {
                None => (m2, Err(full_error(m.languages))),
                Some(l) => if l > 65535 {
                    (m2, Err(BuildError::TooManyTableEntries))
                } else {
                    let (a3, lics, li) = spec_intern(a2, m.licenses, e.license);
                    let m3 = CatalogModel { arena: a3, licenses: lics, ..m2 };
                    match li {
                        None => (m3, Err(full_error(m.licenses))),
                        Some(li) => if li > 65535 {
                            (m3, Err(BuildError::TooManyTableEntries))
                        } else {
                            (m3, Ok((c as u8, l as u16, li as u16)))
                        },
                    }
                },
            }
        },
    }
}

/// What pushing a row with a valid URL and valid package names does: the
/// catalog afterwards, and the error if there is one. Interning happens
/// first; the row itself is then appended whole or, when the arena would
/// pass 4 GiB, not at all.
pub open spec fn spec_push(m: CatalogModel, e: EntryModel) -> (CatalogModel, Option<BuildError>) {
    match spec_intern_keys(m, e) {
        (m3, Err(err)) => (m3, Some(err)),
        (m3, Ok((c, l, li))) => if m3.arena.len() + concat_all(row_texts(e)).len() > u32::MAX {
            (m3, Some(BuildError::ArenaFull))
        } else {
            (append_row(m3, e, c, l, li), None)
        },
    }
}

/// One catalog entry as the indexer sees it.
#[derive(Clone, Debug, Default)]
pub struct Entry<'a> {
    pub name: &'a str,
    pub desc: &'a str,
    pub url: &'a str,
    pub category: &'a str,
    pub language: &'a str,
    pub license: &'a str,
    pub stars: Option<u32>,
    pub pushed_days: Option<u32>,
    pub flags: u8,
    pub packages: &'a [(Ecosystem, &'a str)],
}

impl<'a> Entry<'a> {
    pub open spec fn model(&self) -> EntryModel {
        EntryModel {
            name: self.name@,
            desc: self.desc@,
            url: self.url@,
            category: self.category@,
            language: self.language@,
            license: self.license@,
            stars: self.stars,
            pushed_days: self.pushed_days,
            flags: self.flags,
            packages: Seq::new(
                self.packages@.len(),
                |k: int| (self.packages@[k].0, self.packages@[k].1@),
            ),
        }
    }
}

#[derive(Debug, PartialEq, Eq)]
pub enum BuildError {
    InvalidUrl(String),
    InvalidPackage(String),
    TooManyCategories,
    TooManyTableEntries,
    ArenaFull,
}

/// The first package of `e` whose name is not a valid package name.
pub open spec fn first_bad_package(pkgs: Seq<(Ecosystem, Seq<char>)>) -> Option<int> {
    if exists|k: int|
        0 <= k < pkgs.len() && !spec_valid_package_name(encode_utf8(#[trigger] pkgs[k].1)) {
        Some(
            choose|k: int|
                0 <= k < pkgs.len() && !spec_valid_package_name(encode_utf8(pkgs[k].1)) && forall|
                    j: int,
                |
                    0 <= j < k ==> spec_valid_package_name(encode_utf8(#[trigger] pkgs[j].1)),
        )
    } else {
        None
    }
}

/// The UTF-8 encoding of a concatenation is the concatenation of the encodings.
pub proof fn lemma_encode_concat(a: Seq<char>, b: Seq<char>)
    ensures
        encode_utf8(a + b) == encode_utf8(a) + encode_utf8(b),
    decreases a.len(),
{
    if a.len() == 0 {
        assert(a + b =~= b);
        assert(encode_utf8(a) =~= Seq::<u8>::empty());
        assert(encode_utf8(a) + encode_utf8(b) =~= encode_utf8(b));
    } else {
        assert((a + b)[0] == a[0]);
        assert((a + b).drop_first() =~= a.drop_first() + b);
        lemma_encode_concat(a.drop_first(), b);
        assert(encode_utf8(a + b) =~= encode_utf8(a) + encode_utf8(b));
    }
}

/// Extending a UTF-8 text keeps its character boundaries, and adds one
/// where the extension starts.
pub proof fn lemma_boundary_extend(x: Seq<u8>, y: Seq<u8>, i: int)
    requires
        valid_utf8(x),
        valid_utf8(y),
        0 <= i <= x.len(),
        i == x.len() || is_char_boundary(x, i),
    ensures
        valid_utf8(x + y),
        is_char_boundary(x + y, i),
{
    broadcast use vstd::utf8::valid_utf8_concat;

    vstd::utf8::valid_utf8_concat(x, y);
    if i == 0 {
    } else if i < x.len() {
        vstd::utf8::is_char_boundary_iff_not_is_continuation_byte(x, i);
        vstd::utf8::is_char_boundary_iff_not_is_continuation_byte(x + y, i);
        assert((x + y)[i] == x[i]);
    } else if y.len() == 0 {
        assert(x + y =~= x);
        vstd::utf8::is_char_boundary_start_end_of_seq(x);
    } else {
        vstd::utf8::is_char_boundary_start_end_of_seq(y);
        vstd::utf8::is_char_boundary_iff_not_is_continuation_byte(y, 0);
        vstd::utf8::is_char_boundary_iff_not_is_continuation_byte(x + y, i);
        assert((x + y)[i] == y[0]);
    }
}

/// Appending bytes to the arena keeps every string it holds, and its text.
pub proof fn lemma_str_in_extend(x: Seq<u8>, y: Seq<u8>, s: Str)
    requires
        valid_utf8(x),
        valid_utf8(y),
        str_in(x, s),
    ensures
        str_in(x + y, s),
        text_of(x + y, s) == text_of(x, s),
{
    lemma_boundary_extend(x, y, s.off as int);
    lemma_boundary_extend(x, y, s.off + s.len);
    assert(text_of(x + y, s) =~= text_of(x, s));
}

/// The text appended at the end of the arena, named by its offset and length.
pub proof fn lemma_str_in_appended(x: Seq<u8>, y: Seq<u8>)
    requires
        valid_utf8(x),
        valid_utf8(y),
        x.len() + y.len() <= u32::MAX,
    ensures
        str_in(x + y, Str { off: x.len() as u32, len: y.len() as u32 }),
        text_of(x + y, Str { off: x.len() as u32, len: y.len() as u32 }) == y,
{
    lemma_boundary_extend(x, y, x.len() as int);
    vstd::utf8::valid_utf8_concat(x, y);
    vstd::utf8::is_char_boundary_start_end_of_seq(x + y);
    assert((x + y).len() == x.len() + y.len());
    assert(text_of(x + y, Str { off: x.len() as u32, len: y.len() as u32 }) =~= y);
}

/// Replaces control characters with spaces, as the arena stores text.
fn neutralize(s: &str) -> (t: String)
    ensures
        t@ == neutral(s@),
{
    let mut t = String::new();
    for c in it: s.chars()
        invariant
            it.seq() == s@,
            t@ == neutral(s@).subrange(0, it.index() as int),
    {
        let ghost k = it.index();
        assert(neutral(s@).subrange(0, k + 1) =~= neutral(s@).subrange(0, k as int).push(
            neutral(s@)[k as int],
        ));
        if crate::text::is_control(c) {
            push_char(&mut t, ' ');
        } else {
            push_char(&mut t, c);
        }
    }
    assert(neutral(s@).subrange(0, s@.len() as int) =~= neutral(s@));
    t
}

/// Number of bytes of a string.
fn byte_len(s: &String) -> (r: usize)
    ensures
        r == encode_utf8(s@).len(),
{
    s.as_str().as_bytes().len()
}

/// Appends `t` to the arena and names where it landed.
fn store_text(arena: &mut String, t: &String) -> (r: Str)
    requires
        encode_utf8(old(arena)@).len() + encode_utf8(t@).len() <= u32::MAX,
    ensures
        final(arena)@ == old(arena)@ + t@,
        encode_utf8(final(arena)@) == encode_utf8(old(arena)@) + encode_utf8(t@),
        r == (Str { off: encode_utf8(old(arena)@).len() as u32, len: encode_utf8(t@).len() as u32 }),
{
    let off = byte_len(arena);
    let len = byte_len(t);
    arena.append(t.as_str());
    proof {
        lemma_encode_concat(old(arena)@, t@);
    }
    Str { off: off as u32, len: len as u32 }
}

/// The text of `s` in `arena`, read back as a string.
pub(crate) fn arena_str<'a>(arena: &'a String, s: Str) -> (r: &'a str)
    requires
        str_in(encode_utf8(arena@), s),
    ensures
        r.spec_bytes() == text_of(encode_utf8(arena@), s),
{
    let whole = arena.as_str();
    let ghost bytes = whole.spec_bytes();
    let (_, rest) = whole.split_at(s.off as usize);
    proof {
        lemma_boundary_in_suffix(bytes, s.off as int, s.off + s.len);
    }
    let (r, _) = rest.split_at(s.len as usize);
    assert(r.spec_bytes() =~= text_of(bytes, s));
    r
}

/// Finds `s` in `table`, adding it (neutralized) when it is not there yet.
fn intern(arena: &mut String, table: &mut Vec<Str>, s: &str) -> (r: Result<u16, BuildError>)
    requires
        strs_in(encode_utf8(old(arena)@), old(table)@),
        old(table)@.len() <= u32::MAX,
    ensures
        final(table)@.len() <= u32::MAX,
        ({
            let (a, t, id) = spec_intern(encode_utf8(old(arena)@), old(table)@, s@);
            &&& encode_utf8(final(arena)@) == a
            &&& final(table)@ == t
            &&& r == match id {
                None => Err(full_error(old(table)@)),
                Some(id) => if id > 65535 {
                    Err(BuildError::TooManyTableEntries)
                } else {
                    Ok(id as u16)
                },
            }
        }),
        final(arena)@ == old(arena)@ || final(arena)@ == old(arena)@ + neutral(s@),
        strs_in(encode_utf8(final(arena)@), final(table)@),
        r matches Ok(v) ==> spec_intern(encode_utf8(old(arena)@), old(table)@, s@).2 == Some(v as int)
            && (v as int) < final(table)@.len(),
{
    let ghost bytes = encode_utf8(arena@);
    let mut i: usize = 0;
    let mut found: Option<usize> = None;
    while i < table.len()
        invariant_except_break
            0 <= i <= table@.len(),
            first_match(bytes, table@, s.spec_bytes(), i as int) is None,
            found is None,
        invariant
            table@ == old(table)@,
            arena@ == old(arena)@,
            bytes == encode_utf8(arena@),
            strs_in(bytes, table@),
        ensures
            found is None ==> first_match(bytes, table@, s.spec_bytes(), table@.len() as int) is None,
            found matches Some(k) ==> first_match(bytes, table@, s.spec_bytes(), table@.len() as int)
                == Some(k as int) && k < table@.len(),
        decreases table@.len() - i,
    {
        let t = arena_str(arena, table[i]);
        if crate::text::str_eq(t, s) {
            proof {
                lemma_first_match_stays(bytes, table@, s.spec_bytes(), i as int + 1, table@.len() as int);
            }
            found = Some(i);
            break;
        }
        i += 1;
    }
    let id: usize = match found {
        Some(k) => k,
        None => {
            if table.len() >= 0xffff_ffff {
                return Err(BuildError::TooManyTableEntries);
            }
            let t = neutralize(s);
            let have = byte_len(arena);
            let add = byte_len(&t);
            if have > 0xffff_ffff || add > 0xffff_ffff - have {
                return Err(BuildError::ArenaFull);
            }
            let ghost before = encode_utf8(arena@);
            let str = store_text(arena, &t);
            proof {
                assert forall|k: int| 0 <= k < table@.len() implies str_in(
                    encode_utf8(arena@),
                    #[trigger] table@[k],
                ) by {
                    lemma_str_in_extend(before, encode_utf8(t@), table@[k]);
                }
                lemma_str_in_appended(before, encode_utf8(t@));
            }
            table.push(str);
            table.len() - 1
        },
    };
    if id > 65535 {
        Err(BuildError::TooManyTableEntries)
    } else {
        Ok(id as u16)
    }
}

/// A match found among the first `n` entries is the first match among more.
proof fn lemma_first_match_stays(arena: Seq<u8>, table: Seq<Str>, s: Seq<u8>, n: int, m: int)
    requires
        0 < n <= m,
        first_match(arena, table, s, n) is Some,
    ensures
        first_match(arena, table, s, m) == first_match(arena, table, s, n),
    decreases m - n,
{
    if n < m {
        lemma_first_match_stays(arena, table, s, n, m - 1);
    }
}

/// Texts laid out one after another at the end of a UTF-8 arena each land
/// inside it, on character boundaries, holding their own bytes.
pub proof fn lemma_lay_out_in(x: Seq<u8>, parts: Seq<Seq<u8>>)
    requires
        valid_utf8(x),
        forall|k: int| 0 <= k < parts.len() ==> valid_utf8(#[trigger] parts[k]),
        x.len() + concat_all(parts).len() <= u32::MAX,
    ensures
        valid_utf8(concat_all(parts)),
        lay_out(x.len() as int, parts).len() == parts.len(),
        forall|k: int|
            0 <= k < parts.len() ==> str_in(x + concat_all(parts), #[trigger] lay_out(
                x.len() as int,
                parts,
            )[k]) && text_of(x + concat_all(parts), lay_out(x.len() as int, parts)[k]) == parts[k],
    decreases parts.len(),
{
    if parts.len() == 0 {
        assert(concat_all(parts) =~= Seq::<u8>::empty());
        vstd::utf8::encode_utf8_valid_utf8(Seq::<char>::empty());
        assert(encode_utf8(Seq::<char>::empty()) =~= Seq::<u8>::empty());
    } else {
        let prev = parts.drop_last();
        let last = parts.last();
        assert(forall|k: int| 0 <= k < prev.len() ==> prev[k] == parts[k]);
        lemma_lay_out_in(x, prev);
        let c = concat_all(prev);
        vstd::utf8::valid_utf8_concat(c, last);
        vstd::utf8::valid_utf8_concat(x, c);
        assert(x + concat_all(parts) =~= (x + c) + last);
        lemma_str_in_appended(x + c, last);
        assert forall|k: int| 0 <= k < parts.len() implies str_in(
            x + concat_all(parts),
            #[trigger] lay_out(x.len() as int, parts)[k],
        ) && text_of(x + concat_all(parts), lay_out(x.len() as int, parts)[k]) == parts[k] by {
            if k < prev.len() {
                assert(lay_out(x.len() as int, parts)[k] == lay_out(x.len() as int, prev)[k]);
                lemma_str_in_extend(x + c, last, lay_out(x.len() as int, prev)[k]);
                assert(text_of(x + c, lay_out(x.len() as int, prev)[k]) =~= text_of(
                    x + concat_all(prev),
                    lay_out(x.len() as int, prev)[k],
                ));
            }
        }
    }
}

/// A text without control characters joined with another keeps none.
pub proof fn lemma_no_control_concat(a: Seq<char>, b: Seq<char>)
    requires
        no_control(a),
        no_control(b),
    ensures
        no_control(a + b),
{
    assert forall|i: int| 0 <= i < (a + b).len() implies !crate::text::spec_is_control(
        #[trigger] (a + b)[i],
    ) by {
        if i < a.len() {
            assert((a + b)[i] == a[i]);
        } else {
            assert((a + b)[i] == b[i - a.len()]);
        }
    }
}

pub proof fn lemma_neutral_no_control(s: Seq<char>)
    ensures
        no_control(neutral(s)),
{
}

/// A text whose UTF-8 bytes are all printable ASCII is left alone by
/// neutralizing, and holds one byte per character.
pub proof fn lemma_printable_text(s: Seq<char>)
    requires
        forall|i: int|
            0 <= i < encode_utf8(s).len() ==> 0x20 <= #[trigger] encode_utf8(s)[i] < 0x7f,
    ensures
        neutral(s) == s,
        encode_utf8(s).len() == s.len(),
    decreases s.len(),
{
    if s.len() > 0 {
        let first = encode_scalar_of(s[0]);
        vstd::utf8::char_is_scalar(s[0]);
        assert(encode_utf8(s) == first + encode_utf8(s.drop_first()));
        assert(encode_utf8(s)[0] == first[0]);
        lemma_first_byte(s[0]);
        assert forall|i: int|
            0 <= i < encode_utf8(s.drop_first()).len() implies 0x20 <= #[trigger] encode_utf8(
            s.drop_first(),
        )[i] < 0x7f by {
            assert(encode_utf8(s)[i + first.len()] == encode_utf8(s.drop_first())[i]);
        }
        lemma_printable_text(s.drop_first());
        assert(neutral(s) =~= s) by {
            assert forall|i: int| 0 <= i < s.len() implies neutral(s)[i] == s[i] by {
                if i == 0 {
                    assert(!crate::text::spec_is_control(s[0]));
                } else {
                    assert(neutral(s.drop_first())[i - 1] == s.drop_first()[i - 1]);
                }
            }
        }
    } else {
        assert(neutral(s) =~= s);
    }
}

pub open spec fn encode_scalar_of(c: char) -> Seq<u8> {
    vstd::utf8::encode_scalar(c as u32)
}

/// A character encodes to one byte below 0x80, itself, or starts with a
/// byte of 0xc0 or more.
pub proof fn lemma_first_byte(c: char)
    ensures
        (c as u32) < 0x80 ==> encode_scalar_of(c).len() == 1 && encode_scalar_of(c)[0] as u32 == (
        c as u32),
        (c as u32) >= 0x80 ==> encode_scalar_of(c).len() >= 2 && encode_scalar_of(c)[0] >= 0xc0,
{
    vstd::utf8::char_is_scalar(c);
    let u = c as u32;
    if u < 0x80 {
        assert(vstd::utf8::has_width_1_encoding(u));
        assert(vstd::utf8::leading_byte_width_1(u) as u32 == u) by (bit_vector)
            requires
                u < 0x80,
        ;
    } else if u < 0x800 {
        assert(vstd::utf8::leading_byte_width_2(u) >= 0xc0) by (bit_vector)
            requires
                0x80 <= u < 0x800,
        ;
    } else if u < 0x10000 {
        assert(vstd::utf8::leading_byte_width_3(u) >= 0xc0) by (bit_vector)
            requires
                0x800 <= u < 0x10000,
        ;
    } else {
        assert(vstd::utf8::leading_byte_width_4(u) >= 0xc0) by (bit_vector)
            requires
                0x10000 <= u < 0x110000,
        ;
    }
}

/// The concatenation of character sequences.
pub open spec fn concat_chars(ts: Seq<Seq<char>>) -> Seq<char>
    decreases ts.len(),
{
    if ts.len() == 0 {
        seq![]
    } else {
        concat_chars(ts.drop_last()) + ts.last()
    }
}

pub open spec fn encode_each(ts: Seq<Seq<char>>) -> Seq<Seq<u8>> {
    Seq::new(ts.len(), |k: int| encode_utf8(ts[k]))
}

proof fn lemma_encode_concat_all(ts: Seq<Seq<char>>)
    ensures
        encode_utf8(concat_chars(ts)) == concat_all(encode_each(ts)),
        forall|k: int| 0 <= k < ts.len() ==> no_control(#[trigger] ts[k]) ==> true,
    decreases ts.len(),
{
    if ts.len() == 0 {
        assert(encode_utf8(Seq::<char>::empty()) =~= Seq::<u8>::empty());
    } else {
        lemma_encode_concat_all(ts.drop_last());
        assert(encode_each(ts).drop_last() =~= encode_each(ts.drop_last()));
        lemma_encode_concat(concat_chars(ts.drop_last()), ts.last());
    }
}

proof fn lemma_concat_chars_no_control(ts: Seq<Seq<char>>)
    requires
        forall|k: int| 0 <= k < ts.len() ==> no_control(#[trigger] ts[k]),
    ensures
        no_control(concat_chars(ts)),
    decreases ts.len(),
{
    if ts.len() > 0 {
        lemma_concat_chars_no_control(ts.drop_last());
        lemma_no_control_concat(concat_chars(ts.drop_last()), ts.last());
    }
}

/// Appends `texts` to the arena one after another and names where each landed.
fn append_texts(arena: &mut String, texts: &Vec<String>) -> (strs: Vec<Str>)
    requires
        encode_utf8(old(arena)@).len() + concat_all(encode_each(texts@.map_values(|t: String| t@))).len()
            <= u32::MAX,
    ensures
        final(arena)@ == old(arena)@ + concat_chars(texts@.map_values(|t: String| t@)),
        encode_utf8(final(arena)@) == encode_utf8(old(arena)@) + concat_all(
            encode_each(texts@.map_values(|t: String| t@)),
        ),
        strs@ == lay_out(
            encode_utf8(old(arena)@).len() as int,
            encode_each(texts@.map_values(|t: String| t@)),
        ),
        strs@.len() == texts@.len(),
{
    let ghost ts = texts@.map_values(|t: String| t@);
    let ghost parts = encode_each(ts);
    let ghost start = encode_utf8(arena@).len() as int;
    let mut strs: Vec<Str> = Vec::new();
    let mut k: usize = 0;
    while k < texts.len()
        invariant
            0 <= k <= texts@.len(),
            ts == texts@.map_values(|t: String| t@),
            parts == encode_each(ts),
            start == encode_utf8(old(arena)@).len(),
            start + concat_all(parts).len() <= u32::MAX,
            arena@ == old(arena)@ + concat_chars(ts.take(k as int)),
            encode_utf8(arena@) == encode_utf8(old(arena)@) + concat_all(parts.take(k as int)),
            strs@ == lay_out(start, parts.take(k as int)),
            strs@.len() == k,
        decreases texts@.len() - k,
    {
        proof {
            assert(ts.take(k + 1).drop_last() =~= ts.take(k as int));
            assert(parts.take(k + 1).drop_last() =~= parts.take(k as int));
            assert(parts.take(k + 1).last() == encode_utf8(texts@[k as int]@));
            lemma_concat_all_prefix(parts, k + 1);
        }
        let s = store_text(arena, &texts[k]);
        proof {
            lemma_encode_concat(old(arena)@, concat_chars(ts.take(k as int)));
        }
        strs.push(s);
        k += 1;
        proof {
            assert(arena@ =~= old(arena)@ + concat_chars(ts.take(k as int)));
        }
    }
    assert(ts.take(texts@.len() as int) =~= ts);
    assert(parts.take(texts@.len() as int) =~= parts);
    strs
}

/// A prefix of the parts is no longer than all of them.
proof fn lemma_concat_all_prefix(parts: Seq<Seq<u8>>, k: int)
    requires
        0 <= k <= parts.len(),
    ensures
        concat_all(parts.take(k)).len() <= concat_all(parts).len(),
    decreases parts.len() - k,
{
    if k < parts.len() {
        lemma_concat_all_prefix(parts, k + 1);
        assert(parts.take(k + 1).drop_last() =~= parts.take(k));
    } else {
        assert(parts.take(k) =~= parts);
    }
}

/// Every string of a column stays inside an arena that grows, with its text.
proof fn lemma_strs_extend(x: Seq<u8>, y: Seq<u8>, col: Seq<Str>)
    requires
        valid_utf8(x),
        valid_utf8(y),
        strs_in(x, col),
    ensures
        strs_in(x + y, col),
        forall|i: int| 0 <= i < col.len() ==> text_of(x + y, #[trigger] col[i]) == text_of(x, col[i]),
{
    assert forall|i: int| 0 <= i < col.len() implies str_in(x + y, #[trigger] col[i])
        && text_of(x + y, col[i]) == text_of(x, col[i]) by {
        lemma_str_in_extend(x, y, col[i]);
    }
}

/// Interning keeps a builder valid: the arena grows by the new entry's text
/// (if any), and tables only grow, with their new entries inside the arena.
proof fn lemma_grow_wf(m: CatalogModel, m2: CatalogModel, x: Seq<char>, y: Seq<char>)
    requires
        builder_wf(m),
        m.arena == encode_utf8(x),
        m2.arena == encode_utf8(x + y),
        no_control(y),
        m2.arena.len() <= u32::MAX,
        m2.generated == m.generated,
        m2.name == m.name,
        m2.desc == m.desc,
        m2.url == m.url,
        m2.stars == m.stars,
        m2.pushed == m.pushed,
        m2.language == m.language,
        m2.license == m.license,
        m2.category == m.category,
        m2.flags == m.flags,
        m2.pkg_start == m.pkg_start,
        m2.pkg_eco == m.pkg_eco,
        m2.pkg_name == m.pkg_name,
        m.categories.len() <= m2.categories.len(),
        m.languages.len() <= m2.languages.len(),
        m.licenses.len() <= m2.licenses.len(),
        m2.categories.len() <= u32::MAX,
        m2.languages.len() <= u32::MAX,
        m2.licenses.len() <= u32::MAX,
        m2.categories == m.categories || strs_in(m2.arena, m2.categories),
        m2.languages == m.languages || strs_in(m2.arena, m2.languages),
        m2.licenses == m.licenses || strs_in(m2.arena, m2.licenses),
    ensures
        builder_wf(m2),
{
    let ey = encode_utf8(y);
    lemma_encode_concat(x, y);
    assert(m2.arena == m.arena + ey);
    lemma_strs_extend(m.arena, ey, m.categories);
    lemma_strs_extend(m.arena, ey, m.languages);
    lemma_strs_extend(m.arena, ey, m.licenses);
    lemma_strs_extend(m.arena, ey, m.name);
    lemma_strs_extend(m.arena, ey, m.desc);
    lemma_strs_extend(m.arena, ey, m.url);
    lemma_strs_extend(m.arena, ey, m.pkg_name);
    assert(decode_utf8(m.arena) == x);
    lemma_no_control_concat(x, y);
    assert(decode_utf8(m2.arena) == x + y);
    assert forall|k: int| 0 <= k < m2.pkg_name.len() implies spec_valid_package_name(
        #[trigger] m2.text(m2.pkg_name[k]),
    ) by {
        assert(m2.text(m2.pkg_name[k]) == m.text(m.pkg_name[k]));
    }
}

/// The characters a row stores, in arena order.
pub open spec fn row_chars(e: EntryModel) -> Seq<Seq<char>> {
    seq![neutral(e.name), neutral(e.desc), neutral(e.url)] + Seq::new(
        e.packages.len(),
        |k: int| neutral(e.packages[k].1),
    )
}

/// Every character takes at least one byte.
proof fn lemma_encode_len_ge(s: Seq<char>)
    ensures
        encode_utf8(s).len() >= s.len(),
    decreases s.len(),
{
    if s.len() > 0 {
        lemma_encode_len_ge(s.drop_first());
    }
}

/// Parts from index `j` on that are all non-empty add at least one byte each.
proof fn lemma_concat_all_len(parts: Seq<Seq<u8>>, j: int)
    requires
        0 <= j,
        forall|k: int| j <= k < parts.len() ==> (#[trigger] parts[k]).len() >= 1,
    ensures
        concat_all(parts).len() + j >= parts.len(),
    decreases parts.len(),
{
    if parts.len() > 0 {
        lemma_concat_all_len(parts.drop_last(), j);
    }
}

/// The bytes of a valid package name are printable ASCII.
proof fn lemma_package_printable(s: Seq<char>)
    requires
        spec_valid_package_name(encode_utf8(s)),
    ensures
        stored(s) == encode_utf8(s),
        s.len() >= 1,
{
    assert forall|i: int| 0 <= i < encode_utf8(s).len() implies 0x20 <= #[trigger] encode_utf8(s)[i]
        < 0x7f by {
        assert(crate::text::is_package_byte(encode_utf8(s)[i]));
    }
    lemma_printable_text(s);
}

/// Appending a row keeps a builder valid.
proof fn lemma_append_row_wf(m: CatalogModel, e: EntryModel, c: u8, l: u16, li: u16, x: Seq<char>)
    requires
        builder_wf(m),
        m.arena == encode_utf8(x),
        crate::text::spec_valid_url(encode_utf8(e.url)),
        forall|k: int|
            0 <= k < e.packages.len() ==> spec_valid_package_name(
                encode_utf8(#[trigger] e.packages[k].1),
            ),
        (c as int) < m.categories.len(),
        (l as int) < m.languages.len(),
        (li as int) < m.licenses.len(),
        m.arena.len() + concat_all(row_texts(e)).len() <= u32::MAX,
    ensures
        builder_wf(append_row(m, e, c, l, li)),
{
    let parts = row_texts(e);
    let ts = row_chars(e);
    let npk = e.packages.len();
    assert(parts =~= encode_each(ts));
    let m2 = append_row(m, e, c, l, li);
    let strs = lay_out(m.arena.len() as int, parts);
    lemma_lay_out_in(m.arena, parts);
    let y = concat_all(parts);
    lemma_encode_concat_all(ts);
    lemma_encode_concat(x, concat_chars(ts));
    assert(m2.arena == encode_utf8(x + concat_chars(ts)));
    assert forall|k: int| 0 <= k < ts.len() implies no_control(#[trigger] ts[k]) by {
        if k < 3 {
        } else {
            lemma_neutral_no_control(e.packages[k - 3].1);
        }
    }
    lemma_concat_chars_no_control(ts);
    assert(decode_utf8(m.arena) == x);
    lemma_no_control_concat(x, concat_chars(ts));
    lemma_strs_extend(m.arena, y, m.name);
    lemma_strs_extend(m.arena, y, m.desc);
    lemma_strs_extend(m.arena, y, m.url);
    lemma_strs_extend(m.arena, y, m.pkg_name);
    lemma_strs_extend(m.arena, y, m.categories);
    lemma_strs_extend(m.arena, y, m.languages);
    lemma_strs_extend(m.arena, y, m.licenses);
    // Sizes: the URL and every package name are non-empty.
    assert forall|k: int| 2 <= k < parts.len() implies (#[trigger] parts[k]).len() >= 1 by {
        if k == 2 {
            assert(crate::text::has_prefix(encode_utf8(e.url), crate::text::http_prefix())
                || crate::text::has_prefix(encode_utf8(e.url), crate::text::https_prefix()));
            assert(encode_utf8(e.url).len() >= 1);
            assert(e.url.len() >= 1) by {
                if e.url.len() == 0 {
                    assert(encode_utf8(e.url) =~= Seq::<u8>::empty());
                }
            }
            lemma_encode_len_ge(neutral(e.url));
        } else {
            lemma_package_printable(e.packages[k - 3].1);
            lemma_encode_len_ge(neutral(e.packages[k - 3].1));
        }
    }
    lemma_concat_all_len(parts, 2);
    // Package texts are the names themselves, so they stay valid.
    let pkgs = strs.subrange(3, strs.len() as int);
    assert forall|k: int| 0 <= k < m2.pkg_name.len() implies spec_valid_package_name(
        #[trigger] m2.text(m2.pkg_name[k]),
    ) by {
        if k < m.pkg_name.len() {
            assert(m2.pkg_name[k] == m.pkg_name[k]);
            assert(m2.text(m2.pkg_name[k]) == m.text(m.pkg_name[k]));
        } else {
            let j = k - m.pkg_name.len();
            assert(m2.pkg_name[k] == strs[3 + j]);
            lemma_package_printable(e.packages[j].1);
            assert(parts[3 + j] == stored(e.packages[j].1));
        }
    }
    assert(strs_in(m2.arena, m2.pkg_name)) by {
        assert forall|k: int| 0 <= k < m2.pkg_name.len() implies str_in(
            m2.arena,
            #[trigger] m2.pkg_name[k],
        ) by {
            if k >= m.pkg_name.len() {
                assert(m2.pkg_name[k] == strs[3 + k - m.pkg_name.len()]);
            }
        }
    }
    assert(strs_in(m2.arena, m2.name)) by {
        assert forall|k: int| 0 <= k < m2.name.len() implies str_in(m2.arena, #[trigger] m2.name[k]) by {
            if k == m.name.len() {
                assert(m2.name[k] == strs[0]);
            }
        }
    }
    assert(strs_in(m2.arena, m2.desc)) by {
        assert forall|k: int| 0 <= k < m2.desc.len() implies str_in(m2.arena, #[trigger] m2.desc[k]) by {
            if k == m.desc.len() {
                assert(m2.desc[k] == strs[1]);
            }
        }
    }
    assert(strs_in(m2.arena, m2.url)) by {
        assert forall|k: int| 0 <= k < m2.url.len() implies str_in(m2.arena, #[trigger] m2.url[k]) by {
            if k == m.url.len() {
                assert(m2.url[k] == strs[2]);
            }
        }
    }
    let n = m.name.len() as int;
    assert forall|i: int| 0 <= i < n + 1 implies #[trigger] m2.pkg_start[i] <= m2.pkg_start[i + 1] by {
        if i < n {
            assert(m2.pkg_start[i] == m.pkg_start[i]);
            if i + 1 < n + 1 {
                assert(m2.pkg_start[i + 1] == m.pkg_start[i + 1]);
            }
        }
    }
    assert forall|i: int| 0 <= i < n + 1 implies (#[trigger] m2.category[i] as int)
        < m2.categories.len() by {
        if i < n {
            assert(m2.category[i] == m.category[i]);
        }
    }
    assert forall|i: int| 0 <= i < n + 1 implies (#[trigger] m2.language[i] as int)
        < m2.languages.len() by {
        if i < n {
            assert(m2.language[i] == m.language[i]);
        }
    }
    assert forall|i: int| 0 <= i < n + 1 implies (#[trigger] m2.license[i] as int)
        < m2.licenses.len() by {
        if i < n {
            assert(m2.license[i] == m.license[i]);
        }
    }
}

/// The columns of a catalog under construction.
struct Parts {
    generated: u64,
    name: Vec<Str>,
    desc: Vec<Str>,
    url: Vec<Str>,
    stars: Vec<u32>,
    pushed: Vec<u32>,
    language: Vec<u16>,
    license: Vec<u16>,
    category: Vec<u8>,
    flags: Vec<u8>,
    pkg_start: Vec<u32>,
    categories: Vec<Str>,
    languages: Vec<Str>,
    licenses: Vec<Str>,
    pkg_eco: Vec<u8>,
    pkg_name: Vec<Str>,
    arena: String,
}

impl Parts {
    spec fn model(&self) -> CatalogModel {
        CatalogModel {
            generated: self.generated,
            name: self.name@,
            desc: self.desc@,
            url: self.url@,
            stars: self.stars@,
            pushed: self.pushed@,
            language: self.language@,
            license: self.license@,
            category: self.category@,
            flags: self.flags@,
            pkg_start: self.pkg_start@,
            categories: self.categories@,
            languages: self.languages@,
            licenses: self.licenses@,
            pkg_eco: self.pkg_eco@,
            pkg_name: self.pkg_name@,
            arena: encode_utf8(self.arena@),
        }
    }

    fn new(generated: u64) -> (r: Parts)
        ensures
            r.model() == empty_model(generated),
            r.model().generated == generated,
            r.model().rows() == 0,
            r.model().categories.len() == 0,
            r.model().languages.len() == 0,
            r.model().licenses.len() == 0,
            r.model().pkg_eco.len() == 0,
            r.model().arena.len() == 0,
            builder_wf(r.model()),
    {
        let r = Parts {
            generated,
            name: Vec::new(),
            desc: Vec::new(),
            url: Vec::new(),
            stars: Vec::new(),
            pushed: Vec::new(),
            language: Vec::new(),
            license: Vec::new(),
            category: Vec::new(),
            flags: Vec::new(),
            pkg_start: vec![0],
            categories: Vec::new(),
            languages: Vec::new(),
            licenses: Vec::new(),
            pkg_eco: Vec::new(),
            pkg_name: Vec::new(),
            arena: String::new(),
        };
        proof {
            assert(encode_utf8(r.arena@) =~= Seq::<u8>::empty());
            assert(decode_utf8(Seq::<u8>::empty()) =~= Seq::<char>::empty()) by {
                assert(decode_utf8(encode_utf8(Seq::<char>::empty())) == Seq::<char>::empty());
                assert(encode_utf8(Seq::<char>::empty()) =~= Seq::<u8>::empty());
            }
        }
        r
    }
}

/// What a builder keeps besides the catalog invariant: every row and every
/// package put at least one byte into the arena, so their counts fit its
/// 32-bit offsets.
pub open spec fn builder_wf(m: CatalogModel) -> bool {
    &&& m.wf()
    &&& m.pkg_eco.len() <= m.arena.len()
    &&& m.name.len() <= m.arena.len()
}

/// Interns the row's category, language and license.
#[verifier::rlimit(50)]
fn intern_keys(p: &mut Parts, e: &Entry<'_>) -> (r: Result<(u8, u16, u16), BuildError>)
    requires
        builder_wf(old(p).model()),
    ensures
        builder_wf(final(p).model()),
        (final(p).model(), r) == spec_intern_keys(old(p).model(), e.model()),
        r matches Ok((c, l, li)) ==> (c as int) < final(p).model().categories.len() && (l as int)
            < final(p).model().languages.len() && (li as int) < final(p).model().licenses.len(),
{
    let ghost m0 = p.model();
    let ghost x0 = p.arena@;
    let cat = intern(&mut p.arena, &mut p.categories, e.category);
    proof {
        let y = if p.arena@ == x0 { Seq::<char>::empty() } else { neutral(e.category@) };
        assert(x0 + Seq::<char>::empty() =~= x0);
        lemma_neutral_no_control(e.category@);
        lemma_grow_wf(m0, p.model(), x0, y);
    }
    let cat = match cat {
        Ok(c) => c,
        Err(err) => {
            return Err(err);
        },
    };
    proof {
        let (a1, cats, c) = spec_intern(m0.arena, m0.categories, e.category@);
        assert(p.model().arena == a1);
        assert(p.model().categories == cats);
        assert(c == Some(cat as int));
        assert(p.model() =~= CatalogModel { arena: a1, categories: cats, ..m0 });
    }
    if cat > 255 {
        proof {
            let (a1, cats, c) = spec_intern(m0.arena, m0.categories, e.category@);
            assert(spec_intern_keys(m0, e.model()).1 == Err::<(u8, u16, u16), BuildError>(BuildError::TooManyCategories));
            assert(spec_intern_keys(m0, e.model()).0 == CatalogModel { arena: a1, categories: cats, ..m0 });
        }
        return Err(BuildError::TooManyCategories);
    }
    let ghost m1 = p.model();
    let ghost x1 = p.arena@;
    let lang = intern(&mut p.arena, &mut p.languages, e.language);
    proof {
        let y = if p.arena@ == x1 { Seq::<char>::empty() } else { neutral(e.language@) };
        assert(x1 + Seq::<char>::empty() =~= x1);
        lemma_neutral_no_control(e.language@);
        lemma_grow_wf(m1, p.model(), x1, y);
    }
    let lang = match lang {
        Ok(l) => l,
        Err(err) => {
            return Err(err);
        },
    };
    assert(p.model() =~= CatalogModel { arena: p.model().arena, languages: p.model().languages, ..m1 });
    let ghost m2 = p.model();
    let ghost x2 = p.arena@;
    let lic = intern(&mut p.arena, &mut p.licenses, e.license);
    proof {
        let y = if p.arena@ == x2 { Seq::<char>::empty() } else { neutral(e.license@) };
        assert(x2 + Seq::<char>::empty() =~= x2);
        lemma_neutral_no_control(e.license@);
        lemma_grow_wf(m2, p.model(), x2, y);
    }
    let lic = match lic {
        Ok(l) => l,
        Err(err) => {
            return Err(err);
        },
    };
    assert(p.model() =~= CatalogModel { arena: p.model().arena, licenses: p.model().licenses, ..m2 });
    Ok((cat as u8, lang, lic))
}

/// The row's texts, neutralized, in arena order.
fn row_texts_of(e: &Entry<'_>) -> (texts: Vec<String>)
    ensures
        texts@.map_values(|t: String| t@) == row_chars(e.model()),
{
    let mut texts: Vec<String> = Vec::new();
    texts.push(neutralize(e.name));
    texts.push(neutralize(e.desc));
    texts.push(neutralize(e.url));
    let mut k: usize = 0;
    while k < e.packages.len()
        invariant
            0 <= k <= e.packages@.len(),
            texts@.len() == 3 + k,
            texts@[0]@ == neutral(e.name@),
            texts@[1]@ == neutral(e.desc@),
            texts@[2]@ == neutral(e.url@),
            forall|j: int| 0 <= j < k ==> (#[trigger] texts@[3 + j])@ == neutral(e.packages@[j].1@),
        decreases e.packages@.len() - k,
    {
        texts.push(neutralize(e.packages[k].1));
        k += 1;
    }
    let ghost ts = texts@.map_values(|t: String| t@);
    let ghost rc = row_chars(e.model());
    assert forall|i: int| 0 <= i < ts.len() implies ts[i] == rc[i] by {
        if i >= 3 {
            assert(texts@[3 + (i - 3)]@ == neutral(e.packages@[i - 3].1@));
        }
    }
    assert(ts =~= rc);
    texts
}

/// Whether the arena can take `texts` as well.
fn fits(arena: &String, texts: &Vec<String>) -> (r: bool)
    ensures
        r == (encode_utf8(arena@).len() + concat_all(encode_each(texts@.map_values(|t: String| t@))).len()
            <= u32::MAX),
{
    let ghost parts = encode_each(texts@.map_values(|t: String| t@));
    let mut total: usize = byte_len(arena);
    if total > 0xffff_ffff {
        proof {
            lemma_concat_all_prefix(parts, 0);
        }
        return false;
    }
    let mut k: usize = 0;
    while k < texts.len()
        invariant
            0 <= k <= texts@.len(),
            parts == encode_each(texts@.map_values(|t: String| t@)),
            total == encode_utf8(arena@).len() + concat_all(parts.take(k as int)).len(),
            total <= u32::MAX,
        decreases texts@.len() - k,
    {
        let add = byte_len(&texts[k]);
        assert(parts.take(k + 1).drop_last() =~= parts.take(k as int));
        if add > 0xffff_ffff - total {
            proof {
                lemma_concat_all_prefix(parts, k + 1);
            }
            return false;
        }
        total = total + add;
        k += 1;
    }
    assert(parts.take(texts@.len() as int) =~= parts);
    true
}

/// Pushes a row whose URL and package names are already known to be valid.
#[verifier::rlimit(50)]
fn push_valid(p: &mut Parts, e: &Entry<'_>) -> (r: Result<(), BuildError>)
    requires
        builder_wf(old(p).model()),
        crate::text::spec_valid_url(e.url.spec_bytes()),
        forall|k: int|
            0 <= k < e.model().packages.len() ==> spec_valid_package_name(
                encode_utf8(#[trigger] e.model().packages[k].1),
            ),
    ensures
        builder_wf(final(p).model()),
        final(p).model() == spec_push(old(p).model(), e.model()).0,
        r == match spec_push(old(p).model(), e.model()).1 {
            None => Ok(()),
            Some(err) => Err(err),
        },
{
    let (cat, lang, lic) = match intern_keys(p, e) {
        Ok(keys) => keys,
        Err(err) => {
            return Err(err);
        },
    };
    let ghost m3 = p.model();
    let ghost x3 = p.arena@;
    let texts = row_texts_of(e);
    assert(encode_each(texts@.map_values(|t: String| t@)) =~= row_texts(e.model()));
    if !fits(&p.arena, &texts) {
        return Err(BuildError::ArenaFull);
    }
    let strs = append_texts(&mut p.arena, &texts);
    proof {
        lemma_row_sizes(m3, e.model(), x3);
    }
    append_columns(p, e, cat, lang, lic, &strs);
    proof {
        let em = e.model();
        assert(p.model() =~= append_row(m3, em, cat, lang, lic));
        lemma_append_row_wf(m3, em, cat, lang, lic, x3);
    }
    Ok(())
}

/// Pushes a row's column values, its texts already in the arena at `strs`.
fn append_columns(p: &mut Parts, e: &Entry<'_>, cat: u8, lang: u16, lic: u16, strs: &Vec<Str>)
    requires
        strs@.len() == 3 + e.packages@.len(),
        old(p).pkg_eco@.len() + e.packages@.len() <= u32::MAX,
        old(p).pkg_name@.len() == old(p).pkg_eco@.len(),
    ensures
        final(p).generated == old(p).generated,
        final(p).arena == old(p).arena,
        final(p).categories == old(p).categories,
        final(p).languages == old(p).languages,
        final(p).licenses == old(p).licenses,
        final(p).name@ == old(p).name@.push(strs@[0]),
        final(p).desc@ == old(p).desc@.push(strs@[1]),
        final(p).url@ == old(p).url@.push(strs@[2]),
        final(p).stars@ == old(p).stars@.push(clamp_stars(e.stars)),
        final(p).pushed@ == old(p).pushed@.push(
            match e.pushed_days {
                Some(d) => d,
                None => 0,
            },
        ),
        final(p).language@ == old(p).language@.push(lang),
        final(p).license@ == old(p).license@.push(lic),
        final(p).category@ == old(p).category@.push(cat),
        final(p).flags@ == old(p).flags@.push(e.flags),
        final(p).pkg_eco@ == old(p).pkg_eco@ + Seq::new(
            e.packages@.len(),
            |j: int| spec_eco_id(e.packages@[j].0),
        ),
        final(p).pkg_name@ == old(p).pkg_name@ + strs@.subrange(3, strs@.len() as int),
        final(p).pkg_start@ == old(p).pkg_start@.push(
            (old(p).pkg_eco@.len() + e.packages@.len()) as u32,
        ),
{
    p.name.push(strs[0]);
    p.desc.push(strs[1]);
    p.url.push(strs[2]);
    let stars = match e.stars {
        Some(s) => if s < STARS_UNKNOWN { s } else { STARS_UNKNOWN - 1 },
        None => STARS_UNKNOWN,
    };
    p.stars.push(stars);
    p.pushed.push(
        match e.pushed_days {
            Some(d) => d,
            None => 0,
        },
    );
    p.language.push(lang);
    p.license.push(lic);
    p.category.push(cat);
    p.flags.push(e.flags);
    push_packages(&mut p.pkg_eco, &mut p.pkg_name, e, strs);
    p.pkg_start.push(p.pkg_eco.len() as u32);
}

/// Pushes a row's packages: their ecosystems, and their names at `strs[3..]`.
fn push_packages(eco: &mut Vec<u8>, names: &mut Vec<Str>, e: &Entry<'_>, strs: &Vec<Str>)
    requires
        strs@.len() == 3 + e.packages@.len(),
    ensures
        final(eco)@ == old(eco)@ + Seq::new(e.packages@.len(), |j: int| spec_eco_id(e.packages@[j].0)),
        final(names)@ == old(names)@ + strs@.subrange(3, strs@.len() as int),
{
    let n = e.packages.len();
    let total = strs.len();
    let mut k: usize = 0;
    while k < n
        invariant
            n == e.packages@.len(),
            0 <= k <= n,
            strs@.len() == 3 + n,
            total == strs@.len(),
            eco@ == old(eco)@ + Seq::new(k as nat, |j: int| spec_eco_id(e.packages@[j].0)),
            names@ == old(names)@ + strs@.subrange(3, 3 + k),
        decreases n - k,
    {
        eco.push(e.packages[k].0.id());
        names.push(strs[3 + k]);
        k += 1;
        assert(eco@ =~= old(eco)@ + Seq::new(k as nat, |j: int| spec_eco_id(e.packages@[j].0)));
        assert(names@ =~= old(names)@ + strs@.subrange(3, 3 + k as int));
    }
    assert(strs@.subrange(3, 3 + n as int) =~= strs@.subrange(3, strs@.len() as int));
    assert(Seq::new(k as nat, |j: int| spec_eco_id(e.packages@[j].0)) =~= Seq::new(e.packages@.len(), |j: int| spec_eco_id(e.packages@[j].0)));
}

/// A row that fits the arena also fits the package count.
proof fn lemma_row_sizes(m: CatalogModel, e: EntryModel, x: Seq<char>)
    requires
        builder_wf(m),
        forall|k: int|
            0 <= k < e.packages.len() ==> spec_valid_package_name(
                encode_utf8(#[trigger] e.packages[k].1),
            ),
        m.arena.len() + concat_all(row_texts(e)).len() <= u32::MAX,
    ensures
        m.pkg_eco.len() + e.packages.len() <= u32::MAX,
{
    let parts = row_texts(e);
    assert forall|k: int| 3 <= k < parts.len() implies (#[trigger] parts[k]).len() >= 1 by {
        lemma_package_printable(e.packages[k - 3].1);
        lemma_encode_len_ge(neutral(e.packages[k - 3].1));
    }
    lemma_concat_all_len(parts, 3);
}

/// Append-only catalog builder.
pub struct Builder {
    parts: Parts,
}

impl View for Builder {
    type V = CatalogModel;

    closed spec fn view(&self) -> CatalogModel {
        self.parts.model()
    }
}

impl Builder {
    #[verifier::type_invariant]
    spec fn inv(self) -> bool {
        builder_wf(self.parts.model())
    }

    pub fn new(generated: u64) -> (r: Builder)
        ensures
            r@ == empty_model(generated),
            r@.generated == generated,
            r@.rows() == 0,
            r@.categories.len() == 0,
            r@.languages.len() == 0,
            r@.licenses.len() == 0,
            r@.pkg_eco.len() == 0,
            r@.arena.len() == 0,
    {
        Builder { parts: Parts::new(generated) }
    }

    /// Appends one entry. A bad URL or package name refuses it outright;
    /// see [`spec_push`] for everything after that.
    pub fn push(&mut self, e: &Entry<'_>) -> (r: Result<(), BuildError>)
        ensures
            !crate::text::spec_valid_url(e.url.spec_bytes()) ==> final(self)@ == old(self)@ && (r matches Err(
                BuildError::InvalidUrl(u),
            ) && u@ == e.url@),
            crate::text::spec_valid_url(e.url.spec_bytes()) && first_bad_package(e.model().packages)
                is Some ==> final(self)@ == old(self)@ && (r matches Err(BuildError::InvalidPackage(p))
                && p@ == e.model().packages[first_bad_package(e.model().packages)->0].1),
            crate::text::spec_valid_url(e.url.spec_bytes()) && first_bad_package(e.model().packages)
                is None ==> final(self)@ == spec_push(old(self)@, e.model()).0 && r == match spec_push(
                old(self)@,
                e.model(),
            ).1 {
                None => Ok(()),
                Some(err) => Err(err),
            },
    {
        proof {
            use_type_invariant(&*self);
        }
        if !crate::text::valid_url(e.url) {
            return Err(BuildError::InvalidUrl(e.url.to_owned()));
        }
        let ghost pk = e.model().packages;
        let mut k: usize = 0;
        while k < e.packages.len()
            invariant
                0 <= k <= e.packages@.len(),
                pk == e.model().packages,
                crate::text::spec_valid_url(e.url.spec_bytes()),
                forall|j: int| 0 <= j < k ==> spec_valid_package_name(encode_utf8(#[trigger] pk[j].1)),
            decreases e.packages@.len() - k,
        {
            let name = e.packages[k].1;
            if !crate::text::valid_package_name(name) {
                proof {
                    assert(pk[k as int].1 == name@);
                    assert(first_bad_package(pk) == Some(k as int)) by {
                        assert(!spec_valid_package_name(encode_utf8(pk[k as int].1)));
                        let w = choose|w: int|
                            0 <= w < pk.len() && !spec_valid_package_name(encode_utf8(pk[w].1))
                                && forall|j: int|
                                0 <= j < w ==> spec_valid_package_name(encode_utf8(#[trigger] pk[j].1));
                        if w < k {
                        } else if w > k {
                            assert(spec_valid_package_name(encode_utf8(pk[k as int].1)));
                        }
                    }
                }
                return Err(BuildError::InvalidPackage(name.to_owned()));
            }
            k += 1;
        }
        proof {
            if first_bad_package(pk) is Some {
                let w = choose|w: int|
                    0 <= w < pk.len() && !spec_valid_package_name(encode_utf8(#[trigger] pk[w].1));
                assert(spec_valid_package_name(encode_utf8(pk[w].1)));
            }
        }
        let mut p = Parts::new(0);
        std::mem::swap(&mut p, &mut self.parts);
        let r = push_valid(&mut p, e);
        self.parts = p;
        r
    }

    pub fn finish(self) -> (r: Catalog)
        ensures
            r@ == self@,
    {
        proof {
            use_type_invariant(&self);
        }
        let p = self.parts;
        Catalog {
            generated: p.generated,
            name: p.name,
            desc: p.desc,
            url: p.url,
            stars: p.stars,
            pushed: p.pushed,
            language: p.language,
            license: p.license,
            category: p.category,
            flags: p.flags,
            pkg_start: p.pkg_start,
            categories: p.categories,
            languages: p.languages,
            licenses: p.licenses,
            pkg_eco: p.pkg_eco,
            pkg_name: p.pkg_name,
            arena: p.arena,
        }
    }
}

} // verus!
