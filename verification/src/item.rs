//! The indexer's working representation of one catalog entry.

use vstd::prelude::*;
use vstd::string::{StringExecFns, StringSliceAdditionalSpecFns};

use crate::catalog::Ecosystem;
use crate::readme::Listing;
use crate::text::{push_char, spec_valid_package_name, string_of, valid_package_name};
use crate::release::{ascii_lower, lower_chars};
use crate::text::{chars_of, find_chars, find_sub, lemma_find_sub, same_text, string_from, sub_chars};

verus! {

#[derive(Debug)]
pub struct Item {
    pub name: String,
    pub url: String,
    pub description: String,
    pub category: String,
    pub subcategory: Option<String>,
    /// Lower-cased `owner/name` for GitHub-hosted projects.
    pub repo: Option<String>,
    pub stars: Option<u32>,
    pub language: String,
    pub license: String,
    pub pushed_at: Option<String>,
    pub archived: bool,
    pub library: bool,
    /// The package in each ecosystem, if known: one slot per ecosystem, in
    /// the order of their names (see [`slot`]).
    pub packages: Vec<Option<String>>,
    /// The key as listed, when GitHub reports the repository under a new name.
    /// Package metadata often still points at the old one.
    pub former_repo: Option<String>,
    pub manifests: Manifests,
}

/// Build manifests found at the repository root, used to derive registry names.
#[derive(Debug, Default)]
pub struct Manifests {
    pub cargo_toml: Option<String>,
    pub package_json: Option<String>,
    pub pyproject_toml: Option<String>,
    pub go_mod: Option<String>,
    pub has_root_main_go: bool,
    /// The repository has Cargo's automatic binary targets: `src/main.rs` or `src/bin/`.
    pub has_rust_bin: bool,
}

/// Whether `c` ends a path element of a URL.
pub open spec fn is_url_sep(c: char) -> bool {
    c == '/' || c == '#' || c == '?'
}

/// The first separator at or after `i`, or the end.
pub open spec fn sep_from(s: Seq<char>, i: int) -> int
    decreases s.len() - i,
{
    if i < 0 || i >= s.len() {
        s.len() as int
    } else if is_url_sep(s[i]) {
        i
    } else {
        sep_from(s, i + 1)
    }
}

proof fn lemma_sep_from(s: Seq<char>, i: int)
    requires
        0 <= i <= s.len(),
    ensures
        i <= sep_from(s, i) <= s.len(),
    decreases s.len() - i,
{
    if i < s.len() && !is_url_sep(s[i]) {
        lemma_sep_from(s, i + 1);
    }
}

/// Characters a GitHub owner or repository name is made of.
pub open spec fn repo_chars_ok(s: Seq<char>) -> bool {
    forall|i: int|
        0 <= i < s.len() ==> {
            let c = #[trigger] s[i];
            ('a' <= c && c <= 'z') || ('A' <= c && c <= 'Z') || ('0' <= c && c <= '9') || c == '-'
                || c == '_' || c == '.'
        }
}

/// The lower-cased `owner/name` of a URL that points into a GitHub
/// repository.
pub open spec fn spec_github_repo(url: Seq<char>) -> Option<Seq<char>> {
    let lower = lower_chars(url);
    let a = find_sub(lower, "github.com/"@, 0);
    if a < 0 {
        None
    } else {
        let rest = lower.skip(a + 11);
        let e = sep_from(rest, 0);
        let owner = rest.take(e);
        if owner.len() == 0 || e >= rest.len() {
            None
        } else {
            let after = rest.skip(e + 1);
            let f = sep_from(after, 0);
            let raw = after.take(f);
            let git = seq!['.', 'g', 'i', 't'];
            let name = if raw.len() >= 4 && raw.skip(raw.len() - 4) == git {
                raw.take(raw.len() - 4)
            } else {
                raw
            };
            if raw.len() > 0 && repo_chars_ok(owner) && repo_chars_ok(name) && name.len() > 0 {
                Some(owner + seq!['/'] + name)
            } else {
                None
            }
        }
    }
}

/// A character a repository key may hold: lower-case ASCII letters,
/// digits, `-`, `_` and `.`.
pub open spec fn key_char(c: char) -> bool {
    ('a' <= c && c <= 'z') || ('0' <= c && c <= '9') || c == '-' || c == '_' || c == '.'
}

/// The repository key ignores ASCII case: two links that differ only in the
/// case of their letters name the same repository.
pub proof fn law_repo_key_ignores_case(u: Seq<char>, v: Seq<char>)
    requires
        u.len() == v.len(),
        forall|i: int| 0 <= i < u.len() ==> ascii_lower(#[trigger] u[i]) == ascii_lower(v[i]),
    ensures
        spec_github_repo(u) == spec_github_repo(v),
{
    assert(lower_chars(u) =~= lower_chars(v));
}

/// A repository key is `owner/name`: two non-empty parts of key characters,
/// so it is lower case and safe to splice into a query.
pub proof fn law_repo_key_shape(url: Seq<char>)
    ensures
        spec_github_repo(url) matches Some(k) ==> exists|o: Seq<char>, n: Seq<char>|
            #![trigger o + seq!['/'] + n]
            k == o + seq!['/'] + n && o.len() > 0 && n.len() > 0 && (forall|i: int| 0 <= i < o.len() ==> key_char(#[trigger] o[i])) && (
            forall|i: int| 0 <= i < n.len() ==> key_char(#[trigger] n[i])),
{
    let lower = lower_chars(url);
    assert forall|i: int| 0 <= i < lower.len() implies !('A' <= #[trigger] lower[i] && lower[i] <= 'Z') by {
        let c = url[i];
        if 'A' <= c && c <= 'Z' {
            assert(lower[i] == ((c as u32) + 32) as char);
        }
    }
    if let Some(k) = spec_github_repo(url) {
        let a = find_sub(lower, "github.com/"@, 0);
        lemma_find_sub(lower, "github.com/"@, 0);
        reveal_strlit("github.com/");
        let rest = lower.skip(a + 11);
        let e = sep_from(rest, 0);
        lemma_sep_from(rest, 0);
        let owner = rest.take(e);
        let after = rest.skip(e + 1);
        let f = sep_from(after, 0);
        lemma_sep_from(after, 0);
        let raw = after.take(f);
        let git = seq!['.', 'g', 'i', 't'];
        let name = if raw.len() >= 4 && raw.skip(raw.len() - 4) == git {
            raw.take(raw.len() - 4)
        } else {
            raw
        };
        assert forall|i: int| 0 <= i < owner.len() implies key_char(#[trigger] owner[i]) by {
            assert(owner[i] == lower[a + 11 + i]);
        }
        assert forall|i: int| 0 <= i < name.len() implies key_char(#[trigger] name[i]) by {
            assert(name[i] == lower[a + 11 + e + 1 + i]);
        }
        assert(k == owner + seq!['/'] + name);
    }
}

fn sep_index(s: &Vec<char>, i: usize) -> (r: usize)
    requires
        i <= s@.len(),
    ensures
        r == sep_from(s@, i as int),
        i <= r <= s@.len(),
{
    proof {
        lemma_sep_from(s@, i as int);
    }
    let mut k = i;
    while k < s.len()
        invariant
            i <= k <= s@.len(),
            sep_from(s@, i as int) == sep_from(s@, k as int),
        decreases s@.len() - k,
    {
        let c = s[k];
        if c == '/' || c == '#' || c == '?' {
            return k;
        }
        k += 1;
    }
    k
}

fn repo_chars(s: &Vec<char>) -> (r: bool)
    ensures
        r == repo_chars_ok(s@),
{
    let mut i: usize = 0;
    while i < s.len()
        invariant
            i <= s@.len(),
            forall|j: int| 0 <= j < i ==> {
                let c = #[trigger] s@[j];
                ('a' <= c && c <= 'z') || ('A' <= c && c <= 'Z') || ('0' <= c && c <= '9') || c
                    == '-' || c == '_' || c == '.'
            },
        decreases s@.len() - i,
    {
        let c = s[i];
        if !(('a' <= c && c <= 'z') || ('A' <= c && c <= 'Z') || ('0' <= c && c <= '9') || c == '-'
            || c == '_' || c == '.') {
            return false;
        }
        i += 1;
    }
    true
}

/// Extracts a lower-cased `owner/name` from any URL that points into a GitHub
/// repository. Used both for entries and for matching package metadata.
pub fn github_repo(url: &str) -> (r: Option<String>)
    ensures
        match r {
            Some(key) => spec_github_repo(url@) == Some(key@),
            None => spec_github_repo(url@) is None,
        },
{
    let cs = chars_of(url);
    let mut lower: Vec<char> = Vec::new();
    let mut i: usize = 0;
    while i < cs.len()
        invariant
            i <= cs@.len(),
            lower@ == lower_chars(cs@.take(i as int)),
        decreases cs@.len() - i,
    {
        let c = cs[i];
        let l = if 'A' <= c && c <= 'Z' {
            ((c as u32) + 32) as u8 as char
        } else {
            c
        };
        assert(l == ascii_lower(c)) by {
            if 'A' <= c && c <= 'Z' {
                assert(((c as u32) + 32) as u8 as char == ((c as u32) + 32) as char);
            }
        }
        lower.push(l);
        i += 1;
        assert(lower@ =~= lower_chars(cs@.take(i as int)));
    }
    assert(cs@.take(cs@.len() as int) =~= cs@);
    let host = chars_of("github.com/");
    proof {
        reveal_strlit("github.com/");
        lemma_find_sub(lower@, host@, 0);
    }
    let a = match find_chars(&lower, &host, 0) {
        Some(a) => a,
        None => {
            return None;
        },
    };
    let n = lower.len();
    let rest = sub_chars(&lower, a + 11, n);
    assert(rest@ =~= lower@.skip(a + 11));
    let e = sep_index(&rest, 0);
    let owner = sub_chars(&rest, 0, e);
    assert(owner@ =~= rest@.take(e as int));
    if owner.len() == 0 || e >= rest.len() {
        return None;
    }
    let after = sub_chars(&rest, e + 1, rest.len());
    assert(after@ =~= rest@.skip(e + 1));
    let f = sep_index(&after, 0);
    let raw = sub_chars(&after, 0, f);
    assert(raw@ =~= after@.take(f as int));
    let rl = raw.len();
    let dot_git = rl >= 4 && raw[rl - 4] == '.' && raw[rl - 3] == 'g' && raw[rl - 2] == 'i' && raw[rl
        - 1] == 't';
    proof {
        let git = seq!['.', 'g', 'i', 't'];
        if rl >= 4 {
            let tail = raw@.skip(rl - 4);
            if dot_git {
                assert(tail =~= git);
            } else {
                assert(tail[0] != git[0] || tail[1] != git[1] || tail[2] != git[2] || tail[3] != git[3]);
            }
        }
    }
    let name = if dot_git {
        sub_chars(&raw, 0, rl - 4)
    } else {
        sub_chars(&raw, 0, rl)
    };
    assert(raw@.subrange(0, rl as int) =~= raw@);
    assert(dot_git ==> name@ =~= raw@.take(rl - 4));
    if rl > 0 && repo_chars(&owner) && repo_chars(&name) && name.len() > 0 {
        let mut key = string_from(&owner);
        crate::text::push_char(&mut key, '/');
        let name_text = string_from(&name);
        key.append(name_text.as_str());
        Some(key)
    } else {
        None
    }
}

/// An optional string as text.
pub open spec fn opt_text(o: Option<String>) -> Option<Seq<char>> {
    match o {
        Some(s) => Some(s@),
        None => None,
    }
}

impl Item {
    pub fn from_listing(l: Listing) -> (r: Item)
        ensures
            opt_text(r.repo) == spec_github_repo(l.url@),
            r.library == (l.category@ == "Libraries"@),
            r.name@ == l.name@,
            r.url@ == l.url@,
            r.description@ == l.desc@,
            r.category@ == l.category@,
            opt_text(r.subcategory) == opt_text(l.subcategory),
            r.stars is None,
            r.language@.len() == 0,
            r.license@.len() == 0,
            r.pushed_at is None,
            !r.archived,
            r.packages_ok(),
            forall|e: Ecosystem| r.package_of(e) is None,
            r.former_repo is None,
    {
        let repo = github_repo(l.url.as_str());
        let library = same_text(l.category.as_str(), "Libraries");
        Item {
            name: l.name,
            url: l.url,
            description: l.desc,
            category: l.category,
            subcategory: l.subcategory,
            repo,
            stars: None,
            language: String::new(),
            license: String::new(),
            pushed_at: None,
            archived: false,
            library,
            packages: vec![None, None, None, None, None, None, None, None, None, None],
            former_repo: None,
            manifests: Manifests {
                cargo_toml: None,
                package_json: None,
                pyproject_toml: None,
                go_mod: None,
                has_root_main_go: false,
                has_rust_bin: false,
            },
        }
    }

    /// Whether `key` names this item's repository, now or before a rename.
    pub fn is_repo(&self, key: &str) -> (r: bool)
        ensures
            r == (opt_text(self.repo) == Some(key@) || opt_text(self.former_repo) == Some(key@)),
    {
        let now = match &self.repo {
            Some(repo) => same_text(repo.as_str(), key),
            None => false,
        };
        let before = match &self.former_repo {
            Some(repo) => same_text(repo.as_str(), key),
            None => false,
        };
        now || before
    }
}

/// Where an ecosystem's package sits among an entry's packages: ecosystems
/// in the order of their names, as a map keyed by name keeps them.
pub open spec fn spec_slot(e: Ecosystem) -> int {
    match e {
        Ecosystem::Apt => 0,
        Ecosystem::Aur => 1,
        Ecosystem::Brew => 2,
        Ecosystem::Crates => 3,
        Ecosystem::Dnf => 4,
        Ecosystem::Go => 5,
        Ecosystem::Nix => 6,
        Ecosystem::Npm => 7,
        Ecosystem::Pacman => 8,
        Ecosystem::Pypi => 9,
    }
}

/// The slot of `e`.
pub fn slot(e: Ecosystem) -> (r: usize)
    ensures
        r == spec_slot(e),
        r < 10,
{
    match e {
        Ecosystem::Apt => 0,
        Ecosystem::Aur => 1,
        Ecosystem::Brew => 2,
        Ecosystem::Crates => 3,
        Ecosystem::Dnf => 4,
        Ecosystem::Go => 5,
        Ecosystem::Nix => 6,
        Ecosystem::Npm => 7,
        Ecosystem::Pacman => 8,
        Ecosystem::Pypi => 9,
    }
}

/// `s` with ASCII capitals lowered.
pub fn ascii_lowercase(s: &str) -> (r: String)
    ensures
        r@ == lower_chars(s@),
{
    let cs = chars_of(s);
    let mut out = String::new();
    let mut i: usize = 0;
    while i < cs.len()
        invariant
            i <= cs@.len(),
            out@ == lower_chars(cs@.take(i as int)),
        decreases cs@.len() - i,
    {
        let c = cs[i];
        let l = if 'A' <= c && c <= 'Z' {
            ((c as u32) + 32) as u8 as char
        } else {
            c
        };
        assert(l == ascii_lower(c)) by {
            if 'A' <= c && c <= 'Z' {
                assert(((c as u32) + 32) as u8 as char == ((c as u32) + 32) as char);
            }
        }
        push_char(&mut out, l);
        i += 1;
        assert(out@ =~= lower_chars(cs@.take(i as int)));
    }
    assert(cs@.take(cs@.len() as int) =~= cs@);
    out
}

/// The packages of an entry as texts, slot by slot.
pub open spec fn packages_view(v: Seq<Option<String>>) -> Seq<Option<Seq<char>>> {
    v.map_values(|o: Option<String>| opt_text(o))
}

impl Item {
    /// One slot per ecosystem.
    pub open spec fn packages_ok(&self) -> bool {
        self.packages@.len() == 10
    }

    /// The package known in ecosystem `e`.
    pub open spec fn package_of(&self, e: Ecosystem) -> Option<Seq<char>> {
        opt_text(self.packages@[spec_slot(e)])
    }

    /// The package known in ecosystem `e`.
    pub fn package(&self, e: Ecosystem) -> (r: Option<&String>)
        requires
            self.packages_ok(),
        ensures
            match r {
                Some(s) => self.package_of(e) == Some(s@),
                None => self.package_of(e) is None,
            },
    {
        match &self.packages[slot(e)] {
            Some(s) => Some(s),
            None => None,
        }
    }

    /// Records `package` for `e`, replacing what was there, when it is a
    /// valid package name; an unsafe name is dropped and changes nothing.
    pub fn set_package(&mut self, e: Ecosystem, package: &str)
        requires
            old(self).packages_ok(),
        ensures
            final(self).packages_ok(),
            *final(self) == (Item { packages: final(self).packages, ..*old(self) }),
            packages_view(final(self).packages@) == if spec_valid_package_name(package.spec_bytes()) {
                packages_view(old(self).packages@).update(spec_slot(e), Some(package@))
            } else {
                packages_view(old(self).packages@)
            },
    {
        if valid_package_name(package) {
            let cs = chars_of(package);
            let s = string_of(&cs, 0, cs.len());
            assert(s@ =~= package@);
            let ghost before = self.packages@;
            self.packages.set(slot(e), Some(s));
            assert(packages_view(self.packages@) =~= packages_view(before).update(spec_slot(e), Some(package@)));
        }
    }

    /// Forgets the package of `e`.
    pub fn remove_package(&mut self, e: Ecosystem)
        requires
            old(self).packages_ok(),
        ensures
            final(self).packages_ok(),
            *final(self) == (Item { packages: final(self).packages, ..*old(self) }),
            packages_view(final(self).packages@) == packages_view(old(self).packages@).update(spec_slot(e), None),
    {
        let ghost before = self.packages@;
        self.packages.set(slot(e), None);
        assert(packages_view(self.packages@) =~= packages_view(before).update(spec_slot(e), None));
    }
}

impl Default for Item {
    /// An entry with no texts, no repository and no packages.
    fn default() -> (r: Item)
        ensures
            r.packages_ok(),
            forall|e: Ecosystem| r.package_of(e) is None,
            r.repo is None,
            r.former_repo is None,
            r.stars is None,
            r.pushed_at is None,
            r.subcategory is None,
            !r.archived,
            !r.library,
            r.name@.len() == 0,
            r.manifests.cargo_toml is None,
            r.manifests.package_json is None,
            r.manifests.pyproject_toml is None,
            r.manifests.go_mod is None,
            !r.manifests.has_root_main_go,
            !r.manifests.has_rust_bin,
    {
        Item {
            name: String::new(),
            url: String::new(),
            description: String::new(),
            category: String::new(),
            subcategory: None,
            repo: None,
            stars: None,
            language: String::new(),
            license: String::new(),
            pushed_at: None,
            archived: false,
            library: false,
            packages: vec![None, None, None, None, None, None, None, None, None, None],
            former_repo: None,
            manifests: Manifests {
                cargo_toml: None,
                package_json: None,
                pyproject_toml: None,
                go_mod: None,
                has_root_main_go: false,
                has_rust_bin: false,
            },
        }
    }
}

} // verus!
