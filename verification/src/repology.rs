//! Distribution packages (apt, dnf, pacman) from a Repology project.
//!
//! Distributions do not publish "package → upstream repository" in bulk, and
//! Repology does not expose URLs either, so a project is never trusted on
//! its name alone. It is anchored: a project is accepted for an entry only
//! if it also holds a package already matched to the entry by URL in
//! another ecosystem (Homebrew, AUR, nixpkgs). Same project and same
//! verified package means the same software.

use vstd::prelude::*;
use vstd::string::StringSliceAdditionalSpecFns;
use vstd::utf8::encode_utf8;

use crate::catalog::Ecosystem;
use crate::item::{ascii_lowercase, opt_text, Item};
use crate::release::lower_chars;
use crate::num::{parse_u32, spec_parse_u32};
use crate::text::{chars_of, push_char, same_text, spec_valid_package_name, string_of, valid_package_name};

verus! {

/// One package of a Repology project, as far as matching reads it.
pub struct RepologyPackage {
    /// The Repology repository, such as `debian_13` or `homebrew`.
    pub repo: Option<String>,
    pub status: Option<String>,
    pub binname: Option<String>,
    pub srcname: Option<String>,
    pub visiblename: Option<String>,
}

/// The package's name: its binary name, else its source name, else the name
/// Repology shows.
pub open spec fn spec_package_name(p: RepologyPackage) -> Option<Seq<char>> {
    match p.binname {
        Some(b) => Some(b@),
        None => match p.srcname {
            Some(s) => Some(s@),
            None => opt_text(p.visiblename),
        },
    }
}

/// Repology repositories whose packages were matched by URL elsewhere.
pub open spec fn anchors() -> Seq<(Seq<char>, Ecosystem)> {
    seq![("homebrew"@, Ecosystem::Brew), ("aur"@, Ecosystem::Aur), ("nix_unstable"@, Ecosystem::Nix)]
}

/// `s` without its `_` characters.
pub open spec fn without_underscores(s: Seq<char>) -> Seq<char>
    decreases s.len(),
{
    if s.len() == 0 {
        s
    } else if s.last() == '_' {
        without_underscores(s.drop_last())
    } else {
        without_underscores(s.drop_last()).push(s.last())
    }
}

/// The release number a repository suffix such as `24_04` spells.
pub open spec fn release_number(rest: Seq<char>) -> Option<u32> {
    spec_parse_u32(encode_utf8(without_underscores(rest)))
}

/// Whether `repo` starts with `prefix`.
pub open spec fn starts(repo: Seq<char>, prefix: Seq<char>) -> bool {
    prefix.len() <= repo.len() && repo.take(prefix.len() as int) == prefix
}

/// The ecosystem a Repology repository fills in, and a rank so that the
/// newest stable release is preferred: any Debian release outranks any
/// Ubuntu one, as Debian is upstream of Ubuntu's names. Rolling and
/// pre-release repositories spell no number and are skipped.
pub open spec fn spec_target(repo: Seq<char>) -> Option<(Ecosystem, u32)> {
    if repo == "arch"@ {
        Some((Ecosystem::Pacman, 0))
    } else if starts(repo, "debian_"@) {
        match release_number(repo.skip(7)) {
            Some(n) => Some((Ecosystem::Apt, (0x10_0000 + n) as u32)),
            None => None,
        }
    } else if starts(repo, "ubuntu_"@) {
        match release_number(repo.skip(7)) {
            Some(n) => Some((Ecosystem::Apt, n)),
            None => None,
        }
    } else if starts(repo, "fedora_"@) {
        match release_number(repo.skip(7)) {
            Some(n) => Some((Ecosystem::Dnf, n)),
            None => None,
        }
    } else {
        None
    }
}

/// A Debian release number small enough that its rank fits in a `u32`;
/// past that the rank addition overflows.
pub open spec fn target_fits(repo: Seq<char>) -> bool {
    starts(repo, "debian_"@) && !(repo == "arch"@) ==> match release_number(repo.skip(7)) {
        Some(n) => n + 0x10_0000 <= u32::MAX,
        None => true,
    }
}

/// Whether `cs` starts with `p`.
fn has_prefix(cs: &Vec<char>, p: &str) -> (r: bool)
    ensures
        r == starts(cs@, p@),
{
    let pc = chars_of(p);
    if pc.len() > cs.len() {
        return false;
    }
    let mut i: usize = 0;
    while i < pc.len()
        invariant
            pc@ == p@,
            pc@.len() <= cs@.len(),
            i <= pc@.len(),
            forall|j: int| 0 <= j < i ==> cs@[j] == pc@[j],
        decreases pc@.len() - i,
    {
        if cs[i] != pc[i] {
            assert(cs@.take(pc@.len() as int)[i as int] != pc@[i as int]);
            return false;
        }
        i += 1;
    }
    assert(cs@.take(pc@.len() as int) =~= pc@);
    true
}

/// The release number spelled by `cs` from index 7 on.
fn release_from(cs: &Vec<char>) -> (r: Option<u32>)
    requires
        7 <= cs@.len(),
    ensures
        r == release_number(cs@.skip(7)),
{
    let mut digits = String::new();
    let mut i: usize = 7;
    while i < cs.len()
        invariant
            7 <= i <= cs@.len(),
            digits@ == without_underscores(cs@.subrange(7, i as int)),
        decreases cs@.len() - i,
    {
        assert(cs@.subrange(7, i + 1).drop_last() =~= cs@.subrange(7, i as int));
        if cs[i] != '_' {
            push_char(&mut digits, cs[i]);
        }
        i += 1;
    }
    assert(cs@.subrange(7, cs@.len() as int) =~= cs@.skip(7));
    parse_u32(digits.as_str().as_bytes())
}

/// The ecosystem and rank of a Repology repository, if it is one we use.
pub fn target(repo: &str) -> (r: Option<(Ecosystem, u32)>)
    requires
        target_fits(repo@),
    ensures
        r == spec_target(repo@),
{
    let cs = chars_of(repo);
    proof {
        reveal_strlit("debian_");
        reveal_strlit("ubuntu_");
        reveal_strlit("fedora_");
    }
    if same_text(repo, "arch") {
        return Some((Ecosystem::Pacman, 0));
    }
    if has_prefix(&cs, "debian_") {
        return match release_from(&cs) {
            Some(n) => Some((Ecosystem::Apt, 0x10_0000 + n)),
            None => None,
        };
    }
    if has_prefix(&cs, "ubuntu_") {
        return match release_from(&cs) {
            Some(n) => Some((Ecosystem::Apt, n)),
            None => None,
        };
    }
    if has_prefix(&cs, "fedora_") {
        return match release_from(&cs) {
            Some(n) => Some((Ecosystem::Dnf, n)),
            None => None,
        };
    }
    None
}

/// Whether package `j` of the project is anchor `a`'s package of the entry.
pub open spec fn anchors_at(item: Item, ps: Seq<RepologyPackage>, a: int, j: int) -> bool {
    &&& opt_text(ps[j].repo) == Some(anchors()[a].0)
    &&& item.package_of(anchors()[a].1) is Some
    &&& spec_package_name(ps[j]) == item.package_of(anchors()[a].1)
}

/// The project holds a package this entry was already matched to by URL.
pub open spec fn anchored(item: Item, ps: Seq<RepologyPackage>) -> bool {
    exists|a: int, j: int| 0 <= a < 3 && 0 <= j < ps.len() && #[trigger] anchors_at(item, ps, a, j)
}

/// The first kept package of ecosystem `e` among the first `n`.
pub open spec fn slot_of(best: Seq<(Ecosystem, u32, Seq<char>)>, e: Ecosystem, n: int) -> Option<int>
    decreases n,
{
    if n <= 0 {
        None
    } else {
        match slot_of(best, e, n - 1) {
            Some(k) => Some(k),
            None => if best[n - 1].0 == e {
                Some(n - 1)
            } else {
                None
            },
        }
    }
}

/// The newest release of each ecosystem among the project's packages, in
/// the order each ecosystem first appears: legacy packages, repositories we
/// do not use and unsafe names are skipped, and a later package replaces
/// the kept one only when its release is newer.
pub open spec fn newest(ps: Seq<RepologyPackage>) -> Seq<(Ecosystem, u32, Seq<char>)>
    decreases ps.len(),
{
    if ps.len() == 0 {
        seq![]
    } else {
        let best = newest(ps.drop_last());
        let p = ps.last();
        if opt_text(p.status) == Some("legacy"@) {
            best
        } else {
            match p.repo {
                None => best,
                Some(r) => match spec_target(r@) {
                    None => best,
                    Some((eco, release)) => match spec_package_name(p) {
                        None => best,
                        Some(name) => if !spec_valid_package_name(encode_utf8(name)) {
                            best
                        } else {
                            match slot_of(best, eco, best.len() as int) {
                                Some(k) => if best[k].1 < release {
                                    best.update(k, (eco, release, name))
                                } else {
                                    best
                                },
                                None => best.push((eco, release, name)),
                            }
                        },
                    },
                },
            }
        }
    }
}

/// The distribution packages of an entry: none unless the project is
/// anchored, else the newest release of each ecosystem.
pub open spec fn spec_distro_packages(item: Item, ps: Seq<RepologyPackage>) -> Seq<(Ecosystem, Seq<char>)> {
    if anchored(item, ps) {
        newest(ps).map_values(|b: (Ecosystem, u32, Seq<char>)| (b.0, b.2))
    } else {
        seq![]
    }
}

/// The name of package `p`.
fn package_name(p: &RepologyPackage) -> (r: Option<&String>)
    ensures
        match r {
            Some(s) => spec_package_name(*p) == Some(s@),
            None => spec_package_name(*p) is None,
        },
{
    match &p.binname {
        Some(b) => Some(b),
        None => match &p.srcname {
            Some(s) => Some(s),
            None => match &p.visiblename {
                Some(v) => Some(v),
                None => None,
            },
        },
    }
}

fn copy_text(s: &String) -> (r: String)
    ensures
        r@ == s@,
{
    let cs = chars_of(s.as_str());
    let r = string_of(&cs, 0, cs.len());
    assert(r@ =~= s@);
    r
}

/// Whether the project is anchored for `item`.
fn is_anchored(item: &Item, packages: &Vec<RepologyPackage>) -> (r: bool)
    requires
        item.packages_ok(),
    ensures
        r == anchored(*item, packages@),
{
    let repos = ["homebrew", "aur", "nix_unstable"];
    let ecos = [Ecosystem::Brew, Ecosystem::Aur, Ecosystem::Nix];
    let mut a: usize = 0;
    while a < 3
        invariant
            a <= 3,
            item.packages_ok(),
            repos@ == seq!["homebrew", "aur", "nix_unstable"],
            ecos@ == seq![Ecosystem::Brew, Ecosystem::Aur, Ecosystem::Nix],
            forall|a2: int, j: int| 0 <= a2 < a && 0 <= j < packages@.len() ==> !#[trigger] anchors_at(*item, packages@, a2, j),
        decreases 3 - a,
    {
        assert(repos@[a as int]@ == anchors()[a as int].0);
        assert(ecos@[a as int] == anchors()[a as int].1);
        let ours = item.package(ecos[a]);
        let mut j: usize = 0;
        while j < packages.len()
            invariant
                a < 3,
                j <= packages@.len(),
                repos@[a as int]@ == anchors()[a as int].0,
                ecos@[a as int] == anchors()[a as int].1,
                match ours {
                    Some(s) => item.package_of(ecos@[a as int]) == Some(s@),
                    None => item.package_of(ecos@[a as int]) is None,
                },
                forall|j2: int| 0 <= j2 < j ==> !#[trigger] anchors_at(*item, packages@, a as int, j2),
            decreases packages@.len() - j,
        {
            let p = &packages[j];
            let repo_hit = match &p.repo {
                Some(r) => same_text(r.as_str(), repos[a]),
                None => false,
            };
            let name_hit = match (ours, package_name(p)) {
                (Some(o), Some(n)) => same_text(o.as_str(), n.as_str()),
                _ => false,
            };
            if repo_hit && name_hit {
                assert(anchors_at(*item, packages@, a as int, j as int));
                return true;
            }
            j += 1;
        }
        a += 1;
    }
    false
}

/// Where ecosystem `e` is kept in `best`, if it is.
fn find_slot(best: &Vec<(Ecosystem, u32, String)>, e: Ecosystem) -> (r: Option<usize>)
    ensures
        match r {
            Some(k) => k < best@.len() && slot_of(best_view(best@), e, best@.len() as int) == Some(k as int),
            None => slot_of(best_view(best@), e, best@.len() as int) is None,
        },
{
    let mut k: usize = 0;
    while k < best.len()
        invariant
            k <= best@.len(),
            slot_of(best_view(best@), e, k as int) is None,
        decreases best@.len() - k,
    {
        if best[k].0 == e {
            proof {
                lemma_slot_stays(best_view(best@), e, k + 1, best@.len() as int);
            }
            return Some(k);
        }
        k += 1;
    }
    None
}

proof fn lemma_slot_stays(best: Seq<(Ecosystem, u32, Seq<char>)>, e: Ecosystem, n: int, m: int)
    requires
        0 < n <= m,
        slot_of(best, e, n) is Some,
    ensures
        slot_of(best, e, m) == slot_of(best, e, n),
    decreases m - n,
{
    if n < m {
        lemma_slot_stays(best, e, n, m - 1);
    }
}

/// The kept packages as texts.
pub open spec fn best_view(v: Seq<(Ecosystem, u32, String)>) -> Seq<(Ecosystem, u32, Seq<char>)> {
    v.map_values(|b: (Ecosystem, u32, String)| (b.0, b.1, b.2@))
}

/// The distribution packages of `item` found in a Repology project.
pub fn distro_packages(item: &Item, packages: &Vec<RepologyPackage>) -> (r: Vec<(Ecosystem, String)>)
    requires
        item.packages_ok(),
        forall|j: int| 0 <= j < packages@.len() ==> match (#[trigger] packages@[j]).repo {
            Some(r) => target_fits(r@),
            None => true,
        },
    ensures
        r@.map_values(|x: (Ecosystem, String)| (x.0, x.1@)) == spec_distro_packages(*item, packages@),
{
    if !is_anchored(item, packages) {
        let r: Vec<(Ecosystem, String)> = Vec::new();
        assert(r@.map_values(|x: (Ecosystem, String)| (x.0, x.1@)) =~= seq![]);
        return r;
    }
    let mut best: Vec<(Ecosystem, u32, String)> = Vec::new();
    let mut i: usize = 0;
    while i < packages.len()
        invariant
            i <= packages@.len(),
            forall|j: int| 0 <= j < packages@.len() ==> match (#[trigger] packages@[j]).repo {
                Some(r) => target_fits(r@),
                None => true,
            },
            best_view(best@) == newest(packages@.take(i as int)),
        decreases packages@.len() - i,
    {
        let p = &packages[i];
        assert(packages@.take(i + 1).drop_last() =~= packages@.take(i as int));
        let legacy = match &p.status {
            Some(s) => same_text(s.as_str(), "legacy"),
            None => false,
        };
        if !legacy {
            let t = match &p.repo {
                Some(r) => {
                    assert(target_fits(packages@[i as int].repo->0@));
                    target(r.as_str())
                },
                None => None,
            };
            if let Some((eco, release)) = t {
                if let Some(name) = package_name(p) {
                    if valid_package_name(name.as_str()) {
                        let ghost before = best_view(best@);
                        match find_slot(&best, eco) {
                            Some(k) => {
                                if best[k].1 < release {
                                    best.set(k, (eco, release, copy_text(name)));
                                    assert(best_view(best@) =~= before.update(k as int, (eco, release, name@)));
                                }
                            },
                            None => {
                                best.push((eco, release, copy_text(name)));
                                assert(best_view(best@) =~= before.push((eco, release, name@)));
                            },
                        }
                    }
                }
            }
        }
        i += 1;
    }
    assert(packages@.take(packages@.len() as int) =~= packages@);
    let mut out: Vec<(Ecosystem, String)> = Vec::new();
    let mut k: usize = 0;
    while k < best.len()
        invariant
            k <= best@.len(),
            out@.map_values(|x: (Ecosystem, String)| (x.0, x.1@)) == best_view(best@).take(k as int).map_values(
                |b: (Ecosystem, u32, Seq<char>)| (b.0, b.2),
            ),
        decreases best@.len() - k,
    {
        let ghost prev = out@;
        out.push((best[k].0, copy_text(&best[k].2)));
        assert(out@.map_values(|x: (Ecosystem, String)| (x.0, x.1@)) =~= prev.map_values(
            |x: (Ecosystem, String)| (x.0, x.1@),
        ).push((best@[k as int].0, best@[k as int].2@)));
        assert(best_view(best@).take(k + 1) =~= best_view(best@).take(k as int).push(best_view(best@)[k as int]));
        assert(best_view(best@).take(k + 1).map_values(|b: (Ecosystem, u32, Seq<char>)| (b.0, b.2))
            =~= best_view(best@).take(k as int).map_values(|b: (Ecosystem, u32, Seq<char>)| (b.0, b.2)).push(
            (best@[k as int].0, best@[k as int].2@),
        ));
        k += 1;
    }
    assert(best_view(best@).take(best@.len() as int) =~= best_view(best@));
    out
}

/// Whether `repo`'s rank fits in a `u32`: only a Debian release number
/// within 2^20 of the top does not.
pub fn target_fits_u32(repo: &str) -> (r: bool)
    ensures
        r == target_fits(repo@),
{
    let cs = chars_of(repo);
    proof {
        reveal_strlit("debian_");
    }
    if same_text(repo, "arch") || !has_prefix(&cs, "debian_") {
        return true;
    }
    match release_from(&cs) {
        Some(n) => n <= 0xffff_ffff - 0x10_0000,
        None => true,
    }
}

/// A project is trusted only when anchored: when none of its packages is
/// one this entry was already matched to by URL, it yields nothing.
pub proof fn law_unanchored_yields_nothing(item: Item, ps: Seq<RepologyPackage>)
    requires
        !anchored(item, ps),
    ensures
        spec_distro_packages(item, ps).len() == 0,
{
}

/// A character that Repology project names are made of.
pub open spec fn project_char(c: char) -> bool {
    ('a' <= c && c <= 'z') || ('A' <= c && c <= 'Z') || ('0' <= c && c <= '9') || c == '-' || c == '_'
        || c == '.' || c == '+'
}

/// The package an entry's Repology project is looked up by: the Homebrew,
/// else the AUR, else the nixpkgs package, as project names usually are the
/// most common package name.
pub open spec fn project_source(item: Item) -> Option<Seq<char>> {
    match item.package_of(Ecosystem::Brew) {
        Some(p) => Some(p),
        None => match item.package_of(Ecosystem::Aur) {
            Some(p) => Some(p),
            None => item.package_of(Ecosystem::Nix),
        },
    }
}

/// The Repology project of an entry: its source package lower-cased, if
/// that is made of project characters alone.
pub open spec fn spec_project(item: Item) -> Option<Seq<char>> {
    match project_source(item) {
        Some(p) => {
            let l = lower_chars(p);
            if forall|i: int| 0 <= i < l.len() ==> project_char(#[trigger] l[i]) {
                Some(l)
            } else {
                None
            }
        },
        None => None,
    }
}

/// The Repology project to look an entry up by, if any.
pub fn project(item: &Item) -> (r: Option<String>)
    requires
        item.packages_ok(),
    ensures
        opt_text(r) == spec_project(*item),
{
    let source = match item.package(Ecosystem::Brew) {
        Some(p) => Some(p),
        None => match item.package(Ecosystem::Aur) {
            Some(p) => Some(p),
            None => item.package(Ecosystem::Nix),
        },
    };
    match source {
        None => None,
        Some(p) => {
            let l = ascii_lowercase(p.as_str());
            let cs = chars_of(l.as_str());
            assert(project_source(*item) == Some(p@));
            let mut i: usize = 0;
            while i < cs.len()
                invariant
                    i <= cs@.len(),
                    cs@ == l@,
                    l@ == lower_chars(p@),
                    project_source(*item) == Some(p@),
                    forall|j: int| 0 <= j < i ==> project_char(#[trigger] cs@[j]),
                decreases cs@.len() - i,
            {
                let c = cs[i];
                let ok = ('a' <= c && c <= 'z') || ('A' <= c && c <= 'Z') || ('0' <= c && c <= '9') || c == '-'
                    || c == '_' || c == '.' || c == '+';
                if !ok {
                    assert(project_source(*item) == Some(p@));
                    assert(!project_char(lower_chars(p@)[i as int]));
                    assert(spec_project(*item) is None);
                    return None;
                }
                i += 1;
            }
            Some(l)
        },
    }
}

/// Failures in a row after which Repology is given up on for the run.
pub const GIVE_UP_AFTER: u32 = 5;

/// The failures in a row after a reply, and whether to give up: an answer,
/// found or not, resets the count; the fifth failure in a row gives up.
pub open spec fn spec_after_reply(failures: u32, failed: bool) -> (u32, bool) {
    if failed {
        let f = if failures == u32::MAX { u32::MAX } else { (failures + 1) as u32 };
        (f, f >= GIVE_UP_AFTER)
    } else {
        (0, false)
    }
}

/// Counts a reply from Repology.
pub fn after_reply(failures: u32, failed: bool) -> (r: (u32, bool))
    ensures
        r == spec_after_reply(failures, failed),
{
    if failed {
        let f = failures.saturating_add(1);
        (f, f >= GIVE_UP_AFTER)
    } else {
        (0, false)
    }
}

} // verus!
