//! Homebrew: the whole formula and cask sets are one document each, matched
//! by URL. `brew install <name>` takes either, formula first.

use vstd::prelude::*;
use vstd::string::StringSliceAdditionalSpecFns;
use vstd::utf8::encode_utf8;

use crate::bulk::{byte_len, offer, offered, Offers, Rank};
use crate::item::{github_repo, opt_text, spec_github_repo};
use crate::text::{chars_of, same_text};

verus! {

/// One formula, as far as matching reads it.
pub struct Formula {
    pub name: Option<String>,
    pub disabled: Option<bool>,
    /// The homepage, the stable URL and the head URL, where each is a string.
    pub urls: Vec<Option<String>>,
}

/// One cask, as far as matching reads it.
pub struct Cask {
    pub token: Option<String>,
    pub disabled: Option<bool>,
    /// One of its artifacts is a `binary`: it installs a command, not a GUI app.
    pub has_binary: bool,
    /// The homepage and the download URL, where each is a string.
    pub urls: Vec<Option<String>>,
}

/// Offers `name` ranked `rank` for the repository of each GitHub URL among `urls`.
pub open spec fn urls_step(m: Map<Seq<char>, (Rank, Seq<char>)>, rank: Rank, name: Seq<char>, urls: Seq<Option<String>>) -> Map<Seq<char>, (Rank, Seq<char>)>
    decreases urls.len(),
{
    if urls.len() == 0 {
        m
    } else {
        let prev = urls_step(m, rank, name, urls.drop_last());
        match urls.last() {
            Some(u) => match spec_github_repo(u@) {
                Some(repo) => offered(prev, repo, (rank, name)),
                None => prev,
            },
            None => prev,
        }
    }
}

/// A versioned formula (`foo@2`) ranks after the unversioned one.
pub open spec fn versioned(name: Seq<char>) -> u8 {
    if name.contains('@') {
        1
    } else {
        0
    }
}

/// The best formula per repository after the first `n` formulae: disabled
/// ones are skipped; versioned ones rank after the rest, then shorter names
/// first.
pub open spec fn formula_offers(fs: Seq<Formula>, n: int) -> Map<Seq<char>, (Rank, Seq<char>)>
    decreases n,
{
    if n <= 0 {
        Map::empty()
    } else {
        let prev = formula_offers(fs, n - 1);
        let f = fs[n - 1];
        match f.name {
            None => prev,
            Some(name) => if f.disabled == Some(true) {
                prev
            } else {
                urls_step(prev, (versioned(name@), byte_len(name@)), name@, f.urls@)
            },
        }
    }
}

/// Whether some formula is named `token`.
pub open spec fn shadowed(fs: Seq<Formula>, token: Seq<char>) -> bool {
    exists|k: int| 0 <= k < fs.len() && #[trigger] opt_text(fs[k].name) == Some(token)
}

/// The table after the first `n` casks are offered: disabled casks, GUI
/// apps and tokens a formula shadows are skipped; casks rank after every
/// formula, then shorter tokens first.
pub open spec fn cask_offers(m: Map<Seq<char>, (Rank, Seq<char>)>, fs: Seq<Formula>, cs: Seq<Cask>, n: int) -> Map<Seq<char>, (Rank, Seq<char>)>
    decreases n,
{
    if n <= 0 {
        m
    } else {
        let prev = cask_offers(m, fs, cs, n - 1);
        let c = cs[n - 1];
        match c.token {
            None => prev,
            Some(token) => if c.disabled == Some(true) || !c.has_binary || shadowed(fs, token@) {
                prev
            } else {
                urls_step(prev, (2, byte_len(token@)), token@, c.urls@)
            },
        }
    }
}

/// Offers `name` ranked `rank` for each GitHub URL of `urls`.
fn offer_urls(by_repo: &mut Offers, rank: Rank, name: &String, urls: &Vec<Option<String>>)
    requires
        old(by_repo).wf(),
    ensures
        final(by_repo).wf(),
        final(by_repo)@ == urls_step(old(by_repo)@, rank, name@, urls@),
{
    let ghost start = by_repo@;
    let mut j: usize = 0;
    while j < urls.len()
        invariant
            j <= urls@.len(),
            by_repo.wf(),
            by_repo@ == urls_step(start, rank, name@, urls@.take(j as int)),
        decreases urls@.len() - j,
    {
        assert(urls@.take(j + 1).drop_last() =~= urls@.take(j as int));
        if let Some(u) = &urls[j] {
            if let Some(repo) = github_repo(u.as_str()) {
                offer(by_repo, repo, rank, name.as_str());
            }
        }
        j += 1;
    }
    assert(urls@.take(urls@.len() as int) =~= urls@);
}

/// Whether `name` holds an `@`.
fn has_at(name: &String) -> (r: bool)
    ensures
        r == name@.contains('@'),
{
    let cs = chars_of(name.as_str());
    let mut i: usize = 0;
    while i < cs.len()
        invariant
            cs@ == name@,
            i <= cs@.len(),
            forall|j: int| 0 <= j < i ==> cs@[j] != '@',
        decreases cs@.len() - i,
    {
        if cs[i] == '@' {
            return true;
        }
        i += 1;
    }
    false
}

/// Several formulae can share a repository (`foo`, `foo@2`): the unversioned
/// one is preferred, then the shortest name.
pub fn formulae_by_repo(formulae: &Vec<Formula>) -> (r: Offers)
    ensures
        r.wf(),
        r@ == formula_offers(formulae@, formulae@.len() as int),
{
    let mut by_repo = Offers::new();
    let mut i: usize = 0;
    while i < formulae.len()
        invariant
            i <= formulae@.len(),
            by_repo.wf(),
            by_repo@ == formula_offers(formulae@, i as int),
        decreases formulae@.len() - i,
    {
        let f = &formulae[i];
        if let Some(name) = &f.name {
            if f.disabled != Some(true) {
                let rank = (if has_at(name) { 1u8 } else { 0u8 }, name.as_str().as_bytes().len());
                offer_urls(&mut by_repo, rank, name, &f.urls);
            }
        }
        i += 1;
    }
    by_repo
}

/// Whether a formula is named `token`.
fn is_formula(formulae: &Vec<Formula>, token: &String) -> (r: bool)
    ensures
        r == shadowed(formulae@, token@),
{
    let mut k: usize = 0;
    while k < formulae.len()
        invariant
            k <= formulae@.len(),
            forall|j: int| 0 <= j < k ==> #[trigger] opt_text(formulae@[j].name) != Some(token@),
        decreases formulae@.len() - k,
    {
        if let Some(n) = &formulae[k].name {
            if same_text(n.as_str(), token.as_str()) {
                assert(opt_text(formulae@[k as int].name) == Some(token@));
                return true;
            }
        }
        k += 1;
    }
    false
}

/// Some CLIs ship only as casks: casks rank after formulae, and GUI apps and
/// tokens a formula shadows are skipped.
pub fn add_casks(by_repo: &mut Offers, formulae: &Vec<Formula>, casks: &Vec<Cask>)
    requires
        old(by_repo).wf(),
    ensures
        final(by_repo).wf(),
        final(by_repo)@ == cask_offers(old(by_repo)@, formulae@, casks@, casks@.len() as int),
{
    let ghost start = by_repo@;
    let mut i: usize = 0;
    while i < casks.len()
        invariant
            i <= casks@.len(),
            by_repo.wf(),
            by_repo@ == cask_offers(start, formulae@, casks@, i as int),
        decreases casks@.len() - i,
    {
        let c = &casks[i];
        if let Some(token) = &c.token {
            if !(c.disabled == Some(true) || !c.has_binary || is_formula(formulae, token)) {
                offer_urls(by_repo, (2, token.as_str().as_bytes().len()), token, &c.urls);
            }
        }
        i += 1;
    }
}

} // verus!
