//! Ecosystems that publish their whole package set as one dump (the AUR and
//! nixpkgs) name an upstream URL per package, so packages are matched to
//! repositories exactly. Several packages can point at one repository: each
//! is ranked, lower is better, and the best one is kept, ties going to the
//! smaller name so that the pick does not depend on the order of the dump.

use vstd::prelude::*;
use vstd::string::StringSliceAdditionalSpecFns;
use vstd::utf8::encode_utf8;
use crate::catalog::Ecosystem;
use crate::item::{github_repo, spec_github_repo, Item};
use crate::text::{chars_of, rfind, rfind_char, lemma_rfind, same_text, spec_valid_package_name, string_of, valid_package_name};

verus! {

/// The rank of a candidate package: lower is better.
pub type Rank = (u8, usize);

/// Text order, as `str` compares: character by character, a prefix first.
pub open spec fn text_le(a: Seq<char>, b: Seq<char>) -> bool
    decreases a.len(),
{
    if a.len() == 0 {
        true
    } else if b.len() == 0 {
        false
    } else if a[0] != b[0] {
        a[0] < b[0]
    } else {
        text_le(a.drop_first(), b.drop_first())
    }
}

/// Whether candidate `a` is at least as good as `b`: by rank, then by name.
pub open spec fn at_least_as_good(a: (Rank, Seq<char>), b: (Rank, Seq<char>)) -> bool {
    ||| a.0.0 < b.0.0
    ||| a.0.0 == b.0.0 && a.0.1 < b.0.1
    ||| a.0 == b.0 && text_le(a.1, b.1)
}

/// The table after `name` with `rank` is offered for `repo`: it replaces the
/// kept candidate unless that one is at least as good.
pub open spec fn offered(
    m: Map<Seq<char>, (Rank, Seq<char>)>,
    repo: Seq<char>,
    c: (Rank, Seq<char>),
) -> Map<Seq<char>, (Rank, Seq<char>)> {
    if m.contains_key(repo) && at_least_as_good(m[repo], c) {
        m
    } else {
        m.insert(repo, c)
    }
}

/// The best candidate per repository.
pub struct Offers {
    entries: Vec<(String, Rank, String)>,
}

impl View for Offers {
    type V = Map<Seq<char>, (Rank, Seq<char>)>;

    closed spec fn view(&self) -> Map<Seq<char>, (Rank, Seq<char>)> {
        Map::new(
            |k: Seq<char>| exists|i: int| 0 <= i < self.entries@.len() && self.entries@[i].0@ == k,
            |k: Seq<char>| {
                let i = choose|i: int| 0 <= i < self.entries@.len() && self.entries@[i].0@ == k;
                (self.entries@[i].1, self.entries@[i].2@)
            },
        )
    }
}

impl Offers {
    /// No repository appears twice, and the entries are in text order of
    /// their repositories, so a repository is found by halving.
    pub closed spec fn wf(&self) -> bool {
        &&& forall|i: int, j: int|
            0 <= i < j < self.entries@.len() ==> #[trigger] self.entries@[i].0@ != #[trigger] self.entries@[j].0@
        &&& forall|i: int, j: int|
            0 <= i < j < self.entries@.len() ==> text_le(#[trigger] self.entries@[i].0@, #[trigger] self.entries@[j].0@)
    }

    /// The view through entry `i`, which is the only one of its repository.
    proof fn lemma_entry(&self, i: int)
        requires
            self.wf(),
            0 <= i < self.entries@.len(),
        ensures
            self@.contains_key(self.entries@[i].0@),
            self@[self.entries@[i].0@] == (self.entries@[i].1, self.entries@[i].2@),
    {
        let k = self.entries@[i].0@;
        assert(self@.dom().contains(k));
        let w = choose|w: int| 0 <= w < self.entries@.len() && self.entries@[w].0@ == k;
        assert(w == i);
    }

    /// An empty table.
    pub fn new() -> (r: Offers)
        ensures
            r.wf(),
            r@ == Map::<Seq<char>, (Rank, Seq<char>)>::empty(),
    {
        let r = Offers { entries: Vec::new() };
        assert(r@ =~= Map::<Seq<char>, (Rank, Seq<char>)>::empty());
        r
    }

    /// Where `repo` stands in the table: its entry, or where its entry
    /// would go to keep the text order.
    fn position(&self, repo: &str) -> (r: Result<usize, usize>)
        requires
            self.wf(),
        ensures
            match r {
                Ok(i) => i < self.entries@.len() && self.entries@[i as int].0@ == repo@,
                Err(p) => {
                    &&& p <= self.entries@.len()
                    &&& !self@.contains_key(repo@)
                    &&& forall|j: int| 0 <= j < p ==> text_le(#[trigger] self.entries@[j].0@, repo@)
                    &&& forall|j: int| p <= j < self.entries@.len() ==> text_le(repo@, #[trigger] self.entries@[j].0@)
                },
            },
    {
        let mut lo: usize = 0;
        let mut hi: usize = self.entries.len();
        while lo < hi
            invariant
                self.wf(),
                lo <= hi <= self.entries@.len(),
                forall|j: int| 0 <= j < lo ==> text_le(#[trigger] self.entries@[j].0@, repo@) && self.entries@[j].0@ != repo@,
                forall|j: int| hi <= j < self.entries@.len() ==> text_le(repo@, #[trigger] self.entries@[j].0@) && self.entries@[j].0@ != repo@,
            decreases hi - lo,
        {
            let mid = lo + (hi - lo) / 2;
            let k = self.entries[mid].0.as_str();
            if same_text(k, repo) {
                return Ok(mid);
            }
            if text_at_most(k, repo) {
                proof {
                    assert forall|j: int| 0 <= j <= mid implies text_le(#[trigger] self.entries@[j].0@, repo@)
                        && self.entries@[j].0@ != repo@ by {
                        if j < mid {
                            lemma_text_le_transitive(self.entries@[j].0@, self.entries@[mid as int].0@, repo@);
                            if self.entries@[j].0@ == repo@ {
                                lemma_text_le_antisymmetric(self.entries@[j].0@, self.entries@[mid as int].0@);
                            }
                        }
                    }
                }
                lo = mid + 1;
            } else {
                proof {
                    lemma_text_le_total(k@, repo@);
                    assert forall|j: int| mid <= j < self.entries@.len() implies text_le(repo@, #[trigger] self.entries@[j].0@)
                        && self.entries@[j].0@ != repo@ by {
                        if j > mid {
                            lemma_text_le_transitive(repo@, self.entries@[mid as int].0@, self.entries@[j].0@);
                            if self.entries@[j].0@ == repo@ {
                                lemma_text_le_antisymmetric(self.entries@[j].0@, self.entries@[mid as int].0@);
                            }
                        }
                    }
                }
                hi = mid;
            }
        }
        proof {
            if self@.contains_key(repo@) {
                let w = choose|w: int| 0 <= w < self.entries@.len() && self.entries@[w].0@ == repo@;
                assert(self.entries@[w].0@ == repo@);
            }
        }
        Err(lo)
    }

    /// The candidate kept for `repo`.
    pub fn best(&self, repo: &str) -> (r: Option<(Rank, String)>)
        requires
            self.wf(),
        ensures
            match r {
                Some(c) => self@.contains_key(repo@) && self@[repo@] == (c.0, c.1@),
                None => !self@.contains_key(repo@),
            },
    {
        match self.position(repo) {
            Ok(i) => {
                proof {
                    self.lemma_entry(i as int);
                }
                let e = &self.entries[i];
                let cs = chars_of(e.2.as_str());
                let name = string_of(&cs, 0, cs.len());
                assert(name@ =~= e.2@);
                Some((e.1, name))
            },
            Err(_) => None,
        }
    }

    /// The number of repositories in the table.
    pub fn len(&self) -> (r: usize)
        requires
            self.wf(),
        ensures
            r == self@.dom().len(),
    {
        proof {
            self.lemma_len();
        }
        self.entries.len()
    }

    proof fn lemma_len(&self)
        requires
            self.wf(),
        ensures
            self@.dom().len() == self.entries@.len(),
            self@.dom().finite(),
        decreases self.entries@.len(),
    {
        let keys = self.entries@.map_values(|e: (String, Rank, String)| e.0@);
        assert forall|k: Seq<char>| #[trigger] self@.dom().contains(k) == keys.to_set().contains(k) by {
            if self@.dom().contains(k) {
                let w = choose|w: int| 0 <= w < self.entries@.len() && self.entries@[w].0@ == k;
                assert(keys[w] == k);
            }
            if keys.contains(k) {
                let w = choose|w: int| 0 <= w < keys.len() && keys[w] == k;
                assert(self.entries@[w].0@ == k);
            }
        }
        assert(self@.dom() =~= keys.to_set());
        assert forall|i: int, j: int| 0 <= i < keys.len() && 0 <= j < keys.len() && i != j implies keys[i] != keys[j] by {
            if i < j {
                assert(self.entries@[i].0@ != self.entries@[j].0@);
            } else {
                assert(self.entries@[j].0@ != self.entries@[i].0@);
            }
        }
        keys.unique_seq_to_set();
    }
}

/// Whether `a` comes before or equals `b` in text order.
fn text_at_most(a: &str, b: &str) -> (r: bool)
    ensures
        r == text_le(a@, b@),
{
    let x = chars_of(a);
    let y = chars_of(b);
    let mut i: usize = 0;
    assert(x@.skip(0) =~= x@);
    assert(y@.skip(0) =~= y@);
    while i < x.len() && i < y.len()
        invariant
            i <= x@.len(),
            i <= y@.len(),
            x@.take(i as int) == y@.take(i as int),
            text_le(a@, b@) == text_le(x@.skip(i as int), y@.skip(i as int)),
        decreases x@.len() - i,
    {
        proof {
            assert(x@.skip(i as int)[0] == x@[i as int]);
            assert(y@.skip(i as int)[0] == y@[i as int]);
        }
        if x[i] != y[i] {
            return x[i] < y[i];
        }
        proof {
            assert(x@.skip(i as int).drop_first() =~= x@.skip(i + 1));
            assert(y@.skip(i as int).drop_first() =~= y@.skip(i + 1));
            assert(x@.take(i + 1) =~= x@.take(i as int).push(x@[i as int]));
            assert(y@.take(i + 1) =~= y@.take(i as int).push(y@[i as int]));
        }
        i += 1;
    }
    i == x.len()
}

/// Offers `name`, ranked `rank`, as the package of `repo`.
pub fn offer(by_repo: &mut Offers, repo: String, rank: Rank, name: &str)
    requires
        old(by_repo).wf(),
    ensures
        final(by_repo).wf(),
        final(by_repo)@ == offered(old(by_repo)@, repo@, (rank, name@)),
{
    let ghost before = by_repo@;
    let cs = chars_of(name);
    let owned = string_of(&cs, 0, cs.len());
    assert(owned@ =~= name@);
    match by_repo.position(repo.as_str()) {
        Ok(i) => {
            proof {
                by_repo.lemma_entry(i as int);
            }
            let kept = {
                let e = &by_repo.entries[i];
                e.1.0 < rank.0 || (e.1.0 == rank.0 && e.1.1 < rank.1) || (e.1.0 == rank.0 && e.1.1 == rank.1
                    && text_at_most(e.2.as_str(), name))
            };
            if !kept {
                let ghost b0 = *by_repo;
                by_repo.entries.set(i, (repo, rank, owned));
                proof {
                    lemma_view_set(b0, *by_repo, i as int);
                }
            }
        },
        Err(p) => {
            let ghost b0 = *by_repo;
            let ghost key = repo@;
            let ghost x = (repo, rank, owned);
            by_repo.entries.insert(p, (repo, rank, owned));
            proof {
                b0.entries@.insert_ensures(p as int, x);
                lemma_view_insert(b0, *by_repo, p as int, key);
            }
        },
    }
}

/// Replacing entry `i` by another of the same repository replaces that
/// repository's candidate.
proof fn lemma_view_set(before: Offers, after: Offers, i: int)
    requires
        before.wf(),
        0 <= i < before.entries@.len(),
        after.entries@.len() == before.entries@.len(),
        after.entries@[i].0@ == before.entries@[i].0@,
        forall|j: int| 0 <= j < before.entries@.len() && j != i ==> after.entries@[j] == before.entries@[j],
    ensures
        after.wf(),
        after@ == before@.insert(after.entries@[i].0@, (after.entries@[i].1, after.entries@[i].2@)),
{
    let e = after.entries@[i];
    assert forall|a: int, b: int| 0 <= a < b < after.entries@.len() implies #[trigger] after.entries@[a].0@
        != #[trigger] after.entries@[b].0@ by {
        assert(before.entries@[a].0@ != before.entries@[b].0@);
    }
    assert forall|a: int, b: int| 0 <= a < b < after.entries@.len() implies text_le(
        #[trigger] after.entries@[a].0@,
        #[trigger] after.entries@[b].0@,
    ) by {
        assert(text_le(before.entries@[a].0@, before.entries@[b].0@));
    }
    let m = before@.insert(e.0@, (e.1, e.2@));
    assert forall|k: Seq<char>| #[trigger] after@.dom().contains(k) == m.dom().contains(k) by {
        if after@.dom().contains(k) {
            let w = choose|w: int| 0 <= w < after.entries@.len() && after.entries@[w].0@ == k;
            if w != i {
                assert(before.entries@[w].0@ == k);
            }
        }
        if m.dom().contains(k) {
            if k == e.0@ {
                assert(after.entries@[i].0@ == k);
            } else {
                let w = choose|w: int| 0 <= w < before.entries@.len() && before.entries@[w].0@ == k;
                assert(after.entries@[w].0@ == k);
            }
        }
    }
    assert forall|k: Seq<char>| #[trigger] after@.dom().contains(k) implies after@[k] == m[k] by {
        let w = choose|w: int| 0 <= w < after.entries@.len() && after.entries@[w].0@ == k;
        after.lemma_entry(w);
        if w != i {
            before.lemma_entry(w);
        }
    }
    assert(after@ =~= m);
}

/// Adding an entry for a new repository where the text order puts it adds
/// its candidate.
proof fn lemma_view_insert(before: Offers, after: Offers, p: int, key: Seq<char>)
    requires
        before.wf(),
        0 <= p <= before.entries@.len(),
        after.entries@.len() == before.entries@.len() + 1,
        after.entries@[p].0@ == key,
        forall|j: int| 0 <= j < p ==> after.entries@[j] == before.entries@[j],
        forall|j: int| p < j < after.entries@.len() ==> after.entries@[j] == before.entries@[j - 1],
        !before@.contains_key(key),
        forall|j: int| 0 <= j < p ==> text_le(#[trigger] before.entries@[j].0@, key),
        forall|j: int| p <= j < before.entries@.len() ==> text_le(key, #[trigger] before.entries@[j].0@),
    ensures
        after.wf(),
        after@ == before@.insert(key, (after.entries@[p].1, after.entries@[p].2@)),
{
    let n = before.entries@.len() as int;
    let e = after.entries@[p];
    assert forall|j: int| 0 <= j < n implies #[trigger] before.entries@[j].0@ != key by {
        if before.entries@[j].0@ == key {
            assert(before@.dom().contains(key));
        }
    }
    assert forall|a: int, b: int| 0 <= a < b < after.entries@.len() implies #[trigger] after.entries@[a].0@
        != #[trigger] after.entries@[b].0@ by {
        if a < p && b < p {
            assert(before.entries@[a].0@ != before.entries@[b].0@);
        } else if a < p && b == p {
            assert(before.entries@[a].0@ != key);
        } else if a < p {
            assert(before.entries@[a].0@ != before.entries@[b - 1].0@);
        } else if a == p {
            assert(before.entries@[b - 1].0@ != key);
        } else {
            assert(before.entries@[a - 1].0@ != before.entries@[b - 1].0@);
        }
    }
    assert forall|a: int, b: int| 0 <= a < b < after.entries@.len() implies text_le(
        #[trigger] after.entries@[a].0@,
        #[trigger] after.entries@[b].0@,
    ) by {
        if a < p && b < p {
            assert(text_le(before.entries@[a].0@, before.entries@[b].0@));
        } else if a < p && b == p {
            assert(text_le(before.entries@[a].0@, key));
        } else if a < p {
            assert(text_le(before.entries@[a].0@, key));
            assert(text_le(key, before.entries@[b - 1].0@));
            lemma_text_le_transitive(before.entries@[a].0@, key, before.entries@[b - 1].0@);
        } else if a == p {
            assert(text_le(key, before.entries@[b - 1].0@));
        } else {
            assert(text_le(before.entries@[a - 1].0@, before.entries@[b - 1].0@));
        }
    }
    let m = before@.insert(key, (e.1, e.2@));
    assert forall|k: Seq<char>| #[trigger] after@.dom().contains(k) == m.dom().contains(k) by {
        if after@.dom().contains(k) {
            let w = choose|w: int| 0 <= w < after.entries@.len() && after.entries@[w].0@ == k;
            if w < p {
                assert(before.entries@[w].0@ == k);
            } else if w > p {
                assert(before.entries@[w - 1].0@ == k);
            }
        }
        if m.dom().contains(k) {
            if k == key {
                assert(after.entries@[p].0@ == k);
            } else {
                let w = choose|w: int| 0 <= w < before.entries@.len() && before.entries@[w].0@ == k;
                if w < p {
                    assert(after.entries@[w].0@ == k);
                } else {
                    assert(after.entries@[w + 1].0@ == k);
                }
            }
        }
    }
    assert forall|k: Seq<char>| #[trigger] after@.dom().contains(k) implies after@[k] == m[k] by {
        let w = choose|w: int| 0 <= w < after.entries@.len() && after.entries@[w].0@ == k;
        after.lemma_entry(w);
        if w < p {
            before.lemma_entry(w);
        } else if w > p {
            before.lemma_entry(w - 1);
        }
    }
    assert(after@ =~= m);
}

/// Text order is total.
pub proof fn lemma_text_le_total(a: Seq<char>, b: Seq<char>)
    ensures
        text_le(a, b) || text_le(b, a),
    decreases a.len(),
{
    if a.len() > 0 && b.len() > 0 && a[0] == b[0] {
        lemma_text_le_total(a.drop_first(), b.drop_first());
    }
}

/// Text order is antisymmetric.
pub proof fn lemma_text_le_antisymmetric(a: Seq<char>, b: Seq<char>)
    requires
        text_le(a, b),
        text_le(b, a),
    ensures
        a == b,
    decreases a.len(),
{
    if a.len() > 0 && b.len() > 0 {
        lemma_text_le_antisymmetric(a.drop_first(), b.drop_first());
        assert(a =~= seq![a[0]] + a.drop_first());
        assert(b =~= seq![b[0]] + b.drop_first());
    }
}

/// Text order is transitive.
pub proof fn lemma_text_le_transitive(a: Seq<char>, b: Seq<char>, c: Seq<char>)
    requires
        text_le(a, b),
        text_le(b, c),
    ensures
        text_le(a, c),
    decreases a.len(),
{
    if a.len() > 0 && b.len() > 0 && c.len() > 0 && a[0] == b[0] && b[0] == c[0] {
        lemma_text_le_transitive(a.drop_first(), b.drop_first(), c.drop_first());
    }
}

/// The pick does not depend on the order of the dump: offering two
/// candidates for a repository in either order keeps the same one.
pub proof fn law_offers_commute(
    m: Map<Seq<char>, (Rank, Seq<char>)>,
    repo: Seq<char>,
    a: (Rank, Seq<char>),
    b: (Rank, Seq<char>),
)
    ensures
        offered(offered(m, repo, a), repo, b) == offered(offered(m, repo, b), repo, a),
{
    lemma_text_le_total(a.1, b.1);
    if text_le(a.1, b.1) && text_le(b.1, a.1) {
        lemma_text_le_antisymmetric(a.1, b.1);
    }
    if m.contains_key(repo) {
        let c = m[repo];
        lemma_text_le_total(c.1, a.1);
        lemma_text_le_total(c.1, b.1);
        if text_le(c.1, a.1) && text_le(a.1, c.1) {
            lemma_text_le_antisymmetric(c.1, a.1);
        }
        if text_le(c.1, b.1) && text_le(b.1, c.1) {
            lemma_text_le_antisymmetric(c.1, b.1);
        }
        if text_le(a.1, c.1) && text_le(c.1, b.1) {
            lemma_text_le_transitive(a.1, c.1, b.1);
        }
        if text_le(b.1, c.1) && text_le(c.1, a.1) {
            lemma_text_le_transitive(b.1, c.1, a.1);
        }
        if text_le(c.1, a.1) && text_le(a.1, b.1) {
            lemma_text_le_transitive(c.1, a.1, b.1);
        }
        if text_le(c.1, b.1) && text_le(b.1, a.1) {
            lemma_text_le_transitive(c.1, b.1, a.1);
        }
        if text_le(a.1, b.1) && text_le(b.1, c.1) {
            lemma_text_le_transitive(a.1, b.1, c.1);
        }
        if text_le(b.1, a.1) && text_le(a.1, c.1) {
            lemma_text_le_transitive(b.1, a.1, c.1);
        }
    }
    assert(offered(offered(m, repo, a), repo, b) =~= offered(offered(m, repo, b), repo, a));
}

/// The suffix after the last `-` of an AUR package name, if there is one.
pub open spec fn dash_suffix(name: Seq<char>) -> Option<Seq<char>> {
    let k = rfind(name, '-', name.len() as int);
    if k >= 0 {
        Some(name.skip(k + 1))
    } else {
        None
    }
}

/// How an AUR package is built: the plain package first, then `-bin` (no
/// compile), then development and debug builds.
pub open spec fn spec_aur_flavour(name: Seq<char>) -> u8 {
    match dash_suffix(name) {
        Some(s) => if s == "bin"@ {
            1
        } else if s == "git"@ || s == "nightly"@ || s == "beta"@ || s == "debug"@ {
            2
        } else {
            0
        },
        None => 0,
    }
}

/// The flavour rank of an AUR package name.
pub fn aur_flavour(name: &str) -> (r: u8)
    ensures
        r == spec_aur_flavour(name@),
{
    let cs = chars_of(name);
    proof {
        lemma_rfind(cs@, '-', cs@.len() as int);
    }
    match rfind_char(&cs, '-', cs.len()) {
        Some(k) => {
            let suffix = string_of(&cs, k + 1, cs.len());
            proof {
                assert(cs@.subrange(k + 1, cs@.len() as int) =~= cs@.skip(k + 1));
            }
            if same_text(suffix.as_str(), "bin") {
                1
            } else if same_text(suffix.as_str(), "git") || same_text(suffix.as_str(), "nightly") || same_text(
                suffix.as_str(),
                "beta",
            ) || same_text(suffix.as_str(), "debug") {
                2
            } else {
                0
            }
        },
        None => 0,
    }
}

/// The number of `.` in `s`.
pub open spec fn dots(s: Seq<char>) -> nat
    decreases s.len(),
{
    if s.len() == 0 {
        0
    } else {
        dots(s.drop_last()) + if s.last() == '.' {
            1nat
        } else {
            0nat
        }
    }
}

/// How deep a nixpkgs attribute path is nested, up to 255: top-level
/// attributes rank before the sets of language bindings.
pub fn nix_nesting(attr: &str) -> (r: u8)
    ensures
        r == (if dots(attr@) < 255 {
            dots(attr@)
        } else {
            255
        }),
{
    let cs = chars_of(attr);
    let mut n: usize = 0;
    let mut i: usize = 0;
    while i < cs.len()
        invariant
            i <= cs@.len(),
            n == (if dots(cs@.take(i as int)) < 255 {
                dots(cs@.take(i as int))
            } else {
                255
            }),
        decreases cs@.len() - i,
    {
        assert(cs@.take(i + 1).drop_last() =~= cs@.take(i as int));
        if cs[i] == '.' && n < 255 {
            n += 1;
        }
        i += 1;
    }
    assert(cs@.take(cs@.len() as int) =~= cs@);
    n as u8
}

/// One package of the AUR metadata dump, as far as matching reads it.
pub struct AurPackage {
    pub name: String,
    pub url: Option<String>,
    /// When the package was flagged out of date, if it was.
    pub out_of_date: Option<u64>,
}

/// The byte length of a text.
pub open spec fn byte_len(s: Seq<char>) -> usize {
    encode_utf8(s).len() as usize
}

/// What one AUR package offers: a current package with a valid name and a
/// GitHub URL is offered for that repository, ranked by flavour, then by
/// the length of its name.
pub open spec fn aur_step(m: Map<Seq<char>, (Rank, Seq<char>)>, p: AurPackage) -> Map<Seq<char>, (Rank, Seq<char>)> {
    if p.out_of_date is None && spec_valid_package_name(encode_utf8(p.name@)) {
        match p.url {
            Some(u) => match spec_github_repo(u@) {
                Some(repo) => offered(m, repo, ((spec_aur_flavour(p.name@), byte_len(p.name@)), p.name@)),
                None => m,
            },
            None => m,
        }
    } else {
        m
    }
}

/// The best AUR package per repository, offered in dump order.
pub open spec fn aur_offers(ps: Seq<AurPackage>) -> Map<Seq<char>, (Rank, Seq<char>)>
    decreases ps.len(),
{
    if ps.len() == 0 {
        Map::empty()
    } else {
        aur_step(aur_offers(ps.drop_last()), ps.last())
    }
}

/// Ranks every package of the AUR dump by repository.
pub fn aur_by_repo(packages: &Vec<AurPackage>) -> (r: Offers)
    ensures
        r.wf(),
        r@ == aur_offers(packages@),
{
    let mut by_repo = Offers::new();
    let mut i: usize = 0;
    while i < packages.len()
        invariant
            i <= packages@.len(),
            by_repo.wf(),
            by_repo@ == aur_offers(packages@.take(i as int)),
        decreases packages@.len() - i,
    {
        let p = &packages[i];
        assert(packages@.take(i + 1).drop_last() =~= packages@.take(i as int));
        if p.out_of_date.is_none() && valid_package_name(p.name.as_str()) {
            match &p.url {
                Some(u) => match github_repo(u.as_str()) {
                    Some(repo) => {
                        let len = p.name.as_str().as_bytes().len();
                        offer(&mut by_repo, repo, (aur_flavour(p.name.as_str()), len), p.name.as_str());
                    },
                    None => {},
                },
                None => {},
            }
        }
        i += 1;
    }
    assert(packages@.take(packages@.len() as int) =~= packages@);
    by_repo
}

/// One attribute of the nixpkgs dump, with the homepages its metadata lists.
pub struct NixPackage {
    /// The attribute path, which `nix-env -iA` takes.
    pub attr: String,
    pub homepages: Vec<String>,
}

/// The nesting rank of an attribute path: its dots, up to 255.
pub open spec fn spec_nesting(attr: Seq<char>) -> u8 {
    if dots(attr) < 255 {
        dots(attr) as u8
    } else {
        255
    }
}

/// Offers attribute `attr` for the repository of each homepage in `urls`.
pub open spec fn nix_urls_step(m: Map<Seq<char>, (Rank, Seq<char>)>, attr: Seq<char>, urls: Seq<String>) -> Map<Seq<char>, (Rank, Seq<char>)>
    decreases urls.len(),
{
    if urls.len() == 0 {
        m
    } else {
        let prev = nix_urls_step(m, attr, urls.drop_last());
        match spec_github_repo(urls.last()@) {
            Some(repo) => offered(prev, repo, ((spec_nesting(attr), byte_len(attr)), attr)),
            None => prev,
        }
    }
}

/// What one attribute offers: an attribute with a valid name is offered for
/// the repository of each of its GitHub homepages, ranked by nesting, then
/// by the length of its path.
pub open spec fn nix_step(m: Map<Seq<char>, (Rank, Seq<char>)>, p: NixPackage) -> Map<Seq<char>, (Rank, Seq<char>)> {
    if spec_valid_package_name(encode_utf8(p.attr@)) {
        nix_urls_step(m, p.attr@, p.homepages@)
    } else {
        m
    }
}

/// The best attribute per repository, offered in the given order.
pub open spec fn nix_offers(ps: Seq<NixPackage>) -> Map<Seq<char>, (Rank, Seq<char>)>
    decreases ps.len(),
{
    if ps.len() == 0 {
        Map::empty()
    } else {
        nix_step(nix_offers(ps.drop_last()), ps.last())
    }
}

/// Ranks every attribute of the nixpkgs dump by repository.
pub fn nix_by_repo(packages: &Vec<NixPackage>) -> (r: Offers)
    ensures
        r.wf(),
        r@ == nix_offers(packages@),
{
    let mut by_repo = Offers::new();
    let mut i: usize = 0;
    while i < packages.len()
        invariant
            i <= packages@.len(),
            by_repo.wf(),
            by_repo@ == nix_offers(packages@.take(i as int)),
        decreases packages@.len() - i,
    {
        let p = &packages[i];
        assert(packages@.take(i + 1).drop_last() =~= packages@.take(i as int));
        if valid_package_name(p.attr.as_str()) {
            let nesting = nix_nesting(p.attr.as_str());
            let len = p.attr.as_str().as_bytes().len();
            let ghost start = by_repo@;
            let mut j: usize = 0;
            while j < p.homepages.len()
                invariant
                    j <= p.homepages@.len(),
                    by_repo.wf(),
                    nesting == spec_nesting(p.attr@),
                    len == byte_len(p.attr@),
                    by_repo@ == nix_urls_step(start, p.attr@, p.homepages@.take(j as int)),
                decreases p.homepages@.len() - j,
            {
                assert(p.homepages@.take(j + 1).drop_last() =~= p.homepages@.take(j as int));
                match github_repo(p.homepages[j].as_str()) {
                    Some(repo) => {
                        offer(&mut by_repo, repo, (nesting, len), p.attr.as_str());
                    },
                    None => {},
                }
                j += 1;
            }
            assert(p.homepages@.take(p.homepages@.len() as int) =~= p.homepages@);
        }
        i += 1;
    }
    assert(packages@.take(packages@.len() as int) =~= packages@);
    by_repo
}

/// The package an entry gets from a table: the one kept for its repository,
/// else the one kept for the repository's former name.
pub open spec fn assigned(item: Item, m: Map<Seq<char>, (Rank, Seq<char>)>) -> Option<Seq<char>> {
    let by_repo = match item.repo {
        Some(r) => if m.contains_key(r@) {
            Some(m[r@].1)
        } else {
            None
        },
        None => None,
    };
    match by_repo {
        Some(n) => Some(n),
        None => match item.former_repo {
            Some(f) => if m.contains_key(f@) {
                Some(m[f@].1)
            } else {
                None
            },
            None => None,
        },
    }
}

/// The verdicts for `items`, in order: entry index, ecosystem, package.
pub open spec fn spec_assign(items: Seq<Item>, eco: Ecosystem, m: Map<Seq<char>, (Rank, Seq<char>)>) -> Seq<(usize, Ecosystem, Seq<char>)>
    decreases items.len(),
{
    if items.len() == 0 {
        seq![]
    } else {
        let prev = spec_assign(items.drop_last(), eco, m);
        match assigned(items.last(), m) {
            Some(n) => prev.push(((items.len() - 1) as usize, eco, n)),
            None => prev,
        }
    }
}

/// A verdict with its package name as text.
pub open spec fn found_view(f: (usize, Ecosystem, String)) -> (usize, Ecosystem, Seq<char>) {
    (f.0, f.1, f.2@)
}

/// Gives each entry the package kept for its repository (or its former one)
/// in `eco`. A library's distro package is the library itself, which is
/// what installing a library entry means, so libraries are kept too.
pub fn assign(items: &Vec<Item>, eco: Ecosystem, by_repo: &Offers) -> (r: Vec<(usize, Ecosystem, String)>)
    requires
        by_repo.wf(),
    ensures
        r@.map_values(|f: (usize, Ecosystem, String)| found_view(f)) == spec_assign(items@, eco, by_repo@),
{
    let mut out: Vec<(usize, Ecosystem, String)> = Vec::new();
    let mut i: usize = 0;
    while i < items.len()
        invariant
            i <= items@.len(),
            by_repo.wf(),
            out@.map_values(|f: (usize, Ecosystem, String)| found_view(f)) == spec_assign(
                items@.take(i as int),
                eco,
                by_repo@,
            ),
        decreases items@.len() - i,
    {
        let item = &items[i];
        assert(items@.take(i + 1).drop_last() =~= items@.take(i as int));
        let mut hit = match &item.repo {
            Some(r) => by_repo.best(r.as_str()),
            None => None,
        };
        if hit.is_none() {
            hit = match &item.former_repo {
                Some(f) => by_repo.best(f.as_str()),
                None => None,
            };
        }
        let ghost before = out@;
        match hit {
            Some((_, name)) => {
                out.push((i, eco, name));
                assert(out@.map_values(|f: (usize, Ecosystem, String)| found_view(f)) =~= before.map_values(
                    |f: (usize, Ecosystem, String)| found_view(f),
                ).push((i, eco, name@)));
            },
            None => {},
        }
        i += 1;
    }
    assert(items@.take(items@.len() as int) =~= items@);
    out
}

/// What `flate2`'s gzip decoder reads from `raw`, or `None` when it reports
/// an error: a function of the bytes alone.
pub uninterp spec fn gunzip_of(raw: Seq<u8>) -> Option<Seq<u8>>;

/// What `brotli_decompressor`'s reader reads from `raw`, or `None` when it
/// reports an error: a function of the bytes alone.
pub uninterp spec fn unbrotli_of(raw: Seq<u8>) -> Option<Seq<u8>>;

/// `flate2::read::GzDecoder` read to its end over `raw`. The contract claims
/// only that the result is the named function of the input bytes.
#[verifier::external_body]
fn gunzip(raw: &[u8]) -> (r: Option<Vec<u8>>)
    ensures
        match r {
            Some(v) => gunzip_of(raw@) == Some(v@),
            None => gunzip_of(raw@) is None,
        },
{
    let mut out = Vec::new();
    match std::io::Read::read_to_end(&mut flate2::read::GzDecoder::new(raw), &mut out) {
        Ok(_) => Some(out),
        Err(_) => None,
    }
}

/// `brotli_decompressor::Decompressor` read to its end over `raw`, with a
/// 64 KiB buffer. The contract claims only that the result is the named
/// function of the input bytes.
#[verifier::external_body]
fn unbrotli(raw: &[u8]) -> (r: Option<Vec<u8>>)
    ensures
        match r {
            Some(v) => unbrotli_of(raw@) == Some(v@),
            None => unbrotli_of(raw@) is None,
        },
{
    let mut out = Vec::new();
    match std::io::Read::read_to_end(&mut brotli_decompressor::Decompressor::new(raw, 65536), &mut out) {
        Ok(_) => Some(out),
        Err(_) => None,
    }
}

/// The AUR publishes its package metadata as gzip-compressed JSON: the
/// JSON, or `None` when the download is no gzip stream.
pub fn aur_dump_json(raw: &[u8]) -> (r: Option<Vec<u8>>)
    ensures
        match r {
            Some(v) => gunzip_of(raw@) == Some(v@),
            None => gunzip_of(raw@) is None,
        },
{
    gunzip(raw)
}

/// nixpkgs publishes its package set as brotli-compressed JSON: the JSON,
/// or `None` when the download is no brotli stream.
pub fn nix_dump_json(raw: &[u8]) -> (r: Option<Vec<u8>>)
    ensures
        match r {
            Some(v) => unbrotli_of(raw@) == Some(v@),
            None => unbrotli_of(raw@) is None,
        },
{
    unbrotli(raw)
}

} // verus!
