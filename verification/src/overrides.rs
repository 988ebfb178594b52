//! Hand-curated corrections, applied after every resolver so that a human
//! always has the last word: an entry can be dropped, an automatic match
//! removed, or a package named outright. A correction that names an unknown
//! ecosystem or an unsafe package name is refused as a whole, so a typo
//! cannot silently disable it.

use vstd::prelude::*;
use vstd::string::StringSliceAdditionalSpecFns;
use vstd::utf8::encode_utf8;

use crate::catalog::{spec_eco_name, Ecosystem};
use crate::item::{ascii_lowercase, opt_text, packages_view, spec_slot, Item};
use crate::release::lower_chars;
use crate::text::{spec_valid_package_name, string_of, chars_of, valid_package_name};

verus! {

/// One correction, keyed by the repository as listed.
pub struct Override {
    /// GitHub `owner/name`, matched without regard to case.
    pub repo: String,
    /// Drop the entry from the index altogether.
    pub exclude: bool,
    /// Ecosystem name and package name, in the order of the ecosystem
    /// names; adds to or replaces automatic matches.
    pub packages: Vec<(String, String)>,
    /// Ecosystems whose automatic match is wrong.
    pub remove: Vec<String>,
}

/// Every correction of the overrides file.
pub struct Overrides {
    pub entries: Vec<Override>,
}

/// Why a correction is refused.
#[derive(Debug, PartialEq, Eq)]
pub enum OverrideError {
    UnknownEcosystem { repo: String, ecosystem: String },
    InvalidPackage { repo: String, package: String },
}

/// The ecosystem called `name`.
pub open spec fn eco_named(name: Seq<char>) -> Option<Ecosystem> {
    if exists|e: Ecosystem| spec_eco_name(e) == name {
        Some(choose|e: Ecosystem| spec_eco_name(e) == name)
    } else {
        None
    }
}

/// The ecosystem names a correction uses: those it sets, then those it removes.
pub open spec fn eco_names(o: Override) -> Seq<Seq<char>> {
    o.packages@.map_values(|p: (String, String)| p.0@) + o.remove@.map_values(|s: String| s@)
}

/// The first name among the first `n` that names no ecosystem.
pub open spec fn first_unknown(names: Seq<Seq<char>>, n: int) -> Option<int>
    decreases n,
{
    if n <= 0 {
        None
    } else {
        match first_unknown(names, n - 1) {
            Some(k) => Some(k),
            None => if eco_named(names[n - 1]) is None {
                Some(n - 1)
            } else {
                None
            },
        }
    }
}

/// The first package among the first `n` whose name is unsafe.
pub open spec fn first_unsafe(pkgs: Seq<(String, String)>, n: int) -> Option<int>
    decreases n,
{
    if n <= 0 {
        None
    } else {
        match first_unsafe(pkgs, n - 1) {
            Some(k) => Some(k),
            None => if !spec_valid_package_name(encode_utf8(pkgs[n - 1].1@)) {
                Some(n - 1)
            } else {
                None
            },
        }
    }
}

/// What is wrong with one correction, as (unknown ecosystem?, repo, text).
pub open spec fn entry_fault(o: Override) -> Option<(bool, Seq<char>, Seq<char>)> {
    let names = eco_names(o);
    match first_unknown(names, names.len() as int) {
        Some(k) => Some((true, o.repo@, names[k])),
        None => match first_unsafe(o.packages@, o.packages@.len() as int) {
            Some(k) => Some((false, o.repo@, o.packages@[k].1@)),
            None => None,
        },
    }
}

/// The fault of the first faulty correction among the first `n`.
pub open spec fn first_fault(os: Seq<Override>, n: int) -> Option<(bool, Seq<char>, Seq<char>)>
    decreases n,
{
    if n <= 0 {
        None
    } else {
        match first_fault(os, n - 1) {
            Some(f) => Some(f),
            None => entry_fault(os[n - 1]),
        }
    }
}

/// An error as (unknown ecosystem?, repo, text).
pub open spec fn error_view(e: OverrideError) -> (bool, Seq<char>, Seq<char>) {
    match e {
        OverrideError::UnknownEcosystem { repo, ecosystem } => (true, repo@, ecosystem@),
        OverrideError::InvalidPackage { repo, package } => (false, repo@, package@),
    }
}

/// The ecosystem called `name`, if any.
fn eco_of(name: &String) -> (r: Option<Ecosystem>)
    ensures
        r == eco_named(name@),
{
    let r = Ecosystem::from_name(name.as_str());
    proof {
        match r {
            Some(e) => {
                assert(spec_eco_name(e) == name@);
                let c = choose|c: Ecosystem| spec_eco_name(c) == name@;
                crate::catalog::lemma_eco_name_injective(c, e);
            },
            None => {},
        }
    }
    r
}

fn copy_text(s: &String) -> (r: String)
    ensures
        r@ == s@,
{
    let cs = chars_of(s.as_str());
    let r = string_of(&cs, 0, cs.len());
    assert(r@ =~= s@);
    r
}

/// The fault of one correction, if it has one.
fn check_entry(o: &Override) -> (r: Result<(), OverrideError>)
    ensures
        match r {
            Ok(()) => entry_fault(*o) is None,
            Err(e) => entry_fault(*o) == Some(error_view(e)),
        },
{
    let ghost names = eco_names(*o);
    let np = o.packages.len();
    assert(names.len() == np + o.remove@.len());
    let mut k: usize = 0;
    while k < np
        invariant
            np == o.packages@.len(),
            names == eco_names(*o),
            names.len() == np + o.remove@.len(),
            k <= np,
            first_unknown(names, k as int) is None,
        decreases np - k,
    {
        assert(o.packages@[k as int].0@ == names[k as int]);
        if eco_of(&o.packages[k].0).is_none() {
            proof {
                lemma_first_unknown_stays(names, k + 1, names.len() as int);
            }
            return Err(OverrideError::UnknownEcosystem { repo: copy_text(&o.repo), ecosystem: copy_text(&o.packages[k].0) });
        }
        k += 1;
    }
    let mut r: usize = 0;
    while r < o.remove.len()
        invariant
            np == o.packages@.len(),
            names == eco_names(*o),
            names.len() == np + o.remove@.len(),
            r <= o.remove@.len(),
            first_unknown(names, np + r) is None,
        decreases o.remove@.len() - r,
    {
        assert(o.remove@[r as int]@ == names[np + r]);
        if eco_of(&o.remove[r]).is_none() {
            proof {
                lemma_first_unknown_stays(names, np + r + 1, names.len() as int);
            }
            return Err(OverrideError::UnknownEcosystem { repo: copy_text(&o.repo), ecosystem: copy_text(&o.remove[r]) });
        }
        r += 1;
    }
    let mut j: usize = 0;
    while j < np
        invariant
            np == o.packages@.len(),
            names == eco_names(*o),
            first_unknown(names, names.len() as int) is None,
            j <= np,
            first_unsafe(o.packages@, j as int) is None,
        decreases np - j,
    {
        if !valid_package_name(o.packages[j].1.as_str()) {
            proof {
                lemma_first_unsafe_stays(o.packages@, j + 1, np as int);
            }
            return Err(OverrideError::InvalidPackage { repo: copy_text(&o.repo), package: copy_text(&o.packages[j].1) });
        }
        j += 1;
    }
    Ok(())
}

proof fn lemma_first_unknown_stays(names: Seq<Seq<char>>, n: int, m: int)
    requires
        0 < n <= m,
        first_unknown(names, n) is Some,
    ensures
        first_unknown(names, m) == first_unknown(names, n),
    decreases m - n,
{
    if n < m {
        lemma_first_unknown_stays(names, n, m - 1);
    }
}

proof fn lemma_first_unsafe_stays(pkgs: Seq<(String, String)>, n: int, m: int)
    requires
        0 < n <= m,
        first_unsafe(pkgs, n) is Some,
    ensures
        first_unsafe(pkgs, m) == first_unsafe(pkgs, n),
    decreases m - n,
{
    if n < m {
        lemma_first_unsafe_stays(pkgs, n, m - 1);
    }
}

proof fn lemma_first_fault_stays(os: Seq<Override>, n: int, m: int)
    requires
        0 < n <= m,
        first_fault(os, n) is Some,
    ensures
        first_fault(os, m) == first_fault(os, n),
    decreases m - n,
{
    if n < m {
        lemma_first_fault_stays(os, n, m - 1);
    }
}

impl Overrides {
    /// Refuses the file when any correction names an unknown ecosystem or an
    /// unsafe package name: the first such fault, in file order.
    pub fn check(&self) -> (r: Result<(), OverrideError>)
        ensures
            match r {
                Ok(()) => first_fault(self.entries@, self.entries@.len() as int) is None,
                Err(e) => first_fault(self.entries@, self.entries@.len() as int) == Some(error_view(e)),
            },
    {
        let mut i: usize = 0;
        while i < self.entries.len()
            invariant
                i <= self.entries@.len(),
                first_fault(self.entries@, i as int) is None,
            decreases self.entries@.len() - i,
        {
            match check_entry(&self.entries[i]) {
                Ok(()) => {},
                Err(e) => {
                    proof {
                        lemma_first_fault_stays(self.entries@, i + 1, self.entries@.len() as int);
                    }
                    return Err(e);
                },
            }
            i += 1;
        }
        Ok(())
    }
}

/// Whether `item` is the entry of the repository key `key`, now or before a rename.
pub open spec fn names_repo(item: Item, key: Seq<char>) -> bool {
    opt_text(item.repo) == Some(key) || opt_text(item.former_repo) == Some(key)
}

/// The first row among the first `n` whose entry is that of `key`.
pub open spec fn first_row(items: Seq<Item>, rows: Seq<(int, Seq<Option<Seq<char>>>)>, key: Seq<char>, n: int) -> Option<int>
    decreases n,
{
    if n <= 0 {
        None
    } else {
        match first_row(items, rows, key, n - 1) {
            Some(k) => Some(k),
            None => if names_repo(items[rows[n - 1].0], key) {
                Some(n - 1)
            } else {
                None
            },
        }
    }
}

/// The packages after the removals `names`, in order (unknown names do nothing).
pub open spec fn removed(pkgs: Seq<Option<Seq<char>>>, names: Seq<String>) -> Seq<Option<Seq<char>>>
    decreases names.len(),
{
    if names.len() == 0 {
        pkgs
    } else {
        let prev = removed(pkgs, names.drop_last());
        match eco_named(names.last()@) {
            Some(e) => prev.update(spec_slot(e), None),
            None => prev,
        }
    }
}

/// The packages after setting `sets`, in order: unknown ecosystems and
/// unsafe names do nothing.
pub open spec fn set_all(pkgs: Seq<Option<Seq<char>>>, sets: Seq<(String, String)>) -> Seq<Option<Seq<char>>>
    decreases sets.len(),
{
    if sets.len() == 0 {
        pkgs
    } else {
        let prev = set_all(pkgs, sets.drop_last());
        let (eco, pkg) = sets.last();
        match eco_named(eco@) {
            Some(e) => if spec_valid_package_name(encode_utf8(pkg@)) {
                prev.update(spec_slot(e), Some(pkg@))
            } else {
                prev
            },
            None => prev,
        }
    }
}

/// One correction applied to the rows, each row naming the original entry it
/// holds and that entry's packages: the first row of the repository is
/// dropped, or has the removals and then the settings applied to it. A
/// correction matching no entry does nothing.
pub open spec fn apply_one(o: Override, items: Seq<Item>, rows: Seq<(int, Seq<Option<Seq<char>>>)>) -> Seq<(int, Seq<Option<Seq<char>>>)> {
    match first_row(items, rows, lower_chars(o.repo@), rows.len() as int) {
        None => rows,
        Some(k) => if o.exclude {
            rows.remove(k)
        } else {
            rows.update(k, (rows[k].0, set_all(removed(rows[k].1, o.remove@), o.packages@)))
        },
    }
}

/// The rows after the first `n` corrections.
pub open spec fn spec_apply(os: Seq<Override>, items: Seq<Item>, n: int) -> Seq<(int, Seq<Option<Seq<char>>>)>
    decreases n,
{
    if n <= 0 {
        Seq::new(items.len(), |i: int| (i, packages_view(items[i].packages@)))
    } else {
        apply_one(os[n - 1], items, spec_apply(os, items, n - 1))
    }
}

/// `rows` describes `now` against the original entries `items`: row `k` is
/// original entry `rows[k].0` with the packages `rows[k].1`.
pub open spec fn described(items: Seq<Item>, now: Seq<Item>, rows: Seq<(int, Seq<Option<Seq<char>>>)>) -> bool {
    &&& now.len() == rows.len()
    &&& forall|k: int|
        0 <= k < rows.len() ==> {
            &&& 0 <= (#[trigger] rows[k]).0 < items.len()
            &&& now[k] == (Item { packages: now[k].packages, ..items[rows[k].0] })
            &&& now[k].packages_ok()
            &&& packages_view(now[k].packages@) == rows[k].1
        }
}

impl Overrides {
    /// Applies every correction in file order.
    pub fn apply(&self, items: &mut Vec<Item>)
        requires
            forall|i: int| 0 <= i < old(items)@.len() ==> (#[trigger] old(items)@[i]).packages_ok(),
        ensures
            described(old(items)@, final(items)@, spec_apply(self.entries@, old(items)@, self.entries@.len() as int)),
    {
        let ghost orig = items@;
        assert(described(orig, items@, spec_apply(self.entries@, orig, 0)));
        let mut i: usize = 0;
        while i < self.entries.len()
            invariant
                i <= self.entries@.len(),
                described(orig, items@, spec_apply(self.entries@, orig, i as int)),
            decreases self.entries@.len() - i,
        {
            apply_entry(&self.entries[i], items, Ghost(orig), Ghost(spec_apply(self.entries@, orig, i as int)));
            i += 1;
        }
    }
}

/// The first row whose entry is that of `key`.
fn find_row(
    items: &Vec<Item>,
    key: &String,
    Ghost(orig): Ghost<Seq<Item>>,
    Ghost(rows): Ghost<Seq<(int, Seq<Option<Seq<char>>>)>>,
) -> (r: Option<usize>)
    requires
        described(orig, items@, rows),
    ensures
        match r {
            Some(k) => k < items@.len() && first_row(orig, rows, key@, rows.len() as int) == Some(k as int),
            None => first_row(orig, rows, key@, rows.len() as int) is None,
        },
{
    let mut k: usize = 0;
    while k < items.len()
        invariant
            described(orig, items@, rows),
            k <= items@.len(),
            first_row(orig, rows, key@, k as int) is None,
        decreases items@.len() - k,
    {
        assert(names_repo(items@[k as int], key@) == names_repo(orig[rows[k as int].0], key@));
        if items[k].is_repo(key.as_str()) {
            proof {
                lemma_first_row_stays(orig, rows, key@, k + 1, rows.len() as int);
            }
            return Some(k);
        }
        k += 1;
    }
    None
}

/// Applies one correction.
fn apply_entry(
    o: &Override,
    items: &mut Vec<Item>,
    Ghost(orig): Ghost<Seq<Item>>,
    Ghost(rows): Ghost<Seq<(int, Seq<Option<Seq<char>>>)>>,
)
    requires
        described(orig, old(items)@, rows),
    ensures
        described(orig, final(items)@, apply_one(*o, orig, rows)),
{
    let key = ascii_lowercase(o.repo.as_str());
    let k = match find_row(items, &key, Ghost(orig), Ghost(rows)) {
        Some(k) => k,
        None => {
            return;
        },
    };
    if o.exclude {
        items.remove(k);
        assert forall|j: int| 0 <= j < rows.remove(k as int).len() implies 0 <= (#[trigger] rows.remove(k as int)[j]).0 < orig.len() by {
            if j < k {
                assert(rows.remove(k as int)[j] == rows[j]);
            } else {
                assert(rows.remove(k as int)[j] == rows[j + 1]);
            }
        }
        assert forall|j: int| 0 <= j < rows.remove(k as int).len() implies items@[j] == (Item { packages: items@[j].packages, ..orig[(#[trigger] rows.remove(k as int)[j]).0] }) && items@[j].packages_ok() && packages_view(items@[j].packages@) == rows.remove(k as int)[j].1 by {
            if j < k {
                assert(rows.remove(k as int)[j] == rows[j]);
            } else {
                assert(rows.remove(k as int)[j] == rows[j + 1]);
            }
        }
        return;
    }
    assert(0 <= rows[k as int].0 && items@[k as int].packages_ok());
    let mut item = items.remove(k);
    let ghost start = item;
    let mut r: usize = 0;
    while r < o.remove.len()
        invariant
            r <= o.remove@.len(),
            item.packages_ok(),
            item == (Item { packages: item.packages, ..start }),
            packages_view(item.packages@) == removed(packages_view(start.packages@), o.remove@.take(r as int)),
        decreases o.remove@.len() - r,
    {
        assert(o.remove@.take(r + 1).drop_last() =~= o.remove@.take(r as int));
        match eco_of(&o.remove[r]) {
            Some(e) => item.remove_package(e),
            None => {},
        }
        r += 1;
    }
    assert(o.remove@.take(o.remove@.len() as int) =~= o.remove@);
    let ghost mid = packages_view(item.packages@);
    let mut s: usize = 0;
    while s < o.packages.len()
        invariant
            s <= o.packages@.len(),
            item.packages_ok(),
            item == (Item { packages: item.packages, ..start }),
            packages_view(item.packages@) == set_all(mid, o.packages@.take(s as int)),
        decreases o.packages@.len() - s,
    {
        assert(o.packages@.take(s + 1).drop_last() =~= o.packages@.take(s as int));
        match eco_of(&o.packages[s].0) {
            Some(e) => item.set_package(e, o.packages[s].1.as_str()),
            None => {},
        }
        s += 1;
    }
    assert(o.packages@.take(o.packages@.len() as int) =~= o.packages@);
    items.insert(k, item);
    let ghost after = rows.update(k as int, (rows[k as int].0, set_all(removed(rows[k as int].1, o.remove@), o.packages@)));
    assert forall|j: int| 0 <= j < after.len() implies 0 <= (#[trigger] after[j]).0 < orig.len() && items@[j] == (Item { packages: items@[j].packages, ..orig[after[j].0] }) && items@[j].packages_ok() && packages_view(items@[j].packages@) == after[j].1 by {
        if j != k {
            assert(after[j] == rows[j]);
        }
    }
}

proof fn lemma_first_row_stays(items: Seq<Item>, rows: Seq<(int, Seq<Option<Seq<char>>>)>, key: Seq<char>, n: int, m: int)
    requires
        0 < n <= m,
        first_row(items, rows, key, n) is Some,
    ensures
        first_row(items, rows, key, m) == first_row(items, rows, key, n),
    decreases m - n,
{
    if n < m {
        lemma_first_row_stays(items, rows, key, n, m - 1);
    }
}

} // verus!
