//! Turning the indexer's entries into the published index: every entry is
//! pushed into a catalog builder in order, the catalog is encoded, and the
//! bytes are decoded once more so that nothing the client would refuse is
//! ever published.

use vstd::prelude::*;
use vstd::string::StringSliceAdditionalSpecFns;
use vstd::utf8::encode_utf8;

use crate::catalog::{
    empty_model, first_bad_package, spec_push, BuildError, Builder, Catalog, CatalogModel, Ecosystem, Entry, EntryModel,
    FLAG_ARCHIVED, FLAG_LIBRARY,
};
use crate::date::{days_from_iso, spec_days_from_iso};
use crate::format::{decode, decode_spec, encode, encode_spec, DecodeError};
use crate::item::{spec_slot, Item};

verus! {

/// Why an index is not published.
#[derive(Debug, PartialEq, Eq)]
pub enum IndexError {
    /// The builder refused an entry.
    Build(BuildError),
    /// The encoded index does not decode.
    Refused(DecodeError),
}

/// A refused push, with its texts as plain values.
pub enum Refusal {
    InvalidUrl(Seq<char>),
    InvalidPackage(Seq<char>),
    TooManyCategories,
    TooManyTableEntries,
    ArenaFull,
}

pub open spec fn refusal_of(e: BuildError) -> Refusal {
    match e {
        BuildError::InvalidUrl(u) => Refusal::InvalidUrl(u@),
        BuildError::InvalidPackage(p) => Refusal::InvalidPackage(p@),
        BuildError::TooManyCategories => Refusal::TooManyCategories,
        BuildError::TooManyTableEntries => Refusal::TooManyTableEntries,
        BuildError::ArenaFull => Refusal::ArenaFull,
    }
}

/// The ecosystem of slot `i`, in the order of their names.
pub open spec fn eco_at(i: int) -> Ecosystem {
    if i == 0 {
        Ecosystem::Apt
    } else if i == 1 {
        Ecosystem::Aur
    } else if i == 2 {
        Ecosystem::Brew
    } else if i == 3 {
        Ecosystem::Crates
    } else if i == 4 {
        Ecosystem::Dnf
    } else if i == 5 {
        Ecosystem::Go
    } else if i == 6 {
        Ecosystem::Nix
    } else if i == 7 {
        Ecosystem::Npm
    } else if i == 8 {
        Ecosystem::Pacman
    } else {
        Ecosystem::Pypi
    }
}

fn eco_of_slot(i: usize) -> (r: Ecosystem)
    ensures
        r == eco_at(i as int),
{
    match i {
        0 => Ecosystem::Apt,
        1 => Ecosystem::Aur,
        2 => Ecosystem::Brew,
        3 => Ecosystem::Crates,
        4 => Ecosystem::Dnf,
        5 => Ecosystem::Go,
        6 => Ecosystem::Nix,
        7 => Ecosystem::Npm,
        8 => Ecosystem::Pacman,
        _ => Ecosystem::Pypi,
    }
}

/// The known packages among the first `n` slots, in slot order.
pub open spec fn known_packages(v: Seq<Option<String>>, n: int) -> Seq<(Ecosystem, Seq<char>)>
    decreases n,
{
    if n <= 0 {
        seq![]
    } else {
        let prev = known_packages(v, n - 1);
        match v[n - 1] {
            Some(p) => prev.push((eco_at(n - 1), p@)),
            None => prev,
        }
    }
}

/// The catalog flags of an entry.
pub open spec fn item_flags(item: Item) -> u8 {
    ((if item.archived { FLAG_ARCHIVED } else { 0 }) + (if item.library { FLAG_LIBRARY } else { 0 })) as u8
}

/// The catalog row an entry becomes.
pub open spec fn item_entry(item: Item) -> EntryModel {
    EntryModel {
        name: item.name@,
        desc: item.description@,
        url: item.url@,
        category: item.category@,
        language: item.language@,
        license: item.license@,
        stars: item.stars,
        pushed_days: match item.pushed_at {
            Some(p) => spec_days_from_iso(encode_utf8(p@)),
            None => None,
        },
        flags: item_flags(item),
        packages: known_packages(item.packages@, 10),
    }
}

/// What pushing `e` does: a bad URL or package name refuses it outright,
/// else the builder's own rules decide.
pub open spec fn push_outcome(m: CatalogModel, e: EntryModel) -> Result<CatalogModel, Refusal> {
    if !crate::text::spec_valid_url(encode_utf8(e.url)) {
        Err(Refusal::InvalidUrl(e.url))
    } else {
        match first_bad_package(e.packages) {
            Some(k) => Err(Refusal::InvalidPackage(e.packages[k].1)),
            None => match spec_push(m, e) {
                (m2, None) => Ok(m2),
                (_, Some(err)) => Err(refusal_of(err)),
            },
        }
    }
}

/// The catalog of the first `n` entries, or the first refusal.
pub open spec fn built(generated: u64, items: Seq<Item>, n: int) -> Result<CatalogModel, Refusal>
    decreases n,
{
    if n <= 0 {
        Ok(empty_model(generated))
    } else {
        match built(generated, items, n - 1) {
            Ok(m) => push_outcome(m, item_entry(items[n - 1])),
            Err(r) => Err(r),
        }
    }
}

/// Pushes one entry.
fn push_item(builder: &mut Builder, item: &Item) -> (r: Result<(), BuildError>)
    requires
        item.packages_ok(),
    ensures
        match push_outcome(old(builder)@, item_entry(*item)) {
            Ok(m) => r is Ok && final(builder)@ == m,
            Err(f) => r matches Err(e) && refusal_of(e) == f,
        },
{
    let mut packages: Vec<(Ecosystem, &str)> = Vec::new();
    let mut i: usize = 0;
    while i < 10
        invariant
            i <= 10,
            item.packages_ok(),
            packages@.map_values(|p: (Ecosystem, &str)| (p.0, p.1@)) == known_packages(item.packages@, i as int),
        decreases 10 - i,
    {
        let ghost before = packages@;
        match &item.packages[i] {
            Some(p) => {
                packages.push((eco_of_slot(i), p.as_str()));
                assert(packages@.map_values(|p: (Ecosystem, &str)| (p.0, p.1@)) =~= before.map_values(
                    |p: (Ecosystem, &str)| (p.0, p.1@),
                ).push((eco_at(i as int), item.packages@[i as int]->0@)));
            },
            None => {},
        }
        i += 1;
    }
    let flags: u8 = (if item.archived { FLAG_ARCHIVED } else { 0 }) + (if item.library { FLAG_LIBRARY } else { 0 });
    let pushed_days = match &item.pushed_at {
        Some(p) => days_from_iso(p.as_str()),
        None => None,
    };
    let e = Entry {
        name: item.name.as_str(),
        desc: item.description.as_str(),
        url: item.url.as_str(),
        category: item.category.as_str(),
        language: item.language.as_str(),
        license: item.license.as_str(),
        stars: item.stars,
        pushed_days,
        flags,
        packages: packages.as_slice(),
    };
    assert(e.model().packages =~= known_packages(item.packages@, 10));
    assert(e.model() == item_entry(*item));
    builder.push(&e)
}

/// The catalog of `items`, or the builder's refusal of the first entry it refuses.
fn build_catalog(generated: u64, items: &Vec<Item>) -> (r: Result<Catalog, BuildError>)
    requires
        forall|i: int| 0 <= i < items@.len() ==> (#[trigger] items@[i]).packages_ok(),
    ensures
        match built(generated, items@, items@.len() as int) {
            Err(f) => r matches Err(e) && refusal_of(e) == f,
            Ok(m) => r matches Ok(c) && c@ == m,
        },
{
    let mut builder = Builder::new(generated);
    let mut i: usize = 0;
    while i < items.len()
        invariant
            i <= items@.len(),
            forall|j: int| 0 <= j < items@.len() ==> (#[trigger] items@[j]).packages_ok(),
            built(generated, items@, i as int) == Ok::<CatalogModel, Refusal>(builder@),
        decreases items@.len() - i,
    {
        assert(items@[i as int].packages_ok());
        match push_item(&mut builder, &items[i]) {
            Ok(()) => {},
            Err(e) => {
                proof {
                    lemma_built_stays_refused(generated, items@, i + 1, items@.len() as int);
                }
                return Err(e);
            },
        }
        i += 1;
    }
    Ok(builder.finish())
}

/// The encoding of `c`, when it decodes.
#[verifier::spinoff_prover]
fn encode_checked(c: &Catalog) -> (r: Result<Vec<u8>, DecodeError>)
    ensures
        match decode_spec(encode_spec(c@)) {
            Ok(_) => r matches Ok(b) && b@ == encode_spec(c@),
            Err(e) => r == Err::<Vec<u8>, DecodeError>(e),
        },
{
    let bytes = encode(c);
    match decode(bytes.as_slice()) {
        Ok(_) => Ok(bytes),
        Err(e) => Err(e),
    }
}

/// The published index of `items`, generated at `generated` (seconds since
/// the epoch): the encoded catalog when every entry was accepted and the
/// encoding decodes, else why not.
#[verifier::spinoff_prover]
pub fn build_index(generated: u64, items: &Vec<Item>) -> (r: Result<Vec<u8>, IndexError>)
    requires
        forall|i: int| 0 <= i < items@.len() ==> (#[trigger] items@[i]).packages_ok(),
    ensures
        match built(generated, items@, items@.len() as int) {
            Err(f) => r matches Err(IndexError::Build(e)) && refusal_of(e) == f,
            Ok(m) => match decode_spec(encode_spec(m)) {
                Ok(_) => r matches Ok(b) && b@ == encode_spec(m),
                Err(e) => r == Err::<Vec<u8>, IndexError>(IndexError::Refused(e)),
            },
        },
        r matches Ok(b) ==> decode_spec(b@) is Ok,
{
    match build_catalog(generated, items) {
        Err(e) => Err(IndexError::Build(e)),
        Ok(c) => match encode_checked(&c) {
            Ok(b) => Ok(b),
            Err(e) => Err(IndexError::Refused(e)),
        },
    }
}

proof fn lemma_built_stays_refused(generated: u64, items: Seq<Item>, n: int, m: int)
    requires
        0 < n <= m,
        built(generated, items, n) is Err,
    ensures
        built(generated, items, m) == built(generated, items, n),
    decreases m - n,
{
    if n < m {
        lemma_built_stays_refused(generated, items, n, m - 1);
    }
}

} // verus!
