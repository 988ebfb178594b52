//! Language registries (crates.io, npm, PyPI, Go modules).
//!
//! The candidate name comes from the manifest at the repository root; it is
//! accepted only when the registry's record for that name points back at the
//! same repository. That rules out name squatting and unpublished projects.

use vstd::prelude::*;
use vstd::string::StringSliceAdditionalSpecFns;

use crate::item::{github_repo, opt_text, spec_github_repo, Item};
use crate::overrides::names_repo;
use crate::text::{chars_of, chars_prefix, find_char, find_from, lemma_find_from, line_ranges, push_char, range_has_prefix, range_text, range_texts, ranges_in, spec_valid_package_name, string_of, text_lines, trim, trim_range, valid_package_name};

verus! {

/// What the crate search reads of a `Cargo.toml`.
pub struct CargoFields {
    /// The manifest declares `[[bin]]` targets.
    pub has_bin: bool,
    /// The manifest has a `[package]` entry.
    pub has_package: bool,
    /// `package.name`, when it is a string.
    pub name: Option<String>,
    /// `package.publish`, when it is a boolean.
    pub publish: Option<bool>,
}

/// [`CargoFields`] as plain values.
pub struct CargoView {
    pub has_bin: bool,
    pub has_package: bool,
    pub name: Option<Seq<char>>,
    pub publish: Option<bool>,
}

pub open spec fn cargo_view(f: Option<CargoFields>) -> Option<CargoView> {
    match f {
        Some(f) => Some(CargoView { has_bin: f.has_bin, has_package: f.has_package, name: opt_text(f.name), publish: f.publish }),
        None => None,
    }
}

/// What `toml` reads of a `Cargo.toml` text: `None` when it is no TOML table.
pub uninterp spec fn cargo_fields_of(text: Seq<char>) -> Option<CargoView>;

/// Parses `text` with `toml` into a table and picks the fields the crate
/// search reads. The contract claims only that the result is the named
/// function of the text.
#[verifier::external_body]
fn cargo_fields(text: &str) -> (r: Option<CargoFields>)
    ensures
        cargo_view(r) == cargo_fields_of(text@),
{
    let t: toml::Table = text.parse().ok()?;
    let package = t.get("package");
    Some(CargoFields {
        has_bin: t.contains_key("bin"),
        has_package: package.is_some(),
        name: package.and_then(|p| p.get("name")).and_then(toml::Value::as_str).map(String::from),
        publish: package.and_then(|p| p.get("publish")).and_then(toml::Value::as_bool),
    })
}

/// The crate a manifest names, when `cargo install` can install it: it needs
/// a binary target (`src/main.rs`, `src/bin/` or a `[[bin]]`) and a package
/// that is not marked unpublished.
pub open spec fn spec_cargo_name(f: Option<CargoView>, has_rust_bin: bool) -> Option<Seq<char>> {
    match f {
        None => None,
        Some(f) => if !has_rust_bin && !f.has_bin {
            None
        } else if !f.has_package {
            None
        } else if f.publish == Some(false) {
            None
        } else {
            f.name
        },
    }
}

fn copy_text(s: &String) -> (r: String)
    ensures
        r@ == s@,
{
    let cs = chars_of(s.as_str());
    let r = string_of(&cs, 0, cs.len());
    assert(r@ =~= s@);
    r
}

/// The crate candidate of parsed manifest fields.
pub fn cargo_name_of(f: &Option<CargoFields>, has_rust_bin: bool) -> (r: Option<String>)
    ensures
        opt_text(r) == spec_cargo_name(cargo_view(*f), has_rust_bin),
{
    match f {
        None => None,
        Some(f) => if !has_rust_bin && !f.has_bin {
            None
        } else if !f.has_package {
            None
        } else if f.publish == Some(false) {
            None
        } else {
            match &f.name {
                Some(n) => Some(copy_text(n)),
                None => None,
            }
        },
    }
}

/// The crate candidate of an entry, from its root `Cargo.toml`.
pub fn cargo_name(item: &Item) -> (r: Option<String>)
    ensures
        opt_text(r) == match item.manifests.cargo_toml {
            Some(t) => spec_cargo_name(cargo_fields_of(t@), item.manifests.has_rust_bin),
            None => None,
        },
{
    match &item.manifests.cargo_toml {
        Some(t) => cargo_name_of(&cargo_fields(t.as_str()), item.manifests.has_rust_bin),
        None => None,
    }
}

/// A `[project]` or `[tool.poetry]` table of a `pyproject.toml`.
pub struct PyTable {
    pub has_scripts: bool,
    pub name: Option<String>,
}

/// What the PyPI search reads of a `pyproject.toml`.
pub struct PyFields {
    pub project: Option<PyTable>,
    pub poetry: Option<PyTable>,
}

/// A [`PyTable`] as plain values: whether it has scripts, and its name.
pub open spec fn py_table_view(t: Option<PyTable>) -> Option<(bool, Option<Seq<char>>)> {
    match t {
        Some(t) => Some((t.has_scripts, opt_text(t.name))),
        None => None,
    }
}

/// [`PyFields`] as plain values.
pub open spec fn py_view(f: Option<PyFields>) -> Option<(Option<(bool, Option<Seq<char>>)>, Option<(bool, Option<Seq<char>>)>)> {
    match f {
        Some(f) => Some((py_table_view(f.project), py_table_view(f.poetry))),
        None => None,
    }
}

/// What `toml` reads of a `pyproject.toml` text: `None` when it is no TOML table.
pub uninterp spec fn py_fields_of(text: Seq<char>) -> Option<(Option<(bool, Option<Seq<char>>)>, Option<(bool, Option<Seq<char>>)>)>;

/// Parses `text` with `toml` into a table and picks `project` and
/// `tool.poetry`: whether each has `scripts`, and its `name` when that is a
/// string. The contract claims only that the result is the named function
/// of the text.
#[verifier::external_body]
fn py_fields(text: &str) -> (r: Option<PyFields>)
    ensures
        py_view(r) == py_fields_of(text@),
{
    let t: toml::Table = text.parse().ok()?;
    let table = |v: &toml::Value| PyTable {
        has_scripts: v.get("scripts").is_some(),
        name: v.get("name").and_then(toml::Value::as_str).map(String::from),
    };
    Some(PyFields { project: t.get("project").map(table), poetry: t.get("tool").and_then(|t| t.get("poetry")).map(table) })
}

/// The package a `pyproject.toml` names, when it installs scripts: the
/// `[project]` table if it has scripts, else the `[tool.poetry]` one.
pub open spec fn spec_pypi_name(f: Option<(Option<(bool, Option<Seq<char>>)>, Option<(bool, Option<Seq<char>>)>)>) -> Option<Seq<char>> {
    match f {
        None => None,
        Some((project, poetry)) => match project {
            Some((true, name)) => name,
            _ => match poetry {
                Some((true, name)) => name,
                _ => None,
            },
        },
    }
}

/// The PyPI candidate of parsed manifest fields.
pub fn pypi_name_of(f: &Option<PyFields>) -> (r: Option<String>)
    ensures
        opt_text(r) == spec_pypi_name(py_view(*f)),
{
    let f = match f {
        Some(f) => f,
        None => {
            return None;
        },
    };
    let chosen = match &f.project {
        Some(p) if p.has_scripts => Some(p),
        _ => match &f.poetry {
            Some(p) if p.has_scripts => Some(p),
            _ => None,
        },
    };
    match chosen {
        Some(t) => match &t.name {
            Some(n) => Some(copy_text(n)),
            None => None,
        },
        None => None,
    }
}

/// The PyPI candidate of an entry, from its root `pyproject.toml`.
pub fn pypi_name(item: &Item) -> (r: Option<String>)
    ensures
        opt_text(r) == match item.manifests.pyproject_toml {
            Some(t) => spec_pypi_name(py_fields_of(t@)),
            None => None,
        },
{
    match &item.manifests.pyproject_toml {
        Some(t) => pypi_name_of(&py_fields(t.as_str())),
        None => None,
    }
}

/// What the npm search reads of a `package.json`.
pub struct NpmFields {
    /// `private`, when it is a boolean.
    pub private: Option<bool>,
    /// `name`, when it is a string.
    pub name: Option<String>,
}

/// What `serde_json` reads of a `package.json` text as (`private`, `name`);
/// text that is no JSON reads as neither.
pub uninterp spec fn npm_fields_of(text: Seq<char>) -> (Option<bool>, Option<Seq<char>>);

/// Parses `text` with `serde_json`, reading invalid JSON as `null`, and picks
/// `private` and `name`. The contract claims only that the result is the
/// named function of the text.
#[verifier::external_body]
fn npm_fields(text: &str) -> (r: NpmFields)
    ensures
        (r.private, opt_text(r.name)) == npm_fields_of(text@),
{
    let v: serde_json::Value = serde_json::from_str(text).unwrap_or_default();
    NpmFields { private: v["private"].as_bool(), name: v["name"].as_str().map(String::from) }
}

/// The kind of a JSON value.
#[derive(Clone, Copy, Debug, PartialEq, Eq)]
pub enum JsonKind {
    Null,
    Bool,
    Number,
    Text,
    Array,
    Object,
}

/// The kind of the `bin` field that `serde_json` reads from an npm version
/// manifest; text that is no JSON, or has no `bin`, reads as null.
pub uninterp spec fn npm_bin_kind_of(text: Seq<char>) -> JsonKind;

/// Parses `text` with `serde_json`, reading invalid JSON as `null`, and tells
/// which kind of value its `bin` field is. The contract claims only that the
/// result is the named function of the text.
#[verifier::external_body]
fn npm_bin_kind(text: &str) -> (r: JsonKind)
    ensures
        r == npm_bin_kind_of(text@),
{
    let v: serde_json::Value = serde_json::from_str(text).unwrap_or_default();
    match &v["bin"] {
        serde_json::Value::Null => JsonKind::Null,
        serde_json::Value::Bool(_) => JsonKind::Bool,
        serde_json::Value::Number(_) => JsonKind::Number,
        serde_json::Value::String(_) => JsonKind::Text,
        serde_json::Value::Array(_) => JsonKind::Array,
        serde_json::Value::Object(_) => JsonKind::Object,
    }
}

/// A `bin` of this kind is one that `npm install -g` links: a map of
/// commands, or a single path.
pub open spec fn runs(k: JsonKind) -> bool {
    k == JsonKind::Object || k == JsonKind::Text
}

/// Whether a `bin` of kind `k` makes the package runnable.
pub fn bin_runs(k: JsonKind) -> (r: bool)
    ensures
        r == runs(k),
{
    match k {
        JsonKind::Object | JsonKind::Text => true,
        _ => false,
    }
}

/// Whether the published `latest` manifest (JSON text) installs a command:
/// the `bin` that `npm install -g` honours is the published one.
pub fn npm_runnable(latest: &str) -> (r: bool)
    ensures
        r == runs(npm_bin_kind_of(latest@)),
{
    bin_runs(npm_bin_kind(latest))
}

/// The npm candidates of an entry: the manifest's name, unless the manifest
/// is private. A private root manifest is usually a monorepo whose CLI is
/// published from a subdirectory, so the usual names `@owner/name` and
/// `name` are guessed; the link-back check still decides.
pub open spec fn spec_npm_names(f: (Option<bool>, Option<Seq<char>>), repo: Option<Seq<char>>) -> Seq<Seq<char>> {
    if f.0 != Some(true) {
        match f.1 {
            Some(n) => seq![n],
            None => seq![],
        }
    } else {
        match repo {
            Some(r) => {
                let k = find_from(r, '/', 0);
                if k < r.len() {
                    seq![seq!['@'] + r, r.skip(k + 1)]
                } else {
                    seq![]
                }
            },
            None => seq![],
        }
    }
}

/// The npm candidates of parsed manifest fields.
pub fn npm_names_of(f: &NpmFields, repo: &Option<String>) -> (r: Vec<String>)
    ensures
        r@.map_values(|s: String| s@) == spec_npm_names((f.private, opt_text(f.name)), opt_text(*repo)),
{
    let mut out: Vec<String> = Vec::new();
    if f.private != Some(true) {
        if let Some(n) = &f.name {
            out.push(copy_text(n));
        }
        assert(out@.map_values(|s: String| s@) =~= spec_npm_names((f.private, opt_text(f.name)), opt_text(*repo)));
        return out;
    }
    if let Some(r) = repo {
        let cs = chars_of(r.as_str());
        proof {
            lemma_find_from(cs@, '/', 0);
        }
        let k = find_char(&cs, '/', 0);
        if k < cs.len() {
            let mut scoped = String::new();
            push_char(&mut scoped, '@');
            scoped.append(r.as_str());
            let name = string_of(&cs, k + 1, cs.len());
            assert(scoped@ =~= seq!['@'] + r@);
            assert(name@ =~= r@.skip(k + 1));
            out.push(scoped);
            out.push(name);
        }
    }
    assert(out@.map_values(|s: String| s@) =~= spec_npm_names((f.private, opt_text(f.name)), opt_text(*repo)));
    out
}

/// The npm candidates of an entry, from its root `package.json`.
pub fn npm_names(item: &Item) -> (r: Vec<String>)
    ensures
        r@.map_values(|s: String| s@) == match item.manifests.package_json {
            Some(t) => spec_npm_names(npm_fields_of(t@), opt_text(item.repo)),
            None => seq![],
        },
{
    match &item.manifests.package_json {
        Some(t) => npm_names_of(&npm_fields(t.as_str()), &item.repo),
        None => {
            let r: Vec<String> = Vec::new();
            assert(r@.map_values(|s: String| s@) =~= seq![]);
            r
        },
    }
}

/// Some URL of a registry record points at the entry's repository, under
/// its current or former name.
pub open spec fn spec_links_back(item: Item, urls: Seq<String>) -> bool {
    exists|k: int|
        0 <= k < urls.len() && (#[trigger] spec_github_repo(urls[k]@) matches Some(p) && names_repo(item, p))
}

/// Whether a registry record, given by the URLs it lists, links back to the
/// entry's repository.
pub fn links_back(item: &Item, urls: &Vec<String>) -> (r: bool)
    ensures
        r == spec_links_back(*item, urls@),
{
    let mut k: usize = 0;
    while k < urls.len()
        invariant
            k <= urls@.len(),
            forall|j: int|
                0 <= j < k ==> !(#[trigger] spec_github_repo(urls@[j]@) matches Some(p) && names_repo(*item, p)),
        decreases urls@.len() - k,
    {
        match github_repo(urls[k].as_str()) {
            Some(repo) => {
                if item.is_repo(repo.as_str()) {
                    return true;
                }
            },
            None => {},
        }
        k += 1;
    }
    false
}

/// Whether candidate `name` is accepted for an entry: a valid package name
/// whose registry record exists and links back to the entry's repository.
pub fn accept(name: &str, record: Option<&Vec<String>>, item: &Item) -> (hit: bool)
    ensures
        hit == (spec_valid_package_name(name.spec_bytes()) && match record {
            Some(urls) => spec_links_back(*item, urls@),
            None => false,
        }),
{
    if !valid_package_name(name) {
        return false;
    }
    match record {
        Some(urls) => links_back(item, urls),
        None => false,
    }
}

/// The module path a `go.mod` line declares, if it is a `module` line.
pub open spec fn module_in(line: Seq<char>) -> Option<Seq<char>> {
    let t = trim(line);
    if chars_prefix(t, "module "@) {
        Some(t.skip(7))
    } else {
        None
    }
}

/// The module path of the first `module` line among the first `n`.
pub open spec fn first_module(lines: Seq<Seq<char>>, n: int) -> Option<Seq<char>>
    decreases n,
{
    if n <= 0 {
        None
    } else {
        match first_module(lines, n - 1) {
            Some(m) => Some(m),
            None => module_in(lines[n - 1]),
        }
    }
}

/// `s` without its leading `"` characters.
pub open spec fn unquote_start(s: Seq<char>) -> Seq<char>
    decreases s.len(),
{
    if s.len() > 0 && s[0] == '"' {
        unquote_start(s.drop_first())
    } else {
        s
    }
}

/// `s` without its trailing `"` characters.
pub open spec fn unquote_end(s: Seq<char>) -> Seq<char>
    decreases s.len(),
{
    if s.len() > 0 && s.last() == '"' {
        unquote_end(s.drop_last())
    } else {
        s
    }
}

/// The Go package of an entry: `go install` needs a main package, so only
/// the unambiguous layout is taken: `main.go` at the module root, and a
/// module path that is a valid package name inside the entry's repository.
pub open spec fn spec_go_package(item: Item) -> Option<Seq<char>> {
    if !item.manifests.has_root_main_go {
        None
    } else {
        match item.manifests.go_mod {
            None => None,
            Some(g) => {
                let lines = text_lines(g@);
                match first_module(lines, lines.len() as int) {
                    None => None,
                    Some(m0) => {
                        let m = unquote_end(unquote_start(trim(m0)));
                        if (spec_github_repo("https://"@ + m) matches Some(r) && names_repo(item, r))
                            && spec_valid_package_name(vstd::utf8::encode_utf8(m)) {
                            Some(m)
                        } else {
                            None
                        }
                    },
                }
            },
        }
    }
}

proof fn lemma_first_module_stays(lines: Seq<Seq<char>>, n: int, m: int)
    requires
        0 < n <= m,
        first_module(lines, n) is Some,
    ensures
        first_module(lines, m) == first_module(lines, n),
    decreases m - n,
{
    if n < m {
        lemma_first_module_stays(lines, n, m - 1);
    }
}

/// The module path of the first `module` line of `go_mod`.
fn declared_module(go_mod: &str) -> (r: Option<String>)
    ensures
        opt_text(r) == first_module(text_lines(go_mod@), text_lines(go_mod@).len() as int),
{
    let cs = chars_of(go_mod);
    let ranges = line_ranges(&cs);
    let ghost lines = text_lines(go_mod@);
    let prefix = chars_of("module ");
    proof {
        reveal_strlit("module ");
    }
    let mut i: usize = 0;
    while i < ranges.len()
        invariant
            cs@ == go_mod@,
            prefix@ == "module "@,
            prefix@.len() == 7,
            lines == text_lines(go_mod@),
            ranges@.len() == lines.len(),
            ranges_in(cs@, ranges@),
            forall|j: int| 0 <= j < ranges@.len() ==> range_text(cs@, #[trigger] ranges@[j]) == lines[j],
            i <= ranges@.len(),
            first_module(lines, i as int) is None,
        decreases ranges@.len() - i,
    {
        let (lo, hi) = ranges[i];
        assert(range_text(cs@, ranges@[i as int]) == lines[i as int]);
        let (a, b) = trim_range(&cs, lo, hi);
        if range_has_prefix(&cs, a, b, &prefix) {
            let m = string_of(&cs, a + 7, b);
            proof {
                let t = cs@.subrange(a as int, b as int);
                assert(t == trim(lines[i as int]));
                assert(m@ =~= t.skip(7));
                lemma_first_module_stays(lines, i + 1, lines.len() as int);
            }
            return Some(m);
        }
        i += 1;
    }
    None
}

/// `cs[lo..hi]` without leading or trailing quotes, as a range.
fn unquote_range(cs: &Vec<char>, lo: usize, hi: usize) -> (r: (usize, usize))
    requires
        lo <= hi <= cs@.len(),
    ensures
        r.0 <= r.1 <= cs@.len(),
        cs@.subrange(r.0 as int, r.1 as int) == unquote_end(unquote_start(cs@.subrange(lo as int, hi as int))),
{
    let mut a = lo;
    while a < hi && cs[a] == '"'
        invariant
            lo <= a <= hi <= cs@.len(),
            unquote_start(cs@.subrange(lo as int, hi as int)) == unquote_start(cs@.subrange(a as int, hi as int)),
        decreases hi - a,
    {
        assert(cs@.subrange(a as int, hi as int).drop_first() =~= cs@.subrange(a + 1, hi as int));
        a += 1;
    }
    let mut b = hi;
    while b > a && cs[b - 1] == '"'
        invariant
            a <= b <= hi,
            hi <= cs@.len(),
            unquote_start(cs@.subrange(lo as int, hi as int)) == cs@.subrange(a as int, hi as int),
            unquote_end(cs@.subrange(a as int, hi as int)) == unquote_end(cs@.subrange(a as int, b as int)),
        decreases b - a,
    {
        assert(cs@.subrange(a as int, b as int).drop_last() =~= cs@.subrange(a as int, b - 1));
        b -= 1;
    }
    (a, b)
}

/// The Go package of an entry, from its root `go.mod`.
pub fn go_package(item: &Item) -> (r: Option<String>)
    ensures
        opt_text(r) == spec_go_package(*item),
{
    if !item.manifests.has_root_main_go {
        return None;
    }
    let g = match &item.manifests.go_mod {
        Some(g) => g,
        None => {
            return None;
        },
    };
    let m0 = match declared_module(g.as_str()) {
        Some(m) => m,
        None => {
            return None;
        },
    };
    let cs = chars_of(m0.as_str());
    let (a, b) = trim_range(&cs, 0, cs.len());
    assert(cs@.subrange(0, cs@.len() as int) =~= cs@);
    let (c, d) = unquote_range(&cs, a, b);
    let module = string_of(&cs, c, d);
    let mut url = String::new();
    url.append("https://");
    url.append(module.as_str());
    let in_repo = match github_repo(url.as_str()) {
        Some(repo) => item.is_repo(repo.as_str()),
        None => false,
    };
    if in_repo && valid_package_name(module.as_str()) {
        Some(module)
    } else {
        None
    }
}

/// The first of the first `n` candidates that is accepted.
pub open spec fn first_accepted(item: Item, names: Seq<String>, records: Seq<Option<Vec<String>>>, n: int) -> Option<int>
    decreases n,
{
    if n <= 0 {
        None
    } else {
        match first_accepted(item, names, records, n - 1) {
            Some(k) => Some(k),
            None => if spec_valid_package_name(vstd::utf8::encode_utf8(names[n - 1]@)) && match records[n - 1] {
                Some(urls) => spec_links_back(item, urls@),
                None => false,
            } {
                Some(n - 1)
            } else {
                None
            },
        }
    }
}

proof fn lemma_first_accepted_stays(item: Item, names: Seq<String>, records: Seq<Option<Vec<String>>>, n: int, m: int)
    requires
        0 < n <= m,
        first_accepted(item, names, records, n) is Some,
    ensures
        first_accepted(item, names, records, m) == first_accepted(item, names, records, n),
    decreases m - n,
{
    if n < m {
        lemma_first_accepted_stays(item, names, records, n, m - 1);
    }
}

/// Which candidate a registry confirms: the first, in order, whose record
/// exists and links back to the entry. `records[k]` is the registry's
/// answer for `names[k]`: the URLs it lists, or `None` when there is no
/// such package or the lookup failed.
pub fn first_hit(item: &Item, names: &Vec<String>, records: &Vec<Option<Vec<String>>>) -> (r: Option<usize>)
    requires
        names@.len() == records@.len(),
    ensures
        match r {
            Some(k) => first_accepted(*item, names@, records@, names@.len() as int) == Some(k as int),
            None => first_accepted(*item, names@, records@, names@.len() as int) is None,
        },
{
    let mut k: usize = 0;
    while k < names.len()
        invariant
            names@.len() == records@.len(),
            k <= names@.len(),
            first_accepted(*item, names@, records@, k as int) is None,
        decreases names@.len() - k,
    {
        let record = match &records[k] {
            Some(urls) => Some(urls),
            None => None,
        };
        if accept(names[k].as_str(), record, item) {
            proof {
                lemma_first_accepted_stays(*item, names@, records@, k + 1, names@.len() as int);
            }
            return Some(k);
        }
        k += 1;
    }
    None
}

} // verus!
