//! GitHub enrichment: one aliased `repository` lookup per repository of a
//! batch, all sharing one fragment of fields, and what each answer changes
//! of its entry.

use vstd::prelude::*;
use crate::show::{decimal, push_decimal};
use crate::text::{chars_of, find_char, find_from, lemma_find_from, same_text, string_of};
use crate::item::{ascii_lowercase, opt_text, Item, Manifests};
use crate::release::lower_chars;

verus! {

/// The fields asked of each repository: metadata and the root build manifests.
pub const FRAGMENT: &'static str = "
fragment F on Repository {
  nameWithOwner stargazerCount isArchived pushedAt
  primaryLanguage { name }
  licenseInfo { spdxId }
  cargo: object(expression: \"HEAD:Cargo.toml\") { ... on Blob { text } }
  npm: object(expression: \"HEAD:package.json\") { ... on Blob { text } }
  py: object(expression: \"HEAD:pyproject.toml\") { ... on Blob { text } }
  gomod: object(expression: \"HEAD:go.mod\") { ... on Blob { text } }
  maingo: object(expression: \"HEAD:main.go\") { id }
  src: object(expression: \"HEAD:src\") { ... on Tree { entries { name } } }
}";

/// The lookup of `repo` (`owner/name`) under the alias `r<alias>`.
pub open spec fn repo_line(alias: nat, repo: Seq<char>) -> Seq<char> {
    let k = find_from(repo, '/', 0);
    "  r"@ + decimal(alias) + ": repository(owner: \""@ + repo.take(k) + "\", name: \""@ + repo.skip(k + 1)
        + "\") { ...F }\n"@
}

/// The lookups of `repos`, the `i`th under the alias `r<i>`.
pub open spec fn repo_lines(repos: Seq<Seq<char>>) -> Seq<char>
    decreases repos.len(),
{
    if repos.len() == 0 {
        seq![]
    } else {
        repo_lines(repos.drop_last()) + repo_line((repos.len() - 1) as nat, repos.last())
    }
}

/// The whole query for a batch.
pub open spec fn query_text(repos: Seq<Seq<char>>) -> Seq<char> {
    "query {\n"@ + repo_lines(repos) + "}"@ + FRAGMENT@
}

/// The texts of `repos`.
pub open spec fn texts(repos: Seq<&str>) -> Seq<Seq<char>> {
    repos.map_values(|r: &str| r@)
}

/// The query for one batch. Each repository is an `owner/name` key, whose
/// characters are already limited to ones that need no quoting.
pub fn query(repos: &[&str]) -> (q: String)
    requires
        forall|i: int| 0 <= i < repos@.len() ==> (#[trigger] repos@[i])@.contains('/'),
    ensures
        q@ == query_text(texts(repos@)),
{
    let mut q = String::new();
    q.append("query {\n");
    let mut i: usize = 0;
    while i < repos.len()
        invariant
            i <= repos@.len(),
            forall|j: int| 0 <= j < repos@.len() ==> (#[trigger] repos@[j])@.contains('/'),
            q@ == "query {\n"@ + repo_lines(texts(repos@).take(i as int)),
        decreases repos@.len() - i,
    {
        let repo: &str = repos[i];
        let cs = chars_of(repo);
        let k = find_char(&cs, '/', 0);
        proof {
            lemma_find_from(cs@, '/', 0);
            assert(repos@[i as int]@.contains('/'));
            assert(cs@ == repos@[i as int]@);
            let w = choose|w: int| 0 <= w < cs@.len() && cs@[w] == '/';
            assert(k <= w);
            assert(w < cs@.len());
        }
        assert(k < cs.len());
        let owner = string_of(&cs, 0, k);
        let name = string_of(&cs, k + 1, cs.len());
        let ghost before = q@;
        q.append("  r");
        push_decimal(&mut q, i as u64);
        q.append(": repository(owner: \"");
        q.append(owner.as_str());
        q.append("\", name: \"");
        q.append(name.as_str());
        q.append("\") { ...F }\n");
        proof {
            assert(cs@.subrange(0, k as int) =~= cs@.take(k as int));
            assert(cs@.subrange(k + 1, cs@.len() as int) =~= cs@.skip(k + 1));
            assert(texts(repos@).take(i + 1).drop_last() =~= texts(repos@).take(i as int));
            assert(q@ =~= before + repo_line(i as nat, repo@));
        }
        i += 1;
    }
    assert(texts(repos@).take(repos@.len() as int) =~= texts(repos@));
    q.append("}");
    q.append(FRAGMENT);
    q
}

/// One repository of a GraphQL answer, as far as enrichment reads it.
pub struct RepoNode {
    /// `nameWithOwner`: the repository's current name.
    pub name_with_owner: Option<String>,
    pub stargazer_count: Option<u64>,
    pub is_archived: Option<bool>,
    pub pushed_at: Option<String>,
    /// `primaryLanguage.name`.
    pub language: Option<String>,
    /// `licenseInfo.spdxId`.
    pub license: Option<String>,
    /// The texts of the root `Cargo.toml`, `package.json`, `pyproject.toml`
    /// and `go.mod`.
    pub cargo_toml: Option<String>,
    pub package_json: Option<String>,
    pub pyproject_toml: Option<String>,
    pub go_mod: Option<String>,
    /// A `main.go` exists at the root.
    pub has_main_go: bool,
    /// The names of the entries of `src/`.
    pub src_entries: Vec<String>,
}

/// A star count as the catalog keeps it: capped one below "unknown".
pub open spec fn capped_stars(s: Option<u64>) -> Option<u32> {
    match s {
        Some(n) => Some(if n < u32::MAX - 1 { n as u32 } else { (u32::MAX - 1) as u32 }),
        None => None,
    }
}

/// The license text kept: the SPDX id, or nothing when GitHub reports none
/// or `NOASSERTION`.
pub open spec fn kept_license(l: Option<Seq<char>>) -> Seq<char> {
    match l {
        Some(id) => if id == "NOASSERTION"@ {
            seq![]
        } else {
            id
        },
        None => seq![],
    }
}

/// Cargo's automatic binary targets are there: `src/main.rs` or `src/bin/`.
pub open spec fn rust_bin(entries: Seq<String>) -> bool {
    exists|k: int| 0 <= k < entries.len() && (#[trigger] entries[k]@ == "main.rs"@ || entries[k]@ == "bin"@)
}

/// The repository key and former key after GitHub reports the current name
/// `now`: a different name becomes the key and the old key the former one.
pub open spec fn renamed(repo: Option<Seq<char>>, former: Option<Seq<char>>, now: Option<Seq<char>>) -> (Option<Seq<char>>, Option<Seq<char>>) {
    match now {
        Some(n) => if repo != Some(lower_chars(n)) {
            (Some(lower_chars(n)), repo)
        } else {
            (repo, former)
        },
        None => (repo, former),
    }
}

fn copy_opt(s: &Option<String>) -> (r: Option<String>)
    ensures
        opt_text(r) == opt_text(*s),
{
    match s {
        Some(s) => {
            let cs = chars_of(s.as_str());
            let c = string_of(&cs, 0, cs.len());
            assert(c@ =~= s@);
            Some(c)
        },
        None => None,
    }
}

/// Fills in an entry from its repository's answer: renames, stars (capped
/// one below "unknown"), archival, activity, language, license (without
/// `NOASSERTION`) and the root manifests.
pub fn apply(item: &mut Item, node: &RepoNode)
    ensures
        (opt_text(final(item).repo), opt_text(final(item).former_repo)) == renamed(
            opt_text(old(item).repo),
            opt_text(old(item).former_repo),
            opt_text(node.name_with_owner),
        ),
        final(item).stars == capped_stars(node.stargazer_count),
        final(item).archived == (node.is_archived == Some(true)),
        opt_text(final(item).pushed_at) == opt_text(node.pushed_at),
        final(item).language@ == match node.language {
            Some(l) => l@,
            None => seq![],
        },
        final(item).license@ == kept_license(opt_text(node.license)),
        opt_text(final(item).manifests.cargo_toml) == opt_text(node.cargo_toml),
        opt_text(final(item).manifests.package_json) == opt_text(node.package_json),
        opt_text(final(item).manifests.pyproject_toml) == opt_text(node.pyproject_toml),
        opt_text(final(item).manifests.go_mod) == opt_text(node.go_mod),
        final(item).manifests.has_root_main_go == node.has_main_go,
        final(item).manifests.has_rust_bin == rust_bin(node.src_entries@),
        *final(item) == (Item {
            repo: final(item).repo,
            former_repo: final(item).former_repo,
            stars: final(item).stars,
            archived: final(item).archived,
            pushed_at: final(item).pushed_at,
            language: final(item).language,
            license: final(item).license,
            manifests: final(item).manifests,
            ..*old(item)
        }),
{
    if let Some(now) = &node.name_with_owner {
        let current = ascii_lowercase(now.as_str());
        let same = match &item.repo {
            Some(r) => same_text(r.as_str(), current.as_str()),
            None => false,
        };
        if !same {
            let old_repo = item.repo.take();
            item.former_repo = old_repo;
            item.repo = Some(current);
        }
    }
    item.stars = match node.stargazer_count {
        Some(n) => Some(if n < 0xffff_fffe { n as u32 } else { 0xffff_fffe }),
        None => None,
    };
    item.archived = node.is_archived == Some(true);
    item.pushed_at = copy_opt(&node.pushed_at);
    item.language = match copy_opt(&node.language) {
        Some(l) => l,
        None => String::new(),
    };
    item.license = match copy_opt(&node.license) {
        Some(id) => if same_text(id.as_str(), "NOASSERTION") {
            String::new()
        } else {
            id
        },
        None => String::new(),
    };
    let mut has_rust_bin = false;
    let mut k: usize = 0;
    while k < node.src_entries.len()
        invariant
            k <= node.src_entries@.len(),
            has_rust_bin == exists|j: int|
                0 <= j < k && (#[trigger] node.src_entries@[j]@ == "main.rs"@ || node.src_entries@[j]@ == "bin"@),
        decreases node.src_entries@.len() - k,
    {
        let name = node.src_entries[k].as_str();
        if same_text(name, "main.rs") || same_text(name, "bin") {
            has_rust_bin = true;
        }
        k += 1;
    }
    item.manifests = Manifests {
        cargo_toml: copy_opt(&node.cargo_toml),
        package_json: copy_opt(&node.package_json),
        pyproject_toml: copy_opt(&node.pyproject_toml),
        go_mod: copy_opt(&node.go_mod),
        has_root_main_go: node.has_main_go,
        has_rust_bin,
    };
}

} // verus!
