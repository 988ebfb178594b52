use std::io::Write;

use serde_json::Value;
use tuiman::brew::{add_casks, formulae_by_repo, Cask, Formula};
use tuiman::bulk::{aur_by_repo, aur_dump_json, assign, nix_by_repo, nix_dump_json, offer, AurPackage, NixPackage, Offers};
use tuiman::catalog::{Builder, Catalog, Ecosystem};
use tuiman::github::{apply, RepoNode};
use tuiman::item::{Item, Manifests};
use tuiman::overrides::{Override, OverrideError, Overrides};
use tuiman::registries::{accept, cargo_name, first_hit, go_package, links_back, npm_names, pypi_name};
use tuiman::repology::{distro_packages, target, RepologyPackage};

fn json(text: &str) -> Value {
    serde_json::from_str(text).unwrap()
}

fn text(v: &Value) -> Option<String> {
    v.as_str().map(String::from)
}

fn entry(repo: &str, exclude: bool, packages: &[(&str, &str)], remove: &[&str]) -> Override {
    Override {
        repo: repo.into(),
        exclude,
        packages: packages.iter().map(|(e, p)| (e.to_string(), p.to_string())).collect(),
        remove: remove.iter().map(|s| s.to_string()).collect(),
    }
}

#[test]
fn typos_are_errors() {
    let unknown = Overrides { entries: vec![entry("o/a", false, &[("homebrew", "x")], &[])] };
    assert_eq!(
        unknown.check(),
        Err(OverrideError::UnknownEcosystem { repo: "o/a".into(), ecosystem: "homebrew".into() })
    );
    let unsafe_name = Overrides { entries: vec![entry("o/a", false, &[("brew", "--x")], &[])] };
    assert_eq!(
        unsafe_name.check(),
        Err(OverrideError::InvalidPackage { repo: "o/a".into(), package: "--x".into() })
    );
    let bad_removal = Overrides { entries: vec![entry("o/a", false, &[], &["crate"])] };
    assert!(bad_removal.check().is_err());
    assert!(Overrides { entries: vec![] }.check().is_ok());
}

#[test]
fn adds_removes_and_excludes() {
    let overrides = Overrides {
        entries: vec![
            entry("O/A", false, &[("brew", "a-tui")], &["crates"]),
            entry("o/b", true, &[], &[]),
            entry("o/gone", true, &[], &[]),
        ],
    };
    assert!(overrides.check().is_ok());
    let mut a = Item { name: "a".into(), repo: Some("o/a".into()), ..Item::default() };
    a.set_package(Ecosystem::Crates, "wrong");
    let b = Item { name: "b".into(), repo: Some("o/b".into()), ..Item::default() };
    let mut items = vec![a, b];
    overrides.apply(&mut items);
    assert_eq!(items.len(), 1);
    let known: Vec<(Ecosystem, String)> = [Ecosystem::Apt, Ecosystem::Brew, Ecosystem::Crates]
        .into_iter()
        .filter_map(|e| items[0].package(e).map(|p| (e, p.clone())))
        .collect();
    assert_eq!(known, [(Ecosystem::Brew, "a-tui".to_string())]);
}

#[test]
fn unsafe_package_names_are_dropped() {
    let mut item = Item::default();
    item.set_package(Ecosystem::Brew, "btop");
    item.set_package(Ecosystem::Brew, "-rf");
    assert_eq!(item.package(Ecosystem::Brew).map(String::as_str), Some("btop"));
    item.remove_package(Ecosystem::Brew);
    assert_eq!(item.package(Ecosystem::Brew), None);
}

fn node(v: &Value) -> RepoNode {
    RepoNode {
        name_with_owner: text(&v["nameWithOwner"]),
        stargazer_count: v["stargazerCount"].as_u64(),
        is_archived: v["isArchived"].as_bool(),
        pushed_at: text(&v["pushedAt"]),
        language: text(&v["primaryLanguage"]["name"]),
        license: text(&v["licenseInfo"]["spdxId"]),
        cargo_toml: text(&v["cargo"]["text"]),
        package_json: text(&v["npm"]["text"]),
        pyproject_toml: text(&v["py"]["text"]),
        go_mod: text(&v["gomod"]["text"]),
        has_main_go: v["maingo"].is_object(),
        src_entries: v["src"]["entries"]
            .as_array()
            .into_iter()
            .flatten()
            .filter_map(|e| text(&e["name"]))
            .collect(),
    }
}

#[test]
fn applies_a_repository_node() {
    let n = node(&json(
        r#"{
        "nameWithOwner": "New-Owner/bottom",
        "stargazerCount": 12345,
        "isArchived": true,
        "pushedAt": "2026-09-01T00:00:00Z",
        "primaryLanguage": { "name": "Rust" },
        "licenseInfo": { "spdxId": "MIT" },
        "cargo": { "text": "[package]\nname = \"bottom\"" },
        "npm": null, "py": null, "gomod": null, "maingo": null,
        "src": { "entries": [{ "name": "lib.rs" }, { "name": "bin" }] }
    }"#,
    ));
    let mut item = Item { repo: Some("old-owner/bottom".into()), ..Item::default() };
    apply(&mut item, &n);
    assert_eq!(item.repo.as_deref(), Some("new-owner/bottom"));
    assert_eq!(item.former_repo.as_deref(), Some("old-owner/bottom"));
    assert!(item.is_repo("old-owner/bottom") && item.is_repo("new-owner/bottom"));
    assert_eq!(item.stars, Some(12345));
    assert!(item.archived);
    assert_eq!((item.language.as_str(), item.license.as_str()), ("Rust", "MIT"));
    assert!(item.manifests.cargo_toml.is_some() && item.manifests.go_mod.is_none());
    assert!(!item.manifests.has_root_main_go && item.manifests.has_rust_bin);
}

#[test]
fn missing_metadata_stays_empty() {
    let n = node(&json(r#"{ "nameWithOwner": "a/b", "stargazerCount": 1, "licenseInfo": { "spdxId": "NOASSERTION" } }"#));
    let mut item = Item { repo: Some("a/b".into()), ..Item::default() };
    apply(&mut item, &n);
    assert_eq!(item.former_repo, None);
    assert_eq!((item.language.as_str(), item.license.as_str()), ("", ""));
}

#[test]
fn star_counts_are_capped_below_unknown() {
    let n = node(&json(r#"{ "stargazerCount": 99999999999 }"#));
    let mut item = Item::default();
    apply(&mut item, &n);
    assert_eq!(item.stars, Some(u32::MAX - 1));
}

fn aur(dump: &str) -> Vec<AurPackage> {
    json(dump)
        .as_array()
        .unwrap()
        .iter()
        .map(|p| AurPackage { name: text(&p["Name"]).unwrap(), url: text(&p["URL"]), out_of_date: p["OutOfDate"].as_u64() })
        .collect()
}

#[test]
fn aur_prefers_release_packages_and_skips_flagged_ones() {
    let dump = r#"[
        {"Name":"yazi-git","URL":"https://github.com/sxyazi/yazi","OutOfDate":null,"Popularity":1.0},
        {"Name":"yazi-bin","URL":"https://github.com/sxyazi/yazi","OutOfDate":null},
        {"Name":"yazi","URL":"https://github.com/sxyazi/yazi/","OutOfDate":null},
        {"Name":"stale","URL":"https://github.com/o/stale","OutOfDate":1700000000},
        {"Name":"nourl","URL":null,"OutOfDate":null},
        {"Name":"-evil","URL":"https://github.com/o/evil","OutOfDate":null},
        {"Name":"onlygit-git","URL":"https://github.com/o/onlygit.git","OutOfDate":null}
    ]"#;
    let map = aur_by_repo(&aur(dump));
    assert_eq!(map.best("sxyazi/yazi").unwrap().1, "yazi");
    assert_eq!(map.best("o/onlygit").unwrap().1, "onlygit-git");
    assert_eq!(map.len(), 2);
}

#[test]
fn the_aur_dump_is_gzip() {
    let json_text = br#"[{"Name":"btop","URL":"https://github.com/aristocratos/btop","OutOfDate":null}]"#;
    let mut gz = flate2::write::GzEncoder::new(Vec::new(), flate2::Compression::default());
    gz.write_all(json_text).unwrap();
    let raw = gz.finish().unwrap();
    assert_eq!(aur_dump_json(&raw).as_deref(), Some(&json_text[..]));
    assert_eq!(aur_dump_json(b"not gzip"), None);
    assert!(nix_dump_json(b"\xff\xff not brotli").is_none());
}

fn nix(dump: &str) -> Vec<NixPackage> {
    let v = json(dump);
    v["packages"]
        .as_object()
        .unwrap()
        .iter()
        .map(|(attr, p)| NixPackage {
            attr: attr.clone(),
            homepages: match &p["meta"]["homepage"] {
                Value::String(s) => vec![s.clone()],
                Value::Array(a) => a.iter().filter_map(text).collect(),
                _ => vec![],
            },
        })
        .collect()
}

#[test]
fn nix_prefers_top_level_attributes() {
    let dump = r#"{"version":2,"packages":{
        "python3Packages.btop":{"pname":"btop","meta":{"homepage":"https://github.com/aristocratos/btop"}},
        "btop":{"pname":"btop","meta":{"homepage":"https://github.com/aristocratos/btop#readme"}},
        "btop-rocm":{"meta":{"homepage":["https://example.com","https://github.com/aristocratos/btop"]}},
        "nometa":{},
        "nohome":{"meta":{"description":"x"}}
    }}"#;
    let map = nix_by_repo(&nix(dump));
    assert_eq!(map.best("aristocratos/btop").unwrap().1, "btop");
    assert_eq!(map.len(), 1);
}

#[test]
fn assignment_follows_renames_and_includes_libraries() {
    let mut by_repo = Offers::new();
    offer(&mut by_repo, "old/app".into(), (0, 3), "app");
    offer(&mut by_repo, "o/lib".into(), (0, 3), "lib");
    let items = vec![
        Item { repo: Some("new/app".into()), former_repo: Some("old/app".into()), ..Item::default() },
        Item { repo: Some("o/lib".into()), library: true, ..Item::default() },
        Item { repo: None, ..Item::default() },
    ];
    assert_eq!(
        assign(&items, Ecosystem::Aur, &by_repo),
        [(0, Ecosystem::Aur, "app".to_owned()), (1, Ecosystem::Aur, "lib".to_owned())]
    );
}

fn with(repo: &str, manifests: Manifests) -> Item {
    Item { repo: Some(repo.into()), manifests, ..Item::default() }
}

#[test]
fn cargo_candidates() {
    let pkg = |toml: &str| {
        cargo_name(&with("a/b", Manifests { cargo_toml: Some(toml.into()), has_rust_bin: true, ..Manifests::default() }))
    };
    assert_eq!(pkg("[package]\nname = \"bottom\"\nversion = \"1.0.0\""), Some("bottom".into()));
    assert_eq!(pkg("[package]\nname = \"x\"\npublish = false"), None);
    assert_eq!(pkg("[workspace]\nmembers = [\"a\"]"), None);
    assert_eq!(pkg("not toml ["), None);
    let lib = |toml: &str| cargo_name(&with("a/b", Manifests { cargo_toml: Some(toml.into()), ..Manifests::default() }));
    assert_eq!(lib("[package]\nname = \"ratatui\""), None);
    assert_eq!(lib("[package]\nname = \"x\"\n[[bin]]\nname = \"x\""), Some("x".into()));
}

#[test]
fn npm_candidates_are_public() {
    let pkg = |j: &str| npm_names(&with("openai/codex", Manifests { package_json: Some(j.into()), ..Manifests::default() }));
    assert_eq!(pkg(r#"{"name":"@s/cli","bin":{"cli":"x.js"}}"#), ["@s/cli"]);
    assert_eq!(pkg(r#"{"name":"carbonyl"}"#), ["carbonyl"]);
    assert_eq!(pkg(r#"{"name":"codex-monorepo","private":true}"#), ["@openai/codex", "codex"]);
    assert!(npm_names(&with("a/b", Manifests::default())).is_empty());
}

#[test]
fn pypi_candidates_need_scripts() {
    let pkg = |toml: &str| pypi_name(&with("a/b", Manifests { pyproject_toml: Some(toml.into()), ..Manifests::default() }));
    assert_eq!(pkg("[project]\nname = \"posting\"\n[project.scripts]\nposting = \"p:main\""), Some("posting".into()));
    assert_eq!(pkg("[tool.poetry]\nname = \"dolphie\"\n[tool.poetry.scripts]\ndolphie = \"d:main\""), Some("dolphie".into()));
    assert_eq!(pkg("[project]\nname = \"justalib\""), None);
}

#[test]
fn go_candidates_must_live_in_the_repo() {
    let go = |repo: &str, module: &str, main: bool| {
        go_package(&with(
            repo,
            Manifests { go_mod: Some(format!("module {module}\n\ngo 1.22\n")), has_root_main_go: main, ..Manifests::default() },
        ))
    };
    assert_eq!(go("jesseduffield/lazygit", "github.com/jesseduffield/lazygit", true), Some("github.com/jesseduffield/lazygit".into()));
    assert_eq!(go("derailed/k9s", "github.com/derailed/k9s/v2", true), Some("github.com/derailed/k9s/v2".into()));
    assert_eq!(go("a/b", "github.com/a/b", false), None);
    assert_eq!(go("a/b", "github.com/someone/else", true), None);
    assert_eq!(go("a/b", "example.com/b", true), None);
}

#[test]
fn verification_requires_a_link_back() {
    let it = with(
        "clementtsang/bottom",
        Manifests { cargo_toml: Some("[package]\nname = \"bottom\"".into()), has_rust_bin: true, ..Manifests::default() },
    );
    let names: Vec<String> = cargo_name(&it).into_iter().collect();
    let run = |urls: Option<Vec<String>>| first_hit(&it, &names, &vec![urls]);
    assert_eq!(run(Some(vec!["https://github.com/ClementTsang/bottom".into()])), Some(0));
    assert_eq!(run(Some(vec!["https://github.com/squatter/bottom".into()])), None);
    assert_eq!(run(None), None);
    assert!(links_back(&it, &vec!["git+https://github.com/clementtsang/bottom.git".into()]));
    assert!(!accept("--bottom", Some(&vec!["https://github.com/ClementTsang/bottom".into()]), &it));
}

fn repology(project: &str) -> Vec<RepologyPackage> {
    json(project)
        .as_array()
        .into_iter()
        .flatten()
        .map(|p| RepologyPackage {
            repo: text(&p["repo"]),
            status: text(&p["status"]),
            binname: text(&p["binname"]),
            srcname: text(&p["srcname"]),
            visiblename: text(&p["visiblename"]),
        })
        .collect()
}

fn brew_item(brew: &str) -> Item {
    let mut item = Item::default();
    item.set_package(Ecosystem::Brew, brew);
    item
}

#[test]
fn anchored_projects_yield_distro_packages() {
    let project = repology(
        r#"[
        { "repo": "homebrew", "srcname": "btop", "visiblename": "btop" },
        { "repo": "debian_9", "srcname": "btop", "binname": "btop-ancient" },
        { "repo": "debian_13", "srcname": "btop", "binname": "btop" },
        { "repo": "debian_12", "srcname": "btop", "binname": "btop-old" },
        { "repo": "ubuntu_24_04", "srcname": "btop", "binname": "btop-ubuntu" },
        { "repo": "debian_unstable", "srcname": "btop", "binname": "btop-sid" },
        { "repo": "archpower", "binname": "not-arch" },
        { "repo": "homebrew_casks", "srcname": "btop" },
        { "repo": "fedora_42", "srcname": "btop", "visiblename": "btop" },
        { "repo": "arch", "subrepo": "extra", "srcname": "btop", "binname": "btop" },
        { "repo": "gentoo", "srcname": "sys-process/btop" }
    ]"#,
    );
    let mut got = distro_packages(&brew_item("btop"), &project);
    got.sort();
    assert_eq!(
        got,
        [(Ecosystem::Apt, "btop".to_owned()), (Ecosystem::Dnf, "btop".to_owned()), (Ecosystem::Pacman, "btop".to_owned())]
    );
}

#[test]
fn unanchored_projects_are_ignored() {
    let project = repology(
        r#"[
        { "repo": "homebrew", "srcname": "something-else" },
        { "repo": "homebrew_casks", "srcname": "sc-im" },
        { "repo": "debian_13", "binname": "sc" }
    ]"#,
    );
    assert!(distro_packages(&brew_item("sc-im"), &project).is_empty());
    assert!(distro_packages(&brew_item("sc-im"), &repology(r#"{"error": "nope"}"#)).is_empty());
}

#[test]
fn repology_targets() {
    assert_eq!(target("arch"), Some((Ecosystem::Pacman, 0)));
    assert_eq!(target("debian_13"), Some((Ecosystem::Apt, (1 << 20) + 13)));
    assert_eq!(target("ubuntu_24_04"), Some((Ecosystem::Apt, 2404)));
    assert_eq!(target("fedora_42"), Some((Ecosystem::Dnf, 42)));
    assert_eq!(target("debian_unstable"), None);
    assert_eq!(target("fedora_rawhide"), None);
    assert_eq!(target("archpower"), None);
}

fn formulae(v: &str) -> Vec<Formula> {
    json(v)
        .as_array()
        .unwrap()
        .iter()
        .map(|f| Formula {
            name: text(&f["name"]),
            disabled: f["disabled"].as_bool(),
            urls: vec![text(&f["homepage"]), text(&f["urls"]["stable"]["url"]), text(&f["urls"]["head"]["url"])],
        })
        .collect()
}

fn casks(v: &str) -> Vec<Cask> {
    json(v)
        .as_array()
        .unwrap()
        .iter()
        .map(|c| Cask {
            token: text(&c["token"]),
            disabled: c["disabled"].as_bool(),
            has_binary: c["artifacts"].as_array().into_iter().flatten().any(|a| a.get("binary").is_some()),
            urls: vec![text(&c["homepage"]), text(&c["url"])],
        })
        .collect()
}

#[test]
fn matches_by_any_url_and_prefers_unversioned() {
    let f = formulae(
        r#"[
        { "name": "btop@1", "homepage": "https://github.com/aristocratos/btop", "urls": {} },
        { "name": "btop", "homepage": "https://github.com/aristocratos/btop", "urls": {} },
        { "name": "lazygit", "homepage": "https://example.com",
          "urls": { "stable": { "url": "https://github.com/jesseduffield/lazygit/archive/v1.tar.gz" } } },
        { "name": "gone", "homepage": "https://github.com/x/gone", "disabled": true, "urls": {} },
        { "name": "elsewhere", "homepage": "https://gitlab.com/x/y", "urls": {} }
    ]"#,
    );
    let map = formulae_by_repo(&f);
    assert_eq!(map.best("aristocratos/btop").map(|(_, n)| n), Some("btop".to_string()));
    assert_eq!(map.best("jesseduffield/lazygit").map(|(_, n)| n), Some("lazygit".to_string()));
    assert_eq!(map.len(), 2);
}

#[test]
fn cli_casks_fill_in_behind_formulae() {
    let f = formulae(r#"[{ "name": "btop", "homepage": "https://github.com/aristocratos/btop", "urls": {} }]"#);
    let c = casks(
        r#"[
        { "token": "codex", "homepage": "https://github.com/openai/codex", "artifacts": [{ "binary": ["bin/x"] }] },
        { "token": "btop-app", "homepage": "https://github.com/aristocratos/btop", "artifacts": [{ "binary": ["bin/x"] }] },
        { "token": "btop", "homepage": "https://github.com/o/other", "artifacts": [{ "binary": ["bin/x"] }] },
        { "token": "gui", "homepage": "https://github.com/o/gui", "artifacts": [{ "app": ["Gui.app"] }] }
    ]"#,
    );
    let mut map = formulae_by_repo(&f);
    add_casks(&mut map, &f, &c);
    assert_eq!(map.best("openai/codex").unwrap().1, "codex");
    assert_eq!(map.best("aristocratos/btop").unwrap().1, "btop");
    assert_eq!(map.len(), 2);
}

#[test]
fn the_empty_catalog_is_what_an_empty_builder_finishes() {
    let c = Catalog::empty();
    assert_eq!(c.len(), 0);
    assert!(c.is_empty());
    assert_eq!(c.category_count(), 0);
    assert_eq!(c, Builder::new(0).finish());
    assert_ne!(c, Builder::new(7).finish());
}

#[test]
fn the_index_holds_every_entry_and_decodes() {
    let mut lazygit = Item {
        name: "lazygit".into(),
        url: "https://github.com/jesseduffield/lazygit".into(),
        description: "Git \u{1b}UI".into(),
        category: "Development".into(),
        stars: Some(u32::MAX),
        pushed_at: Some("2026-09-21T10:00:00Z".into()),
        archived: true,
        ..Item::default()
    };
    lazygit.set_package(Ecosystem::Go, "github.com/jesseduffield/lazygit");
    lazygit.set_package(Ecosystem::Brew, "lazygit");
    let btop = Item { name: "btop".into(), url: "https://github.com/aristocratos/btop".into(), category: "Development".into(), library: true, ..Item::default() };
    let bytes = tuiman::publish::build_index(5, &vec![lazygit, btop]).unwrap();
    let c = tuiman::format::decode(&bytes).unwrap();
    assert_eq!(c.len(), 2);
    assert_eq!(c.desc(0), "Git  UI");
    assert_eq!(c.stars(0), Some(u32::MAX - 1));
    assert_eq!(c.pushed_days(0), Some(20_717));
    assert!(c.is_archived(0) && !c.is_library(0) && c.is_library(1));
    assert_eq!(c.category_id(0), c.category_id(1));
    assert_eq!(c.category_count(), 1);
    let pkgs: Vec<(Ecosystem, &str)> = c.packages(0);
    assert_eq!(pkgs, [(Ecosystem::Brew, "lazygit"), (Ecosystem::Go, "github.com/jesseduffield/lazygit")]);
}

#[test]
fn a_bad_url_stops_the_index() {
    let bad = Item { name: "x".into(), url: "ftp://x".into(), ..Item::default() };
    assert_eq!(
        tuiman::publish::build_index(0, &vec![bad]),
        Err(tuiman::publish::IndexError::Build(tuiman::catalog::BuildError::InvalidUrl("ftp://x".into())))
    );
}
