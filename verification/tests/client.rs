use tuiman::catalog::{Builder, Catalog, Ecosystem, Entry, FLAG_ARCHIVED, FLAG_LIBRARY};
use tuiman::cli::{find, parse_query};
use tuiman::installed::{impossible, Choice, Installed};
use tuiman::managers::{by_name, Action, ManagerId};
use tuiman::query::{Matches, Query, Sort};

fn catalog() -> Catalog {
    let mut b = Builder::new(0);
    let mut push = |name: &str,
                    category: &str,
                    language: &str,
                    stars: Option<u32>,
                    pushed_days: Option<u32>,
                    flags: u8,
                    packages: &[(Ecosystem, &str)]| {
        let url = format!("https://github.com/o/{name}");
        let desc = format!("{name} description");
        b.push(&Entry {
            name,
            desc: &desc,
            url: &url,
            category,
            language,
            stars,
            pushed_days,
            flags,
            packages,
            ..Entry::default()
        })
        .unwrap();
    };
    push("btop", "Dashboards", "C++", Some(20_000), Some(20_700), 0, &[(Ecosystem::Brew, "btop"), (Ecosystem::Apt, "btop")]);
    push("bottom", "Dashboards", "Rust", Some(10_000), Some(20_600), 0, &[(Ecosystem::Crates, "bottom")]);
    push(
        "lazygit",
        "Development",
        "Go",
        Some(50_000),
        Some(20_710),
        0,
        &[(Ecosystem::Brew, "lazygit"), (Ecosystem::Go, "github.com/jesseduffield/lazygit")],
    );
    push("oldtool", "Development", "C", Some(300), Some(15_000), FLAG_ARCHIVED, &[]);
    push("ratatui", "Libraries", "Rust", Some(9_000), Some(20_715), FLAG_LIBRARY, &[(Ecosystem::Crates, "ratatui")]);
    push("mystery", "Web", "", None, None, 0, &[(Ecosystem::Nix, "mystery")]);
    b.finish()
}

fn detected(names: &[&str]) -> Vec<(ManagerId, String)> {
    names.iter().map(|n| (by_name(n).unwrap(), n.to_string())).collect()
}

fn names(catalog: &Catalog, query: &Query, installed: &Installed) -> Vec<String> {
    let mut view = Matches::default();
    view.run(catalog, installed, query);
    view.rows.iter().map(|&r| catalog.name(r).to_owned()).collect()
}

fn args(words: &[&str]) -> Vec<String> {
    words.iter().map(|w| (*w).to_owned()).collect()
}

#[test]
fn availability_follows_detected_managers() {
    let c = catalog();
    let inst = Installed::new(detected(&["brew", "cargo"]), &c);
    let available: Vec<bool> = c.rows().map(|r| inst.is_available(r)).collect();
    assert_eq!(
        available,
        [true, true, true, false, true, false],
        "libraries install like anything else; nix-only rows need nix"
    );
    assert!(c.rows().all(|r| !inst.is_installed(r)));
}

#[test]
fn listings_mark_rows_and_drive_choices() {
    let c = catalog();
    let mut inst = Installed::new(detected(&["brew", "go", "apt"]), &c);
    inst.set_listing(by_name("go").unwrap(), vec!["lazygit".into(), "unrelated".into()], &c);
    inst.set_listing(by_name("apt").unwrap(), vec!["btop".into()], &c);

    assert!(inst.is_installed(0) && inst.is_installed(2) && !inst.is_installed(1));
    assert_eq!(inst.installed_via(2), ["go"]);

    let install = inst.choices(&c, 0, Action::Install);
    assert_eq!(install, [Choice { manager: by_name("brew").unwrap(), package: "btop".into() }], "apt already has it");
    let uninstall = inst.choices(&c, 2, Action::Uninstall);
    assert_eq!(
        uninstall,
        [Choice { manager: by_name("go").unwrap(), package: "github.com/jesseduffield/lazygit".into() }]
    );
    assert!(inst.choices(&c, 1, Action::Uninstall).is_empty());
}

#[test]
fn losing_a_manager_forgets_its_listing() {
    let c = catalog();
    let mut inst = Installed::new(detected(&["brew", "go"]), &c);
    inst.set_listing(by_name("go").unwrap(), vec!["lazygit".into()], &c);
    inst.set_detected(detected(&["brew"]), &c);
    assert!(!inst.is_installed(2) && inst.is_available(2));
    inst.set_detected(detected(&["brew", "go"]), &c);
    assert!(!inst.is_installed(2), "a stale listing must not come back");
}

#[test]
fn choices_follow_the_table_order() {
    let c = catalog();
    let inst = Installed::new(detected(&["apt", "brew"]), &c);
    let install = inst.choices(&c, 0, Action::Install);
    assert_eq!(
        install,
        [
            Choice { manager: by_name("brew").unwrap(), package: "btop".into() },
            Choice { manager: by_name("apt").unwrap(), package: "btop".into() },
        ]
    );
    assert_eq!(inst.detected().len(), 2);
}

#[test]
fn impossible_says_why() {
    let c = catalog();
    assert_eq!(
        impossible(&c, 3, Action::Install, "press o"),
        "no known package for oldtool (press o)"
    );
    assert_eq!(impossible(&c, 0, Action::Install, "x"), "btop is packaged for brew, apt, none of which is on this machine");
    assert_eq!(
        impossible(&c, 1, Action::Uninstall, "x"),
        "bottom is not installed through a package manager tuiman knows"
    );
}

#[test]
fn default_query_sorts_by_stars_and_hides_archived() {
    let c = catalog();
    let inst = Installed::new(Vec::new(), &c);
    assert_eq!(names(&c, &Query::default(), &inst), ["lazygit", "btop", "bottom", "ratatui", "mystery"]);
    let all = Query { show_archived: true, sort: Sort::Name, ..Query::default() };
    assert_eq!(names(&c, &all, &inst), ["bottom", "btop", "lazygit", "mystery", "oldtool", "ratatui"]);
    let recent = Query { sort: Sort::Updated, ..Query::default() };
    assert_eq!(names(&c, &recent, &inst)[..2], ["ratatui", "lazygit"]);
}

#[test]
fn filters_compose() {
    let c = catalog();
    let mut inst = Installed::new(detected(&["brew", "cargo"]), &c);
    inst.set_listing(by_name("brew").unwrap(), vec!["btop".into()], &c);

    let q = |f: fn(&mut Query)| {
        let mut q = Query::default();
        f(&mut q);
        q
    };
    assert_eq!(names(&c, &q(|q| q.min_stars = 10_000), &inst), ["lazygit", "btop", "bottom"]);
    assert_eq!(names(&c, &q(|q| q.installed_only = true), &inst), ["btop"]);
    assert_eq!(names(&c, &q(|q| q.installable_only = true), &inst), ["lazygit", "btop", "bottom", "ratatui"]);
    assert_eq!(names(&c, &q(|q| q.category = Some(0)), &inst), ["btop", "bottom"]);
    let rust = c.rows().find(|&r| c.language(r) == "Rust").map(|r| c.language_id(r));
    let mut rust_apps = Query { language: rust, min_stars: 9_500, ..Query::default() };
    assert_eq!(names(&c, &rust_apps, &inst), ["bottom"]);
    rust_apps.category = Some(1);
    assert!(names(&c, &rust_apps, &inst).is_empty());
}

#[test]
fn search_ranks_name_hits_first_and_counts_per_category() {
    let c = catalog();
    let inst = Installed::new(Vec::new(), &c);
    let mut view = Matches::default();
    let query = Query { text: "bto".into(), category: Some(1), ..Query::default() };
    view.run(&c, &inst, &query);
    assert!(view.rows.is_empty(), "no development tool matches");
    assert_eq!(view.category_counts[0], 2, "btop and bottom both fuzzy-match in Dashboards");
    assert_eq!(view.category_counts.iter().sum::<u32>(), 2);

    let by_desc = Query { text: "lazygit desc".into(), ..Query::default() };
    assert_eq!(names(&c, &by_desc, &inst), ["lazygit"]);
    let fuzzy = Query { text: "BTM".into(), ..Query::default() };
    assert_eq!(names(&c, &fuzzy, &inst), ["bottom"]);
}

#[test]
fn sort_still_applies_while_searching() {
    let c = catalog();
    let inst = Installed::new(Vec::new(), &c);
    let by_stars = Query { text: "b".into(), ..Query::default() };
    assert_eq!(names(&c, &by_stars, &inst), ["btop", "bottom"]);
    let by_name = Query { text: "b".into(), sort: Sort::Name, ..Query::default() };
    assert_eq!(names(&c, &by_name, &inst), ["bottom", "btop"]);
}

#[test]
fn rerunning_reuses_buffers() {
    let c = catalog();
    let inst = Installed::new(Vec::new(), &c);
    let mut view = Matches::default();
    view.run(&c, &inst, &Query::default());
    let capacity = (view.rows.capacity(), view.category_counts.capacity());
    view.run(&c, &inst, &Query { text: "b".into(), ..Query::default() });
    assert_eq!((view.rows.capacity(), view.category_counts.capacity()), capacity);
}

#[test]
fn sorts_cycle() {
    assert_eq!(Sort::Stars.next(), Sort::Updated);
    assert_eq!(Sort::Updated.next(), Sort::Name);
    assert_eq!(Sort::Name.next(), Sort::Stars);
    assert_eq!(Sort::Updated.label(), "updated");
}

#[test]
fn parses_filters_and_free_text() {
    let c = catalog();
    let q = parse_query(&args(&["git", "--min-stars", "500", "--category", "development", "ui", "--sort", "name"]), &c)
        .unwrap();
    assert_eq!((q.text.as_str(), q.min_stars, q.category, q.sort), ("git ui", 500, Some(1), Sort::Name));
    let q = parse_query(&args(&["--language", "rust", "--installed", "--archived"]), &c).unwrap();
    assert!(q.language.is_some() && q.installed_only && q.show_archived);
}

#[test]
fn rejects_bad_options() {
    let c = catalog();
    for bad in [&["--min-stars"][..], &["--min-stars", "many"], &["--category", "nope"], &["--sort", "size"], &["--wat"]] {
        assert!(parse_query(&args(bad), &c).is_err(), "{bad:?}");
    }
}

#[test]
fn finds_by_name_or_suggests() {
    let c = catalog();
    let inst = Installed::new(Vec::new(), &c);
    assert_eq!(find(&c, &inst, "LazyGit"), Ok(2));
    assert_eq!(find(&c, &inst, "lazy"), Err(vec!["lazygit".to_owned()]));
    assert_eq!(find(&c, &inst, "zzzzzz"), Err(Vec::new()));
}

#[test]
fn cache_roundtrip() {
    let c = catalog();
    let mut inst = Installed::new(detected(&["brew", "go"]), &c);
    inst.set_listing(by_name("brew").unwrap(), vec!["btop".into(), "wget".into()], &c);
    inst.set_listing(by_name("go").unwrap(), vec!["lazygit".into()], &c);
    let text = inst.save_cache(&c);

    let restored = Installed::from_cache(&text, &c);
    assert_eq!(restored.detected(), inst.detected());
    for r in c.rows() {
        assert_eq!(restored.is_installed(r), inst.is_installed(r), "row {r}");
        assert_eq!(restored.is_available(r), inst.is_available(r), "row {r}");
    }

    let nothing = Installed::from_cache("", &c);
    assert!(nothing.detected().is_empty() && c.rows().all(|r| !nothing.is_available(r)));
}

#[test]
fn cache_text_lists_managers_then_packages() {
    let c = catalog();
    let mut inst = Installed::new(detected(&["brew", "go"]), &c);
    inst.set_listing(by_name("go").unwrap(), vec!["lazygit".into()], &c);
    assert_eq!(inst.save_cache(&c), "@brew\tbrew\n@go\tgo\ngo\tlazygit\n");
    let restored = Installed::from_cache("junk\n@nope\tx\n@go\t/usr/bin/go\ngo\tlazygit\n", &c);
    assert_eq!(restored.detected(), &vec![(by_name("go").unwrap(), "/usr/bin/go".to_string())]);
    assert!(restored.is_installed(2));
}
