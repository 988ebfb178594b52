use tuiman::catalog::{Builder, Catalog, Ecosystem, Entry};
use tuiman::change::{pick, Pick};
use tuiman::format::DecodeError;
use tuiman::freshness::is_fresh_at;
use tuiman::hints::{hints, hints_that_fit};
use tuiman::installed::{Choice, Installed};
use tuiman::item::Item;
use tuiman::managers::{by_name, Action};
use tuiman::registries::npm_runnable;
use tuiman::repology::{after_reply, project};

fn catalog() -> Catalog {
    let mut b = Builder::new(0);
    b.push(&Entry {
        name: "btop",
        desc: "monitor",
        url: "https://github.com/aristocratos/btop",
        category: "Dashboards",
        packages: &[(Ecosystem::Brew, "btop"), (Ecosystem::Apt, "btop")],
        ..Entry::default()
    })
    .unwrap();
    b.finish()
}

fn installed(catalog: &Catalog) -> Installed {
    let detected = ["brew", "apt"].iter().map(|n| (by_name(n).unwrap(), n.to_string())).collect();
    let mut installed = Installed::new(detected, catalog);
    installed.set_listing(by_name("brew").unwrap(), vec!["btop".to_string()], catalog);
    installed
}

#[test]
fn a_second_install_needs_via() {
    let c = catalog();
    let i = installed(&c);
    match pick(&i, &c, 0, Action::Install, None) {
        Pick::AlreadyInstalled(managers) => assert_eq!(managers, vec!["brew"]),
        _ => panic!("an install without --via of an installed TUI is refused"),
    }
    match pick(&i, &c, 0, Action::Install, Some("apt")) {
        Pick::Chosen(choice) => {
            assert_eq!(choice, Choice { manager: by_name("apt").unwrap(), package: "btop".to_string() })
        }
        _ => panic!("--via apt installs through apt"),
    }
    match pick(&i, &c, 0, Action::Uninstall, None) {
        Pick::Chosen(choice) => {
            assert_eq!(choice, Choice { manager: by_name("brew").unwrap(), package: "btop".to_string() })
        }
        _ => panic!("uninstalling goes through the manager that has it"),
    }
    assert!(matches!(pick(&i, &c, 0, Action::Install, Some("cargo")), Pick::NoWay));
    assert!(matches!(pick(&i, &c, 0, Action::Uninstall, Some("apt")), Pick::NoWay));
}

#[test]
fn decode_errors_read_as_the_user_is_told() {
    assert_eq!(DecodeError::BadMagic.message(), "not a tuiman index");
    assert_eq!(
        DecodeError::UnsupportedVersion(7).message(),
        "index format version 7 is not supported, please update tuiman"
    );
    assert_eq!(DecodeError::BadLength.message(), "index is truncated or has trailing data");
    assert_eq!(DecodeError::Corrupt("table too large").message(), "index is corrupt: table too large");
}

#[test]
fn a_check_stays_fresh_for_six_hours() {
    let hour: i128 = 3_600_000_000_000;
    let at: i128 = 1_700_000_000_000_000_000;
    assert!(is_fresh_at(at, at));
    assert!(is_fresh_at(at, at + 6 * hour - 1));
    assert!(!is_fresh_at(at, at + 6 * hour));
    assert!(!is_fresh_at(at, at - 1));
    assert!(is_fresh_at(i128::MAX - 1, i128::MAX));
    assert!(!is_fresh_at(i128::MIN, i128::MAX));
}

#[test]
fn npm_bin_comes_from_the_published_latest() {
    assert!(npm_runnable(r#"{ "bin": { "carbonyl": "index.sh" } }"#));
    assert!(npm_runnable(r#"{ "bin": "cli.js" }"#));
    assert!(!npm_runnable(r#"{ "bin": null }"#));
    assert!(!npm_runnable(r#"{ "name": "lib" }"#));
    assert!(!npm_runnable("not json"));
}

#[test]
fn repology_projects_come_from_a_known_package() {
    let mut item = Item::default();
    assert_eq!(project(&item), None);
    item.set_package(Ecosystem::Nix, "Bottom");
    assert_eq!(project(&item).as_deref(), Some("bottom"));
    item.set_package(Ecosystem::Aur, "bottom-bin");
    assert_eq!(project(&item).as_deref(), Some("bottom-bin"));
    item.set_package(Ecosystem::Brew, "g++");
    assert_eq!(project(&item).as_deref(), Some("g++"));
    item.set_package(Ecosystem::Brew, "python@3.12");
    assert_eq!(project(&item), None);
}

#[test]
fn repology_is_given_up_after_five_failures_in_a_row() {
    let mut failures = 0;
    for _ in 0..4 {
        let (f, give_up) = after_reply(failures, true);
        assert!(!give_up);
        failures = f;
    }
    assert_eq!(after_reply(failures, false), (0, false));
    assert_eq!(after_reply(failures, true), (5, true));
}

#[test]
fn hints_fit_however_long_they_are() {
    let long: &'static str = "a very long label that goes on";
    let shown = vec![("x", long, true), ("y", "z", false)];
    assert_eq!(hints_that_fit(&shown, 32, 3), 1);
    assert_eq!(hints_that_fit(&shown, 35, 3), 1);
    assert_eq!(hints_that_fit(&shown, 37, 3), 2);
    assert_eq!(hints_that_fit(&shown, 0, usize::MAX), 0);
    assert_eq!(hints_that_fit(&hints(), usize::MAX, usize::MAX), 3);
}

#[test]
fn each_listing_of_a_package_is_one_way() {
    let mut b = Builder::new(0);
    b.push(&Entry {
        name: "x",
        url: "https://github.com/o/x",
        packages: &[(Ecosystem::Apt, "x"), (Ecosystem::Brew, "x"), (Ecosystem::Brew, "x"), (Ecosystem::Crates, "x")],
        ..Entry::default()
    })
    .unwrap();
    let c = b.finish();
    let detected = ["apt", "brew"].iter().map(|n| (by_name(n).unwrap(), n.to_string())).collect();
    let i = Installed::new(detected, &c);
    let brew = by_name("brew").unwrap();
    let apt = by_name("apt").unwrap();
    let way = |manager| Choice { manager, package: "x".to_string() };
    let mut expected = vec![way(brew), way(brew), way(apt)];
    expected.sort_by_key(|c| c.manager);
    assert_eq!(i.choices(&c, 0, Action::Install), expected);
}
