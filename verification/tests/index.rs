use tuiman::catalog::{BuildError, Builder, Catalog, Ecosystem, Entry, FLAG_ARCHIVED, FLAG_LIBRARY};
use tuiman::date::{civil_from_days, days_from_civil, days_from_iso};
use tuiman::text::{is_emoji, valid_package_name, valid_url};

#[test]
fn known_dates() {
    assert_eq!(days_from_civil(1970, 1, 1), 0);
    assert_eq!(days_from_civil(2000, 3, 1), 11_017);
    assert_eq!(civil_from_days(11_017), (2000, 3, 1));
    assert_eq!(days_from_iso("2026-09-21T10:00:00Z"), Some(20_717));
    assert_eq!(civil_from_days(20_717), (2026, 9, 21));
}

#[test]
fn roundtrip_across_leap_years() {
    for days in (-800_000..800_000).step_by(37) {
        let (y, m, d) = civil_from_days(days);
        assert_eq!(days_from_civil(y, m, d), days);
    }
}

#[test]
fn rejects_garbage() {
    for bad in ["", "2026", "2026-13-01T", "2026-00-10", "abcd-ef-gh", "1969-12-31"] {
        assert_eq!(days_from_iso(bad), None, "{bad}");
    }
}

#[test]
fn package_names() {
    for ok in ["btop", "lazygit", "@scope/pkg", "github.com/a/b/cmd/x", "python3Packages.foo", "g++"] {
        assert!(valid_package_name(ok), "{ok}");
    }
    for bad in ["", "-rf", "--force", "a;b", "a b", "a$(b)", "a\nb", "a`b`", "ä"] {
        assert!(!valid_package_name(bad), "{bad}");
    }
}

#[test]
fn urls() {
    assert!(valid_url("https://github.com/a/b"));
    assert!(!valid_url("-h"));
    assert!(!valid_url("file:///etc/passwd"));
    assert!(!valid_url("https://a b"));
}

#[test]
fn builder_rejects_bad_input() {
    let mut b = Builder::new(0);
    let bad_pkg = Entry { url: "https://x.y", packages: &[(Ecosystem::Brew, "-x")], ..Entry::default() };
    assert_eq!(b.push(&bad_pkg), Err(BuildError::InvalidPackage("-x".into())));
    let bad_url = Entry { url: "javascript:1", ..Entry::default() };
    assert!(matches!(b.push(&bad_url), Err(BuildError::InvalidUrl(_))));
    assert_eq!(b.finish().len(), 0);
}

#[test]
fn builder_roundtrip_through_accessors() {
    let mut b = Builder::new(42);
    b.push(&Entry {
        name: "btop",
        desc: "Resource\u{1b}[31m monitor",
        url: "https://github.com/aristocratos/btop",
        category: "Dashboards",
        language: "C++",
        license: "Apache-2.0",
        stars: Some(20_000),
        pushed_days: Some(20_000),
        flags: FLAG_ARCHIVED,
        packages: &[(Ecosystem::Brew, "btop"), (Ecosystem::Apt, "btop")],
    })
    .unwrap();
    b.push(&Entry { name: "x", url: "https://x.y", category: "Dashboards", ..Entry::default() }).unwrap();
    let c = b.finish();

    assert_eq!(c.len(), 2);
    assert_eq!(c.name(0), "btop");
    assert_eq!(c.desc(0), "Resource [31m monitor", "control characters are neutralised");
    assert_eq!(c.stars(0), Some(20_000));
    assert_eq!(c.stars(1), None);
    assert_eq!(c.pushed_days(1), None);
    assert_eq!(c.language(0), "C++");
    assert_eq!(c.license(0), "Apache-2.0");
    assert!(c.is_archived(0) && !c.is_library(0));
    assert_eq!(c.category_id(0), c.category_id(1));
    assert_eq!(c.category_count(), 1);
    assert_eq!(c.packages(0), [(Ecosystem::Brew, "btop"), (Ecosystem::Apt, "btop")]);
    assert_eq!(c.packages(1).len(), 0);
}

#[test]
fn ecosystems_round_trip_through_ids_and_names() {
    for id in 0..10u8 {
        let e = Ecosystem::from_u8(id).unwrap();
        assert_eq!(e.id(), id);
        assert_eq!(Ecosystem::from_name(e.name()), Some(e));
    }
    assert_eq!(Ecosystem::from_u8(10), None);
    assert_eq!(Ecosystem::from_name("cargo"), None);
}

#[test]
fn emoji_and_plain_text() {
    assert!(is_emoji('\u{1f680}') && is_emoji('\u{fe0f}') && is_emoji('\u{2714}'));
    assert!(!is_emoji('a') && !is_emoji('\u{e9}') && !is_emoji('\u{4e2d}'));
}

#[test]
fn empty_catalog_has_no_rows() {
    let c = Catalog::empty();
    assert!(c.is_empty());
    assert_eq!(c.rows(), 0..0);
    assert_eq!(c.language_count(), 0);
}

#[test]
fn library_flag_reads_back() {
    let mut b = Builder::new(0);
    b.push(&Entry { name: "lib", url: "https://x.y/l", category: "Libraries", flags: FLAG_LIBRARY, ..Entry::default() })
        .unwrap();
    let c = b.finish();
    assert!(c.is_library(0) && !c.is_archived(0));
    assert_eq!(c.category_name(c.category_id(0)), "Libraries");
}
