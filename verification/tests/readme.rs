use tuiman::item::{github_repo, Item};
use tuiman::readme::{parse, plain_text, Listing};

#[test]
fn entry_shapes() {
    let md = "<details open><summary><h2>Tools &amp; Toys</h2></summary>\n\
              - [a](https://github.com/o/a/) - does [things](https://x.y) with `code`\n\
              - [dup](https://GitHub.com/o/A) again\n\
              - [anchor](#nope) skipped\n\
              - [titled](https://github.com/o/t \"a title\") skipped, not a valid url\n\
              - not an entry\n";
    let list = parse(md);
    assert_eq!(list.len(), 1);
    assert_eq!(list[0].category, "Tools & Toys");
    assert_eq!(list[0].url, "https://github.com/o/a");
    assert_eq!(list[0].desc, "does things with code");
}

#[test]
fn entries_before_any_category_are_ignored() {
    assert!(parse("- [a](https://github.com/o/a) orphan").is_empty());
}

#[test]
fn plain_text_survives_stray_brackets() {
    assert_eq!(plain_text("array [0] and [x](u) ok"), "array [0] and x ok");
    assert_eq!(plain_text("dangling [bracket"), "dangling [bracket");
    assert_eq!(
        plain_text("\u{2702}\u{fe0f} snips \u{1f680}, caf\u{e9} \u{4e2d}\u{6587}"),
        "snips , caf\u{e9} \u{4e2d}\u{6587}"
    );
}

#[test]
fn subcategories_stay_under_their_category() {
    let md = "<summary><h2>Libraries</h2></summary>\n<h3>Rust</h3>\n* [ratatui](https://github.com/ratatui/ratatui): widgets\n\
              <summary><h2>Games</h2></summary>\n- [tetris](https://codeberg.org/t/t) \u{2014} blocks\n";
    let list = parse(md);
    assert_eq!(list.len(), 2);
    assert_eq!(list[0].subcategory.as_deref(), Some("Rust"));
    assert_eq!(list[0].desc, "widgets");
    assert_eq!(list[1].category, "Games");
    assert_eq!(list[1].subcategory, None);
    assert_eq!(list[1].desc, "blocks");
}

#[test]
fn repo_keys() {
    let key = |u| github_repo(u);
    assert_eq!(key("https://github.com/ClementTsang/bottom"), Some("clementtsang/bottom".into()));
    assert_eq!(key("https://github.com/a/b.git"), Some("a/b".into()));
    assert_eq!(key("git+https://github.com/a/b.git#readme"), Some("a/b".into()));
    assert_eq!(key("https://github.com/a/b/archive/refs/tags/v1.tar.gz"), Some("a/b".into()));
    assert_eq!(key("https://github.com/a"), None);
    assert_eq!(key("https://codeberg.org/a/b"), None);
    assert_eq!(key("https://github.com/a/b\"){evil}"), None);
}

#[test]
fn items_from_listings() {
    let l = Listing {
        name: "ratatui".into(),
        url: "https://github.com/Ratatui/ratatui".into(),
        desc: "widgets".into(),
        category: "Libraries".into(),
        subcategory: Some("Rust".into()),
    };
    let item = Item::from_listing(l);
    assert_eq!(item.repo.as_deref(), Some("ratatui/ratatui"));
    assert!(item.library);
    assert!(item.is_repo("ratatui/ratatui") && !item.is_repo("tui-rs/tui"));
}

#[test]
fn repository_keys_ignore_case_and_keep_a_safe_shape() {
    let lower = github_repo("https://github.com/foo-bar/baz.rs");
    assert_eq!(lower, Some("foo-bar/baz.rs".to_string()));
    assert_eq!(github_repo("HTTPS://GITHUB.COM/FOO-BAR/BAZ.RS"), lower);
    let key = lower.unwrap();
    assert_eq!(key.split('/').count(), 2);
    assert!(key.bytes().all(|b| b.is_ascii_lowercase() || b.is_ascii_digit() || b"._/-".contains(&b)));
}
