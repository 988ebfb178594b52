use tuiman::bulk::{aur_flavour, nix_nesting, offer, Offers};

#[test]
fn rank_ties_do_not_depend_on_order() {
    for names in [["b.amd", "b.v3d"], ["b.v3d", "b.amd"]] {
        let mut by_repo = Offers::new();
        for name in names {
            offer(&mut by_repo, "o/b".into(), (1, 5), name);
        }
        assert_eq!(by_repo.best("o/b").unwrap().1, "b.amd");
    }
}

#[test]
fn a_better_rank_replaces_and_a_worse_one_does_not() {
    let mut by_repo = Offers::new();
    offer(&mut by_repo, "o/x".into(), (2, 5), "x-git");
    offer(&mut by_repo, "o/x".into(), (0, 1), "x");
    offer(&mut by_repo, "o/x".into(), (1, 5), "x-bin");
    offer(&mut by_repo, "o/y".into(), (0, 9), "y");
    assert_eq!(by_repo.best("o/x"), Some(((0, 1), "x".to_string())));
    assert_eq!(by_repo.best("o/y"), Some(((0, 9), "y".to_string())));
    assert_eq!(by_repo.best("o/z"), None);
    assert_eq!(by_repo.len(), 2);
}

#[test]
fn the_length_of_the_name_breaks_rank_ties_before_the_name() {
    let mut by_repo = Offers::new();
    offer(&mut by_repo, "o/b".into(), (0, 6), "aaaaaa");
    offer(&mut by_repo, "o/b".into(), (0, 2), "zz");
    assert_eq!(by_repo.best("o/b").unwrap().1, "zz");
}

#[test]
fn aur_flavours() {
    assert_eq!(aur_flavour("btop"), 0);
    assert_eq!(aur_flavour("btop-bin"), 1);
    assert_eq!(aur_flavour("btop-git"), 2);
    assert_eq!(aur_flavour("btop-nightly"), 2);
    assert_eq!(aur_flavour("btop-beta"), 2);
    assert_eq!(aur_flavour("btop-debug"), 2);
    assert_eq!(aur_flavour("btop-tui"), 0);
    assert_eq!(aur_flavour("git-bin-x"), 0);
}

#[test]
fn nix_nesting_counts_dots() {
    assert_eq!(nix_nesting("btop"), 0);
    assert_eq!(nix_nesting("python3Packages.textual"), 1);
    assert_eq!(nix_nesting("a.b.c"), 2);
    assert_eq!(nix_nesting(&".".repeat(300)), 255);
}
