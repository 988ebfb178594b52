use tuiman::listing::{cargo_crates_toml, dpkg_status, lines, nix_env_query, npmrc_prefix};

#[test]
fn plain_lines() {
    assert_eq!(lines("btop\n  lazygit \n\nyazi\n"), ["btop", "lazygit", "yazi"]);
}

#[test]
fn cargo() {
    let toml = "[v1]\n\"bottom 0.10.2 (registry+https://github.com/rust-lang/crates.io-index)\" = [\"btm\"]\n\
                \"gitui 0.26.3 (git+https://github.com/extrawurst/gitui#abc)\" = [\"gitui\"]\n";
    assert_eq!(cargo_crates_toml(toml), ["bottom", "gitui"]);
}

#[test]
fn npmrc() {
    let home = "/home/u";
    assert_eq!(npmrc_prefix("a=b\nprefix=~/.npm-global\n", Some(home)), Some("/home/u/.npm-global".into()));
    assert_eq!(npmrc_prefix("prefix = \"${HOME}/n\"", Some(home)), Some("/home/u/n".into()));
    assert_eq!(npmrc_prefix("prefix=/opt/npm", None), Some("/opt/npm".into()));
    assert_eq!(npmrc_prefix("prefix=relative/dir", Some(home)), None);
    assert_eq!(npmrc_prefix("registry=https://r", Some(home)), None);
}

#[test]
fn dpkg() {
    let status = "Package: htop\nStatus: install ok installed\nPriority: optional\n\n\
                  Package: removed\nStatus: deinstall ok config-files\n\n\
                  Package: btop\nArchitecture: amd64\nStatus: install ok installed\n";
    assert_eq!(dpkg_status(status), ["htop", "btop"]);
}

#[test]
fn nix() {
    assert_eq!(
        nix_env_query("btop-1.3.2\nlazygit-0.44.1\ngit-crypt-0.7.0\nnoversion\n"),
        ["btop", "lazygit", "git-crypt", "noversion"]
    );
}

#[test]
fn crlf_lines_and_missing_home() {
    assert_eq!(lines("a\r\nb\r\n"), ["a", "b"]);
    assert_eq!(npmrc_prefix("prefix=~/x", None), None);
    assert_eq!(npmrc_prefix("prefix=~//abs", Some("/h")), Some("/abs".into()));
    assert_eq!(npmrc_prefix("prefix=~/x", Some("/h/")), Some("/h/x".into()));
}

#[test]
fn dpkg_status_without_a_package_is_ignored() {
    assert!(dpkg_status("Status: install ok installed\n").is_empty());
    assert_eq!(dpkg_status("Package: a\n\nStatus: install ok installed\n"), Vec::<String>::new());
}
