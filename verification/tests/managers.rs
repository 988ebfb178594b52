use tuiman::managers::{by_name, manager, managers, Action, Manager, ManagerId, Mask, MANAGER_COUNT};

fn named(name: &str) -> Manager {
    manager(by_name(name).unwrap())
}

#[test]
fn table_fits_the_mask_and_names_are_unique() {
    assert!(MANAGER_COUNT <= Mask::BITS as usize);
    for (i, m) in managers().iter().enumerate() {
        assert_eq!(by_name(m.name), Some(i as ManagerId), "duplicate name {}", m.name);
    }
}

#[test]
fn argv_substitutes_the_package_as_one_argument() {
    assert_eq!(named("brew").argv(Action::Install, "btop", "", false), ["brew", "install", "btop"]);
    assert_eq!(named("cargo").argv(Action::Uninstall, "bottom", "", false), ["cargo", "uninstall", "bottom"]);
    assert_eq!(
        named("nix").argv(Action::Install, "btop", "", false),
        ["nix-env", "--install", "--attr", "nixpkgs.btop"]
    );
    let go = named("go").argv(Action::Install, "github.com/jesseduffield/lazygit", "", false);
    assert_eq!(go, ["go", "install", "github.com/jesseduffield/lazygit@latest"]);
}

#[test]
fn go_uninstall_removes_the_binary() {
    let argv = named("go").argv(Action::Uninstall, "github.com/derailed/k9s/v2", "/home/u/go/bin", false);
    assert_eq!(&argv[..2], ["rm", "--"]);
    assert!(argv[2].ends_with("/bin/k9s"), "{argv:?}");
}

#[test]
fn go_installed_names() {
    let go = named("go");
    assert_eq!(go.installed_name("github.com/jesseduffield/lazygit"), "lazygit");
    assert_eq!(go.installed_name("github.com/derailed/k9s/v2"), "k9s");
    assert_eq!(go.installed_name("github.com/a/vim"), "vim");
    assert_eq!(named("brew").installed_name("a/b"), "a/b");
}

#[test]
fn privileged_managers_need_a_terminal() {
    assert!(managers().iter().filter(|m| m.sudo).all(|m| m.tty));
}

#[test]
fn sudo_comes_first_unless_already_root() {
    assert_eq!(named("apt").argv(Action::Install, "btop", "", false), ["sudo", "apt-get", "install", "btop"]);
    assert_eq!(named("apt").argv(Action::Install, "btop", "", true), ["apt-get", "install", "btop"]);
    assert_eq!(named("pacman").argv(Action::Uninstall, "btop", "", false), ["sudo", "pacman", "-Rs", "btop"]);
}

#[test]
fn go_bin_dir_is_joined_once() {
    let go = named("go");
    assert_eq!(go.argv(Action::Uninstall, "github.com/a/b", "/x/bin/", false)[2], "/x/bin/b");
    assert_eq!(go.argv(Action::Uninstall, "github.com/a/b", "", false)[2], "b");
}

#[test]
fn unknown_manager_names() {
    assert_eq!(by_name("snap"), None);
    assert_eq!(by_name("Brew"), None);
    assert_eq!(Action::Install.verb(), "install");
    assert_eq!(Action::Uninstall.verb(), "uninstall");
}

#[test]
fn major_version_suffix_needs_digits() {
    let go = named("go");
    assert_eq!(go.installed_name("github.com/a/tool/vx"), "vx");
    assert_eq!(go.installed_name("v2"), "v2");
}
