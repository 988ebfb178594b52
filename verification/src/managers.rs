//! Package managers tuiman can drive. They are data: one table row each, with
//! command templates. Listing what a manager has installed reads the disk or
//! spawns the manager, which is the application's business; the pure parsers
//! for those listings live in `listing`.

use vstd::prelude::*;

use crate::catalog::Ecosystem;
use crate::text::{
    all_ascii_digits, chars_of, digits_between, push_char, rfind, rfind_char, same_text, views,
};
use vstd::string::StringExecFns;

verus! {

/// Index into the manager table; also the bit position in per-row masks.
pub type ManagerId = u8;

/// One bit per manager.
pub type Mask = u16;

/// Number of managers in the table.
pub const MANAGER_COUNT: usize = 12;

/// One argument of a command template.
#[derive(Clone, Copy, Debug, PartialEq, Eq)]
pub enum Arg {
    /// Passed as written.
    Lit(&'static str),
    /// The package name between a prefix and a suffix (`nixpkgs.{pkg}`).
    Pkg(&'static str, &'static str),
}

#[derive(Clone, Copy, Debug, PartialEq, Eq, Structural)]
pub enum Action {
    Install,
    Uninstall,
    /// Brings an installed TUI to its latest version by installing it again
    /// through the manager that reports it.
    Upgrade,
}

impl Action {
    pub fn verb(self) -> (r: &'static str)
        ensures
            r@ == (match self {
                Action::Install => "install"@,
                Action::Uninstall => "uninstall"@,
                Action::Upgrade => "upgrade"@,
            }),
    {
        match self {
            Action::Install => "install",
            Action::Uninstall => "uninstall",
            Action::Upgrade => "upgrade",
        }
    }
}

/// A row of the manager table.
#[derive(Clone, Copy, Debug, PartialEq, Eq)]
pub struct Manager {
    pub name: &'static str,
    pub bin: &'static str,
    /// The ecosystem whose package names this manager understands.
    pub eco: Ecosystem,
    /// Prefix with `sudo` when not already root.
    pub sudo: bool,
    /// Needs a real terminal (password or confirmation prompts), so the TUI
    /// steps aside instead of capturing the output.
    pub tty: bool,
    /// Row of the table, which selects the command templates.
    pub id: ManagerId,
}

/// The manager table, in preference order.
pub open spec fn spec_manager(id: int) -> Manager {
    if id == 0 {
        Manager { name: "brew", bin: "brew", eco: Ecosystem::Brew, sudo: false, tty: false, id: 0 }
    } else if id == 1 {
        Manager { name: "cargo", bin: "cargo", eco: Ecosystem::Crates, sudo: false, tty: false, id: 1 }
    } else if id == 2 {
        Manager { name: "go", bin: "go", eco: Ecosystem::Go, sudo: false, tty: false, id: 2 }
    } else if id == 3 {
        Manager { name: "npm", bin: "npm", eco: Ecosystem::Npm, sudo: false, tty: false, id: 3 }
    } else if id == 4 {
        Manager { name: "uv", bin: "uv", eco: Ecosystem::Pypi, sudo: false, tty: false, id: 4 }
    } else if id == 5 {
        Manager { name: "pipx", bin: "pipx", eco: Ecosystem::Pypi, sudo: false, tty: false, id: 5 }
    } else if id == 6 {
        Manager { name: "apt", bin: "apt-get", eco: Ecosystem::Apt, sudo: true, tty: true, id: 6 }
    } else if id == 7 {
        Manager { name: "dnf", bin: "dnf", eco: Ecosystem::Dnf, sudo: true, tty: true, id: 7 }
    } else if id == 8 {
        Manager { name: "pacman", bin: "pacman", eco: Ecosystem::Pacman, sudo: true, tty: true, id: 8 }
    } else if id == 9 {
        Manager { name: "paru", bin: "paru", eco: Ecosystem::Aur, sudo: false, tty: true, id: 9 }
    } else if id == 10 {
        Manager { name: "yay", bin: "yay", eco: Ecosystem::Aur, sudo: false, tty: true, id: 10 }
    } else {
        Manager { name: "nix", bin: "nix-env", eco: Ecosystem::Nix, sudo: false, tty: false, id: 11 }
    }
}

/// The argument template of manager `id` for `action`; an upgrade installs
/// again. Go has no uninstall; see `Manager::argv`.
pub open spec fn spec_template(id: int, action: Action) -> Seq<Arg> {
    match action {
        Action::Install | Action::Upgrade => if id == 0 {
            seq![Arg::Lit("install"), Arg::Pkg("", "")]
        } else if id == 1 {
            seq![Arg::Lit("install"), Arg::Lit("--locked"), Arg::Pkg("", "")]
        } else if id == 2 {
            seq![Arg::Lit("install"), Arg::Pkg("", "@latest")]
        } else if id == 3 {
            seq![Arg::Lit("install"), Arg::Lit("--global"), Arg::Pkg("", "")]
        } else if id == 4 {
            seq![Arg::Lit("tool"), Arg::Lit("install"), Arg::Pkg("", "")]
        } else if id == 5 || id == 6 || id == 7 {
            seq![Arg::Lit("install"), Arg::Pkg("", "")]
        } else if id == 8 || id == 9 || id == 10 {
            seq![Arg::Lit("-S"), Arg::Pkg("", "")]
        } else {
            seq![Arg::Lit("--install"), Arg::Lit("--attr"), Arg::Pkg("nixpkgs.", "")]
        },
        Action::Uninstall => if id == 0 || id == 1 || id == 5 {
            seq![Arg::Lit("uninstall"), Arg::Pkg("", "")]
        } else if id == 2 {
            seq![]
        } else if id == 3 {
            seq![Arg::Lit("uninstall"), Arg::Lit("--global"), Arg::Pkg("", "")]
        } else if id == 4 {
            seq![Arg::Lit("tool"), Arg::Lit("uninstall"), Arg::Pkg("", "")]
        } else if id == 6 || id == 7 {
            seq![Arg::Lit("remove"), Arg::Pkg("", "")]
        } else if id == 8 || id == 9 || id == 10 {
            seq![Arg::Lit("-Rs"), Arg::Pkg("", "")]
        } else {
            seq![Arg::Lit("--uninstall"), Arg::Pkg("", "")]
        },
    }
}

/// A literal argument that is an option, such as `--global`.
pub open spec fn is_option(a: Arg) -> bool {
    a matches Arg::Lit(s) && s@.len() > 0 && s@[0] == '-'
}

/// An install puts a package where the matching uninstall looks for it:
/// every option that follows the verb of a manager's uninstall command
/// (npm's `--global`) is part of its install command too, and so of its
/// upgrade command.
pub proof fn law_install_matches_uninstall_options(id: int, i: int)
    requires
        0 <= id < MANAGER_COUNT,
        1 <= i < spec_template(id, Action::Uninstall).len(),
        is_option(spec_template(id, Action::Uninstall)[i]),
    ensures
        spec_template(id, Action::Install).contains(spec_template(id, Action::Uninstall)[i]),
        spec_template(id, Action::Upgrade).contains(spec_template(id, Action::Uninstall)[i]),
{
    reveal_strlit("uninstall");
    let u = spec_template(id, Action::Uninstall);
    if id == 4 {
        assert(u[1] == Arg::Lit("uninstall"));
        assert("uninstall"@[0] == 'u');
    }
    if id == 3 {
        assert(spec_template(id, Action::Install)[1] == u[1]);
        assert(spec_template(id, Action::Upgrade)[1] == u[1]);
    }
}

/// Every command names the package once, as its last argument: a
/// template ends with the package and holds nothing else but literals.
/// (Go has no uninstall command; its binary is removed instead.)
pub proof fn law_commands_end_with_the_package(id: int, action: Action)
    requires
        0 <= id < MANAGER_COUNT,
        !(id == 2 && action == Action::Uninstall),
    ensures
        spec_template(id, action).len() > 0,
        spec_template(id, action).last() is Pkg,
        forall|i: int| 0 <= i < spec_template(id, action).len() - 1 ==> #[trigger] spec_template(id, action)[i] is Lit,
{
}

/// An upgrade installs again: its command is the install command.
pub proof fn law_upgrade_installs_again(m: Manager, package: Seq<char>, go_bin: Seq<char>, root: bool)
    ensures
        spec_argv(m, Action::Upgrade, package, go_bin, root) == spec_argv(m, Action::Install, package, go_bin, root),
{
}

/// Manager `id` of the table.
pub fn manager(id: ManagerId) -> (m: Manager)
    requires
        id < MANAGER_COUNT,
    ensures
        m == spec_manager(id as int),
{
    match id {
        0 => Manager { name: "brew", bin: "brew", eco: Ecosystem::Brew, sudo: false, tty: false, id: 0 },
        1 => Manager { name: "cargo", bin: "cargo", eco: Ecosystem::Crates, sudo: false, tty: false, id: 1 },
        2 => Manager { name: "go", bin: "go", eco: Ecosystem::Go, sudo: false, tty: false, id: 2 },
        3 => Manager { name: "npm", bin: "npm", eco: Ecosystem::Npm, sudo: false, tty: false, id: 3 },
        4 => Manager { name: "uv", bin: "uv", eco: Ecosystem::Pypi, sudo: false, tty: false, id: 4 },
        5 => Manager { name: "pipx", bin: "pipx", eco: Ecosystem::Pypi, sudo: false, tty: false, id: 5 },
        6 => Manager { name: "apt", bin: "apt-get", eco: Ecosystem::Apt, sudo: true, tty: true, id: 6 },
        7 => Manager { name: "dnf", bin: "dnf", eco: Ecosystem::Dnf, sudo: true, tty: true, id: 7 },
        8 => Manager { name: "pacman", bin: "pacman", eco: Ecosystem::Pacman, sudo: true, tty: true, id: 8 },
        9 => Manager { name: "paru", bin: "paru", eco: Ecosystem::Aur, sudo: false, tty: true, id: 9 },
        10 => Manager { name: "yay", bin: "yay", eco: Ecosystem::Aur, sudo: false, tty: true, id: 10 },
        _ => Manager { name: "nix", bin: "nix-env", eco: Ecosystem::Nix, sudo: false, tty: false, id: 11 },
    }
}

/// Every manager of the table, in order.
pub fn managers() -> (r: Vec<Manager>)
    ensures
        r@.len() == MANAGER_COUNT,
        forall|i: int| 0 <= i < MANAGER_COUNT ==> #[trigger] r@[i] == spec_manager(i),
{
    let mut r: Vec<Manager> = Vec::new();
    let mut id: u8 = 0;
    while id < 12
        invariant
            id <= 12,
            r@.len() == id,
            forall|i: int| 0 <= i < id ==> #[trigger] r@[i] == spec_manager(i),
        decreases 12 - id,
    {
        r.push(manager(id));
        id += 1;
    }
    r
}

fn template(id: ManagerId, action: Action) -> (r: Vec<Arg>)
    requires
        id < MANAGER_COUNT,
    ensures
        r@ == spec_template(id as int, action),
{
    let r = match action {
        Action::Install | Action::Upgrade => match id {
            0 | 5 | 6 | 7 => vec![Arg::Lit("install"), Arg::Pkg("", "")],
            1 => vec![Arg::Lit("install"), Arg::Lit("--locked"), Arg::Pkg("", "")],
            2 => vec![Arg::Lit("install"), Arg::Pkg("", "@latest")],
            3 => vec![Arg::Lit("install"), Arg::Lit("--global"), Arg::Pkg("", "")],
            4 => vec![Arg::Lit("tool"), Arg::Lit("install"), Arg::Pkg("", "")],
            8 | 9 | 10 => vec![Arg::Lit("-S"), Arg::Pkg("", "")],
            _ => vec![Arg::Lit("--install"), Arg::Lit("--attr"), Arg::Pkg("nixpkgs.", "")],
        },
        Action::Uninstall => match id {
            0 | 1 | 5 => vec![Arg::Lit("uninstall"), Arg::Pkg("", "")],
            2 => vec![],
            3 => vec![Arg::Lit("uninstall"), Arg::Lit("--global"), Arg::Pkg("", "")],
            4 => vec![Arg::Lit("tool"), Arg::Lit("uninstall"), Arg::Pkg("", "")],
            6 | 7 => vec![Arg::Lit("remove"), Arg::Pkg("", "")],
            8 | 9 | 10 => vec![Arg::Lit("-Rs"), Arg::Pkg("", "")],
            _ => vec![Arg::Lit("--uninstall"), Arg::Pkg("", "")],
        },
    };
    assert(r@ =~= spec_template(id as int, action));
    r
}

/// The manager called `name`.
pub open spec fn spec_by_name(name: Seq<char>) -> Option<ManagerId> {
    if exists|i: int| 0 <= i < MANAGER_COUNT && spec_manager(i).name@ == name {
        Some((choose|i: int| 0 <= i < MANAGER_COUNT && spec_manager(i).name@ == name) as ManagerId)
    } else {
        None
    }
}

/// Names in the table are unique, and every manager that needs `sudo` takes
/// over the terminal.
pub proof fn law_manager_table()
    ensures
        forall|i: int, j: int|
            #![trigger spec_manager(i), spec_manager(j)]
            0 <= i < MANAGER_COUNT && 0 <= j < MANAGER_COUNT && i != j ==> spec_manager(i).name@
                != spec_manager(j).name@,
        forall|i: int| 0 <= i < MANAGER_COUNT && #[trigger] spec_manager(i).sudo ==> spec_manager(i).tty,
        MANAGER_COUNT <= 16,
{
    reveal_strlit("brew");
    reveal_strlit("cargo");
    reveal_strlit("go");
    reveal_strlit("npm");
    reveal_strlit("uv");
    reveal_strlit("pipx");
    reveal_strlit("apt");
    reveal_strlit("dnf");
    reveal_strlit("pacman");
    reveal_strlit("paru");
    reveal_strlit("yay");
    reveal_strlit("nix");
    assert forall|i: int, j: int|
        0 <= i < MANAGER_COUNT && 0 <= j < MANAGER_COUNT && i != j implies spec_manager(i).name@
        != spec_manager(j).name@ by {
        let a = spec_manager(i).name@;
        let b = spec_manager(j).name@;
        if a.len() == b.len() && a.len() > 1 {
            assert(a[0] != b[0] || a[1] != b[1] || a[a.len() - 1] != b[b.len() - 1]);
        }
    }
}

/// The manager called `name`, if any.
pub fn by_name(name: &str) -> (r: Option<ManagerId>)
    ensures
        r == spec_by_name(name@),
        r matches Some(id) ==> id < MANAGER_COUNT && spec_manager(id as int).name@ == name@,
{
    proof {
        law_manager_table();
    }
    let mut id: u8 = 0;
    while id < 12
        invariant
            id <= 12,
            forall|i: int| 0 <= i < id ==> spec_manager(i).name@ != name@,
        decreases 12 - id,
    {
        if same_text(manager(id).name, name) {
            proof {
                law_manager_table();
                assert(spec_manager(id as int).name@ == name@);
                let c = choose|i: int| 0 <= i < MANAGER_COUNT && spec_manager(i).name@ == name@;
                assert(0 <= c < MANAGER_COUNT && spec_manager(c).name@ == name@);
                if c != id {
                    assert(spec_manager(c).name@ != spec_manager(id as int).name@);
                }
            }
            return Some(id);
        }
        id += 1;
    }
    None
}

/// The last `/`-separated element of a Go module, skipping a `/vN`
/// major-version suffix: the name of the binary `go install` leaves behind.
pub open spec fn go_binary(p: Seq<char>) -> Seq<char> {
    let i = rfind(p, '/', p.len() as int);
    let last = p.skip(i + 1);
    let is_major = last.len() > 1 && last[0] == 'v' && all_ascii_digits(last.skip(1));
    if is_major && i >= 0 {
        let prev = p.take(i);
        prev.skip(rfind(prev, '/', prev.len() as int) + 1)
    } else {
        last
    }
}

/// The name a listing of manager `eco` uses for `package`.
pub open spec fn spec_installed_name(eco: Ecosystem, package: Seq<char>) -> Seq<char> {
    if eco != Ecosystem::Go {
        package
    } else {
        go_binary(package)
    }
}

/// One argument of a template, with the package filled in.
pub open spec fn arg_text(a: Arg, package: Seq<char>) -> Seq<char> {
    match a {
        Arg::Lit(s) => s@,
        Arg::Pkg(pre, post) => pre@ + package + post@,
    }
}

/// `dir` joined with a file name that holds no `/`.
pub open spec fn join_path(dir: Seq<char>, name: Seq<char>) -> Seq<char> {
    if dir.len() == 0 || dir.last() == '/' {
        dir + name
    } else {
        dir + seq!['/'] + name
    }
}

/// The full argument vector for `action` on `package` with manager `m`.
pub open spec fn spec_argv(
    m: Manager,
    action: Action,
    package: Seq<char>,
    go_bin: Seq<char>,
    root: bool,
) -> Seq<Seq<char>> {
    if m.eco == Ecosystem::Go && action == Action::Uninstall {
        seq!["rm"@, "--"@, join_path(go_bin, spec_installed_name(m.eco, package))]
    } else {
        (if m.sudo && !root {
            seq!["sudo"@]
        } else {
            seq![]
        }) + seq![m.bin@] + spec_template(m.id as int, action).map_values(
            |a: Arg| arg_text(a, package),
        )
    }
}

impl Manager {
    /// A manager as the table has it.
    pub open spec fn table_row(self) -> bool {
        self.id < MANAGER_COUNT && self == spec_manager(self.id as int)
    }

    /// The name this manager's listing uses for `package`. Go only leaves a
    /// binary behind, named after the last path element of the module
    /// (ignoring a `/vN` major-version suffix).
    pub fn installed_name<'a>(&self, package: &'a str) -> (r: &'a str)
        ensures
            r@ == spec_installed_name(self.eco, package@),
    {
        if self.eco != Ecosystem::Go {
            return package;
        }
        let cs = chars_of(package);
        let n = cs.len();
        proof {
            crate::text::lemma_rfind(cs@, '/', n as int);
        }
        let (start, cut) = match rfind_char(&cs, '/', n) {
            Some(i) => (i + 1, Some(i)),
            None => (0, None),
        };
        let is_major = n - start > 1 && cs[start] == 'v' && digits_between(&cs, start + 1, n);
        if n - start > 1 {
            assert(cs@.subrange(start + 1, n as int) =~= cs@.skip(start as int).skip(1));
        }
        match cut {
            Some(i) if is_major => {
                proof {
                    crate::text::lemma_rfind(cs@, '/', i as int);
                }
                let before = match rfind_char(&cs, '/', i) {
                    Some(j) => j + 1,
                    None => 0,
                };
                proof {
                    crate::text::lemma_rfind(cs@, '/', i as int);
                    let prev = cs@.take(i as int);
                    assert forall|k: int| 0 <= k <= i implies rfind(prev, '/', k) == rfind(cs@, '/', k) by {
                        lemma_rfind_prefix(cs@, i as int, k);
                    }
                    assert(prev.skip(rfind(prev, '/', prev.len() as int) + 1) =~= cs@.subrange(
                        before as int,
                        i as int,
                    ));
                }
                package.substring_char(before, i)
            },
            _ => {
                assert(cs@.skip(start as int) =~= cs@.subrange(start as int, n as int));
                package.substring_char(start, n)
            },
        }
    }

    /// Full argument vector for `action`, with `package` as one argument of
    /// its own; never goes through a shell. Go has no uninstall: its binary
    /// in `go_bin` is removed instead. `root` says whether tuiman already
    /// runs as root, in which case `sudo` is not needed.
    pub fn argv(&self, action: Action, package: &str, go_bin: &str, root: bool) -> (r: Vec<String>)
        requires
            self.table_row(),
        ensures
            views(r@) == spec_argv(*self, action, package@, go_bin@, root),
    {
        let mut argv: Vec<String> = Vec::new();
        if self.eco == Ecosystem::Go && action == Action::Uninstall {
            argv.push(String::from_str("rm"));
            argv.push(String::from_str("--"));
            let name = self.installed_name(package);
            let mut path = String::from_str(go_bin);
            let dir = chars_of(go_bin);
            if dir.len() > 0 && dir[dir.len() - 1] != '/' {
                push_char(&mut path, '/');
            }
            path.append(name);
            assert(path@ == join_path(go_bin@, spec_installed_name(self.eco, package@)));
            argv.push(path);
            assert(views(argv@) =~= spec_argv(*self, action, package@, go_bin@, root));
            return argv;
        }
        if self.sudo && !root {
            argv.push(String::from_str("sudo"));
        }
        let ghost head = views(argv@);
        argv.push(String::from_str(self.bin));
        assert(views(argv@) =~= head + seq![self.bin@]);
        let ghost front = views(argv@);
        let t = template(self.id, action);
        let mut k: usize = 0;
        while k < t.len()
            invariant
                k <= t@.len(),
                t@ == spec_template(self.id as int, action),
                views(argv@) =~= front + t@.take(k as int).map_values(|a: Arg| arg_text(a, package@)),
            decreases t@.len() - k,
        {
            let arg = match t[k] {
                Arg::Lit(s) => String::from_str(s),
                Arg::Pkg(pre, post) => {
                    let mut s = String::from_str(pre);
                    s.append(package);
                    s.append(post);
                    s
                },
            };
            assert(arg@ == arg_text(t@[k as int], package@));
            let ghost before = views(argv@);
            argv.push(arg);
            assert(views(argv@) =~= before.push(arg@));
            assert(t@.take(k + 1).map_values(|a: Arg| arg_text(a, package@)) =~= t@.take(
                k as int,
            ).map_values(|a: Arg| arg_text(a, package@)).push(arg_text(t@[k as int], package@)));
            k += 1;
        }
        assert(t@.take(t@.len() as int) =~= t@);
        argv
    }
}

/// Looking for the last `/` before `k` inside the first `i` characters finds
/// what it finds in the whole sequence.
proof fn lemma_rfind_prefix(s: Seq<char>, i: int, k: int)
    requires
        0 <= k <= i <= s.len(),
    ensures
        rfind(s.take(i), '/', k) == rfind(s, '/', k),
    decreases k,
{
    if k > 0 {
        lemma_rfind_prefix(s, i, k - 1);
    }
}

} // verus!
