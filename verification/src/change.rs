//! Which way `tuiman install|uninstall|upgrade NAME [--via MANAGER]` takes.

use vstd::prelude::*;

use crate::catalog::{Catalog, Row};
use crate::installed::{action_mask, choice_view, choices_upto, names_upto, row_packages, Choice, Installed};
use crate::managers::{manager, spec_manager, Action, ManagerId, MANAGER_COUNT};
use crate::text::same_text;

verus! {

/// What a change on the command line comes to.
pub enum Pick {
    /// Carry it out this way.
    Chosen(Choice),
    /// An install without `--via` of what is already installed, through these
    /// managers: an install through a second manager is never what was meant.
    AlreadyInstalled(Vec<&'static str>),
    /// No detected manager can do it (through the one asked for).
    NoWay,
}

/// The first of `cs[i..]` whose manager is called `via`.
pub open spec fn first_via(cs: Seq<(ManagerId, Seq<char>)>, via: Seq<char>, i: int) -> Option<(ManagerId, Seq<char>)>
    decreases cs.len() - i,
{
    if i < 0 || i >= cs.len() {
        None
    } else if (cs[i].0 as int) < MANAGER_COUNT && spec_manager(cs[i].0 as int).name@ == via {
        Some(cs[i])
    } else {
        first_via(cs, via, i + 1)
    }
}

/// The way taken: the first of the ways (in manager order), or the first
/// through the manager named by `--via`.
pub open spec fn taken(cs: Seq<(ManagerId, Seq<char>)>, via: Option<Seq<char>>) -> Option<(ManagerId, Seq<char>)> {
    match via {
        None => if cs.len() > 0 {
            Some(cs[0])
        } else {
            None
        },
        Some(v) => first_via(cs, v, 0),
    }
}

/// What `pick` comes to, as plain values: `Err` carries the managers of an
/// unwanted second install, `Ok(None)` means there is no way.
pub open spec fn spec_pick(
    inst: crate::installed::InstalledView,
    c: crate::catalog::CatalogModel,
    row: Row,
    action: Action,
    via: Option<Seq<char>>,
) -> Result<Option<(ManagerId, Seq<char>)>, Seq<Seq<char>>> {
    if action == Action::Install && via is None && inst.installed[row as int] != 0 {
        Err(names_upto(inst.installed[row as int], MANAGER_COUNT as int))
    } else {
        Ok(
            taken(
                choices_upto(
                    row_packages(c, row as int),
                    action_mask(inst.available[row as int], inst.installed[row as int], action),
                    MANAGER_COUNT as int,
                ),
                via,
            ),
        )
    }
}

/// [`Pick`] as plain values.
pub open spec fn pick_view(p: Pick) -> Result<Option<(ManagerId, Seq<char>)>, Seq<Seq<char>>> {
    match p {
        Pick::Chosen(c) => Ok(Some(choice_view(c))),
        Pick::AlreadyInstalled(ms) => Err(ms@.map_values(|s: &'static str| s@)),
        Pick::NoWay => Ok(None),
    }
}

/// `--via`, as text.
pub open spec fn via_view(via: Option<&str>) -> Option<Seq<char>> {
    match via {
        Some(v) => Some(v@),
        None => None,
    }
}

/// The way to `action` on `row`, through `via` when given.
pub fn pick(installed: &Installed, catalog: &Catalog, row: Row, action: Action, via: Option<&str>) -> (r: Pick)
    requires
        row < catalog@.rows(),
        (row as int) < installed@.available.len(),
        (row as int) < installed@.installed.len(),
    ensures
        pick_view(r) == spec_pick(installed@, catalog@, row, action, via_view(via)),
{
    let install = match action {
        Action::Install => true,
        _ => false,
    };
    if install && via.is_none() && installed.is_installed(row) {
        return Pick::AlreadyInstalled(installed.installed_via(row));
    }
    let mut choices = installed.choices(catalog, row, action);
    let ghost cs = choices@.map_values(|c: Choice| choice_view(c));
    match via {
        None => {
            if choices.len() == 0 {
                Pick::NoWay
            } else {
                let c = choices.swap_remove(0);
                Pick::Chosen(c)
            }
        },
        Some(v) => {
            let mut i: usize = 0;
            while i < choices.len()
                invariant
                    i <= choices@.len(),
                    cs == choices@.map_values(|c: Choice| choice_view(c)),
                    cs == choices_upto(
                        row_packages(catalog@, row as int),
                        action_mask(installed@.available[row as int], installed@.installed[row as int], action),
                        MANAGER_COUNT as int,
                    ),
                    (via == Some(v)),
                    first_via(cs, v@, 0) == first_via(cs, v@, i as int),
                decreases choices@.len() - i,
            {
                let id = choices[i].manager;
                if (id as usize) < MANAGER_COUNT && same_text(manager(id).name, v) {
                    assert(first_via(cs, v@, i as int) == Some(cs[i as int]));
                    let c = choices.swap_remove(i);
                    return Pick::Chosen(c);
                }
                i += 1;
            }
            Pick::NoWay
        },
    }
}

} // verus!
