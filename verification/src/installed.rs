//! What can be installed on this machine, and what already is: two manager
//! bitmasks per catalog row, derived from the detected managers' listings.

use vstd::prelude::*;
use vstd::string::StringExecFns;
use vstd::utf8::{decode_utf8, encode_utf8_decode_utf8};

use crate::catalog::{Catalog, CatalogModel, Ecosystem, Row};
use crate::managers::{manager, spec_installed_name, spec_manager, Action, ManagerId, Mask, MANAGER_COUNT};
use crate::text::{same_text, views};

verus! {

/// Whether bit `id` of `m` is set.
pub open spec fn has_bit(m: u16, id: u16) -> bool {
    (m >> id) & 1 == 1
}

pub proof fn lemma_bits(m: u16, id: u16)
    requires
        id < 16,
    ensures
        forall|j: u16| j < 16 ==> #[trigger] has_bit(m | (1u16 << id), j) == (has_bit(m, j) || j == id),
        forall|j: u16| j < 16 ==> !#[trigger] has_bit(0u16, j),
        forall|a: u16, b: u16, j: u16| j < 16 ==> #[trigger] has_bit(a & !b, j) == (has_bit(a, j) && !has_bit(b, j)),
{
    assert(forall|j: u16| j < 16 ==> #[trigger] has_bit(m | (1u16 << id), j) == (has_bit(m, j) || j == id)) by (bit_vector)
        requires
            id < 16,
    ;
    assert(forall|j: u16| j < 16 ==> !#[trigger] has_bit(0u16, j)) by (bit_vector);
    assert(forall|a: u16, b: u16, j: u16| j < 16 ==> #[trigger] has_bit(a & !b, j) == (has_bit(a, j) && !has_bit(b, j))) by (bit_vector);
}

/// The packages of a row, their names as text.
pub open spec fn row_packages(m: CatalogModel, row: int) -> Seq<(Ecosystem, Seq<char>)> {
    m.packages(row).map_values(|p: (Ecosystem, Seq<u8>)| (p.0, decode_utf8(p.1)))
}

/// What the installed state holds: the detected managers with where they
/// live, each manager's latest listing (none before its first scan), and the
/// two masks of every row.
pub struct InstalledView {
    pub detected: Seq<(ManagerId, Seq<char>)>,
    pub listings: Seq<Option<Seq<Seq<char>>>>,
    pub available: Seq<Mask>,
    pub installed: Seq<Mask>,
}

/// Whether manager `id` was detected.
pub open spec fn is_detected(detected: Seq<(ManagerId, Seq<char>)>, id: int) -> bool {
    exists|i: int| 0 <= i < detected.len() && detected[i].0 == id
}

/// Whether the listing of manager `id` names `name`.
pub open spec fn is_listed(listings: Seq<Option<Seq<Seq<char>>>>, id: int, name: Seq<char>) -> bool {
    0 <= id < listings.len() && match listings[id] {
        Some(names) => names.contains(name),
        None => false,
    }
}

/// Whether manager `id` could install something of `pkgs`.
pub open spec fn can_install(pkgs: Seq<(Ecosystem, Seq<char>)>, id: int) -> bool {
    exists|k: int| 0 <= k < pkgs.len() && pkgs[k].0 == spec_manager(id).eco
}

/// Whether manager `id` lists something of `pkgs` as installed.
pub open spec fn lists_one(
    pkgs: Seq<(Ecosystem, Seq<char>)>,
    listings: Seq<Option<Seq<Seq<char>>>>,
    id: int,
) -> bool {
    exists|k: int|
        0 <= k < pkgs.len() && pkgs[k].0 == spec_manager(id).eco && is_listed(
            listings,
            id,
            spec_installed_name(pkgs[k].0, pkgs[k].1),
        )
}

/// The masks of row `row`: which managers could install it and which report
/// it installed.
pub open spec fn masks_right(v: InstalledView, m: CatalogModel) -> bool {
    &&& v.available.len() == m.rows()
    &&& v.installed.len() == m.rows()
    &&& forall|row: int, id: u16|
        #![trigger v.available[row], has_bit(v.available[row], id)]
        0 <= row < m.rows() && id < 16 ==> (has_bit(v.available[row], id) <==> (id < MANAGER_COUNT
            && is_detected(v.detected, id as int) && can_install(row_packages(m, row), id as int)))
    &&& forall|row: int, id: u16|
        #![trigger v.installed[row], has_bit(v.installed[row], id)]
        0 <= row < m.rows() && id < 16 ==> (has_bit(v.installed[row], id) <==> (id < MANAGER_COUNT
            && is_detected(v.detected, id as int) && lists_one(
            row_packages(m, row),
            v.listings,
            id as int,
        )))
}

pub struct Installed {
    detected: Vec<(ManagerId, String)>,
    /// Latest listing per manager; `None` until its first scan lands.
    listings: Vec<Option<Vec<String>>>,
    /// Per row: managers that could install it here.
    available: Vec<Mask>,
    /// Per row: managers that report it installed.
    installed: Vec<Mask>,
}

/// One way to carry out an action on a row.
#[derive(Clone, Debug, PartialEq, Eq)]
pub struct Choice {
    pub manager: ManagerId,
    pub package: String,
}

pub open spec fn choice_view(c: Choice) -> (ManagerId, Seq<char>) {
    (c.manager, c.package@)
}

/// The listings a vector holds.
pub open spec fn listing_views(l: Seq<Option<Vec<String>>>) -> Seq<Option<Seq<Seq<char>>>> {
    l.map_values(
        |o: Option<Vec<String>>|
            match o {
                Some(v) => Some(views(v@)),
                None => None,
            },
    )
}

impl View for Installed {
    type V = InstalledView;

    closed spec fn view(&self) -> InstalledView {
        InstalledView {
            detected: self.detected@.map_values(|d: (ManagerId, String)| (d.0, d.1@)),
            listings: listing_views(self.listings@),
            available: self.available@,
            installed: self.installed@,
        }
    }
}

/// Ways to perform an action with manager `id` on packages `0..k`.
pub open spec fn choices_of(pkgs: Seq<(Ecosystem, Seq<char>)>, mask: u16, id: int, k: int) -> Seq<
    (ManagerId, Seq<char>),
>
    decreases k,
{
    if k <= 0 {
        seq![]
    } else {
        let prev = choices_of(pkgs, mask, id, k - 1);
        if has_bit(mask, id as u16) && pkgs[k - 1].0 == spec_manager(id).eco {
            prev.push((id as ManagerId, pkgs[k - 1].1))
        } else {
            prev
        }
    }
}

/// Ways with managers `0..n`, in manager-table (preference) order.
pub open spec fn choices_upto(pkgs: Seq<(Ecosystem, Seq<char>)>, mask: u16, n: int) -> Seq<
    (ManagerId, Seq<char>),
>
    decreases n,
{
    if n <= 0 {
        seq![]
    } else {
        choices_upto(pkgs, mask, n - 1) + choices_of(pkgs, mask, n - 1, pkgs.len() as int)
    }
}

/// The mask of managers that can carry out `action` on a row.
pub open spec fn action_mask(available: Mask, installed: Mask, action: Action) -> Mask {
    match action {
        Action::Install => available & !installed,
        Action::Uninstall | Action::Upgrade => installed,
    }
}

/// The names of the managers whose bit is set in `mask`, among `0..n`.
pub open spec fn names_upto(mask: u16, n: int) -> Seq<Seq<char>>
    decreases n,
{
    if n <= 0 {
        seq![]
    } else if has_bit(mask, (n - 1) as u16) {
        names_upto(mask, n - 1).push(spec_manager(n - 1).name@)
    } else {
        names_upto(mask, n - 1)
    }
}

/// The packages of `row` with their names as text.
fn packages_text<'a>(catalog: &'a Catalog, row: Row) -> (r: Vec<(Ecosystem, &'a str)>)
    requires
        row < catalog@.rows(),
    ensures
        r@.len() == row_packages(catalog@, row as int).len(),
        forall|k: int|
            0 <= k < r@.len() ==> (#[trigger] r@[k]).0 == row_packages(catalog@, row as int)[k].0
                && r@[k].1@ == row_packages(catalog@, row as int)[k].1,
{
    let r = catalog.packages(row);
    proof {
        assert forall|k: int| 0 <= k < r@.len() implies (#[trigger] r@[k]).0 == row_packages(
            catalog@,
            row as int,
        )[k].0 && r@[k].1@ == row_packages(catalog@, row as int)[k].1 by {
            encode_utf8_decode_utf8(r@[k].1@);
        }
    }
    r
}

/// Whether `names` holds `name`.
fn holds(names: &Vec<String>, name: &str) -> (r: bool)
    ensures
        r == views(names@).contains(name@),
{
    let mut i: usize = 0;
    while i < names.len()
        invariant
            i <= names@.len(),
            forall|j: int| 0 <= j < i ==> names@[j]@ != name@,
        decreases names@.len() - i,
    {
        if same_text(names[i].as_str(), name) {
            assert(views(names@)[i as int] == name@);
            return true;
        }
        i += 1;
    }
    proof {
        if views(names@).contains(name@) {
            let j = choose|j: int| 0 <= j < views(names@).len() && views(names@)[j] == name@;
            assert(names@[j]@ == name@);
        }
    }
    false
}

impl Installed {
    pub fn new(detected: Vec<(ManagerId, String)>, catalog: &Catalog) -> (r: Installed)
        ensures
            r@.detected == detected@.map_values(|d: (ManagerId, String)| (d.0, d.1@)),
            r@.listings == Seq::new(MANAGER_COUNT as nat, |i: int| None::<Seq<Seq<char>>>),
            masks_right(r@, catalog@),
    {
        let mut listings: Vec<Option<Vec<String>>> = Vec::new();
        let mut i: usize = 0;
        while i < MANAGER_COUNT
            invariant
                i <= MANAGER_COUNT,
                listings@.len() == i,
                forall|j: int| 0 <= j < i ==> #[trigger] listings@[j] is None,
            decreases MANAGER_COUNT - i,
        {
            listings.push(None);
            i += 1;
        }
        let mut this = Installed { detected, listings, available: Vec::new(), installed: Vec::new() };
        this.rebuild(catalog);
        assert(this@.listings =~= Seq::new(MANAGER_COUNT as nat, |i: int| None::<Seq<Seq<char>>>));
        this
    }

    pub fn detected(&self) -> (r: &Vec<(ManagerId, String)>)
        ensures
            r@.map_values(|d: (ManagerId, String)| (d.0, d.1@)) == self@.detected,
    {
        &self.detected
    }

    /// Whether the masks reach `row`.
    pub fn covers(&self, row: Row) -> (r: bool)
        ensures
            r == ((row as int) < self@.available.len() && (row as int) < self@.installed.len()),
    {
        (row as usize) < self.available.len() && (row as usize) < self.installed.len()
    }

    pub fn is_available(&self, row: Row) -> (r: bool)
        requires
            (row as int) < self@.available.len(),
        ensures
            r == (self@.available[row as int] != 0),
    {
        self.available[row as usize] != 0
    }

    pub fn is_installed(&self, row: Row) -> (r: bool)
        requires
            (row as int) < self@.installed.len(),
        ensures
            r == (self@.installed[row as int] != 0),
    {
        self.installed[row as usize] != 0
    }

    /// Records the latest listing of `manager` and recomputes the masks.
    pub fn set_listing(&mut self, manager: ManagerId, names: Vec<String>, catalog: &Catalog)
        requires
            manager < MANAGER_COUNT,
            old(self)@.listings.len() == MANAGER_COUNT,
        ensures
            final(self)@.detected == old(self)@.detected,
            final(self)@.listings == old(self)@.listings.update(manager as int, Some(views(names@))),
            masks_right(final(self)@, catalog@),
    {
        let ghost before = self@;
        self.listings.set(manager as usize, Some(names));
        assert(self@.listings =~= before.listings.update(manager as int, Some(views(names@))));
        self.rebuild(catalog);
    }

    /// Whether manager `id` lists `name`.
    fn lists(&self, id: ManagerId, name: &str) -> (r: bool)
        requires
            id < MANAGER_COUNT,
        ensures
            r == is_listed(self@.listings, id as int, name@),
    {
        if id as usize >= self.listings.len() {
            return false;
        }
        match &self.listings[id as usize] {
            Some(names) => holds(names, name),
            None => false,
        }
    }

    fn detects(&self, id: ManagerId) -> (r: bool)
        ensures
            r == is_detected(self@.detected, id as int),
    {
        let mut i: usize = 0;
        while i < self.detected.len()
            invariant
                i <= self@.detected.len(),
                self@.detected.len() == self.detected@.len(),
                forall|j: int| 0 <= j < i ==> self@.detected[j].0 != id,
            decreases self.detected@.len() - i,
        {
            if self.detected[i].0 == id {
                assert(self@.detected[i as int].0 == id);
                return true;
            }
            i += 1;
        }
        false
    }

    /// The two masks of one row.
    fn row_masks(&self, catalog: &Catalog, row: Row) -> (r: (Mask, Mask))
        requires
            row < catalog@.rows(),
        ensures
            forall|id: u16|
                id < 16 ==> (#[trigger] has_bit(r.0, id) <==> (id < MANAGER_COUNT && is_detected(
                    self@.detected,
                    id as int,
                ) && can_install(row_packages(catalog@, row as int), id as int))),
            forall|id: u16|
                id < 16 ==> (#[trigger] has_bit(r.1, id) <==> (id < MANAGER_COUNT && is_detected(
                    self@.detected,
                    id as int,
                ) && lists_one(row_packages(catalog@, row as int), self@.listings, id as int))),
    {
        let pkgs = packages_text(catalog, row);
        let ghost ps = row_packages(catalog@, row as int);
        let mut available: Mask = 0;
        let mut installed: Mask = 0;
        proof {
            lemma_bits(0, 0);
        }
        let mut id: u8 = 0;
        while id < 12
            invariant
                id <= 12,
                pkgs@.len() == ps.len(),
                ps == row_packages(catalog@, row as int),
                forall|k: int|
                    0 <= k < pkgs@.len() ==> (#[trigger] pkgs@[k]).0 == ps[k].0 && pkgs@[k].1@
                        == ps[k].1,
                forall|j: u16|
                    j < 16 ==> (#[trigger] has_bit(available, j) <==> (j < id && is_detected(
                        self@.detected,
                        j as int,
                    ) && can_install(ps, j as int))),
                forall|j: u16|
                    j < 16 ==> (#[trigger] has_bit(installed, j) <==> (j < id && is_detected(
                        self@.detected,
                        j as int,
                    ) && lists_one(ps, self@.listings, j as int))),
            decreases 12 - id,
        {
            let m = manager(id);
            let mut offers = false;
            let mut listed = false;
            if self.detects(id) {
                let mut k: usize = 0;
                while k < pkgs.len()
                    invariant
                        k <= pkgs@.len() == ps.len(),
                        m == spec_manager(id as int),
                        id < MANAGER_COUNT,
                        forall|q: int|
                            0 <= q < pkgs@.len() ==> (#[trigger] pkgs@[q]).0 == ps[q].0
                                && pkgs@[q].1@ == ps[q].1,
                        offers == exists|q: int| 0 <= q < k && ps[q].0 == m.eco,
                        listed == exists|q: int|
                            0 <= q < k && ps[q].0 == m.eco && is_listed(
                                self@.listings,
                                id as int,
                                spec_installed_name(ps[q].0, ps[q].1),
                            ),
                    decreases pkgs@.len() - k,
                {
                    let (eco, package) = pkgs[k];
                    if eco == m.eco {
                        offers = true;
                        if !listed && self.lists(id, m.installed_name(package)) {
                            listed = true;
                        }
                    }
                    k += 1;
                }
            }
            proof {
                lemma_bits(available, id as u16);
                lemma_bits(installed, id as u16);
            }
            if offers {
                available = available | (1u16 << id);
            }
            if listed {
                installed = installed | (1u16 << id);
            }
            id += 1;
        }
        (available, installed)
    }

    /// Recomputes both masks of every row.
    pub fn rebuild(&mut self, catalog: &Catalog)
        ensures
            final(self)@.detected == old(self)@.detected,
            final(self)@.listings == old(self)@.listings,
            masks_right(final(self)@, catalog@),
    {
        let ghost before = self@;
        catalog.check_wf();
        assert(catalog@.rows() <= u32::MAX);
        let mut available: Vec<Mask> = Vec::new();
        let mut installed: Vec<Mask> = Vec::new();
        let n = catalog.len();
        let mut row: usize = 0;
        while row < n
            invariant
                row <= n == catalog@.rows(),
                n <= u32::MAX,
                available@.len() == row,
                installed@.len() == row,
                forall|r: int, id: u16|
                    #![trigger available@[r], has_bit(available@[r], id)]
                    0 <= r < row && id < 16 ==> (has_bit(available@[r], id) <==> (id < MANAGER_COUNT
                        && is_detected(self@.detected, id as int) && can_install(
                        row_packages(catalog@, r),
                        id as int,
                    ))),
                forall|r: int, id: u16|
                    #![trigger installed@[r], has_bit(installed@[r], id)]
                    0 <= r < row && id < 16 ==> (has_bit(installed@[r], id) <==> (id < MANAGER_COUNT
                        && is_detected(self@.detected, id as int) && lists_one(
                        row_packages(catalog@, r),
                        self@.listings,
                        id as int,
                    ))),
            decreases n - row,
        {
            let (a, i) = self.row_masks(catalog, row as Row);
            let ghost old_a = available@;
            let ghost old_i = installed@;
            available.push(a);
            installed.push(i);
            assert forall|r: int, id: u16|
                #![trigger available@[r], has_bit(available@[r], id)]
                0 <= r < row + 1 && id < 16 implies (has_bit(available@[r], id) <==> (id
                < MANAGER_COUNT && is_detected(self@.detected, id as int) && can_install(
                row_packages(catalog@, r),
                id as int,
            ))) by {
                if r < row {
                    assert(available@[r] == old_a[r]);
                } else {
                    assert(available@[r] == a);
                }
            }
            assert forall|r: int, id: u16|
                #![trigger installed@[r], has_bit(installed@[r], id)]
                0 <= r < row + 1 && id < 16 implies (has_bit(installed@[r], id) <==> (id
                < MANAGER_COUNT && is_detected(self@.detected, id as int) && lists_one(
                row_packages(catalog@, r),
                self@.listings,
                id as int,
            ))) by {
                if r < row {
                    assert(installed@[r] == old_i[r]);
                } else {
                    assert(installed@[r] == i);
                }
            }
            row += 1;
        }
        self.available = available;
        self.installed = installed;
        assert(self@.detected == before.detected);
    }

    /// Ways to perform `action` on `row`, in manager-table (preference) order.
    pub fn choices(&self, catalog: &Catalog, row: Row, action: Action) -> (r: Vec<Choice>)
        requires
            row < catalog@.rows(),
            (row as int) < self@.available.len(),
            (row as int) < self@.installed.len(),
        ensures
            r@.map_values(|c: Choice| choice_view(c)) == choices_upto(
                row_packages(catalog@, row as int),
                action_mask(self@.available[row as int], self@.installed[row as int], action),
                MANAGER_COUNT as int,
            ),
    {
        let mask = match action {
            Action::Install => self.available[row as usize] & !self.installed[row as usize],
            Action::Uninstall | Action::Upgrade => self.installed[row as usize],
        };
        let pkgs = packages_text(catalog, row);
        let ghost ps = row_packages(catalog@, row as int);
        let mut out: Vec<Choice> = Vec::new();
        let mut id: u8 = 0;
        while id < 12
            invariant
                id <= 12,
                pkgs@.len() == ps.len(),
                forall|k: int|
                    0 <= k < pkgs@.len() ==> (#[trigger] pkgs@[k]).0 == ps[k].0 && pkgs@[k].1@
                        == ps[k].1,
                out@.map_values(|c: Choice| choice_view(c)) == choices_upto(ps, mask, id as int),
            decreases 12 - id,
        {
            let m = manager(id);
            let on = (mask >> (id as u16)) & 1 == 1;
            let ghost head = out@.map_values(|c: Choice| choice_view(c));
            let mut k: usize = 0;
            while k < pkgs.len()
                invariant
                    k <= pkgs@.len() == ps.len(),
                    m == spec_manager(id as int),
                    on == has_bit(mask, id as u16),
                    forall|q: int|
                        0 <= q < pkgs@.len() ==> (#[trigger] pkgs@[q]).0 == ps[q].0 && pkgs@[q].1@
                            == ps[q].1,
                    out@.map_values(|c: Choice| choice_view(c)) == head + choices_of(
                        ps,
                        mask,
                        id as int,
                        k as int,
                    ),
                decreases pkgs@.len() - k,
            {
                let (eco, package) = pkgs[k];
                if on && eco == m.eco {
                    let ghost prev = out@.map_values(|c: Choice| choice_view(c));
                    out.push(Choice { manager: id, package: String::from_str(package) });
                    assert(out@.map_values(|c: Choice| choice_view(c)) =~= prev.push(
                        (id, ps[k as int].1),
                    ));
                }
                k += 1;
            }
            id += 1;
        }
        out
    }

    /// Names of the managers that report `row` installed.
    pub fn installed_via(&self, row: Row) -> (r: Vec<&'static str>)
        requires
            (row as int) < self@.installed.len(),
        ensures
            r@.map_values(|s: &str| s@) == names_upto(self@.installed[row as int], MANAGER_COUNT as int),
    {
        let mask = self.installed[row as usize];
        let mut out: Vec<&'static str> = Vec::new();
        let mut id: u8 = 0;
        while id < 12
            invariant
                id <= 12,
                out@.map_values(|s: &str| s@) == names_upto(mask, id as int),
            decreases 12 - id,
        {
            if (mask >> (id as u16)) & 1 == 1 {
                let ghost prev = out@.map_values(|s: &str| s@);
                out.push(manager(id).name);
                assert(out@.map_values(|s: &str| s@) =~= prev.push(spec_manager(id as int).name@));
            }
            id += 1;
        }
        out
    }

    /// Replaces the set of detected managers, forgetting listings of managers
    /// that disappeared.
    pub fn set_detected(&mut self, detected: Vec<(ManagerId, String)>, catalog: &Catalog)
        requires
            old(self)@.listings.len() == MANAGER_COUNT,
        ensures
            final(self)@.detected == detected@.map_values(|d: (ManagerId, String)| (d.0, d.1@)),
            final(self)@.listings == kept_listings(old(self)@.listings, final(self)@.detected),
            masks_right(final(self)@, catalog@),
    {
        let ghost before = self@;
        let ghost dv = detected@.map_values(|d: (ManagerId, String)| (d.0, d.1@));
        let mut listings: Vec<Option<Vec<String>>> = Vec::new();
        std::mem::swap(&mut listings, &mut self.listings);
        assert(listing_views(listings@) == before.listings);
        let mut id: u8 = 0;
        while id < 12
            invariant
                id <= 12,
                listings@.len() == MANAGER_COUNT,
                before.listings.len() == MANAGER_COUNT,
                dv == detected@.map_values(|d: (ManagerId, String)| (d.0, d.1@)),
                forall|j: int|
                    0 <= j < MANAGER_COUNT ==> #[trigger] listing_views(listings@)[j] == if j < id
                        && !is_detected(dv, j) {
                        None
                    } else {
                        before.listings[j]
                    },
            decreases 12 - id,
        {
            let mut present = false;
            let mut i: usize = 0;
            while i < detected.len()
                invariant
                    i <= detected@.len(),
                    dv == detected@.map_values(|d: (ManagerId, String)| (d.0, d.1@)),
                    present == exists|q: int| 0 <= q < i && dv[q].0 == id,
                decreases detected@.len() - i,
            {
                assert(dv[i as int].0 == detected@[i as int].0);
                if detected[i].0 == id {
                    present = true;
                }
                i += 1;
            }
            let ghost old_l = listings@;
            if !present {
                listings.set(id as usize, None);
            }
            assert forall|j: int| 0 <= j < MANAGER_COUNT implies #[trigger] listing_views(listings@)[j]
                == if j < id + 1 && !is_detected(dv, j) {
                None
            } else {
                before.listings[j]
            } by {
                assert(listing_views(old_l)[j] == if j < id && !is_detected(dv, j) {
                    None
                } else {
                    before.listings[j]
                });
                if j != id {
                    assert(listings@[j] == old_l[j]);
                }
            }
            id += 1;
        }
        self.listings = listings;
        self.detected = detected;
        assert(self@.listings =~= kept_listings(before.listings, self@.detected));
        self.rebuild(catalog);
    }
}

/// Why `action` has no choice on a row: the message the interface shows.
/// `known` are the names of the ecosystems the row is packaged for;
/// `page_hint` says how to reach the project page from where it is shown.
pub open spec fn spec_impossible(
    name: Seq<char>,
    known: Seq<Seq<char>>,
    action: Action,
    page_hint: Seq<char>,
) -> Seq<char> {
    if action != Action::Install {
        name + " is not installed through a package manager tuiman knows"@
    } else if known.len() == 0 {
        "no known package for "@ + name + " ("@ + page_hint + ")"@
    } else {
        name + " is packaged for "@ + joined(known) + ", none of which is on this machine"@
    }
}

/// Texts separated by `, `.
pub open spec fn joined(ts: Seq<Seq<char>>) -> Seq<char>
    decreases ts.len(),
{
    if ts.len() == 0 {
        seq![]
    } else if ts.len() == 1 {
        ts[0]
    } else {
        joined(ts.drop_last()) + ", "@ + ts.last()
    }
}

/// Why `action` has no [`Installed::choices`] on `row`.
pub fn impossible(catalog: &Catalog, row: Row, action: Action, page_hint: &str) -> (r: String)
    requires
        row < catalog@.rows(),
    ensures
        r@ == spec_impossible(
            decode_utf8(catalog@.text(catalog@.name[row as int])),
            row_packages(catalog@, row as int).map_values(
                |p: (Ecosystem, Seq<char>)| crate::catalog::spec_eco_name(p.0),
            ),
            action,
            page_hint@,
        ),
{
    let name = catalog.name(row);
    proof {
        encode_utf8_decode_utf8(name@);
    }
    let mut out = String::from_str(name);
    if action != Action::Install {
        out.append(" is not installed through a package manager tuiman knows");
        return out;
    }
    let pkgs = packages_text(catalog, row);
    let ghost known = row_packages(catalog@, row as int).map_values(
        |p: (Ecosystem, Seq<char>)| crate::catalog::spec_eco_name(p.0),
    );
    if pkgs.len() == 0 {
        let mut msg = String::from_str("no known package for ");
        msg.append(name);
        msg.append(" (");
        msg.append(page_hint);
        msg.append(")");
        return msg;
    }
    out.append(" is packaged for ");
    let ghost head = out@;
    let mut k: usize = 0;
    while k < pkgs.len()
        invariant
            1 <= pkgs@.len() == known.len(),
            k <= pkgs@.len(),
            forall|q: int| 0 <= q < pkgs@.len() ==> #[trigger] crate::catalog::spec_eco_name(pkgs@[q].0) == known[q],
            out@ == head + joined(known.take(k as int)),
        decreases pkgs@.len() - k,
    {
        if k > 0 {
            out.append(", ");
        }
        out.append(pkgs[k].0.name());
        proof {
            let t = known.take(k + 1);
            assert(t.drop_last() =~= known.take(k as int));
            if k == 0 {
                assert(known.take(1) =~= seq![known[0]]);
            }
        }
        k += 1;
    }
    assert(known.take(pkgs@.len() as int) =~= known);
    out.append(", none of which is on this machine");
    out
}


/// The listings kept when the detected managers become `detected`: those of
/// managers still detected.
pub open spec fn kept_listings(
    listings: Seq<Option<Seq<Seq<char>>>>,
    detected: Seq<(ManagerId, Seq<char>)>,
) -> Seq<Option<Seq<Seq<char>>>> {
    Seq::new(
        listings.len(),
        |id: int|
            if is_detected(detected, id) {
                listings[id]
            } else {
                None
            },
    )
}

/// A manager that disappears loses its listing for good: detecting it again
/// does not bring the stale listing back.
pub proof fn law_stale_listing_stays_gone(
    listings: Seq<Option<Seq<Seq<char>>>>,
    gone: Seq<(ManagerId, Seq<char>)>,
    back: Seq<(ManagerId, Seq<char>)>,
    id: int,
)
    requires
        0 <= id < listings.len(),
        !is_detected(gone, id),
    ensures
        kept_listings(kept_listings(listings, gone), back)[id] is None,
{
}

/// A manager that reports a row installed could also install it: every bit of
/// the installed mask is a bit of the available mask.
pub proof fn law_installed_is_available(v: InstalledView, m: CatalogModel, row: int, id: u16)
    requires
        masks_right(v, m),
        0 <= row < m.rows(),
        id < 16,
        has_bit(v.installed[row], id),
    ensures
        has_bit(v.available[row], id),
{
    let pkgs = row_packages(m, row);
    let k = choose|k: int|
        0 <= k < pkgs.len() && pkgs[k].0 == spec_manager(id as int).eco && is_listed(
            v.listings,
            id as int,
            spec_installed_name(pkgs[k].0, pkgs[k].1),
        );
    assert(can_install(pkgs, id as int));
}

/// What the ways with manager `id` hold, package by package.
#[verifier::spinoff_prover]
#[verifier::rlimit(30)]
proof fn lemma_ways_of(pkgs: Seq<(Ecosystem, Seq<char>)>, mask: u16, id: int, k: int)
    requires
        0 <= id < MANAGER_COUNT,
        0 <= k <= pkgs.len(),
    ensures
        forall|i: int|
            0 <= i < choices_of(pkgs, mask, id, k).len() ==> {
                let c = #[trigger] choices_of(pkgs, mask, id, k)[i];
                &&& c.0 == id
                &&& has_bit(mask, id as u16)
                &&& exists|j: int| 0 <= j < k && pkgs[j] == (spec_manager(id).eco, c.1)
            },
        forall|j: int|
            0 <= j < k && has_bit(mask, id as u16) && #[trigger] pkgs[j].0 == spec_manager(id).eco ==> choices_of(
                pkgs,
                mask,
                id,
                k,
            ).contains((id as ManagerId, pkgs[j].1)),
    decreases k,
{
    if k > 0 {
        lemma_ways_of(pkgs, mask, id, k - 1);
        let prev = choices_of(pkgs, mask, id, k - 1);
        let cur = choices_of(pkgs, mask, id, k);
        assert forall|i: int| 0 <= i < cur.len() implies {
            let c = #[trigger] cur[i];
            &&& c.0 == id
            &&& has_bit(mask, id as u16)
            &&& exists|j: int| 0 <= j < k && pkgs[j] == (spec_manager(id).eco, c.1)
        } by {
            if i < prev.len() {
                assert(cur[i] == prev[i]);
                let j = choose|j: int| 0 <= j < k - 1 && pkgs[j] == (spec_manager(id).eco, prev[i].1);
                assert(pkgs[j] == (spec_manager(id).eco, cur[i].1));
            } else {
                assert((id as ManagerId) as int == id);
                assert(pkgs[k - 1] == (spec_manager(id).eco, cur[i].1));
            }
        }
        assert forall|j: int|
            0 <= j < k && has_bit(mask, id as u16) && #[trigger] pkgs[j].0 == spec_manager(id).eco implies cur.contains(
            (id as ManagerId, pkgs[j].1),
        ) by {
            if j < k - 1 {
                let w = choose|w: int| 0 <= w < prev.len() && prev[w] == (id as ManagerId, pkgs[j].1);
                assert(cur[w] == prev[w]);
            } else {
                assert(cur[cur.len() - 1] == (id as ManagerId, pkgs[j].1));
            }
        }
    }
}

/// How many times packages `0..k` name package `p` in ecosystem `eco`.
pub open spec fn listed_count(pkgs: Seq<(Ecosystem, Seq<char>)>, eco: Ecosystem, p: Seq<char>, k: int) -> nat
    decreases k,
{
    if k <= 0 {
        0
    } else {
        listed_count(pkgs, eco, p, k - 1) + if pkgs[k - 1] == (eco, p) {
            1nat
        } else {
            0nat
        }
    }
}

/// How often manager `id` offers a package among the first `k`.
proof fn lemma_choices_of_count(
    pkgs: Seq<(Ecosystem, Seq<char>)>,
    mask: u16,
    id: int,
    k: int,
    m: ManagerId,
    p: Seq<char>,
)
    requires
        0 <= id < MANAGER_COUNT,
        0 <= k <= pkgs.len(),
    ensures
        choices_of(pkgs, mask, id, k).to_multiset().count((m, p)) == if m as int == id && has_bit(mask, id as u16) {
            listed_count(pkgs, spec_manager(id).eco, p, k)
        } else {
            0
        },
    decreases k,
{
    broadcast use vstd::multiset::group_multiset_axioms;
    if k == 0 {
        choices_of(pkgs, mask, id, 0).to_multiset_ensures();
        assert(!choices_of(pkgs, mask, id, 0).contains((m, p)));
    } else {
        lemma_choices_of_count(pkgs, mask, id, k - 1, m, p);
        let prev = choices_of(pkgs, mask, id, k - 1);
        if has_bit(mask, id as u16) && pkgs[k - 1].0 == spec_manager(id).eco {
            vstd::seq_lib::to_multiset_build(prev, (id as ManagerId, pkgs[k - 1].1));
        }
    }
}

/// How often the managers `0..n` offer a package.
proof fn lemma_choices_upto_count(pkgs: Seq<(Ecosystem, Seq<char>)>, mask: u16, n: int, m: ManagerId, p: Seq<char>)
    requires
        0 <= n <= MANAGER_COUNT,
    ensures
        choices_upto(pkgs, mask, n).to_multiset().count((m, p)) == if (m as int) < n && has_bit(mask, m as u16) {
            listed_count(pkgs, spec_manager(m as int).eco, p, pkgs.len() as int)
        } else {
            0
        },
    decreases n,
{
    broadcast use vstd::multiset::group_multiset_axioms;
    if n == 0 {
        choices_upto(pkgs, mask, 0).to_multiset_ensures();
        assert(!choices_upto(pkgs, mask, 0).contains((m, p)));
    } else {
        lemma_choices_upto_count(pkgs, mask, n - 1, m, p);
        lemma_choices_of_count(pkgs, mask, n - 1, pkgs.len() as int, m, p);
        vstd::seq_lib::lemma_multiset_commutative(
            choices_upto(pkgs, mask, n - 1),
            choices_of(pkgs, mask, n - 1, pkgs.len() as int),
        );
    }
}

/// The ways to act on a row are, counted with repetition, exactly one per
/// manager allowed by the mask and per listing of a package in that
/// manager's ecosystem: `(m, p)` comes as often as the row names `p` in the
/// ecosystem of `m`, if the mask holds `m`, and not at all otherwise.
pub proof fn law_choices_count_the_allowed_ways(pkgs: Seq<(Ecosystem, Seq<char>)>, mask: u16, m: ManagerId, p: Seq<char>)
    ensures
        choices_upto(pkgs, mask, MANAGER_COUNT as int).to_multiset().count((m, p)) == if (m as int) < MANAGER_COUNT
            && has_bit(mask, m as u16) {
            listed_count(pkgs, spec_manager(m as int).eco, p, pkgs.len() as int)
        } else {
            0
        },
{
    lemma_choices_upto_count(pkgs, mask, MANAGER_COUNT as int, m, p);
}

/// The ways to act on a row come in manager-table order, each is allowed
/// (its manager's bit is set and the row lists a package of its manager's
/// ecosystem under that name), and every allowed way is among them.
pub proof fn law_choices_are_the_allowed_ways(pkgs: Seq<(Ecosystem, Seq<char>)>, mask: u16, n: int)
    requires
        0 <= n <= MANAGER_COUNT,
    ensures
        ({
            let r = choices_upto(pkgs, mask, n);
            &&& forall|i: int, j: int| 0 <= i <= j < r.len() ==> #[trigger] r[i].0 <= #[trigger] r[j].0
            &&& forall|i: int|
                0 <= i < r.len() ==> {
                    let c = #[trigger] r[i];
                    &&& (c.0 as int) < n
                    &&& has_bit(mask, c.0 as u16)
                    &&& exists|j: int| 0 <= j < pkgs.len() && pkgs[j] == (spec_manager(c.0 as int).eco, c.1)
                }
            &&& forall|id: int, j: int|
                0 <= id < n && 0 <= j < pkgs.len() && has_bit(mask, id as u16) && #[trigger] spec_manager(id).eco
                    == #[trigger] pkgs[j].0 ==> r.contains((id as ManagerId, pkgs[j].1))
        }),
    decreases n,
{
    if n > 0 {
        law_choices_are_the_allowed_ways(pkgs, mask, n - 1);
        lemma_ways_of(pkgs, mask, n - 1, pkgs.len() as int);
        let a = choices_upto(pkgs, mask, n - 1);
        let b = choices_of(pkgs, mask, n - 1, pkgs.len() as int);
        let r = a + b;
        assert forall|i: int| 0 <= i < r.len() implies {
            let c = #[trigger] r[i];
            &&& (c.0 as int) < n
            &&& has_bit(mask, c.0 as u16)
            &&& exists|j: int| 0 <= j < pkgs.len() && pkgs[j] == (spec_manager(c.0 as int).eco, c.1)
        } by {
            if i >= a.len() {
                assert(r[i] == b[i - a.len()]);
            } else {
                assert(r[i] == a[i]);
            }
        }
        assert forall|i: int, j: int| 0 <= i <= j < r.len() implies #[trigger] r[i].0 <= #[trigger] r[j].0 by {
            if j < a.len() {
                assert(r[i] == a[i] && r[j] == a[j]);
            } else if i >= a.len() {
                assert(r[i] == b[i - a.len()] && r[j] == b[j - a.len()]);
            } else {
                assert(r[i] == a[i] && r[j] == b[j - a.len()]);
            }
        }
        assert forall|id: int, j: int|
            0 <= id < n && 0 <= j < pkgs.len() && has_bit(mask, id as u16) && #[trigger] spec_manager(id).eco
                == #[trigger] pkgs[j].0 implies r.contains((id as ManagerId, pkgs[j].1)) by {
            if id < n - 1 {
                let w = choose|w: int| 0 <= w < a.len() && a[w] == (id as ManagerId, pkgs[j].1);
                assert(r[w] == a[w]);
            } else {
                assert(b.contains((id as ManagerId, pkgs[j].1)));
                let w = choose|w: int| 0 <= w < b.len() && b[w] == (id as ManagerId, pkgs[j].1);
                assert(r[a.len() + w] == b[w]);
            }
        }
    }
}

} // verus!
