//! The installed-state cache: what the next start needs to draw a truthful
//! first frame without touching `PATH` or any package manager. Each line is
//! either `@manager<TAB>path` (a detected manager) or `manager<TAB>name` (a
//! package that manager reports installed).

use vstd::prelude::*;
use vstd::string::StringExecFns;

use crate::catalog::{Catalog, Row};
use crate::installed::{action_mask, choice_view, choices_upto, masks_right, row_packages, Choice, Installed};
use crate::managers::{by_name, manager, spec_by_name, spec_installed_name, spec_manager, Action, ManagerId, MANAGER_COUNT};
use crate::text::{chars_of, find_char, find_from, line_ranges, range_text, range_texts, ranges_in, string_of, text_lines, views};

verus! {

/// A listing, or an empty one where there is none yet.
pub open spec fn opened(o: Option<Seq<Seq<char>>>) -> Seq<Seq<char>> {
    match o {
        Some(v) => v,
        None => seq![],
    }
}

/// What one cache line adds to the detected managers and the listings.
/// Lines without a tab, or naming no manager, are skipped.
pub open spec fn cache_step(
    state: (Seq<(ManagerId, Seq<char>)>, Seq<Option<Seq<Seq<char>>>>),
    line: Seq<char>,
) -> (Seq<(ManagerId, Seq<char>)>, Seq<Option<Seq<Seq<char>>>>) {
    let k = find_from(line, '\t', 0);
    if k >= line.len() {
        state
    } else {
        let key = line.take(k);
        let value = line.skip(k + 1);
        if key.len() > 0 && key[0] == '@' && spec_by_name(key.skip(1)) is Some {
            let id = spec_by_name(key.skip(1))->0;
            (state.0.push((id, value)), state.1.update(id as int, Some(opened(state.1[id as int]))))
        } else if spec_by_name(key) is Some {
            let id = spec_by_name(key)->0;
            (state.0, state.1.update(id as int, Some(opened(state.1[id as int]).push(value))))
        } else {
            state
        }
    }
}

/// The detected managers and listings the cache lines describe, in order.
pub open spec fn cache_state(lines: Seq<Seq<char>>) -> (Seq<(ManagerId, Seq<char>)>, Seq<Option<Seq<Seq<char>>>>)
    decreases lines.len(),
{
    if lines.len() == 0 {
        (seq![], Seq::new(MANAGER_COUNT as nat, |i: int| None::<Seq<Seq<char>>>))
    } else {
        cache_step(cache_state(lines.drop_last()), lines.last())
    }
}

/// The listings a vector holds.
pub open spec fn listings_of(l: Seq<Option<Vec<String>>>) -> Seq<Option<Seq<Seq<char>>>> {
    l.map_values(
        |o: Option<Vec<String>>|
            match o {
                Some(v) => Some(views(v@)),
                None => None,
            },
    )
}

/// The detected managers as plain values.
pub open spec fn detected_view(d: Seq<(ManagerId, String)>) -> Seq<(ManagerId, Seq<char>)> {
    d.map_values(|x: (ManagerId, String)| (x.0, x.1@))
}

/// Adds what one cache line says.
fn apply_line(line: &Vec<char>, detected: &mut Vec<(ManagerId, String)>, listings: &mut Vec<Option<Vec<String>>>)
    requires
        old(listings)@.len() == MANAGER_COUNT,
    ensures
        final(listings)@.len() == MANAGER_COUNT,
        (detected_view(final(detected)@), listings_of(final(listings)@)) == cache_step(
            (detected_view(old(detected)@), listings_of(old(listings)@)),
            line@,
        ),
        forall|j: int| 0 <= j < final(detected)@.len() && !(0 <= j < old(detected)@.len()) ==> (#[trigger] final(detected)@[j]).0 < MANAGER_COUNT,
        forall|j: int| 0 <= j < old(detected)@.len() ==> #[trigger] final(detected)@[j] == old(detected)@[j],
        final(detected)@.len() >= old(detected)@.len(),
{
    let k = find_char(line, '\t', 0);
    if k >= line.len() {
        return;
    }
    let key = string_of(line, 0, k);
    let value = string_of(line, k + 1, line.len());
    assert(key@ =~= line@.take(k as int));
    assert(value@ =~= line@.skip(k + 1));
    let kc = chars_of(key.as_str());
    let at = kc.len() > 0 && kc[0] == '@';
    let found = if at {
        let rest = string_of(&kc, 1, kc.len());
        assert(rest@ =~= key@.skip(1));
        by_name(rest.as_str())
    } else {
        None
    };
    let ghost dv = detected_view(detected@);
    let ghost lv = listings_of(listings@);
    if let Some(id) = found {
        detected.push((id, value));
        assert(detected_view(detected@) =~= dv.push((id, value@)));
        let ghost old_l = listings@;
        let cur = listings.remove(id as usize);
        let next = match cur {
            Some(v) => Some(v),
            None => Some(Vec::new()),
        };
        proof {
            if cur is None {
                assert(views(next->0@) =~= seq![]);
            }
        }
        let ghost nx = next;
        listings.insert(id as usize, next);
        assert(listings@ =~= old_l.update(id as int, nx));
        assert(listings_of(listings@) =~= lv.update(id as int, Some(opened(lv[id as int]))));
        return;
    }
    match by_name(key.as_str()) {
        Some(id) => {
            let ghost old_l = listings@;
            let cur = listings.remove(id as usize);
            let mut v: Vec<String> = match cur {
                Some(v) => v,
                None => Vec::new(),
            };
            let ghost before = views(v@);
            proof {
                if cur is None {
                    assert(before =~= seq![]);
                }
            }
            v.push(value);
            assert(views(v@) =~= before.push(value@));
            let ghost nv = v;
            listings.insert(id as usize, Some(v));
            assert(listings@ =~= old_l.update(id as int, Some(nv)));
            assert(listings_of(listings@) =~= lv.update(id as int, Some(opened(lv[id as int]).push(value@))));
        },
        None => {},
    }
}

/// The detected managers and listings of a cache text.
pub fn parse_cache(text: &str) -> (r: (Vec<(ManagerId, String)>, Vec<Option<Vec<String>>>))
    ensures
        detected_view(r.0@) == cache_state(text_lines(text@)).0,
        listings_of(r.1@) == cache_state(text_lines(text@)).1,
        r.1@.len() == MANAGER_COUNT,
        forall|i: int| 0 <= i < r.0@.len() ==> (#[trigger] r.0@[i]).0 < MANAGER_COUNT,
{
    let cs = chars_of(text);
    let rs = line_ranges(&cs);
    assert(cs@ == text@);
    let ghost ls = text_lines(cs@);
    let mut detected: Vec<(ManagerId, String)> = Vec::new();
    let mut listings: Vec<Option<Vec<String>>> = Vec::new();
    while listings.len() < MANAGER_COUNT
        invariant
            listings@.len() <= MANAGER_COUNT,
            forall|j: int| 0 <= j < listings@.len() ==> #[trigger] listings@[j] is None,
        decreases MANAGER_COUNT - listings@.len(),
    {
        listings.push(None);
    }
    assert(listings_of(listings@) =~= cache_state(ls.take(0)).1);
    assert(detected_view(detected@) =~= cache_state(ls.take(0)).0);
    let mut i: usize = 0;
    while i < rs.len()
        invariant
            i <= rs@.len(),
            ranges_in(cs@, rs@),
            range_texts(cs@, rs@) == ls,
            rs@.len() == ls.len(),
            listings@.len() == MANAGER_COUNT,
            detected_view(detected@) == cache_state(ls.take(i as int)).0,
            listings_of(listings@) == cache_state(ls.take(i as int)).1,
            forall|j: int| 0 <= j < detected@.len() ==> (#[trigger] detected@[j]).0 < MANAGER_COUNT,
        decreases rs@.len() - i,
    {
        let (lo, hi) = rs[i];
        let line = crate::text::sub_chars(&cs, lo, hi);
        assert(line@ == ls[i as int]) by {
            assert(range_texts(cs@, rs@)[i as int] == range_text(cs@, rs@[i as int]));
        }
        assert(ls.take(i + 1).drop_last() =~= ls.take(i as int));
        apply_line(&line, &mut detected, &mut listings);
        i += 1;
    }
    assert(ls.take(ls.len() as int) =~= ls);
    (detected, listings)
}


impl Installed {
    /// The installed state as of the last run, from the text of the cache.
    /// It is only a starting point: the shell re-detects and re-scans in the
    /// background right after the first frame.
    pub fn from_cache(text: &str, catalog: &Catalog) -> (r: Installed)
        ensures
            r@.detected == cache_state(text_lines(text@)).0,
            r@.listings == cache_state(text_lines(text@)).1,
            masks_right(r@, catalog@),
    {
        let (detected, mut listings) = parse_cache(text);
        let ghost lv = listings_of(listings@);
        let mut this = Installed::new(detected, catalog);
        while listings.len() > 0
            invariant
                listings@.len() <= MANAGER_COUNT,
                lv.len() == MANAGER_COUNT,
                forall|i: int| 0 <= i < listings@.len() ==> #[trigger] listings_of(listings@)[i] == lv[i],
                this@.listings.len() == MANAGER_COUNT,
                forall|i: int|
                    0 <= i < MANAGER_COUNT ==> #[trigger] this@.listings[i] == if i >= listings@.len() {
                        lv[i]
                    } else {
                        None
                    },
                this@.detected == cache_state(text_lines(text@)).0,
                masks_right(this@, catalog@),
            decreases listings@.len(),
        {
            let ghost before = listings@;
            let last = listings.pop().unwrap();
            let id = listings.len();
            assert(listings_of(before)[id as int] == lv[id as int]);
            assert forall|i: int| 0 <= i < listings@.len() implies #[trigger] listings_of(listings@)[i] == lv[i] by {
                assert(listings@[i] == before[i]);
                assert(listings_of(before)[i] == lv[i]);
            }
            match last {
                Some(names) => {
                    let ghost prev = this@.listings;
                    this.set_listing(id as ManagerId, names, catalog);
                    assert forall|i: int| 0 <= i < MANAGER_COUNT implies #[trigger] this@.listings[i] == if i >= listings@.len() {
                        lv[i]
                    } else {
                        None
                    } by {
                        if i != id {
                            assert(this@.listings[i] == prev[i]);
                        }
                    }
                },
                None => {},
            }
        }
        assert(this@.listings =~= lv);
        this
    }
}


/// The cache lines of the detected managers: `@manager<TAB>path`.
pub open spec fn detected_lines(d: Seq<(ManagerId, Seq<char>)>) -> Seq<char>
    decreases d.len(),
{
    if d.len() == 0 {
        seq![]
    } else {
        detected_lines(d.drop_last()) + "@"@ + spec_manager(d.last().0 as int).name@ + "\t"@ + d.last().1 + "\n"@
    }
}

/// The cache lines of the ways a row is installed: `manager<TAB>name`, the
/// name the manager's listing uses.
pub open spec fn choice_lines(cs: Seq<(ManagerId, Seq<char>)>) -> Seq<char>
    decreases cs.len(),
{
    if cs.len() == 0 {
        seq![]
    } else {
        let m = spec_manager(cs.last().0 as int);
        choice_lines(cs.drop_last()) + m.name@ + "\t"@ + spec_installed_name(m.eco, cs.last().1) + "\n"@
    }
}

/// The cache lines of the installed rows among `0..n`.
pub open spec fn installed_lines(v: crate::installed::InstalledView, m: crate::catalog::CatalogModel, n: int) -> Seq<char>
    decreases n,
{
    if n <= 0 {
        seq![]
    } else {
        installed_lines(v, m, n - 1) + if v.installed[n - 1] != 0 {
            choice_lines(
                choices_upto(
                    row_packages(m, n - 1),
                    action_mask(v.available[n - 1], v.installed[n - 1], Action::Uninstall),
                    MANAGER_COUNT as int,
                ),
            )
        } else {
            seq![]
        }
    }
}

impl Installed {
    /// The text of the cache: the detected managers, then the installed
    /// packages the catalog knows.
    pub fn save_cache(&self, catalog: &Catalog) -> (r: String)
        requires
            masks_right(self@, catalog@),
            forall|i: int| 0 <= i < self@.detected.len() ==> (#[trigger] self@.detected[i]).0 < MANAGER_COUNT,
        ensures
            r@ == detected_lines(self@.detected) + installed_lines(self@, catalog@, catalog@.rows() as int),
    {
        let mut text = String::new();
        let detected = self.detected();
        let ghost dv = self@.detected;
        let mut i: usize = 0;
        while i < detected.len()
            invariant
                i <= detected@.len(),
                detected@.map_values(|d: (ManagerId, String)| (d.0, d.1@)) == dv,
                forall|j: int| 0 <= j < dv.len() ==> (#[trigger] dv[j]).0 < MANAGER_COUNT,
                text@ == detected_lines(dv.take(i as int)),
            decreases detected@.len() - i,
        {
            assert(dv.take(i + 1).drop_last() =~= dv.take(i as int));
            assert(dv[i as int] == (detected@[i as int].0, detected@[i as int].1@));
            let (id, bin) = &detected[i];
            text.append("@");
            text.append(manager(*id).name);
            text.append("\t");
            text.append(bin.as_str());
            text.append("\n");
            i += 1;
        }
        assert(dv.take(dv.len() as int) =~= dv);
        let ghost head = text@;
        catalog.check_wf();
        let n = catalog.len();
        let mut row: usize = 0;
        while row < n
            invariant
                row <= n == catalog@.rows(),
                n <= u32::MAX,
                masks_right(self@, catalog@),
                text@ == head + installed_lines(self@, catalog@, row as int),
            decreases n - row,
        {
            if self.is_installed(row as Row) {
                let choices = self.choices(catalog, row as Row, Action::Uninstall);
                let ghost cs = choices_upto(
                    row_packages(catalog@, row as int),
                    action_mask(self@.available[row as int], self@.installed[row as int], Action::Uninstall),
                    MANAGER_COUNT as int,
                );
                proof {
                    crate::pickers::lemma_choice_managers(
                        row_packages(catalog@, row as int),
                        action_mask(self@.available[row as int], self@.installed[row as int], Action::Uninstall),
                        MANAGER_COUNT as int,
                    );
                }
                let ghost before = text@;
                let mut k: usize = 0;
                while k < choices.len()
                    invariant
                        k <= choices@.len(),
                        choices@.map_values(|c: Choice| choice_view(c)) == cs,
                        forall|j: int| 0 <= j < cs.len() ==> (#[trigger] cs[j].0 as int) < MANAGER_COUNT,
                        text@ == before + choice_lines(cs.take(k as int)),
                    decreases choices@.len() - k,
                {
                    assert(choices@.map_values(|c: Choice| choice_view(c))[k as int] == choice_view(choices@[k as int]));
                    assert((cs[k as int].0 as int) < MANAGER_COUNT);
                    assert(cs.take(k + 1).drop_last() =~= cs.take(k as int));
                    let c = &choices[k];
                    let m = manager(c.manager);
                    text.append(m.name);
                    text.append("\t");
                    text.append(m.installed_name(c.package.as_str()));
                    text.append("\n");
                    k += 1;
                }
                assert(cs.take(cs.len() as int) =~= cs);
            }
            assert(installed_lines(self@, catalog@, row + 1) == installed_lines(self@, catalog@, row as int) + if self@.installed[row as int] != 0 {
                choice_lines(
                    choices_upto(
                        row_packages(catalog@, row as int),
                        action_mask(self@.available[row as int], self@.installed[row as int], Action::Uninstall),
                        MANAGER_COUNT as int,
                    ),
                )
            } else {
                seq![]
            });
            row += 1;
        }
        text
    }
}

} // verus!
